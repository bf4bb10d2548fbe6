//! Bit sequences and their text form.
//!
//! Frames reach the codecs as text made of '0' and '1' characters.  This
//! module gives the spec-level model of such text (sequences of 0/1 bytes),
//! the conversions between the two forms, and the error type shared by the
//! codecs.

use vstd::prelude::*;
use vstd::string::StrSliceExecFns;
use vstd::string::StringExecFns;

verus! {

/// The ways a codec call can fail.  Every variant carries the numeric facts a
/// caller needs to branch on.
#[derive(Debug, Clone, Copy, PartialEq, Eq, Structural)]
pub enum CodecError {
    /// The input text held a character other than '0' or '1'.
    InvalidCharacter,
    /// A Hamming block length below the smallest meaningful code (n = 3).
    BlockSizeTooSmall { n: usize },
    /// The input length is not a multiple of the expected block or group size.
    LengthMismatch { len: usize, expected: usize },
    /// A block's syndrome fell outside `0..=n`: more errors than the code can
    /// localize.  `block` is the 1-based index of the failing block.
    UncorrectableBlock { block: usize, syndrome: usize, n: usize },
    /// A CRC frame shorter than the 33 bits needed for 1 data bit + 32 check bits.
    ShortFrame { len: usize },
}

pub open spec fn is_bit_char(c: char) -> bool {
    c == '0' || c == '1'
}

pub open spec fn all_bit_chars(s: Seq<char>) -> bool {
    forall|i: int| 0 <= i < s.len() ==> is_bit_char(#[trigger] s[i])
}

/// A sequence of bytes each of which is 0 or 1: the internal form of a bitstring.
pub open spec fn is_bit_seq(s: Seq<u8>) -> bool {
    forall|i: int| 0 <= i < s.len() ==> (#[trigger] s[i]) == 0 || s[i] == 1
}

pub open spec fn bit_of_char(c: char) -> u8 {
    if c == '1' {
        1u8
    } else {
        0u8
    }
}

pub open spec fn char_of_bit(b: u8) -> char {
    if b == 1 {
        '1'
    } else {
        '0'
    }
}

pub open spec fn bits_of(s: Seq<char>) -> Seq<u8> {
    Seq::new(s.len(), |i: int| bit_of_char(s[i]))
}

pub open spec fn chars_of(s: Seq<u8>) -> Seq<char> {
    Seq::new(s.len(), |i: int| char_of_bit(s[i]))
}

/// Exclusive-or of two bits.
pub open spec fn bxor(a: u8, b: u8) -> u8 {
    if a == b {
        0u8
    } else {
        1u8
    }
}

pub open spec fn flip_bit(b: u8) -> u8 {
    if b == 1 {
        0u8
    } else {
        1u8
    }
}

/// `s` with the bit at (0-based) index `i` inverted.
pub open spec fn flip_at(s: Seq<u8>, i: int) -> Seq<u8> {
    s.update(i, flip_bit(s[i]))
}

pub open spec fn zero_seq(n: nat) -> Seq<u8> {
    Seq::new(n, |i: int| 0u8)
}

/// All zero except a single 1 at index `k`.
pub open spec fn unit_seq(n: nat, k: int) -> Seq<u8> {
    Seq::new(n, |i: int| if i == k { 1u8 } else { 0u8 })
}

/// Pointwise exclusive-or; the length is taken from `a`.
pub open spec fn xor_seq(a: Seq<u8>, b: Seq<u8>) -> Seq<u8> {
    Seq::new(a.len(), |i: int| bxor(a[i], b[i]))
}

pub open spec fn all_zero(s: Seq<u8>) -> bool {
    forall|i: int| 0 <= i < s.len() ==> (#[trigger] s[i]) == 0
}

pub proof fn lemma_flip_at_twice(s: Seq<u8>, i: int)
    requires
        0 <= i < s.len(),
        is_bit_seq(s),
    ensures
        flip_at(flip_at(s, i), i) == s,
{
    assert(flip_at(flip_at(s, i), i) =~= s);
}

/// Reads a frame of '0'/'1' text into its bit sequence, rejecting any other
/// character.
pub fn parse_bits(s: &str) -> (res: Result<Vec<u8>, CodecError>)
    ensures
        match res {
            Ok(v) => all_bit_chars(s@) && v@ == bits_of(s@),
            Err(e) => e == CodecError::InvalidCharacter && !all_bit_chars(s@),
        },
{
    let len = s.unicode_len();
    let mut v: Vec<u8> = Vec::new();
    let mut i: usize = 0;
    while i < len
        invariant
            i <= len,
            len == s@.len(),
            forall|j: int| 0 <= j < i ==> is_bit_char(#[trigger] s@[j]),
            v@ == bits_of(s@.take(i as int)),
        decreases len - i,
    {
        let c = s.get_char(i);
        if c == '0' {
            v.push(0u8);
        } else if c == '1' {
            v.push(1u8);
        } else {
            assert(!is_bit_char(s@[i as int]));
            return Err(CodecError::InvalidCharacter);
        }
        i = i + 1;
        proof {
            assert(v@ =~= bits_of(s@.take(i as int)));
        }
    }
    proof {
        assert(s@.take(len as int) =~= s@);
    }
    Ok(v)
}

/// Writes a bit sequence back as '0'/'1' text.
pub fn bits_to_string(bits: &Vec<u8>) -> (res: String)
    requires
        is_bit_seq(bits@),
    ensures
        res@ == chars_of(bits@),
{
    let mut s = String::new();
    let mut i: usize = 0;
    while i < bits.len()
        invariant
            i <= bits@.len(),
            is_bit_seq(bits@),
            s@ == chars_of(bits@.take(i as int)),
        decreases bits@.len() - i,
    {
        proof {
            reveal_strlit("0");
            reveal_strlit("1");
        }
        if bits[i] == 1 {
            s.append("1");
        } else {
            s.append("0");
        }
        i = i + 1;
        proof {
            assert(s@ =~= chars_of(bits@.take(i as int)));
        }
    }
    proof {
        assert(bits@.take(bits@.len() as int) =~= bits@);
    }
    s
}

/// Appends every bit of `src` to `dst`.
pub fn extend_bits(dst: &mut Vec<u8>, src: &Vec<u8>)
    ensures
        final(dst)@ == old(dst)@ + src@,
{
    let mut k: usize = 0;
    while k < src.len()
        invariant
            k <= src@.len(),
            dst@ == old(dst)@ + src@.take(k as int),
        decreases src@.len() - k,
    {
        dst.push(src[k]);
        k = k + 1;
        proof {
            assert(dst@ =~= old(dst)@ + src@.take(k as int));
        }
    }
    proof {
        assert(old(dst)@ + src@.take(src@.len() as int) =~= old(dst)@ + src@);
    }
}

} // verus!
