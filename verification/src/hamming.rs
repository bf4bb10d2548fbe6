//! Hamming single-error-correcting block code.
//!
//! A codeword block of length `n` carries check bits at the 1-based positions
//! that are powers of two and data bits everywhere else.  Check `i` covers
//! every position whose binary representation has bit `i` set, so the
//! syndrome — the parities of all `r` checks read as a binary number — is 0
//! for an undamaged block and names the 1-based position of the damaged bit
//! when exactly one bit has been inverted.

use vstd::prelude::*;
use vstd::arithmetic::power2::{
    pow2, lemma_pow2_unfold, lemma_pow2_strictly_increases, lemma_pow2_pos, lemma_pow2_subtracts,
    lemma2_to64, lemma2_to64_rest,
};
use vstd::arithmetic::div_mod::{
    lemma_breakdown, lemma_small_mod, lemma_fundamental_div_mod, lemma_basic_div,
    lemma_div_by_self, lemma_mod_multiples_basic, lemma_div_by_multiple, lemma_multiply_divide_lt,
    lemma_mod_sub_multiples_vanish,
};
use vstd::arithmetic::mul::{lemma_mul_inequality, lemma_mul_is_distributive_add_other_way};
use crate::bits::{
    CodecError, all_bit_chars, bits_of, bxor, chars_of, flip_at, flip_bit, is_bit_seq,
};

verus! {

/// The decoded payload of a stream together with the corrections that were
/// applied: one `(0-based block index, 1-based position in the block)` pair
/// per corrected block, in block order.
#[derive(Debug)]
pub struct HammingStreamResult {
    pub data_bits: String,
    pub corrected_positions: Vec<(usize, usize)>,
}

/// Number of check bits of a block of length `n`: the smallest `r` with
/// `pow2(r) >= n + 1`.
pub open spec fn parity_count(n: nat) -> nat
    decreases n,
{
    if n == 0 {
        0
    } else {
        1 + parity_count(n / 2)
    }
}

/// Number of data bits of a block of length `n`.
pub open spec fn data_len(n: nat) -> nat {
    (n - parity_count(n)) as nat
}

/// Bit `i` of the binary representation of `x`.
pub open spec fn bit_set(x: nat, i: nat) -> bool {
    x / pow2(i) % 2 == 1
}

/// Whether `x` is a power of two, i.e. a 1-based check-bit position.
pub open spec fn is_p2(x: nat) -> bool
    decreases x,
{
    if x == 0 {
        false
    } else if x == 1 {
        true
    } else {
        x % 2 == 0 && is_p2(x / 2)
    }
}

pub open spec fn log2(x: nat) -> nat
    decreases x,
{
    if x <= 1 {
        0
    } else {
        1 + log2(x / 2)
    }
}

/// Parity of check `i` over the first `upto` positions of `block`: the
/// exclusive-or of the bits at the 1-based positions `1..=upto` whose index
/// has bit `i` set.
pub open spec fn parity_fold(block: Seq<u8>, i: nat, upto: nat) -> u8
    decreases upto,
{
    if upto == 0 {
        0u8
    } else {
        let rest = parity_fold(block, i, (upto - 1) as nat);
        if bit_set(upto, i) {
            bxor(rest, block[upto - 1])
        } else {
            rest
        }
    }
}

/// Parity of check `i` over the whole block.
pub open spec fn block_parity(block: Seq<u8>, i: nat) -> u8 {
    parity_fold(block, i, block.len())
}

/// The check parities up to check `i`, read as a binary number.
pub open spec fn syndrome_fold(block: Seq<u8>, i: nat) -> nat
    decreases i,
{
    if i == 0 {
        0
    } else {
        syndrome_fold(block, (i - 1) as nat) + if block_parity(block, (i - 1) as nat) == 1 {
            pow2((i - 1) as nat)
        } else {
            0nat
        }
    }
}

/// The syndrome of a block: 0 when every check passes, otherwise the number
/// formed by the failing checks.
pub open spec fn syndrome_of(block: Seq<u8>) -> nat {
    syndrome_fold(block, parity_count(block.len()))
}

/// Number of data (non power-of-two) positions among `1..=upto`.
pub open spec fn data_count(upto: nat) -> nat
    decreases upto,
{
    if upto == 0 {
        0
    } else {
        data_count((upto - 1) as nat) + if is_p2(upto) {
            0nat
        } else {
            1nat
        }
    }
}

/// The data bits of the first `upto` positions, in ascending position order.
pub open spec fn extract_fold(block: Seq<u8>, upto: nat) -> Seq<u8>
    decreases upto,
{
    if upto == 0 {
        Seq::empty()
    } else {
        let rest = extract_fold(block, (upto - 1) as nat);
        if is_p2(upto) {
            rest
        } else {
            rest.push(block[upto - 1])
        }
    }
}

/// The data bits of a block, parity positions skipped.
pub open spec fn extract_data(block: Seq<u8>) -> Seq<u8> {
    extract_fold(block, block.len())
}

/// The data bits laid into the non power-of-two positions, check positions
/// still zero.
pub open spec fn placed_block(data: Seq<u8>, n: nat) -> Seq<u8> {
    Seq::new(
        n,
        |j: int|
            if is_p2((j + 1) as nat) {
                0u8
            } else {
                data[data_count(j as nat) as int]
            },
    )
}

/// `b` with the parities of its first `i` checks written into their
/// power-of-two positions.
pub open spec fn with_parities(b: Seq<u8>, i: nat) -> Seq<u8>
    decreases i,
{
    if i == 0 {
        b
    } else {
        with_parities(b, (i - 1) as nat).update(
            pow2((i - 1) as nat) - 1,
            block_parity(b, (i - 1) as nat),
        )
    }
}

/// The codeword block for `data_len(n)` data bits: data laid out, then every
/// check parity written in.
pub open spec fn encoded_block(data: Seq<u8>, n: nat) -> Seq<u8> {
    with_parities(placed_block(data, n), parity_count(n))
}

/// A block is decodable when its syndrome is zero or names a position inside
/// the block.
pub open spec fn block_decodable(b: Seq<u8>) -> bool {
    syndrome_of(b) == 0 || syndrome_of(b) <= b.len()
}

/// The block after the correction its syndrome calls for.
pub open spec fn corrected_block(b: Seq<u8>) -> Seq<u8> {
    if syndrome_of(b) == 0 {
        b
    } else {
        flip_at(b, syndrome_of(b) - 1)
    }
}

/// The data recovered from a block, after any correction.
pub open spec fn block_data(b: Seq<u8>) -> Seq<u8> {
    extract_data(corrected_block(b))
}

/// The 1-based position corrected in a block, if any.
pub open spec fn block_correction(b: Seq<u8>) -> Option<usize> {
    if syndrome_of(b) == 0 {
        None
    } else {
        Some(syndrome_of(b) as usize)
    }
}

// ---------------------------------------------------------------------------
// Arithmetic groundwork: parity_count, pow2, bit_set, is_p2.
// ---------------------------------------------------------------------------

/// `parity_count(n)` is the smallest `r` with `pow2(r) > n`, and is at most `n`.
pub proof fn lemma_parity_count_bounds(n: nat)
    ensures
        n < pow2(parity_count(n)),
        n > 0 ==> pow2((parity_count(n) - 1) as nat) <= n,
        parity_count(n) <= n,
    decreases n,
{
    lemma2_to64();
    if n > 0 {
        lemma_parity_count_bounds(n / 2);
        lemma_fundamental_div_mod(n as int, 2);
        let r1 = parity_count(n / 2);
        lemma_pow2_unfold(r1 + 1);
        if n / 2 > 0 {
            lemma_pow2_unfold(r1);
        }
    }
}

/// The characterization above pins `parity_count(n)` down uniquely.
pub proof fn lemma_parity_count_unique(n: nat, r: nat)
    requires
        n < pow2(r),
        r > 0 ==> pow2((r - 1) as nat) <= n,
    ensures
        r == parity_count(n),
{
    lemma_parity_count_bounds(n);
    let pc = parity_count(n);
    if r < pc {
        if r < pc - 1 {
            lemma_pow2_strictly_increases(r, (pc - 1) as nat);
        }
        assert(pow2(r) <= pow2((pc - 1) as nat));
        assert(n > 0) by {
            lemma_pow2_pos(r);
        }
        assert(false);
    }
    if r > pc {
        if pc < r - 1 {
            lemma_pow2_strictly_increases(pc, (r - 1) as nat);
        }
        assert(pow2(pc) <= pow2((r - 1) as nat));
        assert(false);
    }
}

/// `pow2` outgrows the linear functions used in the block-size bounds.
pub proof fn lemma_pow2_at_least(k: nat)
    ensures
        pow2(k) >= k + 1,
        k >= 2 ==> pow2(k) >= k + 2,
    decreases k,
{
    lemma2_to64();
    if k > 0 {
        lemma_pow2_at_least((k - 1) as nat);
        lemma_pow2_unfold(k);
    }
}

/// A block of length at least 3 has at least one data bit.
pub proof fn lemma_parity_count_lt(n: nat)
    requires
        n >= 3,
    ensures
        parity_count(n) < n,
        data_len(n) >= 1,
{
    lemma_parity_count_bounds(n);
    let r = parity_count(n);
    if r >= 3 {
        lemma_pow2_at_least((r - 1) as nat);
    }
}

/// Powers of two are exactly the values `is_p2` accepts.
pub proof fn lemma_pow2_is_p2(i: nat)
    ensures
        is_p2(pow2(i)),
    decreases i,
{
    lemma2_to64();
    if i > 0 {
        lemma_pow2_is_p2((i - 1) as nat);
        lemma_pow2_unfold(i);
        lemma_pow2_pos((i - 1) as nat);
    }
}

pub proof fn lemma_is_p2_pow2(x: nat)
    requires
        is_p2(x),
    ensures
        x == pow2(log2(x)),
    decreases x,
{
    lemma2_to64();
    if x >= 2 {
        lemma_is_p2_pow2(x / 2);
        lemma_fundamental_div_mod(x as int, 2);
        lemma_pow2_unfold(log2(x));
    }
}

/// Walking the block length up by one raises `parity_count` exactly at the
/// powers of two.
pub proof fn lemma_parity_count_step(u: nat)
    requires
        u >= 1,
    ensures
        parity_count(u) == parity_count((u - 1) as nat) + if is_p2(u) {
            1int
        } else {
            0int
        },
{
    lemma2_to64();
    let r1 = parity_count((u - 1) as nat);
    lemma_parity_count_bounds((u - 1) as nat);
    if is_p2(u) {
        let k = log2(u);
        lemma_is_p2_pow2(u);
        assert(u == pow2(k));
        // u - 1 < pow2(r1) gives u <= pow2(r1), so k <= r1.
        if r1 < k {
            lemma_pow2_strictly_increases(r1, k);
            assert(false);
        }
        // pow2(r1 - 1) <= u - 1 < u gives r1 - 1 < k, so r1 <= k.
        if u - 1 > 0 {
            if k < r1 {
                if k < r1 - 1 {
                    lemma_pow2_strictly_increases(k, (r1 - 1) as nat);
                }
                assert(pow2(k) <= pow2((r1 - 1) as nat));
                assert(false);
            }
        } else {
            assert(u == 1);
            assert(k == 0);
            assert(r1 == 0);
        }
        assert(k == r1);
        lemma_pow2_unfold(r1 + 1);
        lemma_parity_count_unique(u, r1 + 1);
    } else {
        if u == pow2(r1) {
            lemma_pow2_is_p2(r1);
            assert(false);
        }
        assert(u < pow2(r1));
        if r1 == 0 {
            assert(u < 1);
            assert(false);
        }
        assert(pow2((r1 - 1) as nat) <= u - 1) by {
            if u - 1 == 0 {
                assert(u == 1);
                assert(is_p2(1nat));
                assert(false);
            }
        }
        lemma_parity_count_unique(u, r1);
    }
}

/// In `1..=u` there are exactly `u - parity_count(u)` data positions.
pub proof fn lemma_data_count(u: nat)
    ensures
        parity_count(u) <= u,
        data_count(u) == u - parity_count(u),
    decreases u,
{
    if u > 0 {
        lemma_data_count((u - 1) as nat);
        lemma_parity_count_step(u);
    }
}

pub proof fn lemma_data_count_mono(a: nat, b: nat)
    requires
        a <= b,
    ensures
        data_count(a) <= data_count(b),
    decreases b,
{
    if a < b {
        lemma_data_count_mono(a, (b - 1) as nat);
    }
}

/// Bit `i` of `pow2(k)` is set exactly when `i == k`.
pub proof fn lemma_bit_set_pow2(k: nat, i: nat)
    ensures
        bit_set(pow2(k), i) <==> i == k,
{
    lemma_pow2_pos(k);
    lemma_pow2_pos(i);
    if i == k {
        lemma_div_by_self(pow2(k) as int);
        assert(pow2(k) / pow2(i) == 1);
    } else if i < k {
        lemma_pow2_subtracts(i, k);
        assert(pow2(k) / pow2(i) == pow2((k - i) as nat));
        lemma_pow2_unfold((k - i) as nat);
        lemma_mod_multiples_basic(pow2((k - i - 1) as nat) as int, 2);
        assert(pow2((k - i) as nat) % 2 == 0);
    } else {
        lemma_pow2_strictly_increases(k, i);
        lemma_basic_div(pow2(k) as int, pow2(i) as int);
        assert(pow2(k) / pow2(i) == 0);
    }
}

// ---------------------------------------------------------------------------
// Parities and syndromes.
// ---------------------------------------------------------------------------

pub proof fn lemma_parity_fold_bit(b: Seq<u8>, i: nat, upto: nat)
    ensures
        parity_fold(b, i, upto) == 0 || parity_fold(b, i, upto) == 1,
    decreases upto,
{
    if upto > 0 {
        lemma_parity_fold_bit(b, i, (upto - 1) as nat);
    }
}

/// How one changed position moves a check's parity: not at all when the
/// position is outside the check, by the exclusive-or of old and new bit when
/// it is inside.
pub proof fn lemma_parity_fold_update(b: Seq<u8>, i: nat, upto: nat, k: int, v: u8)
    requires
        is_bit_seq(b),
        0 <= k < b.len(),
        upto <= b.len(),
        v == 0 || v == 1,
    ensures
        parity_fold(b.update(k, v), i, upto) == if k < upto && bit_set((k + 1) as nat, i) {
            bxor(parity_fold(b, i, upto), bxor(b[k], v))
        } else {
            parity_fold(b, i, upto)
        },
    decreases upto,
{
    if upto > 0 {
        lemma_parity_fold_update(b, i, (upto - 1) as nat, k, v);
        lemma_parity_fold_bit(b, i, (upto - 1) as nat);
    }
}

pub proof fn lemma_syndrome_fold_bound(b: Seq<u8>, i: nat)
    ensures
        syndrome_fold(b, i) < pow2(i),
    decreases i,
{
    lemma2_to64();
    if i > 0 {
        lemma_syndrome_fold_bound(b, (i - 1) as nat);
        lemma_pow2_unfold(i);
    }
}

pub proof fn lemma_syndrome_fold_zero(b: Seq<u8>, i: nat)
    ensures
        (syndrome_fold(b, i) == 0) <==> (forall|j: nat|
            j < i ==> #[trigger] block_parity(b, j) != 1),
    decreases i,
{
    lemma2_to64();
    if i > 0 {
        lemma_syndrome_fold_zero(b, (i - 1) as nat);
        lemma_pow2_pos((i - 1) as nat);
    }
}

/// When the check parities spell out the binary digits of `q`, the syndrome
/// is `q` reduced modulo `pow2(i)`.
pub proof fn lemma_syndrome_fold_of_bits(b: Seq<u8>, q: nat, i: nat)
    requires
        forall|j: nat| j < i ==> #[trigger] block_parity(b, j) == (if bit_set(q, j) {
            1u8
        } else {
            0u8
        }),
    ensures
        syndrome_fold(b, i) == q % pow2(i),
    decreases i,
{
    lemma2_to64();
    if i == 0 {
        assert(q % pow2(0) == 0);
    } else {
        let im1 = (i - 1) as nat;
        let d = pow2(im1);
        lemma_syndrome_fold_of_bits(b, q, im1);
        lemma_pow2_pos(im1);
        lemma_pow2_unfold(i);
        lemma_breakdown(q as int, d as int, 2);
        assert(d * 2 == pow2(i));
        assert(q % pow2(i) == d * ((q / d) % 2) + q % d);
        assert(block_parity(b, im1) == (if bit_set(q, im1) {
            1u8
        } else {
            0u8
        }));
        if bit_set(q, im1) {
            assert((q / d) % 2 == 1);
            assert(d * ((q / d) % 2) == d) by {
                vstd::arithmetic::mul::lemma_mul_basics(d as int);
            };
        } else {
            assert((q / d) % 2 == 0);
            assert(d * ((q / d) % 2) == 0) by {
                vstd::arithmetic::mul::lemma_mul_basics(d as int);
            };
        }
        assert(syndrome_fold(b, i) == syndrome_fold(b, im1) + if block_parity(b, im1) == 1 {
            d
        } else {
            0nat
        });
    }
}

/// Inverting the bit at 1-based position `q` toggles exactly the checks that
/// cover `q`.
pub proof fn lemma_flip_parity(b: Seq<u8>, q: nat, i: nat)
    requires
        is_bit_seq(b),
        1 <= q <= b.len(),
    ensures
        block_parity(flip_at(b, q - 1), i) == if bit_set(q, i) {
            bxor(block_parity(b, i), 1u8)
        } else {
            block_parity(b, i)
        },
{
    let k = (q - 1) as int;
    let v = flip_bit(b[k]);
    lemma_parity_fold_update(b, i, b.len(), k, v);
    lemma_parity_fold_bit(b, i, b.len());
}

/// A single inverted bit in a block whose syndrome was zero is named exactly
/// by the new syndrome.
pub proof fn lemma_syndrome_of_flip(b: Seq<u8>, q: nat)
    requires
        is_bit_seq(b),
        1 <= q <= b.len(),
        syndrome_of(b) == 0,
    ensures
        syndrome_of(flip_at(b, (q - 1) as int)) == q,
{
    let n = b.len();
    let r = parity_count(n);
    let t = flip_at(b, (q - 1) as int);
    lemma_syndrome_fold_zero(b, r);
    assert forall|j: nat| j < r implies #[trigger] block_parity(t, j) == (if bit_set(q, j) {
        1u8
    } else {
        0u8
    }) by {
        lemma_flip_parity(b, q, j);
        lemma_parity_fold_bit(b, j, n);
    };
    assert(t.len() == n);
    lemma_syndrome_fold_of_bits(t, q, r);
    lemma_parity_count_bounds(n);
    lemma_small_mod(q, pow2(r));
}

// ---------------------------------------------------------------------------
// Extraction and encoding.
// ---------------------------------------------------------------------------

pub proof fn lemma_pow2_inj(a: nat, b: nat)
    requires
        pow2(a) == pow2(b),
    ensures
        a == b,
{
    if a < b {
        lemma_pow2_strictly_increases(a, b);
    }
    if b < a {
        lemma_pow2_strictly_increases(b, a);
    }
}

pub proof fn lemma_extract_fold_props(b: Seq<u8>, upto: nat)
    requires
        upto <= b.len(),
    ensures
        extract_fold(b, upto).len() == data_count(upto),
        is_bit_seq(b) ==> is_bit_seq(extract_fold(b, upto)),
    decreases upto,
{
    if upto > 0 {
        lemma_extract_fold_props(b, (upto - 1) as nat);
    }
}

/// A block whose data positions spell out `data` extracts to exactly `data`.
pub proof fn lemma_extract_of_data_positions(blk: Seq<u8>, data: Seq<u8>, u: nat)
    requires
        u <= blk.len(),
        data_count(blk.len()) <= data.len(),
        forall|j: int|
            0 <= j < blk.len() && !is_p2((j + 1) as nat) ==> blk[j] == data[data_count(
                j as nat,
            ) as int],
    ensures
        extract_fold(blk, u) == data.take(data_count(u) as int),
    decreases u,
{
    if u == 0 {
        assert(data.take(0) =~= Seq::<u8>::empty());
    } else {
        lemma_extract_of_data_positions(blk, data, (u - 1) as nat);
        if !is_p2(u) {
            lemma_data_count_mono(u, blk.len());
            assert(extract_fold(blk, u) =~= data.take(data_count(u) as int));
        }
    }
}

pub proof fn lemma_placed_block(data: Seq<u8>, n: nat)
    requires
        is_bit_seq(data),
        data.len() == data_len(n),
    ensures
        placed_block(data, n).len() == n,
        is_bit_seq(placed_block(data, n)),
    decreases n,
{
    lemma_data_count(n);
    assert forall|j: int| 0 <= j < n implies (#[trigger] placed_block(data, n)[j]) == 0
        || placed_block(data, n)[j] == 1 by {
        if !is_p2((j + 1) as nat) {
            lemma_data_count_mono((j + 1) as nat, n);
            assert(data_count(j as nat) < data_count((j + 1) as nat));
            assert(data_count(j as nat) < data.len());
        }
    };
}

/// Writing the check parities changes no data position, leaves later check
/// positions alone, and keeps the block made of bits.
pub proof fn lemma_with_parities(b: Seq<u8>, i: nat)
    requires
        is_bit_seq(b),
        forall|k: nat| #![trigger pow2(k)] k < i ==> pow2(k) <= b.len(),
    ensures
        with_parities(b, i).len() == b.len(),
        is_bit_seq(with_parities(b, i)),
        forall|j: int|
            0 <= j < b.len() && !is_p2((j + 1) as nat) ==> (#[trigger] with_parities(b, i)[j])
                == b[j],
        forall|k: nat|
            #![trigger pow2(k)]
            k < i ==> with_parities(b, i)[pow2(k) - 1] == block_parity(b, k),
        forall|k: nat|
            #![trigger pow2(k)]
            i <= k && pow2(k) <= b.len() ==> with_parities(b, i)[pow2(k) - 1] == b[pow2(k) - 1],
    decreases i,
{
    if i > 0 {
        lemma_with_parities(b, (i - 1) as nat);
        let prev = with_parities(b, (i - 1) as nat);
        let im1 = (i - 1) as nat;
        let idx = pow2(im1) - 1;
        lemma_pow2_pos(im1);
        lemma_parity_fold_bit(b, im1, b.len());
        lemma_pow2_is_p2(im1);
        assert forall|j: int|
            0 <= j < b.len() && !is_p2((j + 1) as nat) implies (#[trigger] with_parities(b, i)[j])
            == b[j] by {
            assert(j != idx);
        };
        assert forall|k: nat| #![trigger pow2(k)] k < i implies with_parities(b, i)[pow2(k) - 1]
            == block_parity(b, k) by {
            lemma_pow2_pos(k);
            if k == im1 {
                assert(with_parities(b, i)[pow2(k) - 1] == block_parity(b, im1));
            } else {
                lemma_pow2_inj_contrapositive(k, im1);
                assert(with_parities(b, i)[pow2(k) - 1] == prev[pow2(k) - 1]);
            }
        };
        assert forall|k: nat| #![trigger pow2(k)] i <= k && pow2(k) <= b.len() implies with_parities(
            b,
            i,
        )[pow2(k) - 1] == b[pow2(k) - 1] by {
            lemma_pow2_pos(k);
            lemma_pow2_inj_contrapositive(k, im1);
            assert(with_parities(b, i)[pow2(k) - 1] == prev[pow2(k) - 1]);
        };
    }
}

pub proof fn lemma_pow2_inj_contrapositive(a: nat, b: nat)
    requires
        a != b,
    ensures
        pow2(a) != pow2(b),
{
    if a < b {
        lemma_pow2_strictly_increases(a, b);
    } else {
        lemma_pow2_strictly_increases(b, a);
    }
}

/// After the parities of a block with cleared check positions are written
/// in, the first `i` checks all pass and the later ones are untouched.
pub proof fn lemma_with_parities_checks(b: Seq<u8>, i: nat)
    requires
        is_bit_seq(b),
        forall|k: nat| #![trigger pow2(k)] k < i ==> pow2(k) <= b.len() && b[pow2(k) - 1] == 0,
    ensures
        forall|k: nat|
            #![trigger block_parity(with_parities(b, i), k)]
            k < i ==> block_parity(with_parities(b, i), k) == 0,
        forall|k: nat|
            #![trigger block_parity(with_parities(b, i), k)]
            k >= i ==> block_parity(with_parities(b, i), k) == block_parity(b, k),
    decreases i,
{
    if i > 0 {
        let im1 = (i - 1) as nat;
        lemma_with_parities_checks(b, im1);
        lemma_with_parities(b, im1);
        let prev = with_parities(b, im1);
        let idx = pow2(im1) - 1;
        let p = block_parity(b, im1);
        lemma_pow2_pos(im1);
        lemma_parity_fold_bit(b, im1, b.len());
        let wpi = with_parities(b, i);
        assert(wpi == prev.update(idx, p));
        assert forall|k: nat| #![trigger block_parity(with_parities(b, i), k)]
            true implies (k < i ==> block_parity(with_parities(b, i), k) == 0) && (k >= i
            ==> block_parity(with_parities(b, i), k) == block_parity(b, k)) by {
            lemma_parity_fold_update(prev, k, prev.len(), idx, p);
            assert((idx + 1) as nat == pow2(im1));
            lemma_bit_set_pow2(im1, k);
            assert(block_parity(prev, k) == parity_fold(prev, k, prev.len()));
            assert(block_parity(wpi, k) == parity_fold(prev.update(idx, p), k, prev.len()));
            if k == im1 {
                assert(bit_set(pow2(im1), k));
                assert(prev[idx] == b[idx]);
                assert(b[idx] == 0);
                assert(block_parity(prev, k) == block_parity(b, k));
                assert(block_parity(wpi, k) == bxor(block_parity(b, k), bxor(0u8, p)));
                assert(bxor(p, bxor(0u8, p)) == 0);
            } else {
                assert(!bit_set(pow2(im1), k));
                assert(block_parity(wpi, k) == block_parity(prev, k));
            }
        };
    }
}

/// The codeword block built from `data`: it extracts back to `data` and all
/// of its checks pass.
pub proof fn lemma_encoded_block(data: Seq<u8>, n: nat)
    requires
        is_bit_seq(data),
        n >= 3,
        data.len() == data_len(n),
    ensures
        encoded_block(data, n).len() == n,
        is_bit_seq(encoded_block(data, n)),
        extract_data(encoded_block(data, n)) == data,
        syndrome_of(encoded_block(data, n)) == 0,
        block_data(encoded_block(data, n)) == data,
        block_correction(encoded_block(data, n)) is None,
        block_decodable(encoded_block(data, n)),
{
    let r = parity_count(n);
    let placed = placed_block(data, n);
    let e = encoded_block(data, n);
    lemma_parity_count_bounds(n);
    lemma_data_count(n);
    lemma_placed_block(data, n);
    assert forall|k: nat| #![trigger pow2(k)] k < r implies pow2(k) <= n && placed[pow2(k) - 1]
        == 0 by {
        if k < r - 1 {
            lemma_pow2_strictly_increases(k, (r - 1) as nat);
        }
        lemma_pow2_pos(k);
        lemma_pow2_is_p2(k);
    };
    lemma_with_parities(placed, r);
    lemma_with_parities_checks(placed, r);
    assert(e.len() == n);
    lemma_syndrome_fold_zero(e, r);
    assert forall|j: nat| j < r implies #[trigger] block_parity(e, j) != 1 by {
        assert(block_parity(with_parities(placed, r), j) == 0);
    };
    assert(syndrome_of(e) == 0);
    assert forall|j: int|
        0 <= j < e.len() && !is_p2((j + 1) as nat) implies e[j] == data[data_count(
        j as nat,
    ) as int] by {
        assert(with_parities(placed, r)[j] == placed[j]);
    };
    lemma_extract_of_data_positions(e, data, n);
    assert(data.take(data_count(n) as int) =~= data);
}

/// Inverting one bit of a block whose checks all pass is fully undone by
/// decoding: the syndrome names the bit, the correction restores the block.
pub proof fn lemma_block_flip(b: Seq<u8>, j: int)
    requires
        is_bit_seq(b),
        0 <= j < b.len(),
        syndrome_of(b) == 0,
    ensures
        ({
            let t = flip_at(b, j);
            &&& syndrome_of(t) == j + 1
            &&& block_decodable(t)
            &&& corrected_block(t) == b
            &&& block_data(t) == extract_data(b)
            &&& block_correction(t) == Some((j + 1) as usize)
        }),
{
    let q = (j + 1) as nat;
    lemma_syndrome_of_flip(b, q);
    crate::bits::lemma_flip_at_twice(b, j);
}

// ---------------------------------------------------------------------------
// Executable block coding.
// ---------------------------------------------------------------------------

/// The syndrome value and every intermediate sum stay below `pow2(r)`, which
/// fits the machine word whenever the block itself does.
proof fn lemma_syndrome_space(n: nat)
    requires
        1 <= n <= usize::MAX,
    ensures
        pow2(parity_count(n)) <= usize::MAX + 1,
{
    let r = parity_count(n);
    lemma_parity_count_bounds(n);
    lemma2_to64();
    lemma2_to64_rest();
    assert(usize::MAX == u32::MAX || usize::MAX == u64::MAX);
    if usize::MAX == u32::MAX {
        if r > 32 {
            lemma_pow2_strictly_increases(32, (r - 1) as nat);
            assert(false);
        }
        if r < 32 {
            lemma_pow2_strictly_increases(r, 32);
        }
    } else {
        if r > 64 {
            lemma_pow2_strictly_increases(64, (r - 1) as nat);
            assert(false);
        }
        if r < 64 {
            lemma_pow2_strictly_increases(r, 64);
        }
    }
}

pub fn is_power_of_two(x: usize) -> (b: bool)
    ensures
        b == is_p2(x as nat),
{
    if x == 0 {
        return false;
    }
    let mut v = x;
    while v % 2 == 0
        invariant
            v >= 1,
            is_p2(x as nat) == is_p2(v as nat),
        decreases v,
    {
        v = v / 2;
    }
    v == 1
}

/// Number of check bits for a block of length `n`: the smallest `r` with
/// `pow2(r) >= n + 1`.
pub fn parity_bits_count(n: usize) -> (r: usize)
    ensures
        r as nat == parity_count(n as nat),
    decreases n,
{
    if n == 0 {
        0
    } else {
        let rr = parity_bits_count(n / 2);
        proof {
            lemma_parity_count_bounds((n / 2) as nat);
        }
        rr + 1
    }
}

/// Parity of check `i` (with `p == pow2(i)`) over the whole block.
fn check_parity(block: &Vec<u8>, p: usize, Ghost(i): Ghost<nat>) -> (parity: u8)
    requires
        is_bit_seq(block@),
        p as nat == pow2(i),
    ensures
        parity == block_parity(block@, i),
        parity == 0 || parity == 1,
{
    proof {
        lemma_pow2_pos(i);
    }
    let n = block.len();
    let mut parity: u8 = 0;
    let mut j: usize = 0;
    while j < n
        invariant
            j <= n,
            n == block@.len(),
            is_bit_seq(block@),
            p as nat == pow2(i),
            p >= 1,
            parity == parity_fold(block@, i, j as nat),
            parity == 0 || parity == 1,
        decreases n - j,
    {
        proof {
            lemma_parity_fold_bit(block@, i, (j + 1) as nat);
            assert(bit_set((j + 1) as nat, i) == ((((j + 1) as usize) / p) % 2 == 1));
        }
        if ((j + 1) / p) % 2 == 1 {
            if block[j] == 1 {
                parity = if parity == 1 {
                    0
                } else {
                    1
                };
            }
        }
        j = j + 1;
    }
    parity
}

/// Decodes one block: computes the syndrome, applies the single correction it
/// calls for, and extracts the data bits.  A syndrome beyond the block length
/// is handed back as the error value.
pub fn decode_block(block: &Vec<u8>) -> (res: Result<(Vec<u8>, Option<usize>), usize>)
    requires
        is_bit_seq(block@),
        block@.len() >= 3,
    ensures
        match res {
            Ok((data, corr)) => block_decodable(block@) && data@ == block_data(block@) && corr
                == block_correction(block@) && is_bit_seq(data@),
            Err(syn) => syn as nat == syndrome_of(block@) && syndrome_of(block@) > block@.len(),
        },
{
    let n = block.len();
    let r = parity_bits_count(n);
    proof {
        lemma_parity_count_bounds(n as nat);
        lemma_syndrome_space(n as nat);
        lemma2_to64();
    }

    let mut syndrome: usize = 0;
    let mut i: usize = 0;
    let mut p: usize = 1;
    while i < r
        invariant
            i <= r,
            r as nat == parity_count(n as nat),
            n == block@.len(),
            n >= 3,
            is_bit_seq(block@),
            i < r ==> p as nat == pow2(i as nat),
            syndrome as nat == syndrome_fold(block@, i as nat),
            pow2(r as nat) <= usize::MAX + 1,
            n < pow2(r as nat),
            n > 0 ==> pow2((r - 1) as nat) <= n,
        decreases r - i,
    {
        let parity = check_parity(block, p, Ghost(i as nat));
        if parity == 1 {
            proof {
                lemma_syndrome_fold_bound(block@, i as nat);
                lemma_pow2_unfold((i + 1) as nat);
                if i + 1 < r {
                    lemma_pow2_strictly_increases((i + 1) as nat, r as nat);
                }
            }
            syndrome = syndrome + p;
        }
        i = i + 1;
        if i < r {
            proof {
                lemma_pow2_unfold(i as nat);
                if i < r - 1 {
                    lemma_pow2_strictly_increases(i as nat, (r - 1) as nat);
                }
            }
            p = p * 2;
        }
    }
    assert(syndrome as nat == syndrome_of(block@));

    if syndrome > n {
        return Err(syndrome);
    }

    // Apply the correction the syndrome calls for, if any.
    let mut corrected: Vec<u8> = Vec::new();
    let mut j: usize = 0;
    while j < n
        invariant
            j <= n,
            n == block@.len(),
            corrected@ == block@.take(j as int),
        decreases n - j,
    {
        corrected.push(block[j]);
        j = j + 1;
    }
    proof {
        assert(block@.take(n as int) =~= block@);
    }
    let corr: Option<usize>;
    if syndrome == 0 {
        corr = None;
    } else {
        let old_bit = corrected[syndrome - 1];
        let new_bit: u8 = if old_bit == 1 {
            0
        } else {
            1
        };
        corrected.set(syndrome - 1, new_bit);
        corr = Some(syndrome);
        proof {
            assert(corrected@ =~= flip_at(block@, syndrome - 1));
        }
    }
    assert(corrected@ == corrected_block(block@));
    assert(is_bit_seq(corrected@));

    // Extract the data bits, parity positions skipped.
    let mut data: Vec<u8> = Vec::new();
    let mut k: usize = 0;
    while k < n
        invariant
            k <= n,
            n == corrected@.len(),
            is_bit_seq(corrected@),
            data@ == extract_fold(corrected@, k as nat),
            is_bit_seq(data@),
        decreases n - k,
    {
        if !is_power_of_two(k + 1) {
            data.push(corrected[k]);
        }
        k = k + 1;
    }
    Ok((data, corr))
}

/// Builds the codeword block for one group of `data_len(n)` data bits: data
/// laid into the non power-of-two positions, check parities written into the
/// power-of-two positions.
pub fn encode_block(data: &Vec<u8>, n: usize) -> (res: Vec<u8>)
    requires
        is_bit_seq(data@),
        n >= 3,
        data@.len() == data_len(n as nat),
    ensures
        res@ == encoded_block(data@, n as nat),
{
    let ghost placed = placed_block(data@, n as nat);
    proof {
        lemma2_to64();
        lemma_parity_count_lt(n as nat);
        lemma_parity_count_bounds(n as nat);
        lemma_data_count(n as nat);
        lemma_placed_block(data@, n as nat);
    }
    let r = parity_bits_count(n);

    let mut block: Vec<u8> = Vec::new();
    let mut j: usize = 0;
    while j < n
        invariant
            j <= n,
            block@.len() == j,
            forall|t: int| 0 <= t < j ==> block@[t] == 0,
        decreases n - j,
    {
        block.push(0u8);
        j = j + 1;
    }

    // Lay the data bits into the non power-of-two positions, in order.
    let mut di: usize = 0;
    let mut t: usize = 0;
    while t < n
        invariant
            t <= n,
            block@.len() == n,
            placed == placed_block(data@, n as nat),
            placed.len() == n,
            is_bit_seq(data@),
            data@.len() == data_len(n as nat),
            data@.len() == data_count(n as nat),
            di as nat == data_count(t as nat),
            forall|q: int| 0 <= q < t ==> block@[q] == placed[q],
            forall|q: int| t <= q < n ==> block@[q] == 0,
        decreases n - t,
    {
        proof {
            lemma_data_count((t + 1) as nat);
            lemma_data_count_mono((t + 1) as nat, n as nat);
        }
        if !is_power_of_two(t + 1) {
            proof {
                assert(!is_p2((t + 1) as nat));
                assert(placed[t as int] == data@[data_count(t as nat) as int]);
            }
            block.set(t, data[di]);
            di = di + 1;
        } else {
            proof {
                assert(is_p2((t + 1) as nat));
                assert(placed[t as int] == 0);
            }
        }
        proof {
            assert(data_count((t + 1) as nat) == data_count(t as nat) + (if is_p2(
                (t + 1) as nat,
            ) {
                0nat
            } else {
                1nat
            }));
            assert(block@[t as int] == placed[t as int]);
        }
        t = t + 1;
    }
    proof {
        assert(block@ =~= placed);
        assert forall|k: nat| #![trigger pow2(k)] k < r implies pow2(k) <= n && placed[pow2(k) - 1]
            == 0 by {
            if k < r - 1 {
                lemma_pow2_strictly_increases(k, (r - 1) as nat);
            }
            lemma_pow2_pos(k);
            lemma_pow2_is_p2(k);
        };
    }

    // Write each check parity into its power-of-two position.  The checks
    // already written never cover another check position, so each parity can
    // be read off the block under construction.
    let mut i: usize = 0;
    let mut p: usize = 1;
    while i < r
        invariant
            i <= r,
            r as nat == parity_count(n as nat),
            n >= 3,
            placed == placed_block(data@, n as nat),
            is_bit_seq(data@),
            data@.len() == data_len(n as nat),
            block@ == with_parities(placed, i as nat),
            block@.len() == n,
            placed.len() == n,
            is_bit_seq(placed),
            forall|k: nat| #![trigger pow2(k)] k < r ==> pow2(k) <= n && placed[pow2(k) - 1] == 0,
            i < r ==> p as nat == pow2(i as nat),
            n > 0 ==> pow2((r - 1) as nat) <= n,
        decreases r - i,
    {
        proof {
            lemma_with_parities(placed, i as nat);
            lemma_with_parities_checks(placed, i as nat);
            lemma_pow2_pos(i as nat);
            if i < r - 1 {
                lemma_pow2_strictly_increases(i as nat, (r - 1) as nat);
            }
        }
        let parity = check_parity(&block, p, Ghost(i as nat));
        assert(parity == block_parity(placed, i as nat));
        block.set(p - 1, parity);
        i = i + 1;
        if i < r {
            proof {
                lemma_pow2_unfold(i as nat);
                if i < r - 1 {
                    lemma_pow2_strictly_increases(i as nat, (r - 1) as nat);
                }
            }
            p = p * 2;
        }
    }
    block
}

// ---------------------------------------------------------------------------
// Streams of blocks.
// ---------------------------------------------------------------------------

/// Block `b` (0-based) of a stream of `n`-bit blocks.
pub open spec fn block_at(bits: Seq<u8>, n: nat, b: int) -> Seq<u8> {
    bits.subrange(b * n, b * n + n)
}

/// The decoded data of the first `count` blocks, concatenated in block order.
pub open spec fn stream_data(bits: Seq<u8>, n: nat, count: int) -> Seq<u8>
    decreases count,
{
    if count <= 0 {
        Seq::empty()
    } else {
        stream_data(bits, n, count - 1) + block_data(block_at(bits, n, count - 1))
    }
}

/// The corrections applied over the first `count` blocks: `(block index,
/// 1-based position)`, one entry per block whose syndrome was nonzero.
pub open spec fn stream_corrections(bits: Seq<u8>, n: nat, count: int) -> Seq<(usize, usize)>
    decreases count,
{
    if count <= 0 {
        Seq::empty()
    } else {
        stream_corrections(bits, n, count - 1) + (match block_correction(
            block_at(bits, n, count - 1),
        ) {
            Some(p) => seq![(((count - 1) as usize), p)],
            None => Seq::empty(),
        })
    }
}

pub open spec fn blocks_decodable(bits: Seq<u8>, n: nat, count: int) -> bool {
    forall|b: int| 0 <= b < count ==> block_decodable(#[trigger] block_at(bits, n, b))
}

/// The codeword stream for `data`, chunked into groups of `data_len(n)` bits.
pub open spec fn stream_encode(data: Seq<u8>, n: nat) -> Seq<u8>
    decreases data.len(),
{
    let m = data_len(n);
    if m == 0 || data.len() < m {
        Seq::empty()
    } else {
        encoded_block(data.take(m as int), n) + stream_encode(data.skip(m as int), n)
    }
}

/// Decodes a concatenation of `n`-bit Hamming blocks.  The input must be
/// '0'/'1' text whose length is a multiple of `n >= 3`; each block is decoded
/// independently, correcting at most one bit per block.  The first block whose
/// syndrome lies outside `0..=n` aborts the decode with an error naming that
/// block (1-based), its syndrome and `n`.
pub fn decode_stream(bits_str: &str, n: usize) -> (res: Result<HammingStreamResult, CodecError>)
    ensures
        ({
            let s = bits_str@;
            let bits = bits_of(s);
            let nb = s.len() as int / n as int;
            match res {
                Ok(out) => {
                    &&& all_bit_chars(s)
                    &&& n >= 3
                    &&& s.len() as int % n as int == 0
                    &&& blocks_decodable(bits, n as nat, nb)
                    &&& out.data_bits@ == chars_of(stream_data(bits, n as nat, nb))
                    &&& out.corrected_positions@ == stream_corrections(bits, n as nat, nb)
                },
                Err(e) => match e {
                    CodecError::InvalidCharacter => !all_bit_chars(s),
                    CodecError::BlockSizeTooSmall { n: nn } => {
                        &&& all_bit_chars(s)
                        &&& nn == n
                        &&& n < 3
                    },
                    CodecError::LengthMismatch { len, expected } => {
                        &&& all_bit_chars(s)
                        &&& n >= 3
                        &&& len == s.len()
                        &&& expected == n
                        &&& s.len() as int % n as int != 0
                    },
                    CodecError::UncorrectableBlock { block, syndrome, n: nn } => {
                        &&& all_bit_chars(s)
                        &&& n >= 3
                        &&& nn == n
                        &&& s.len() as int % n as int == 0
                        &&& 1 <= block <= nb
                        &&& blocks_decodable(bits, n as nat, block - 1)
                        &&& !block_decodable(block_at(bits, n as nat, block - 1))
                        &&& syndrome as nat == syndrome_of(block_at(bits, n as nat, block - 1))
                    },
                    CodecError::ShortFrame { .. } => false,
                },
            }
        }),
{
    let bits = match crate::bits::parse_bits(bits_str) {
        Ok(v) => v,
        Err(e) => {
            return Err(e);
        },
    };
    if n < 3 {
        return Err(CodecError::BlockSizeTooSmall { n });
    }
    let len = bits.len();
    if len % n != 0 {
        return Err(CodecError::LengthMismatch { len, expected: n });
    }
    let num_blocks = len / n;
    proof {
        lemma_fundamental_div_mod(len as int, n as int);
    }

    let mut all_data: Vec<u8> = Vec::new();
    let mut corrected_positions: Vec<(usize, usize)> = Vec::new();
    let mut b: usize = 0;
    while b < num_blocks
        invariant
            b <= num_blocks,
            n >= 3,
            len == bits@.len(),
            len % n == 0,
            num_blocks == len as int / n as int,
            num_blocks * n == len,
            is_bit_seq(bits@),
            bits@ == bits_of(bits_str@),
            all_bit_chars(bits_str@),
            blocks_decodable(bits@, n as nat, b as int),
            all_data@ == stream_data(bits@, n as nat, b as int),
            is_bit_seq(all_data@),
            corrected_positions@ == stream_corrections(bits@, n as nat, b as int),
        decreases num_blocks - b,
    {
        proof {
            lemma_mul_inequality(b as int + 1, num_blocks as int, n as int);
            lemma_mul_is_distributive_add_other_way(n as int, b as int, 1);
        }
        let start = b * n;
        assert(start + n <= len);
        let mut blockv: Vec<u8> = Vec::new();
        let mut j: usize = 0;
        while j < n
            invariant
                j <= n,
                start == b * n,
                start + n <= len,
                len == bits@.len(),
                blockv@ == bits@.subrange(start as int, start as int + j as int),
            decreases n - j,
        {
            blockv.push(bits[start + j]);
            j = j + 1;
            proof {
                assert(blockv@ =~= bits@.subrange(start as int, start as int + j as int));
            }
        }
        proof {
            assert(blockv@ == block_at(bits@, n as nat, b as int));
        }
        match decode_block(&blockv) {
            Ok((data, corr)) => {
                crate::bits::extend_bits(&mut all_data, &data);
                proof {
                    assert(stream_data(bits@, n as nat, b as int + 1) == stream_data(
                        bits@,
                        n as nat,
                        b as int,
                    ) + block_data(block_at(bits@, n as nat, b as int)));
                }
                if let Some(pos) = corr {
                    corrected_positions.push((b, pos));
                    proof {
                        assert(corrected_positions@ =~= stream_corrections(
                            bits@,
                            n as nat,
                            b as int,
                        ) + seq![(b, pos)]);
                        assert(corrected_positions@ == stream_corrections(
                            bits@,
                            n as nat,
                            b as int + 1,
                        ));
                    }
                } else {
                    proof {
                        assert(corrected_positions@ =~= stream_corrections(
                            bits@,
                            n as nat,
                            b as int + 1,
                        ));
                    }
                }
            },
            Err(syn) => {
                return Err(CodecError::UncorrectableBlock { block: b + 1, syndrome: syn, n });
            },
        }
        b = b + 1;
    }
    let data_bits = crate::bits::bits_to_string(&all_data);
    Ok(HammingStreamResult { data_bits, corrected_positions })
}

/// Encodes '0'/'1' data text into a stream of `n`-bit Hamming blocks, one per
/// group of `data_len(n)` data bits.  The data length must be a multiple of
/// that group size.
pub fn encode_stream(data_bits: &str, n: usize) -> (res: Result<String, CodecError>)
    ensures
        ({
            let s = data_bits@;
            let m = data_len(n as nat);
            match res {
                Ok(cw) => {
                    &&& all_bit_chars(s)
                    &&& n >= 3
                    &&& s.len() as int % m as int == 0
                    &&& cw@ == chars_of(stream_encode(bits_of(s), n as nat))
                },
                Err(e) => match e {
                    CodecError::InvalidCharacter => !all_bit_chars(s),
                    CodecError::BlockSizeTooSmall { n: nn } => {
                        &&& all_bit_chars(s)
                        &&& nn == n
                        &&& n < 3
                    },
                    CodecError::LengthMismatch { len, expected } => {
                        &&& all_bit_chars(s)
                        &&& n >= 3
                        &&& len == s.len()
                        &&& expected == m
                        &&& s.len() as int % m as int != 0
                    },
                    _ => false,
                },
            }
        }),
{
    let bits = match crate::bits::parse_bits(data_bits) {
        Ok(v) => v,
        Err(e) => {
            return Err(e);
        },
    };
    if n < 3 {
        return Err(CodecError::BlockSizeTooSmall { n });
    }
    let r = parity_bits_count(n);
    proof {
        lemma_parity_count_lt(n as nat);
    }
    let m = n - r;
    assert(m as nat == data_len(n as nat));
    let len = bits.len();
    if len % m != 0 {
        return Err(CodecError::LengthMismatch { len, expected: m });
    }
    let num_chunks = len / m;
    proof {
        lemma_fundamental_div_mod(len as int, m as int);
        vstd::arithmetic::mul::lemma_mul_is_commutative(num_chunks as int, m as int);
        assert(bits@.skip(0) =~= bits@);
        assert(Seq::<u8>::empty() + stream_encode(bits@, n as nat) =~= stream_encode(
            bits@,
            n as nat,
        ));
    }

    let mut out: Vec<u8> = Vec::new();
    let mut c: usize = 0;
    while c < num_chunks
        invariant
            c <= num_chunks,
            n >= 3,
            1 <= m,
            m as nat == data_len(n as nat),
            len == bits@.len(),
            num_chunks == len as int / m as int,
            num_chunks * m == len,
            is_bit_seq(bits@),
            bits@ == bits_of(data_bits@),
            all_bit_chars(data_bits@),
            is_bit_seq(out@),
            out@ + stream_encode(bits@.skip(c as int * m as int), n as nat) == stream_encode(
                bits@,
                n as nat,
            ),
        decreases num_chunks - c,
    {
        proof {
            lemma_mul_inequality(c as int + 1, num_chunks as int, m as int);
            lemma_mul_is_distributive_add_other_way(m as int, c as int, 1);
        }
        let start = c * m;
        assert(start + m <= len);
        let mut chunk: Vec<u8> = Vec::new();
        let mut j: usize = 0;
        while j < m
            invariant
                j <= m,
                start + m <= len,
                len == bits@.len(),
                is_bit_seq(bits@),
                chunk@ == bits@.subrange(start as int, start as int + j as int),
            decreases m - j,
        {
            chunk.push(bits[start + j]);
            j = j + 1;
            proof {
                assert(chunk@ =~= bits@.subrange(start as int, start as int + j as int));
            }
        }
        let blk = encode_block(&chunk, n);
        proof {
            lemma_encoded_block(chunk@, n as nat);
        }
        crate::bits::extend_bits(&mut out, &blk);
        proof {
            let rest = bits@.skip(c as int * m as int);
            assert(rest.take(m as int) =~= chunk@);
            assert(rest.skip(m as int) =~= bits@.skip((c as int + 1) * (m as int)));
            assert(stream_encode(rest, n as nat) == encoded_block(rest.take(m as int), n as nat)
                + stream_encode(rest.skip(m as int), n as nat));
            assert(out@ + stream_encode(bits@.skip((c as int + 1) * (m as int)), n as nat)
                =~= stream_encode(bits@, n as nat));
        }
        c = c + 1;
    }
    proof {
        assert(bits@.skip(num_chunks as int * m as int) =~= Seq::<u8>::empty());
        assert(stream_encode(Seq::<u8>::empty(), n as nat) == Seq::<u8>::empty());
        assert(out@ + Seq::<u8>::empty() =~= out@);
        assert(out@ == stream_encode(bits@, n as nat));
    }
    let s = crate::bits::bits_to_string(&out);
    Ok(s)
}

// ---------------------------------------------------------------------------
// The laws of the stream codec.
// ---------------------------------------------------------------------------

/// An encoded stream is exactly the concatenation of the encoded blocks of
/// the data groups, in order.
pub proof fn lemma_stream_encode_blocks(data: Seq<u8>, n: nat)
    requires
        is_bit_seq(data),
        n >= 3,
        data.len() as int % (data_len(n) as int) == 0,
    ensures
        ({
            let m = data_len(n) as int;
            let nc = data.len() as int / m;
            let cw = stream_encode(data, n);
            &&& cw.len() == nc * (n as int)
            &&& is_bit_seq(cw)
            &&& forall|b: int|
                0 <= b < nc ==> #[trigger] block_at(cw, n, b) == encoded_block(
                    data.subrange(b * m, b * m + m),
                    n,
                )
        }),
    decreases data.len(),
{
    lemma_parity_count_lt(n);
    let m = data_len(n) as int;
    let nc = data.len() as int / m;
    let cw = stream_encode(data, n);
    lemma_fundamental_div_mod(data.len() as int, m);
    if data.len() == 0 {
        assert(nc == 0);
        assert(cw == Seq::<u8>::empty());
    } else {
        if nc <= 0 {
            assert(data.len() as int == m * nc);
            vstd::arithmetic::mul::lemma_mul_is_commutative(m, nc);
            lemma_mul_inequality(nc, 0, m);
            vstd::arithmetic::mul::lemma_mul_basics(m);
            assert(nc * m <= 0 * m);
            assert(data.len() as int <= 0);
            assert(false);
        }
        assert(nc >= 1);
        lemma_mul_inequality(1, nc, m);
        vstd::arithmetic::mul::lemma_mul_is_commutative(m, nc);
        assert(data.len() as int == nc * m);
        assert(data.len() >= m);
        let first = data.take(m);
        let rest = data.skip(m);
        assert(is_bit_seq(first));
        assert(first.len() == m);
        lemma_encoded_block(first, n);
        let e = encoded_block(first, n);
        assert(rest.len() as int % m == 0) by {
            lemma_mod_sub_multiples_vanish(data.len() as int, m);
        };
        lemma_stream_encode_blocks(rest, n);
        let ncr = rest.len() as int / m;
        let cwr = stream_encode(rest, n);
        assert(rest.len() as int == (nc - 1) * m) by {
            lemma_mul_is_distributive_add_other_way(m, nc - 1, 1);
        };
        assert(ncr == nc - 1) by {
            lemma_div_by_multiple(nc - 1, m);
        };
        assert(cw == e + cwr);
        assert(cwr.len() == (nc - 1) * (n as int));
        assert(cw.len() == nc * (n as int)) by {
            lemma_mul_is_distributive_add_other_way(n as int, nc - 1, 1);
            vstd::arithmetic::mul::lemma_mul_basics(n as int);
        };
        assert forall|i: int| 0 <= i < cw.len() implies (#[trigger] cw[i]) == 0 || cw[i] == 1 by {
            if i < n {
                assert(cw[i] == e[i]);
            } else {
                assert(cw[i] == cwr[i - n]);
            }
        };
        assert forall|b: int| 0 <= b < nc implies #[trigger] block_at(cw, n, b) == encoded_block(
            data.subrange(b * m, b * m + m),
            n,
        ) by {
            vstd::arithmetic::mul::lemma_mul_basics(n as int);
            vstd::arithmetic::mul::lemma_mul_basics(m);
            if b == 0 {
                assert(block_at(cw, n, 0) =~= e);
                assert(data.subrange(0, m) =~= first);
                assert(block_at(cw, n, b) == e);
                assert(data.subrange(b * m, b * m + m) == first);
            } else {
                lemma_mul_is_distributive_add_other_way(n as int, b - 1, 1);
                lemma_mul_is_distributive_add_other_way(m, b - 1, 1);
                lemma_mul_inequality(b + 1, nc, n as int);
                lemma_mul_is_distributive_add_other_way(n as int, b, 1);
                lemma_mul_inequality(1, b, n as int);
                lemma_mul_inequality(b + 1, nc, m);
                lemma_mul_is_distributive_add_other_way(m, b, 1);
                lemma_mul_inequality(1, b, m);
                assert(block_at(cw, n, b) =~= block_at(cwr, n, b - 1));
                assert(data.subrange(b * m, b * m + m) =~= rest.subrange(
                    (b - 1) * m,
                    (b - 1) * m + m,
                ));
                assert(block_at(cwr, n, b - 1) == encoded_block(
                    rest.subrange((b - 1) * m, (b - 1) * m + m),
                    n,
                ));
                assert(block_at(cw, n, b) == block_at(cwr, n, b - 1));
                assert(data.subrange(b * m, b * m + m) == rest.subrange(
                    (b - 1) * m,
                    (b - 1) * m + m,
                ));
            }
        };
    }
}

/// Decoding a run of blocks that all carry their group's data and need no
/// correction yields the data prefix and an empty correction list.
proof fn lemma_stream_collect(bits: Seq<u8>, data: Seq<u8>, n: nat, c: int)
    requires
        1 <= data_len(n),
        0 <= c,
        c * (data_len(n) as int) <= data.len(),
        forall|b: int|
            0 <= b < c ==> #[trigger] block_data(block_at(bits, n, b)) == data.subrange(
                b * (data_len(n) as int),
                b * (data_len(n) as int) + data_len(n) as int,
            ),
        forall|b: int| 0 <= b < c ==> #[trigger] block_correction(block_at(bits, n, b)) is None,
    ensures
        stream_data(bits, n, c) == data.take(c * (data_len(n) as int)),
        stream_corrections(bits, n, c) == Seq::<(usize, usize)>::empty(),
    decreases c,
{
    let m = data_len(n) as int;
    vstd::arithmetic::mul::lemma_mul_basics(m);
    if c > 0 {
        lemma_mul_inequality(c - 1, c, m);
        lemma_mul_is_distributive_add_other_way(m, c - 1, 1);
        lemma_stream_collect(bits, data, n, c - 1);
        assert(stream_data(bits, n, c) =~= data.take(c * m));
        assert(stream_corrections(bits, n, c) =~= Seq::<(usize, usize)>::empty());
    } else {
        assert(c * m == 0);
        assert(data.take(0) =~= Seq::<u8>::empty());
    }
}

/// As above, except that exactly one block, `bf`, was corrected at 1-based
/// position `q`: the correction list carries that single entry.
proof fn lemma_stream_collect_one(bits: Seq<u8>, data: Seq<u8>, n: nat, c: int, bf: int, q: usize)
    requires
        1 <= data_len(n),
        0 <= c,
        0 <= bf,
        c * (data_len(n) as int) <= data.len(),
        forall|b: int|
            0 <= b < c ==> #[trigger] block_data(block_at(bits, n, b)) == data.subrange(
                b * (data_len(n) as int),
                b * (data_len(n) as int) + data_len(n) as int,
            ),
        forall|b: int|
            0 <= b < c && b != bf ==> #[trigger] block_correction(block_at(bits, n, b)) is None,
        block_correction(block_at(bits, n, bf)) == Some(q),
    ensures
        stream_data(bits, n, c) == data.take(c * (data_len(n) as int)),
        stream_corrections(bits, n, c) == if c > bf {
            seq![((bf as usize), q)]
        } else {
            Seq::<(usize, usize)>::empty()
        },
    decreases c,
{
    let m = data_len(n) as int;
    vstd::arithmetic::mul::lemma_mul_basics(m);
    if c > 0 {
        lemma_mul_inequality(c - 1, c, m);
        lemma_mul_is_distributive_add_other_way(m, c - 1, 1);
        lemma_stream_collect_one(bits, data, n, c - 1, bf, q);
        assert(stream_data(bits, n, c) =~= data.take(c * m));
        if c - 1 == bf {
            assert(stream_corrections(bits, n, c) =~= seq![((bf as usize), q)]);
        } else if c > bf {
            assert(stream_corrections(bits, n, c) =~= seq![((bf as usize), q)]);
        } else {
            assert(stream_corrections(bits, n, c) =~= Seq::<(usize, usize)>::empty());
        }
    } else {
        assert(data.take(0) =~= Seq::<u8>::empty());
    }
}

/// As above with two corrected blocks `bf1 < bf2`.
proof fn lemma_stream_collect_two(
    bits: Seq<u8>,
    data: Seq<u8>,
    n: nat,
    c: int,
    bf1: int,
    q1: usize,
    bf2: int,
    q2: usize,
)
    requires
        1 <= data_len(n),
        0 <= c,
        0 <= bf1 < bf2,
        c * (data_len(n) as int) <= data.len(),
        forall|b: int|
            0 <= b < c ==> #[trigger] block_data(block_at(bits, n, b)) == data.subrange(
                b * (data_len(n) as int),
                b * (data_len(n) as int) + data_len(n) as int,
            ),
        forall|b: int|
            0 <= b < c && b != bf1 && b != bf2 ==> #[trigger] block_correction(
                block_at(bits, n, b),
            ) is None,
        block_correction(block_at(bits, n, bf1)) == Some(q1),
        block_correction(block_at(bits, n, bf2)) == Some(q2),
    ensures
        stream_data(bits, n, c) == data.take(c * (data_len(n) as int)),
        stream_corrections(bits, n, c) == if c > bf2 {
            seq![((bf1 as usize), q1), ((bf2 as usize), q2)]
        } else if c > bf1 {
            seq![((bf1 as usize), q1)]
        } else {
            Seq::<(usize, usize)>::empty()
        },
    decreases c,
{
    let m = data_len(n) as int;
    vstd::arithmetic::mul::lemma_mul_basics(m);
    if c > 0 {
        lemma_mul_inequality(c - 1, c, m);
        lemma_mul_is_distributive_add_other_way(m, c - 1, 1);
        lemma_stream_collect_two(bits, data, n, c - 1, bf1, q1, bf2, q2);
        assert(stream_data(bits, n, c) =~= data.take(c * m));
        if c > bf2 {
            assert(stream_corrections(bits, n, c) =~= seq![
                ((bf1 as usize), q1),
                ((bf2 as usize), q2),
            ]);
        } else if c > bf1 {
            assert(stream_corrections(bits, n, c) =~= seq![((bf1 as usize), q1)]);
        } else {
            assert(stream_corrections(bits, n, c) =~= Seq::<(usize, usize)>::empty());
        }
    } else {
        assert(data.take(0) =~= Seq::<u8>::empty());
    }
}

/// Round trip: decoding an encoded stream yields the data back, every block
/// decodable, with an empty correction list.
pub proof fn lemma_hamming_round_trip(data: Seq<u8>, n: nat)
    requires
        is_bit_seq(data),
        n >= 3,
        data.len() as int % (data_len(n) as int) == 0,
    ensures
        ({
            let m = data_len(n) as int;
            let nc = data.len() as int / m;
            let cw = stream_encode(data, n);
            &&& cw.len() == nc * (n as int)
            &&& is_bit_seq(cw)
            &&& blocks_decodable(cw, n, nc)
            &&& stream_data(cw, n, nc) == data
            &&& stream_corrections(cw, n, nc) == Seq::<(usize, usize)>::empty()
        }),
{
    lemma_parity_count_lt(n);
    let m = data_len(n) as int;
    let nc = data.len() as int / m;
    let cw = stream_encode(data, n);
    lemma_stream_encode_blocks(data, n);
    lemma_fundamental_div_mod(data.len() as int, m);
    vstd::arithmetic::mul::lemma_mul_is_commutative(m, nc);
    assert(nc * m == data.len());
    assert(nc >= 0) by {
        if nc < 0 {
            lemma_mul_inequality(nc, -1, m);
            assert(false);
        }
    };
    assert forall|b: int| 0 <= b < nc implies {
        let blk = #[trigger] block_at(cw, n, b);
        &&& block_data(blk) == data.subrange(b * m, b * m + m)
        &&& block_correction(blk) is None
        &&& block_decodable(blk)
    } by {
        lemma_mul_inequality(b + 1, nc, m);
        lemma_mul_is_distributive_add_other_way(m, b, 1);
        lemma_mul_inequality(0, b, m);
        let ch = data.subrange(b * m, b * m + m);
        assert(is_bit_seq(ch));
        assert(ch.len() == m);
        lemma_encoded_block(ch, n);
    };
    lemma_stream_collect(cw, data, n, nc);
    assert(data.take(nc * m) =~= data);
}

/// Single-bit correction: inverting one bit of a valid codeword stream still
/// decodes to the original data, with exactly one correction entry naming the
/// damaged block and the 1-based position inside it.
pub proof fn lemma_hamming_single_bit_correction(data: Seq<u8>, n: nat, idx: int)
    requires
        is_bit_seq(data),
        n >= 3,
        data.len() as int % (data_len(n) as int) == 0,
        0 <= idx < stream_encode(data, n).len(),
    ensures
        ({
            let m = data_len(n) as int;
            let nc = data.len() as int / m;
            let cw = stream_encode(data, n);
            let t = flip_at(cw, idx);
            let bf = idx / (n as int);
            let q = idx % (n as int) + 1;
            &&& blocks_decodable(t, n, nc)
            &&& stream_data(t, n, nc) == data
            &&& stream_corrections(t, n, nc) == seq![((bf as usize), (q as usize))]
        }),
{
    lemma_parity_count_lt(n);
    let m = data_len(n) as int;
    let nc = data.len() as int / m;
    let cw = stream_encode(data, n);
    let t = flip_at(cw, idx);
    let bf = idx / (n as int);
    let jq = idx % (n as int);
    lemma_stream_encode_blocks(data, n);
    lemma_hamming_round_trip(data, n);
    lemma_fundamental_div_mod(idx, n as int);
    lemma_multiply_divide_lt(idx, n as int, nc);
    vstd::arithmetic::mul::lemma_mul_is_commutative(n as int, nc);
    assert(0 <= bf < nc);
    assert(idx == (n as int) * bf + jq);
    assert(0 <= jq < n as int);

    // Every block of `t` other than `bf` equals the codeword's block; block
    // `bf` is that block with bit `jq` inverted.
    assert forall|b: int| 0 <= b < nc && b != bf implies #[trigger] block_at(t, n, b) == block_at(
        cw,
        n,
        b,
    ) by {
        lemma_mul_inequality(b + 1, nc, n as int);
        lemma_mul_is_distributive_add_other_way(n as int, b, 1);
        lemma_mul_inequality(0, b, n as int);
        if b < bf {
            lemma_mul_inequality(b + 1, bf, n as int);
        } else {
            lemma_mul_inequality(bf + 1, b, n as int);
            lemma_mul_is_distributive_add_other_way(n as int, bf, 1);
        }
        assert(block_at(t, n, b) =~= block_at(cw, n, b));
    };
    lemma_mul_inequality(bf + 1, nc, n as int);
    lemma_mul_is_distributive_add_other_way(n as int, bf, 1);
    lemma_mul_inequality(0, bf, n as int);
    let cb = block_at(cw, n, bf);
    assert(block_at(t, n, bf) =~= flip_at(cb, jq));

    // The codeword block decodes cleanly, so the damaged one is corrected.
    let ch = data.subrange(bf * m, bf * m + m);
    lemma_mul_inequality(bf + 1, nc, m);
    lemma_mul_is_distributive_add_other_way(m, bf, 1);
    lemma_mul_inequality(0, bf, m);
    lemma_fundamental_div_mod(data.len() as int, m);
    vstd::arithmetic::mul::lemma_mul_is_commutative(m, nc);
    assert(is_bit_seq(ch) && ch.len() == m);
    lemma_encoded_block(ch, n);
    assert(cb == encoded_block(ch, n));
    lemma_block_flip(cb, jq);

    assert forall|b: int| 0 <= b < nc implies {
        let blk = #[trigger] block_at(t, n, b);
        &&& block_data(blk) == data.subrange(b * m, b * m + m)
        &&& (b != bf ==> block_correction(blk) is None)
        &&& block_decodable(blk)
    } by {
        lemma_mul_inequality(b + 1, nc, m);
        lemma_mul_is_distributive_add_other_way(m, b, 1);
        lemma_mul_inequality(0, b, m);
        let chb = data.subrange(b * m, b * m + m);
        assert(is_bit_seq(chb) && chb.len() == m);
        lemma_encoded_block(chb, n);
        if b != bf {
            assert(block_at(t, n, b) == block_at(cw, n, b));
            assert(block_at(cw, n, b) == encoded_block(chb, n));
        } else {
            assert(block_data(block_at(t, n, b)) == extract_data(cb));
            assert(extract_data(cb) == chb);
        }
    };
    assert(block_correction(block_at(t, n, bf)) == Some(((jq + 1) as usize)));
    lemma_stream_collect_one(t, data, n, nc, bf, (jq + 1) as usize);
    assert(data.take(nc * m) =~= data);
}

/// Corrections in different blocks are independent: one inverted bit in each
/// of two distinct blocks gives two correction entries and full recovery.
pub proof fn lemma_hamming_two_block_independence(data: Seq<u8>, n: nat, idx1: int, idx2: int)
    requires
        is_bit_seq(data),
        n >= 3,
        data.len() as int % (data_len(n) as int) == 0,
        0 <= idx1 < stream_encode(data, n).len(),
        0 <= idx2 < stream_encode(data, n).len(),
        idx1 / (n as int) < idx2 / (n as int),
    ensures
        ({
            let m = data_len(n) as int;
            let nc = data.len() as int / m;
            let cw = stream_encode(data, n);
            let t = flip_at(flip_at(cw, idx1), idx2);
            let bf1 = idx1 / (n as int);
            let bf2 = idx2 / (n as int);
            let q1 = idx1 % (n as int) + 1;
            let q2 = idx2 % (n as int) + 1;
            &&& blocks_decodable(t, n, nc)
            &&& stream_data(t, n, nc) == data
            &&& stream_corrections(t, n, nc) == seq![
                ((bf1 as usize), (q1 as usize)),
                ((bf2 as usize), (q2 as usize)),
            ]
        }),
{
    lemma_parity_count_lt(n);
    let m = data_len(n) as int;
    let nc = data.len() as int / m;
    let cw = stream_encode(data, n);
    let t = flip_at(flip_at(cw, idx1), idx2);
    let bf1 = idx1 / (n as int);
    let bf2 = idx2 / (n as int);
    let j1 = idx1 % (n as int);
    let j2 = idx2 % (n as int);
    lemma_stream_encode_blocks(data, n);
    lemma_hamming_round_trip(data, n);
    lemma_fundamental_div_mod(idx1, n as int);
    lemma_fundamental_div_mod(idx2, n as int);
    lemma_multiply_divide_lt(idx1, n as int, nc);
    lemma_multiply_divide_lt(idx2, n as int, nc);
    vstd::arithmetic::mul::lemma_mul_is_commutative(n as int, nc);
    assert(0 <= bf1 < nc);
    assert(0 <= bf2 < nc);
    assert(0 <= j1 < n as int);
    assert(0 <= j2 < n as int);
    lemma_fundamental_div_mod(data.len() as int, m);
    vstd::arithmetic::mul::lemma_mul_is_commutative(m, nc);

    assert forall|b: int| 0 <= b < nc && b != bf1 && b != bf2 implies #[trigger] block_at(t, n, b)
        == block_at(cw, n, b) by {
        lemma_mul_inequality(b + 1, nc, n as int);
        lemma_mul_is_distributive_add_other_way(n as int, b, 1);
        lemma_mul_inequality(0, b, n as int);
        if b < bf1 {
            lemma_mul_inequality(b + 1, bf1, n as int);
        } else if b > bf1 {
            lemma_mul_inequality(bf1 + 1, b, n as int);
            lemma_mul_is_distributive_add_other_way(n as int, bf1, 1);
        }
        if b < bf2 {
            lemma_mul_inequality(b + 1, bf2, n as int);
        } else if b > bf2 {
            lemma_mul_inequality(bf2 + 1, b, n as int);
            lemma_mul_is_distributive_add_other_way(n as int, bf2, 1);
        }
        assert(block_at(t, n, b) =~= block_at(cw, n, b));
    };

    let cb1 = block_at(cw, n, bf1);
    let cb2 = block_at(cw, n, bf2);
    lemma_mul_inequality(bf1 + 1, nc, n as int);
    lemma_mul_is_distributive_add_other_way(n as int, bf1, 1);
    lemma_mul_inequality(0, bf1, n as int);
    lemma_mul_inequality(bf2 + 1, nc, n as int);
    lemma_mul_is_distributive_add_other_way(n as int, bf2, 1);
    lemma_mul_inequality(0, bf2, n as int);
    lemma_mul_inequality(bf1 + 1, bf2, n as int);
    assert(block_at(t, n, bf1) =~= flip_at(cb1, j1));
    assert(block_at(t, n, bf2) =~= flip_at(cb2, j2));

    let ch1 = data.subrange(bf1 * m, bf1 * m + m);
    let ch2 = data.subrange(bf2 * m, bf2 * m + m);
    lemma_mul_inequality(bf1 + 1, nc, m);
    lemma_mul_is_distributive_add_other_way(m, bf1, 1);
    lemma_mul_inequality(0, bf1, m);
    lemma_mul_inequality(bf2 + 1, nc, m);
    lemma_mul_is_distributive_add_other_way(m, bf2, 1);
    lemma_mul_inequality(0, bf2, m);
    assert(is_bit_seq(ch1) && ch1.len() == m);
    assert(is_bit_seq(ch2) && ch2.len() == m);
    lemma_encoded_block(ch1, n);
    lemma_encoded_block(ch2, n);
    lemma_block_flip(cb1, j1);
    lemma_block_flip(cb2, j2);

    assert forall|b: int| 0 <= b < nc implies {
        let blk = #[trigger] block_at(t, n, b);
        &&& block_data(blk) == data.subrange(b * m, b * m + m)
        &&& (b != bf1 && b != bf2 ==> block_correction(blk) is None)
        &&& block_decodable(blk)
    } by {
        lemma_mul_inequality(b + 1, nc, m);
        lemma_mul_is_distributive_add_other_way(m, b, 1);
        lemma_mul_inequality(0, b, m);
        let chb = data.subrange(b * m, b * m + m);
        assert(is_bit_seq(chb) && chb.len() == m);
        lemma_encoded_block(chb, n);
        if b != bf1 && b != bf2 {
            assert(block_at(t, n, b) == block_at(cw, n, b));
            assert(block_at(cw, n, b) == encoded_block(chb, n));
        } else if b == bf1 {
            assert(block_data(block_at(t, n, b)) == extract_data(cb1));
            assert(extract_data(cb1) == chb);
        } else {
            assert(block_data(block_at(t, n, b)) == extract_data(cb2));
            assert(extract_data(cb2) == chb);
        }
    };
    assert(block_correction(block_at(t, n, bf1)) == Some(((j1 + 1) as usize)));
    assert(block_correction(block_at(t, n, bf2)) == Some(((j2 + 1) as usize)));
    lemma_stream_collect_two(t, data, n, nc, bf1, (j1 + 1) as usize, bf2, (j2 + 1) as usize);
    assert(data.take(nc * m) =~= data);
}

} // verus!
