//! CRC-32 polynomial-division error detector.
//!
//! A frame is valid when, read as a polynomial over GF(2), it is divisible by
//! the standard CRC-32 generator 0x04C11DB7 (with its implicit leading
//! x^32 term).  The remainder is computed by long division: scanning left to
//! right, the 33-bit generator is exclusive-ored in wherever the running
//! leading bit is 1, and the last 32 bits are what is left.

use vstd::prelude::*;
use crate::bits::{
    CodecError, all_bit_chars, all_zero, bits_of, bxor, chars_of, extend_bits, flip_at, is_bit_seq,
    unit_seq, xor_seq, zero_seq,
};
use vstd::string::StrSliceExecFns;
use vstd::string::StringExecFns;

verus! {

/// The outcome of a CRC check: whether the frame was valid and, when it was,
/// the message without its 32 check bits.
#[derive(Debug)]
pub struct CrcVerify {
    pub valid: bool,
    pub original_message: Option<String>,
}

/// The 33 coefficients of the CRC-32 generator polynomial, most significant
/// first: the implicit x^32 term, then the 32 bits of 0x04C11DB7.
pub open spec fn crc_poly() -> Seq<u8> {
    seq![
        1u8,
        0u8,
        0u8,
        0u8,
        0u8,
        0u8,
        1u8,
        0u8,
        0u8,
        1u8,
        1u8,
        0u8,
        0u8,
        0u8,
        0u8,
        0u8,
        1u8,
        0u8,
        0u8,
        0u8,
        1u8,
        1u8,
        1u8,
        0u8,
        1u8,
        1u8,
        0u8,
        1u8,
        1u8,
        0u8,
        1u8,
        1u8,
        1u8,
    ]
}

/// `d` with `g` exclusive-ored in, aligned at offset `i`.
pub open spec fn xor_at(d: Seq<u8>, g: Seq<u8>, i: int) -> Seq<u8> {
    Seq::new(d.len(), |j: int| if i <= j < i + g.len() {
        bxor(d[j], g[j - i])
    } else {
        d[j]
    })
}

/// One step of the long division: fires when the bit under the scan is 1.
pub open spec fn div_step(d: Seq<u8>, g: Seq<u8>, i: int) -> Seq<u8> {
    if d[i] == 1 {
        xor_at(d, g, i)
    } else {
        d
    }
}

/// The dividend after running the division steps from offset `i` on.
pub open spec fn run_div(d: Seq<u8>, g: Seq<u8>, i: int) -> Seq<u8>
    decreases d.len() + 1 - i,
        via run_div_dec
{
    if i < 0 || g.len() == 0 || i + g.len() > d.len() {
        d
    } else {
        run_div(div_step(d, g, i), g, i + 1)
    }
}

#[via_fn]
proof fn run_div_dec(d: Seq<u8>, g: Seq<u8>, i: int) {
    if !(i < 0 || g.len() == 0 || i + g.len() > d.len()) {
        assert(div_step(d, g, i).len() == d.len());
    }
}

/// The remainder of the GF(2) long division: the trailing `g.len() - 1` bits
/// once every step has run; a dividend shorter than the divisor is its own
/// remainder.
pub open spec fn mod2_rem(d: Seq<u8>, g: Seq<u8>) -> Seq<u8> {
    if d.len() < g.len() {
        d
    } else {
        run_div(d, g, 0).subrange(d.len() - (g.len() - 1), d.len() as int)
    }
}

/// The CRC-32 remainder of a frame.
pub open spec fn crc_rem(d: Seq<u8>) -> Seq<u8> {
    mod2_rem(d, crc_poly())
}

/// The codeword for a message: the message followed by the remainder of the
/// message padded with 32 zero bits.
pub open spec fn crc_append(msg: Seq<u8>) -> Seq<u8> {
    msg + crc_rem(msg + zero_seq(32))
}

// ---------------------------------------------------------------------------
// Division facts.
// ---------------------------------------------------------------------------

pub proof fn lemma_crc_poly_facts()
    ensures
        crc_poly().len() == 33,
        is_bit_seq(crc_poly()),
        crc_poly()[0] == 1,
        crc_poly()[32] == 1,
{
    assert forall|i: int| 0 <= i < crc_poly().len() implies (#[trigger] crc_poly()[i]) == 0
        || crc_poly()[i] == 1 by {
        assert(crc_poly().len() == 33);
    };
}

pub proof fn lemma_div_step_wf(d: Seq<u8>, g: Seq<u8>, i: int)
    requires
        is_bit_seq(d),
        is_bit_seq(g),
    ensures
        div_step(d, g, i).len() == d.len(),
        is_bit_seq(div_step(d, g, i)),
{
}

pub proof fn lemma_run_div_wf(d: Seq<u8>, g: Seq<u8>, i: int)
    requires
        is_bit_seq(d),
        is_bit_seq(g),
        g.len() >= 1,
    ensures
        run_div(d, g, i).len() == d.len(),
        is_bit_seq(run_div(d, g, i)),
    decreases d.len() + 1 - i,
{
    if !(i < 0 || g.len() == 0 || i + g.len() > d.len()) {
        lemma_div_step_wf(d, g, i);
        lemma_run_div_wf(div_step(d, g, i), g, i + 1);
    }
}

/// The scan never changes positions it has already passed, and leaves every
/// scanned position zero (the generator's leading coefficient cancels it).
pub proof fn lemma_run_div_prefix(d: Seq<u8>, g: Seq<u8>, i: int)
    requires
        is_bit_seq(d),
        is_bit_seq(g),
        g.len() >= 1,
        g[0] == 1,
        0 <= i,
    ensures
        forall|j: int| 0 <= j < i ==> #[trigger] run_div(d, g, i)[j] == d[j],
        forall|j: int| i <= j <= d.len() - g.len() ==> #[trigger] run_div(d, g, i)[j] == 0,
    decreases d.len() + 1 - i,
{
    lemma_run_div_wf(d, g, i);
    if !(i + g.len() > d.len()) {
        let d2 = div_step(d, g, i);
        lemma_div_step_wf(d, g, i);
        lemma_run_div_prefix(d2, g, i + 1);
        assert(d2[i] == 0);
        assert(run_div(d, g, i) == run_div(d2, g, i + 1));
        assert forall|j: int| 0 <= j < i implies #[trigger] run_div(d, g, i)[j] == d[j] by {
            assert(run_div(d, g, i)[j] == run_div(d2, g, i + 1)[j]);
            assert(d2[j] == d[j]);
        };
        assert forall|j: int| i <= j <= d.len() - g.len() implies #[trigger] run_div(d, g, i)[j]
            == 0 by {
            if j == i {
                assert(run_div(d2, g, i + 1)[j] == d2[j]);
            } else {
                assert(run_div(d2, g, i + 1)[j] == 0);
            }
        };
    }
}

/// If no scanned position holds a 1, the division never fires.
pub proof fn lemma_run_div_noop(d: Seq<u8>, g: Seq<u8>, i: int)
    requires
        g.len() >= 1,
        forall|j: int| i <= j <= d.len() - g.len() ==> #[trigger] d[j] == 0,
    ensures
        run_div(d, g, i) == d,
    decreases d.len() + 1 - i,
{
    if !(i < 0 || g.len() == 0 || i + g.len() > d.len()) {
        assert(d[i] == 0);
        assert(div_step(d, g, i) == d);
        lemma_run_div_noop(d, g, i + 1);
    }
}

/// One division step distributes over a pointwise exclusive-or of dividends.
proof fn lemma_div_step_linear(a: Seq<u8>, b: Seq<u8>, g: Seq<u8>, i: int)
    requires
        is_bit_seq(a),
        is_bit_seq(b),
        is_bit_seq(g),
        g.len() >= 1,
        a.len() == b.len(),
        0 <= i,
        i + g.len() <= a.len(),
    ensures
        div_step(xor_seq(a, b), g, i) == xor_seq(div_step(a, g, i), div_step(b, g, i)),
{
    let x = xor_seq(a, b);
    assert(x[i] == bxor(a[i], b[i]));
    assert(div_step(x, g, i) =~= xor_seq(div_step(a, g, i), div_step(b, g, i)));
}

/// The whole division distributes over a pointwise exclusive-or.
pub proof fn lemma_run_div_linear(a: Seq<u8>, b: Seq<u8>, g: Seq<u8>, i: int)
    requires
        is_bit_seq(a),
        is_bit_seq(b),
        is_bit_seq(g),
        g.len() >= 1,
        a.len() == b.len(),
        0 <= i,
    ensures
        run_div(xor_seq(a, b), g, i) == xor_seq(run_div(a, g, i), run_div(b, g, i)),
    decreases a.len() + 1 - i,
{
    let x = xor_seq(a, b);
    assert(x.len() == a.len());
    if i + g.len() > a.len() {
        assert(run_div(x, g, i) == x);
        assert(xor_seq(run_div(a, g, i), run_div(b, g, i)) == x);
    } else {
        lemma_div_step_linear(a, b, g, i);
        lemma_div_step_wf(a, g, i);
        lemma_div_step_wf(b, g, i);
        lemma_run_div_linear(div_step(a, g, i), div_step(b, g, i), g, i + 1);
        assert(run_div(x, g, i) == run_div(div_step(x, g, i), g, i + 1));
    }
}

/// Appending a zero bit to the dividend appends one more division step.
proof fn lemma_run_div_append0(d: Seq<u8>, g: Seq<u8>, i: int)
    requires
        is_bit_seq(d),
        is_bit_seq(g),
        g.len() >= 1,
        d.len() >= g.len(),
        0 <= i <= d.len() - g.len() + 1,
    ensures
        run_div(d + seq![0u8], g, i) == div_step(
            run_div(d, g, i) + seq![0u8],
            g,
            d.len() + 1 - g.len(),
        ),
    decreases d.len() + 1 - i,
{
    let e = d + seq![0u8];
    if i == d.len() - g.len() + 1 {
        assert(run_div(d, g, i) == d);
        assert(run_div(e, g, i) == run_div(div_step(e, g, i), g, i + 1));
        lemma_div_step_wf(e, g, i);
        assert(run_div(div_step(e, g, i), g, i + 1) == div_step(e, g, i));
    } else {
        assert(i + g.len() <= d.len());
        assert(div_step(e, g, i) =~= div_step(d, g, i) + seq![0u8]);
        lemma_div_step_wf(d, g, i);
        lemma_run_div_append0(div_step(d, g, i), g, i + 1);
        assert(run_div(e, g, i) == run_div(div_step(e, g, i), g, i + 1));
        assert(run_div(d, g, i) == run_div(div_step(d, g, i), g, i + 1));
    }
}

/// The CRC remainder after one more (zero) bit, computed from the remainder
/// alone: shift left and reduce by the generator when a 1 falls off the top.
pub open spec fn crc_advance(rem: Seq<u8>) -> Seq<u8> {
    if rem[0] == 1 {
        xor_seq(rem.skip(1) + seq![0u8], crc_poly().skip(1))
    } else {
        rem.skip(1) + seq![0u8]
    }
}

pub proof fn lemma_crc_rem_append0(d: Seq<u8>)
    requires
        is_bit_seq(d),
        d.len() >= 33,
    ensures
        crc_rem(d + seq![0u8]) == crc_advance(crc_rem(d)),
{
    let g = crc_poly();
    lemma_crc_poly_facts();
    let n = d.len() as int;
    let rd = run_div(d, g, 0);
    lemma_run_div_wf(d, g, 0);
    lemma_run_div_prefix(d, g, 0);
    let rem = crc_rem(d);
    assert(rem == rd.subrange(n - 32, n));
    assert(rem.len() == 32);
    assert(rem[0] == rd[n - 32]);
    lemma_run_div_append0(d, g, 0);
    let stepped = div_step(rd + seq![0u8], g, n + 1 - 33);
    assert(run_div(d + seq![0u8], g, 0) == stepped);
    assert((rd + seq![0u8])[n - 32] == rd[n - 32]);
    assert(crc_rem(d + seq![0u8]) == stepped.subrange(n + 1 - 32, n + 1));
    if rem[0] == 1 {
        assert(stepped == xor_at(rd + seq![0u8], g, n - 32));
        assert(stepped.subrange(n - 31, n + 1) =~= xor_seq(rem.skip(1) + seq![0u8], g.skip(1)));
    } else {
        assert(stepped == rd + seq![0u8]);
        assert(stepped.subrange(n - 31, n + 1) =~= rem.skip(1) + seq![0u8]);
    }
}

/// Advancing a nonzero 32-bit remainder never yields zero: either the
/// generator's trailing 1 lands in the last position, or the surviving 1
/// shifts left.
pub proof fn lemma_crc_advance_nonzero(rem: Seq<u8>)
    requires
        is_bit_seq(rem),
        rem.len() == 32,
        !all_zero(rem),
    ensures
        !all_zero(crc_advance(rem)),
{
    lemma_crc_poly_facts();
    let g = crc_poly();
    let a = crc_advance(rem);
    if rem[0] == 1 {
        assert(a.len() == 32);
        assert(a[31] == bxor((rem.skip(1) + seq![0u8])[31], g.skip(1)[31]));
        assert((rem.skip(1) + seq![0u8])[31] == 0);
        assert(g.skip(1)[31] == g[32]);
        assert(a[31] == 1);
        assert(!all_zero(a));
    } else {
        let w = choose|i: int| 0 <= i < rem.len() && rem[i] != 0;
        assert(rem[w] != 0);
        assert(w >= 1);
        assert(a[w - 1] == rem[w]);
        assert(!all_zero(a));
    }
}

/// The remainder of a single-bit frame pattern is never zero: a lone 1 can
/// never be divided away by the 33-bit generator.
pub proof fn lemma_crc_unit_nonzero(len: nat, k: int)
    requires
        len >= 33,
        0 <= k < len,
    ensures
        !all_zero(crc_rem(unit_seq(len, k))),
    decreases len,
{
    lemma_crc_poly_facts();
    let g = crc_poly();
    let u = unit_seq(len, k);
    assert(is_bit_seq(u));
    let n = len as int;
    if k > n - 33 {
        // The 1 sits inside the trailing 32 bits; no step ever fires.
        assert forall|j: int| 0 <= j <= n - 33 implies #[trigger] u[j] == 0 by {};
        lemma_run_div_noop(u, g, 0);
        assert(crc_rem(u) == u.subrange(n - 32, n));
        assert(crc_rem(u)[k - (n - 32)] == 1);
        assert(!all_zero(crc_rem(u)));
    } else if n == 33 {
        // Then k == 0: the single step replaces the frame by the generator's tail.
        assert(k == 0);
        assert(u[0] == 1);
        let s1 = div_step(u, g, 0);
        assert(s1 == xor_at(u, g, 0));
        lemma_div_step_wf(u, g, 0);
        assert(run_div(u, g, 0) == run_div(s1, g, 1)) by {
            assert(0 + g.len() <= u.len());
        };
        assert(run_div(s1, g, 1) == s1);
        assert(crc_rem(u) == s1.subrange(1, 33));
        assert(s1[32] == bxor(u[32], g[32]));
        assert(u[32] == 0);
        assert(crc_rem(u)[31] == 1);
        assert(!all_zero(crc_rem(u)));
    } else {
        // Strip the trailing zero and advance the shorter frame's remainder.
        let u1 = unit_seq((len - 1) as nat, k);
        assert(u == u1 + seq![0u8]) by {
            assert(u =~= u1 + seq![0u8]);
        };
        lemma_crc_unit_nonzero((len - 1) as nat, k);
        lemma_crc_rem_append0(u1);
        lemma_run_div_wf(u1, g, 0);
        assert(crc_rem(u1).len() == 32);
        assert(is_bit_seq(crc_rem(u1)));
        lemma_crc_advance_nonzero(crc_rem(u1));
    }
}

/// Round trip: the codeword of any nonempty message divides evenly, and its
/// leading bits are the message itself.
pub proof fn lemma_crc_round_trip(msg: Seq<u8>)
    requires
        is_bit_seq(msg),
        msg.len() >= 1,
    ensures
        ({
            let cw = crc_append(msg);
            &&& cw.len() == msg.len() + 32
            &&& is_bit_seq(cw)
            &&& cw.take(msg.len() as int) == msg
            &&& all_zero(crc_rem(cw))
        }),
{
    lemma_crc_poly_facts();
    let g = crc_poly();
    let p = msg + zero_seq(32);
    assert(is_bit_seq(p));
    assert(p.len() == msg.len() + 32);
    let rem0 = crc_rem(p);
    lemma_run_div_wf(p, g, 0);
    assert(rem0.len() == 32);
    assert(is_bit_seq(rem0));
    let cw = crc_append(msg);
    assert(cw == msg + rem0);
    assert(cw.take(msg.len() as int) =~= msg);
    let z = zero_seq(msg.len()) + rem0;
    assert(is_bit_seq(z));
    assert(cw =~= xor_seq(p, z));
    lemma_run_div_linear(p, z, g, 0);
    lemma_run_div_wf(z, g, 0);
    assert(crc_rem(cw) =~= xor_seq(crc_rem(p), crc_rem(z))) by {
        assert(run_div(xor_seq(p, z), g, 0) == xor_seq(run_div(p, g, 0), run_div(z, g, 0)));
    };
    assert forall|j: int| 0 <= j <= z.len() - 33 implies #[trigger] z[j] == 0 by {};
    lemma_run_div_noop(z, g, 0);
    assert(crc_rem(z) =~= rem0);
    assert forall|i: int| 0 <= i < crc_rem(cw).len() implies #[trigger] crc_rem(cw)[i] == 0 by {
        assert(crc_rem(cw)[i] == bxor(crc_rem(p)[i], crc_rem(z)[i]));
    };
}

/// Single-bit detection: inverting any one bit of a frame that divides
/// evenly leaves a nonzero remainder.
pub proof fn lemma_crc_single_bit_detection(frame: Seq<u8>, i: int)
    requires
        is_bit_seq(frame),
        frame.len() >= 33,
        all_zero(crc_rem(frame)),
        0 <= i < frame.len(),
    ensures
        !all_zero(crc_rem(flip_at(frame, i))),
{
    lemma_crc_poly_facts();
    let g = crc_poly();
    let u = unit_seq(frame.len(), i);
    let t = flip_at(frame, i);
    assert(t =~= xor_seq(frame, u));
    lemma_run_div_linear(frame, u, g, 0);
    lemma_run_div_wf(frame, g, 0);
    lemma_run_div_wf(u, g, 0);
    assert(crc_rem(t) =~= xor_seq(crc_rem(frame), crc_rem(u))) by {
        assert(run_div(xor_seq(frame, u), g, 0) == xor_seq(
            run_div(frame, g, 0),
            run_div(u, g, 0),
        ));
    };
    lemma_crc_unit_nonzero(frame.len(), i);
    let w = choose|j: int| 0 <= j < crc_rem(u).len() && crc_rem(u)[j] != 0;
    assert(crc_rem(u)[w] != 0);
    assert(crc_rem(t)[w] == bxor(crc_rem(frame)[w], crc_rem(u)[w]));
    assert(crc_rem(t)[w] != 0);
}

// ---------------------------------------------------------------------------
// Executable verifier.
// ---------------------------------------------------------------------------

/// Builds the 33-bit generator polynomial, most significant bit first.
pub fn crc32_poly_bits() -> (res: Vec<u8>)
    ensures
        res@ == crc_poly(),
{
    let mut v: Vec<u8> = Vec::new();
    v.push(1u8);
    v.push(0u8);
    v.push(0u8);
    v.push(0u8);
    v.push(0u8);
    v.push(0u8);
    v.push(1u8);
    v.push(0u8);
    v.push(0u8);
    v.push(1u8);
    v.push(1u8);
    v.push(0u8);
    v.push(0u8);
    v.push(0u8);
    v.push(0u8);
    v.push(0u8);
    v.push(1u8);
    v.push(0u8);
    v.push(0u8);
    v.push(0u8);
    v.push(1u8);
    v.push(1u8);
    v.push(1u8);
    v.push(0u8);
    v.push(1u8);
    v.push(1u8);
    v.push(0u8);
    v.push(1u8);
    v.push(1u8);
    v.push(0u8);
    v.push(1u8);
    v.push(1u8);
    v.push(1u8);
    proof {
        assert(v@ =~= crc_poly());
    }
    v
}

/// GF(2) long division of `dividend` by `divisor`; returns the remainder,
/// i.e. the trailing `divisor.len() - 1` bits after every aligned
/// exclusive-or has run (the dividend itself when it is shorter).
pub fn mod2_divide(dividend: &Vec<u8>, divisor: &Vec<u8>) -> (rem: Vec<u8>)
    requires
        is_bit_seq(dividend@),
        is_bit_seq(divisor@),
        divisor@.len() >= 1,
    ensures
        rem@ == mod2_rem(dividend@, divisor@),
        is_bit_seq(rem@),
{
    let n = dividend.len();
    let m = divisor.len();
    let mut work: Vec<u8> = Vec::new();
    let mut j: usize = 0;
    while j < n
        invariant
            j <= n,
            n == dividend@.len(),
            work@ == dividend@.take(j as int),
        decreases n - j,
    {
        work.push(dividend[j]);
        j = j + 1;
    }
    proof {
        assert(dividend@.take(n as int) =~= dividend@);
    }
    if n < m {
        return work;
    }

    let mut i: usize = 0;
    while i <= n - m
        invariant
            m >= 1,
            m <= n,
            n == dividend@.len(),
            m == divisor@.len(),
            i <= n - m + 1,
            work@.len() == n,
            is_bit_seq(work@),
            is_bit_seq(divisor@),
            is_bit_seq(dividend@),
            run_div(work@, divisor@, i as int) == run_div(dividend@, divisor@, 0),
        decreases n - m + 1 - i,
    {
        let ghost pre = work@;
        if work[i] == 1 {
            let mut j: usize = 0;
            while j < m
                invariant
                    j <= m,
                    i + m <= n,
                    work@.len() == n,
                    m == divisor@.len(),
                    is_bit_seq(work@),
                    is_bit_seq(divisor@),
                    pre.len() == n,
                    forall|t: int| 0 <= t < n && !(i <= t < i + j) ==> work@[t] == pre[t],
                    forall|t: int| i <= t < i + j ==> work@[t] == bxor(pre[t], divisor@[t - i]),
                decreases m - j,
            {
                let w = work[i + j];
                let dv = divisor[j];
                let nb: u8 = if w == dv {
                    0
                } else {
                    1
                };
                work.set(i + j, nb);
                j = j + 1;
            }
            proof {
                assert(work@ =~= xor_at(pre, divisor@, i as int));
                assert(work@ == div_step(pre, divisor@, i as int));
            }
        } else {
            proof {
                assert(work@ == div_step(pre, divisor@, i as int));
            }
        }
        proof {
            assert(run_div(pre, divisor@, i as int) == run_div(
                div_step(pre, divisor@, i as int),
                divisor@,
                i as int + 1,
            ));
        }
        i = i + 1;
    }
    proof {
        assert(run_div(work@, divisor@, i as int) == work@);
        assert(work@ == run_div(dividend@, divisor@, 0));
    }

    let mut rem: Vec<u8> = Vec::new();
    let start = n - (m - 1);
    let mut k: usize = start;
    while k < n
        invariant
            start <= k <= n,
            start == n - (m - 1),
            work@.len() == n,
            is_bit_seq(work@),
            rem@ == work@.subrange(start as int, k as int),
        decreases n - k,
    {
        rem.push(work[k]);
        k = k + 1;
        proof {
            assert(rem@ =~= work@.subrange(start as int, k as int));
        }
    }
    rem
}

/// Checks the CRC-32 of a received frame of '0'/'1' text holding a message
/// followed by 32 check bits.  The frame must be binary and at least 33 bits
/// long; a mismatched checksum is a normal `valid == false` outcome, not an
/// error, and then no message is returned.
pub fn verify_crc32_poly(received_bits: &str) -> (res: Result<CrcVerify, CodecError>)
    ensures
        ({
            let s = received_bits@;
            match res {
                Ok(v) => {
                    &&& all_bit_chars(s)
                    &&& s.len() >= 33
                    &&& v.valid == all_zero(crc_rem(bits_of(s)))
                    &&& (v.valid ==> match v.original_message {
                        Some(msg) => msg@ == s.take(s.len() - 32),
                        None => false,
                    })
                    &&& (!v.valid ==> v.original_message is None)
                },
                Err(e) => match e {
                    CodecError::InvalidCharacter => !all_bit_chars(s),
                    CodecError::ShortFrame { len } => {
                        &&& all_bit_chars(s)
                        &&& len == s.len()
                        &&& s.len() < 33
                    },
                    _ => false,
                },
            }
        }),
{
    let bits = match crate::bits::parse_bits(received_bits) {
        Ok(v) => v,
        Err(e) => {
            return Err(e);
        },
    };
    let len = bits.len();
    if len < 33 {
        return Err(CodecError::ShortFrame { len });
    }
    let divisor = crc32_poly_bits();
    proof {
        lemma_crc_poly_facts();
    }
    let remainder = mod2_divide(&bits, &divisor);

    let mut ok = true;
    let mut k: usize = 0;
    while k < remainder.len()
        invariant
            k <= remainder@.len(),
            ok == all_zero(remainder@.take(k as int)),
        decreases remainder@.len() - k,
    {
        if remainder[k] != 0 {
            ok = false;
            proof {
                assert(remainder@.take(k as int + 1)[k as int] != 0);
                assert(!all_zero(remainder@.take(k as int + 1)));
            }
        } else {
            proof {
                assert(all_zero(remainder@.take(k as int)) ==> all_zero(
                    remainder@.take(k as int + 1),
                ));
            }
        }
        k = k + 1;
    }
    proof {
        assert(remainder@.take(remainder@.len() as int) =~= remainder@);
    }

    if ok {
        let keep = len - 32;
        let msg = String::from_str(received_bits.substring_char(0, keep));
        Ok(CrcVerify { valid: true, original_message: Some(msg) })
    } else {
        Ok(CrcVerify { valid: false, original_message: None })
    }
}

/// Builds the CRC-32 codeword for a '0'/'1' message: the message with the
/// remainder of its zero-padded form appended, so that the result divides
/// evenly by the generator.
pub fn append_crc32_poly(message: &str) -> (res: Result<String, CodecError>)
    ensures
        ({
            let s = message@;
            match res {
                Ok(cw) => all_bit_chars(s) && cw@ == chars_of(crc_append(bits_of(s))),
                Err(e) => e == CodecError::InvalidCharacter && !all_bit_chars(s),
            }
        }),
{
    let bits = match crate::bits::parse_bits(message) {
        Ok(v) => v,
        Err(e) => {
            return Err(e);
        },
    };
    let mut padded: Vec<u8> = Vec::new();
    crate::bits::extend_bits(&mut padded, &bits);
    let mut z: usize = 0;
    while z < 32
        invariant
            z <= 32,
            padded@ == bits@ + zero_seq(z as nat),
        decreases 32 - z,
    {
        padded.push(0u8);
        z = z + 1;
        proof {
            assert(padded@ =~= bits@ + zero_seq(z as nat));
        }
    }
    proof {
        assert(Seq::<u8>::empty() + bits@ =~= bits@);
        assert(is_bit_seq(padded@));
    }
    let divisor = crc32_poly_bits();
    proof {
        lemma_crc_poly_facts();
    }
    let remainder = mod2_divide(&padded, &divisor);
    let mut cw: Vec<u8> = Vec::new();
    crate::bits::extend_bits(&mut cw, &bits);
    proof {
        assert(Seq::<u8>::empty() + bits@ =~= bits@);
    }
    crate::bits::extend_bits(&mut cw, &remainder);
    proof {
        assert(cw@ == crc_append(bits_of(message@)));
        assert(is_bit_seq(cw@));
    }
    let out = crate::bits::bits_to_string(&cw);
    Ok(out)
}

} // verus!
