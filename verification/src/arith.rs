use vstd::prelude::*;
use vstd::arithmetic::power2::{pow2, lemma_pow2_pos, lemma_pow2_unfold, lemma_pow2_adds, lemma_pow2_strictly_increases, lemma2_to64};
use vstd::arithmetic::div_mod::{lemma_fundamental_div_mod, lemma_mod_breakdown, lemma_mod_multiples_vanish};

verus! {

/// `x` rounded down to a multiple of `m`.
pub open spec fn align_down(x: nat, m: nat) -> nat {
    (x - x % m) as nat
}

pub proof fn lemma_align_down(x: nat, m: nat)
    requires
        m > 0,
    ensures
        align_down(x, m) % m == 0,
        align_down(x, m) == x - x % m,
        align_down(x, m) <= x < align_down(x, m) + m,
        x % m == 0 <==> align_down(x, m) == x,
{
    vstd::arithmetic::div_mod::lemma_mod_decreases(x, m);
    lemma_fundamental_div_mod(x as int, m as int);
    lemma_mod_multiples_vanish((x / m) as int, 0, m as int);
    assert(0int % (m as int) == 0) by (nonlinear_arith)
        requires
            m > 0,
    ;
}

/// A multiple of `m` is, modulo `2 * m`, either `0` or `m`.
pub proof fn lemma_multiple_mod_double(x: nat, m: nat)
    by (nonlinear_arith)
    requires
        m > 0,
        x % m == 0,
    ensures
        x % (2 * m) == 0 || x % (2 * m) == m,
        (x + m) % (2 * m) == 0 || (x + m) % (2 * m) == m,
        (x % (2 * m) == 0) != ((x + m) % (2 * m) == 0),
{
    let q = x / m;
    assert(x == m * q);
    if q % 2 == 0 {
        let h = q / 2;
        assert(x == (2 * m) * h);
        assert(((2 * m) * h) % (2 * m) == 0);
        assert(x + m == (2 * m) * h + m);
        assert(((2 * m) * h + m) % (2 * m) == m);
    } else {
        let h = q / 2;
        assert(q == 2 * h + 1);
        assert(x == (2 * m) * h + m);
        assert(((2 * m) * h + m) % (2 * m) == m);
        assert(x + m == (2 * m) * (h + 1));
        assert(((2 * m) * (h + 1)) % (2 * m) == 0);
    }
}

/// A multiple of `m * c` is a multiple of `m`.
pub proof fn lemma_multiple_of_multiple(x: nat, m: nat, c: nat)
    by (nonlinear_arith)
    requires
        m > 0,
        c > 0,
        x % (m * c) == 0,
    ensures
        x % m == 0,
{
    let q = x / (m * c);
    assert(x == (m * c) * q);
    assert(x == m * (c * q));
    assert((m * (c * q)) % m == 0);
}

/// Rounding down to `m` and then to a multiple `m * c` of it is rounding
/// down to `m * c`.
pub proof fn lemma_align_down_nested(x: nat, m: nat, c: nat)
    requires
        m > 0,
        c > 0,
    ensures
        m * c > 0,
        align_down(align_down(x, m), m * c) == align_down(x, m * c),
{
    let y = align_down(x, m);
    lemma_align_down(x, m);
    lemma_mod_breakdown(x as int, m as int, c as int);
    lemma_mod_breakdown(y as int, m as int, c as int);
    lemma_fundamental_div_mod(x as int, m as int);
    lemma_fundamental_div_mod(y as int, m as int);
    assert(y / m == x / m) by (nonlinear_arith)
        requires
            m > 0,
            y == m * (y / m),
            x == m * (x / m) + x % m,
            0 <= x % m < m,
            y == x - x % m,
    ;
}

/// The largest multiple of `m` below a multiple `p` of `m` is `p - m`.
pub proof fn lemma_multiple_below(x: nat, p: nat, m: nat)
    by (nonlinear_arith)
    requires
        m > 0,
        x % m == 0,
        p % m == 0,
        x < p,
    ensures
        x + m <= p,
{
    let a = x / m;
    let b = p / m;
    assert(x == m * a);
    assert(p == m * b);
    if b <= a {
        assert(m * b <= m * a);
    }
    assert(m * b >= m * (a + 1));
}

/// `2^hi` is a multiple of `2^lo` whenever `lo <= hi`.
pub proof fn lemma_pow2_divides(lo: nat, hi: nat)
    requires
        lo <= hi,
    ensures
        pow2(lo) > 0,
        pow2(hi) == pow2(lo) * pow2((hi - lo) as nat),
        pow2(hi) % pow2(lo) == 0,
        pow2(lo) <= pow2(hi),
{
    lemma_pow2_pos(lo);
    lemma_pow2_pos((hi - lo) as nat);
    lemma_pow2_adds(lo, (hi - lo) as nat);
    let a = pow2(lo);
    let b = pow2((hi - lo) as nat);
    assert((a * b) % a == 0 && a <= a * b) by (nonlinear_arith)
        requires
            a > 0,
            b > 0,
    ;
}

/// Powers of two up to `2^22` fit comfortably in 64 bits.
pub proof fn lemma_pow2_small(e: nat)
    requires
        e <= 22,
    ensures
        0 < pow2(e) <= 0x400000,
{
    lemma2_to64();
    lemma_pow2_pos(e);
    if e < 22 {
        lemma_pow2_strictly_increases(e, 22);
    }
}

pub proof fn lemma_pow2_double(e: nat)
    ensures
        pow2(e + 1) == 2 * pow2(e),
        pow2(e) > 0,
{
    lemma_pow2_unfold(e + 1);
    lemma_pow2_pos(e);
}

} // verus!
