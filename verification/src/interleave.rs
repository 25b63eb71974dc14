use vstd::prelude::*;
use vstd::arithmetic::div_mod::{
    lemma_div_denominator, lemma_fundamental_div_mod, lemma_mod_breakdown, lemma_small_mod,
};
use vstd::arithmetic::power2::{lemma2_to64, lemma_pow2_adds, lemma_pow2_pos, pow2};
use crate::arith::lemma_pow2_double;

verus! {

/// The Morton index of the anchor `(x, y, z)`: the bits of the three
/// coordinates interleaved, with `x` the most significant of each triple.
pub open spec fn interleave(x: nat, y: nat, z: nat) -> nat
    decreases x + y + z,
{
    if x == 0 && y == 0 && z == 0 {
        0
    } else {
        8 * interleave(x / 2, y / 2, z / 2) + 4 * (x % 2) + 2 * (y % 2) + (z % 2)
    }
}

/// The octant digit contributed by the lowest bit of each coordinate.
pub open spec fn low_digit(x: nat, y: nat, z: nat) -> nat {
    4 * (x % 2) + 2 * (y % 2) + (z % 2)
}

/// `x` and `y` compared by the position of their highest set bit:
/// true when the highest set bit of `x` lies below that of `y`.
pub open spec fn less_msb(x: u64, y: u64) -> bool {
    x < y && x < (x ^ y)
}

/// The axis (0, 1 or 2) whose difference word has the highest set bit; the
/// lower axis wins a tie.
pub open spec fn dominant_axis(dx: u64, dy: u64, dz: u64) -> int {
    let first: int = if less_msb(dx, dy) { 1 } else { 0 };
    let d_first = if first == 1 { dy } else { dx };
    if less_msb(d_first, dz) { 2 } else { first }
}

/// The comparison of two anchors by the axis on which they differ in the
/// highest bit.
pub open spec fn anchor_lt(ax: u64, ay: u64, az: u64, bx: u64, by: u64, bz: u64) -> bool {
    let axis = dominant_axis(ax ^ bx, ay ^ by, az ^ bz);
    if axis == 0 {
        ax < bx
    } else if axis == 1 {
        ay < by
    } else {
        az < bz
    }
}

pub proof fn lemma_interleave_unfold(x: nat, y: nat, z: nat)
    ensures
        interleave(x, y, z) == 8 * interleave(x / 2, y / 2, z / 2) + low_digit(x, y, z),
{
    if x == 0 && y == 0 && z == 0 {
        assert(interleave(0, 0, 0) == 0);
    }
}

proof fn lemma_xor_halves(a: u64, b: u64)
    by (bit_vector)
    ensures
        (a ^ b) / 2 == (a / 2) ^ (b / 2),
        (a ^ b) == 0 <==> a == b,
{
}

proof fn lemma_less_msb_halves(u: u64, v: u64)
    by (bit_vector)
    ensures
        (u < v && u < (u ^ v)) <==> (((u / 2) < (v / 2) && (u / 2) < ((u / 2) ^ (v / 2))) || (u == 0
            && v == 1)),
        (0u64 < v && 0u64 < (0u64 ^ v)) <==> v != 0,
{
}

/// Interleaving is injective.
pub proof fn lemma_interleave_injective(ax: nat, ay: nat, az: nat, bx: nat, by: nat, bz: nat)
    ensures
        interleave(ax, ay, az) == interleave(bx, by, bz) <==> (ax == bx && ay == by && az == bz),
    decreases ax + ay + az + bx + by + bz,
{
    lemma_interleave_unfold(ax, ay, az);
    lemma_interleave_unfold(bx, by, bz);
    if ax + ay + az + bx + by + bz > 0 {
        lemma_interleave_injective(ax / 2, ay / 2, az / 2, bx / 2, by / 2, bz / 2);
    }
}

/// The comparison by dominant axis orders two distinct anchors as their
/// Morton indices do.
pub proof fn lemma_anchor_lt_is_interleave_lt(ax: u64, ay: u64, az: u64, bx: u64, by: u64, bz: u64)
    requires
        !(ax == bx && ay == by && az == bz),
    ensures
        anchor_lt(ax, ay, az, bx, by, bz) <==> interleave(ax as nat, ay as nat, az as nat)
            < interleave(bx as nat, by as nat, bz as nat),
    decreases ax + ay + az + bx + by + bz,
{
    let (hax, hay, haz) = ((ax / 2) as u64, (ay / 2) as u64, (az / 2) as u64);
    let (hbx, hby, hbz) = ((bx / 2) as u64, (by / 2) as u64, (bz / 2) as u64);
    let (dx, dy, dz) = (ax ^ bx, ay ^ by, az ^ bz);
    let (hx, hy, hz) = (hax ^ hbx, hay ^ hby, haz ^ hbz);
    lemma_interleave_unfold(ax as nat, ay as nat, az as nat);
    lemma_interleave_unfold(bx as nat, by as nat, bz as nat);
    lemma_xor_halves(ax, bx);
    lemma_xor_halves(ay, by);
    lemma_xor_halves(az, bz);
    lemma_xor_halves(hax, hbx);
    lemma_xor_halves(hay, hby);
    lemma_xor_halves(haz, hbz);
    lemma_less_msb_halves(dx, dy);
    lemma_less_msb_halves(dx, dz);
    lemma_less_msb_halves(dy, dz);
    lemma_less_msb_halves(hx, hy);
    lemma_less_msb_halves(hx, hz);
    lemma_less_msb_halves(hy, hz);
    assert(hx == dx / 2 && hy == dy / 2 && hz == dz / 2);
    if hax == hbx && hay == hby && haz == hbz {
        assert(dx < 2 && dy < 2 && dz < 2);
    } else {
        lemma_anchor_lt_is_interleave_lt(hax, hay, haz, hbx, hby, hbz);
        lemma_interleave_injective(
            hax as nat,
            hay as nat,
            haz as nat,
            hbx as nat,
            hby as nat,
            hbz as nat,
        );
        let axis = dominant_axis(dx, dy, dz);
        assert(axis == dominant_axis(hx, hy, hz));
    }
}


/// The number of Morton indices that a cube of side `2^t` covers: `8^t`.
pub open spec fn span(t: nat) -> nat {
    pow2(3 * t)
}

pub proof fn lemma_span_step(t: nat)
    ensures
        span(t + 1) == 8 * span(t),
        span(t) > 0,
        span(0) == 1,
{
    lemma_pow2_adds(3 * t, 3);
    lemma2_to64();
    lemma_pow2_pos(3 * t);
    assert(3 * (t + 1) == 3 * t + 3);
}

/// Halving and the remainder of halving, for coordinates below `2^(t+1)`
/// and in general.
proof fn lemma_halves(x: nat, t: nat)
    ensures
        (x / 2) / pow2(t) == x / pow2(t + 1),
        x % pow2(t + 1) == 2 * ((x / 2) % pow2(t)) + x % 2,
        (x % pow2(t + 1)) / 2 == (x / 2) % pow2(t),
        (x % pow2(t + 1)) % 2 == x % 2,
        x < pow2(t + 1) ==> x / 2 < pow2(t),
{
    lemma_pow2_double(t);
    let p = pow2(t);
    lemma_div_denominator(x as int, 2, p as int);
    lemma_mod_breakdown(x as int, 2, p as int);
    assert(2 * p == pow2(t + 1));
    let r = (x / 2) % p;
    let low = x % 2;
    assert((2 * r + low) / 2 == r && (2 * r + low) % 2 == low) by {
        assert(0 <= low < 2);
    }
}

/// Coordinates below `2^t` interleave into an index below `8^t`.
pub proof fn lemma_interleave_bound(x: nat, y: nat, z: nat, t: nat)
    requires
        x < pow2(t),
        y < pow2(t),
        z < pow2(t),
    ensures
        interleave(x, y, z) < span(t),
    decreases t,
{
    lemma_interleave_unfold(x, y, z);
    if t == 0 {
        lemma2_to64();
        assert(interleave(0, 0, 0) == 0);
    } else {
        let u = (t - 1) as nat;
        lemma_halves(x, u);
        lemma_halves(y, u);
        lemma_halves(z, u);
        lemma_interleave_bound(x / 2, y / 2, z / 2, u);
        lemma_span_step(u);
    }
}

/// The index of an anchor splits at any bit: the high bits of the
/// coordinates interleave into the high digits, the low bits into the low.
pub proof fn lemma_interleave_split(x: nat, y: nat, z: nat, t: nat)
    ensures
        interleave(x, y, z) == span(t) * interleave(x / pow2(t), y / pow2(t), z / pow2(t))
            + interleave(x % pow2(t), y % pow2(t), z % pow2(t)),
        interleave(x % pow2(t), y % pow2(t), z % pow2(t)) < span(t),
    decreases t,
{
    lemma_pow2_pos(t);
    if t == 0 {
        lemma2_to64();
        assert(pow2(0) == 1);
        assert(x % 1 == 0 && y % 1 == 0 && z % 1 == 0);
        assert(x / 1 == x && y / 1 == y && z / 1 == z);
        assert(interleave(0, 0, 0) == 0);
        assert(span(0) == 1);
        assert(span(0) * interleave(x, y, z) == interleave(x, y, z)) by (nonlinear_arith)
            requires
                span(0) == 1,
        ;
    } else {
        let u = (t - 1) as nat;
        let p = pow2(u);
        lemma_halves(x, u);
        lemma_halves(y, u);
        lemma_halves(z, u);
        lemma_interleave_split(x / 2, y / 2, z / 2, u);
        lemma_interleave_unfold(x, y, z);
        lemma_interleave_unfold(x % pow2(t), y % pow2(t), z % pow2(t));
        lemma_span_step(u);
        let high = interleave(x / pow2(t), y / pow2(t), z / pow2(t));
        let mid = interleave((x / 2) % p, (y / 2) % p, (z / 2) % p);
        let low = low_digit(x, y, z);
        assert(interleave(x / 2, y / 2, z / 2) == span(u) * high + mid);
        assert(interleave(x % pow2(t), y % pow2(t), z % pow2(t)) == 8 * mid + low);
        assert(8 * (span(u) * high + mid) + low == span(t) * high + (8 * mid + low))
            by (nonlinear_arith)
            requires
                span(t) == 8 * span(u),
        ;
    }
}

/// The index of an anchor rounded down to a grid of side `2^t`, and how far
/// above it the index of the anchor itself lies.
pub proof fn lemma_interleave_aligned(x: nat, y: nat, z: nat, t: nat)
    ensures
        interleave(
            (x - x % pow2(t)) as nat,
            (y - y % pow2(t)) as nat,
            (z - z % pow2(t)) as nat,
        ) == span(t) * interleave(x / pow2(t), y / pow2(t), z / pow2(t)),
        interleave(x, y, z) == interleave(
            (x - x % pow2(t)) as nat,
            (y - y % pow2(t)) as nat,
            (z - z % pow2(t)) as nat,
        ) + interleave(x % pow2(t), y % pow2(t), z % pow2(t)),
        interleave(x % pow2(t), y % pow2(t), z % pow2(t)) < span(t),
{
    let p = pow2(t);
    lemma_pow2_pos(t);
    let ax = (x - x % p) as nat;
    let ay = (y - y % p) as nat;
    let az = (z - z % p) as nat;
    lemma_aligned_parts(x, p);
    lemma_aligned_parts(y, p);
    lemma_aligned_parts(z, p);
    lemma_interleave_split(x, y, z, t);
    lemma_interleave_split(ax, ay, az, t);
    assert(interleave(0, 0, 0) == 0);
}

proof fn lemma_aligned_parts(x: nat, p: nat)
    requires
        p > 0,
    ensures
        x % p <= x,
        ((x - x % p) as nat) / p == x / p,
        ((x - x % p) as nat) % p == 0,
{
    lemma_fundamental_div_mod(x as int, p as int);
    let q = x / p;
    let a = (x - x % p) as nat;
    assert(0 <= x % p < p);
    assert(q >= 0) by (nonlinear_arith)
        requires
            q == x / p,
            p > 0,
            x >= 0,
    ;
    assert(x % p <= x) by (nonlinear_arith)
        requires
            x == p * q + x % p,
            q >= 0,
            p > 0,
    ;
    assert(a == p * q);
    assert(a == q * p + 0) by (nonlinear_arith)
        requires
            a == p * q,
    ;
    vstd::arithmetic::div_mod::lemma_fundamental_div_mod_converse(a as int, p as int, q as int, 0);
}


/// The last anchor of a grid of side `2^t` has the last index: `8^t - 1`.
pub proof fn lemma_interleave_last(t: nat)
    ensures
        pow2(t) > 0,
        interleave((pow2(t) - 1) as nat, (pow2(t) - 1) as nat, (pow2(t) - 1) as nat) == span(t) - 1,
    decreases t,
{
    lemma_pow2_pos(t);
    lemma_span_step(t);
    if t == 0 {
        lemma2_to64();
        assert(interleave(0, 0, 0) == 0);
    } else {
        let u = (t - 1) as nat;
        lemma_interleave_last(u);
        lemma_pow2_double(u);
        lemma_span_step(u);
        let x = (pow2(t) - 1) as nat;
        let h = (pow2(u) - 1) as nat;
        assert(x == 2 * h + 1);
        assert(x / 2 == h && x % 2 == 1);
        lemma_interleave_unfold(x, x, x);
    }
}

} // verus!
