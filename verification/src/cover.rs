use vstd::prelude::*;
use vstd::arithmetic::power2::{lemma_pow2_adds, pow2};
use crate::arith::lemma_align_down;
use crate::interleave::{
    interleave, lemma_interleave_aligned, lemma_interleave_bound, lemma_interleave_injective,
    lemma_interleave_last, span,
};
use crate::morton::{
    ancestor_at, cell_span, is_ancestor, key_lt, key_parent, lemma_ancestor_interval,
    lemma_ancestor_less, lemma_ancestor_of_ancestor, lemma_ancestor_wf, lemma_cell_span,
    lemma_interval_ancestor, lemma_key_order_total, lemma_parent_wf, lemma_root,
    lemma_side_divides, Key, Keyed,
};
use crate::region::{
    in_region, lemma_chain_not_in_region, lemma_listed_wf, listed_ancestor, on_chain,
};
use crate::sorting::strictly_sorted_by_key;

verus! {

/// Where the stretch of the Morton curve that a cell covers ends: the first
/// index beyond it.
pub open spec fn cell_end(k: Key, depth: u64) -> nat {
    k.morton() + cell_span(k.3, depth)
}

/// `a` is `b` or encloses it.
pub open spec fn encloses(a: Key, b: Key, depth: u64) -> bool {
    a.3 <= b.3 && ancestor_at(b, a.3, depth) == a
}

/// The index of a cell is a multiple of its span.
proof fn lemma_index_aligned(k: Key, depth: u64) -> (q: nat)
    requires
        k.wf(depth),
    ensures
        k.morton() == cell_span(k.3, depth) * q,
{
    let t = (depth - k.3) as nat;
    lemma_side_divides(0, k.3, depth);
    lemma_align_down(k.0 as nat, pow2(t));
    lemma_align_down(k.1 as nat, pow2(t));
    lemma_align_down(k.2 as nat, pow2(t));
    lemma_interleave_aligned(k.0 as nat, k.1 as nat, k.2 as nat, t);
    interleave(k.0 as nat / pow2(t), k.1 as nat / pow2(t), k.2 as nat / pow2(t))
}

proof fn lemma_span_ratio(coarse: u64, fine: u64, depth: u64) -> (ratio: nat)
    requires
        coarse <= fine <= depth,
    ensures
        ratio > 0,
        cell_span(coarse, depth) == cell_span(fine, depth) * ratio,
{
    let t1 = (depth - fine) as nat;
    let t2 = (fine - coarse) as nat;
    lemma_pow2_adds(3 * t1, 3 * t2);
    assert(3 * (t1 + t2) == 3 * t1 + 3 * t2);
    crate::interleave::lemma_span_step(t2);
    span(t2)
}

/// The stretch of a cell lies within the stretch of each cell that
/// encloses it.
pub proof fn lemma_stretch_nested(a: Key, b: Key, depth: u64)
    requires
        a.wf(depth),
        b.wf(depth),
        encloses(a, b, depth),
    ensures
        a.morton() <= b.morton(),
        cell_end(b, depth) <= cell_end(a, depth),
{
    lemma_ancestor_interval(b, a.3, depth);
    let qa = lemma_index_aligned(a, depth);
    let qb = lemma_index_aligned(b, depth);
    let m = lemma_span_ratio(a.3, b.3, depth);
    lemma_cell_span(b.3, depth);
    let sb = cell_span(b.3, depth);
    let sa = cell_span(a.3, depth);
    assert(sb * qb + sb <= sa * qa + sa) by (nonlinear_arith)
        requires
            sa == sb * m,
            sb > 0,
            m > 0,
            sb * qb < sa * qa + sa,
            sa * qa <= sb * qb,
    {
        assert(sa * qa == sb * (m * qa));
        assert(sa * qa + sa == sb * (m * qa + m));
        assert(qb < m * qa + m);
        assert(sb * (qb + 1) <= sb * (m * qa + m));
    }
}

/// Two cells of which neither encloses the other cover separate stretches
/// of the curve.
pub proof fn lemma_stretches_apart(a: Key, b: Key, depth: u64)
    requires
        a.wf(depth),
        b.wf(depth),
        !encloses(a, b, depth),
        !encloses(b, a, depth),
    ensures
        cell_end(a, depth) <= b.morton() || cell_end(b, depth) <= a.morton(),
{
    if a.3 <= b.3 {
        lemma_apart(a, b, depth);
    } else {
        lemma_apart(b, a, depth);
    }
}

proof fn lemma_apart(a: Key, b: Key, depth: u64)
    requires
        a.wf(depth),
        b.wf(depth),
        a.3 <= b.3,
        ancestor_at(b, a.3, depth) != a,
    ensures
        cell_end(a, depth) <= b.morton() || cell_end(b, depth) <= a.morton(),
{
    let other = ancestor_at(b, a.3, depth);
    lemma_ancestor_wf(b, a.3, depth);
    lemma_stretch_nested(other, b, depth);
    let qa = lemma_index_aligned(a, depth);
    let qo = lemma_index_aligned(other, depth);
    lemma_cell_span(a.3, depth);
    let s = cell_span(a.3, depth);
    lemma_interleave_injective(
        a.0 as nat,
        a.1 as nat,
        a.2 as nat,
        other.0 as nat,
        other.1 as nat,
        other.2 as nat,
    );
    if qa < qo {
        assert(s * qa + s <= s * qo) by (nonlinear_arith)
            requires
                qa < qo,
                s > 0,
        ;
    } else {
        assert(qa != qo);
        assert(s * qo + s <= s * qa) by (nonlinear_arith)
            requires
                qo < qa,
                s > 0,
        ;
    }
}

/// The keys of the region between two cells of which neither encloses the
/// other cover stretches between the two: after the end of the first and
/// before the start of the second.
pub proof fn lemma_region_between(w: Key, a: Key, b: Key, depth: u64)
    requires
        a.wf(depth),
        b.wf(depth),
        !encloses(a, b, depth),
        !encloses(b, a, depth),
        in_region(w, a, b, depth),
    ensures
        cell_end(a, depth) <= w.morton(),
        cell_end(w, depth) <= b.morton(),
{
    lemma_cell_span(w.3, depth);
    lemma_cell_span(a.3, depth);
    lemma_cell_span(b.3, depth);
    lemma_key_order_total(a, w);
    lemma_key_order_total(w, b);
    let parent = key_parent(w, depth);
    lemma_parent_wf(w, depth);
    lemma_ancestor_wf(w, w.3, depth);
    lemma_ancestor_wf(a, a.3, depth);
    lemma_ancestor_wf(b, b.3, depth);
    lemma_root(a, depth);
    lemma_root(b, depth);
    // w and a
    if encloses(a, w, depth) {
        assert(a.3 < w.3);
        lemma_ancestor_of_ancestor(w, a.3, parent.3, depth);
        assert(ancestor_at(parent, a.3, depth) == a);
        if listed_ancestor(parent, a, depth) {
            lemma_listed_wf(parent, a, depth);
        } else {
            lemma_listed_wf(parent, b, depth);
            lemma_ancestor_of_ancestor(b, a.3, parent.3, depth);
        }
        assert(false);
    }
    if encloses(w, a, depth) {
        lemma_ancestor_less(w, a, depth);
        assert(false);
    }
    lemma_stretches_apart(a, w, depth);
    // w and b
    if encloses(b, w, depth) {
        lemma_ancestor_less(b, w, depth);
        assert(false);
    }
    assert(!encloses(w, b, depth));
    lemma_stretches_apart(w, b, depth);
}

/// The first level from `from` on at which the cell around `c` lies on
/// neither chain of ancestors.
proof fn lemma_leaves_the_chains(c: Key, a: Key, b: Key, depth: u64, from: u64) -> (level: u64)
    requires
        c.wf(depth),
        c.3 == depth,
        !on_chain(c, a, b, depth),
        from <= depth,
        forall|l: u64| l < from ==> on_chain(#[trigger] ancestor_at(c, l, depth), a, b, depth),
    ensures
        from <= level <= depth,
        !on_chain(ancestor_at(c, level, depth), a, b, depth),
        forall|l: u64| l < level ==> on_chain(#[trigger] ancestor_at(c, l, depth), a, b, depth),
    decreases depth - from,
{
    if !on_chain(ancestor_at(c, from, depth), a, b, depth) {
        from
    } else {
        if from == depth {
            lemma_ancestor_wf(c, depth, depth);
            assert(false);
        }
        let next = (from + 1) as u64;
        assert forall|l: u64| l < next implies on_chain(
            #[trigger] ancestor_at(c, l, depth),
            a,
            b,
            depth,
        ) by {}
        lemma_leaves_the_chains(c, a, b, depth, next)
    }
}

/// A cell of the deepest level lies in a cell exactly where its index lies
/// in the stretch of that cell.
pub proof fn lemma_inside_stretch(c: Key, k: Key, depth: u64)
    requires
        c.wf(depth),
        c.3 == depth,
        k.wf(depth),
    ensures
        encloses(k, c, depth) <==> k.morton() <= c.morton() < cell_end(k, depth),
{
    lemma_ancestor_interval(c, k.3, depth);
    if k.morton() <= c.morton() < cell_end(k, depth) {
        lemma_interval_ancestor(k, c, depth);
    }
}

/// Between two cells of which neither encloses the other the region leaves
/// no gap and covers nothing twice: a cell of the deepest level that lies
/// after the first and before the second lies in exactly one key of the
/// region.
pub proof fn lemma_region_fills(c: Key, a: Key, b: Key, depth: u64) -> (level: u64)
    requires
        a.wf(depth),
        b.wf(depth),
        c.wf(depth),
        c.3 == depth,
        !encloses(a, b, depth),
        !encloses(b, a, depth),
        cell_end(a, depth) <= c.morton() < b.morton(),
    ensures
        level <= depth,
        in_region(ancestor_at(c, level, depth), a, b, depth),
        forall|other: u64|
            other <= depth && other != level ==> !in_region(
                #[trigger] ancestor_at(c, other, depth),
                a,
                b,
                depth,
            ),
{
    lemma_root(a, depth);
    lemma_root(b, depth);
    lemma_root(c, depth);
    lemma_ancestor_wf(c, depth, depth);
    lemma_ancestor_wf(a, a.3, depth);
    lemma_ancestor_wf(b, b.3, depth);
    lemma_cell_span(a.3, depth);
    lemma_cell_span(b.3, depth);
    lemma_inside_stretch(c, a, depth);
    lemma_inside_stretch(c, b, depth);
    // the root encloses b, so a is not the root and the root is above a
    assert(a.3 > 0);
    assert(on_chain(ancestor_at(c, 0, depth), a, b, depth));
    assert(!on_chain(c, a, b, depth)) by {
        if listed_ancestor(c, a, depth) {
            lemma_listed_wf(c, a, depth);
        }
        if listed_ancestor(c, b, depth) {
            lemma_listed_wf(c, b, depth);
        }
    }
    assert forall|l: u64| l < 1 implies on_chain(#[trigger] ancestor_at(c, l, depth), a, b, depth) by {}
    let level = lemma_leaves_the_chains(c, a, b, depth, 1);
    let w = ancestor_at(c, level, depth);
    lemma_ancestor_wf(c, level, depth);
    lemma_ancestor_wf(w, w.3, depth);
    lemma_ancestor_interval(c, level, depth);
    lemma_cell_span(level, depth);
    lemma_ancestor_of_ancestor(c, (level - 1) as u64, level, depth);
    assert(key_parent(w, depth) == ancestor_at(c, (level - 1) as u64, depth));
    // w and a
    if encloses(a, w, depth) {
        lemma_ancestor_of_ancestor(c, a.3, level, depth);
        assert(false);
    }
    if encloses(w, a, depth) {
        assert(w != a);
        assert(false);
    }
    lemma_stretches_apart(a, w, depth);
    assert(key_lt(a, w));
    // w and b
    if encloses(b, w, depth) {
        lemma_ancestor_of_ancestor(c, b.3, level, depth);
        assert(false);
    }
    if encloses(w, b, depth) {
        assert(w != b);
        assert(false);
    }
    lemma_stretches_apart(w, b, depth);
    assert(key_lt(w, b));
    assert(in_region(w, a, b, depth));
    assert forall|other: u64| other <= depth && other != level implies !in_region(
        #[trigger] ancestor_at(c, other, depth),
        a,
        b,
        depth,
    ) by {
        let v = ancestor_at(c, other, depth);
        lemma_ancestor_wf(c, other, depth);
        if other < level {
            lemma_chain_not_in_region(v, a, b, depth);
        } else {
            if in_region(v, a, b, depth) {
                let parent = key_parent(v, depth);
                lemma_ancestor_of_ancestor(c, (other - 1) as u64, other, depth);
                assert(parent == ancestor_at(c, (other - 1) as u64, depth));
                lemma_ancestor_of_ancestor(c, level, (other - 1) as u64, depth);
                lemma_ancestor_wf(c, (other - 1) as u64, depth);
                if listed_ancestor(parent, a, depth) {
                    lemma_listed_wf(parent, a, depth);
                    lemma_ancestor_of_ancestor(a, level, parent.3, depth);
                } else {
                    lemma_listed_wf(parent, b, depth);
                    lemma_ancestor_of_ancestor(b, level, parent.3, depth);
                }
                assert(on_chain(w, a, b, depth));
            }
        }
    }
    level
}


/// The seeds are cells of the tree in strictly increasing Morton order, and
/// none of them encloses another.
pub open spec fn seeds_linear(seeds: Seq<Key>, depth: u64) -> bool {
    &&& forall|i: int| 0 <= i < seeds.len() ==> (#[trigger] seeds[i]).wf(depth)
    &&& strictly_sorted_by_key(seeds)
    &&& forall|i: int, j: int|
        0 <= i < j < seeds.len() ==> !encloses(#[trigger] seeds[i], #[trigger] seeds[j], depth)
}

/// `w` is the `i`-th seed, or a key of the region between that seed and
/// the next.
pub open spec fn block_at(w: Key, seeds: Seq<Key>, i: int, depth: u64) -> bool {
    w == seeds[i] || (i + 1 < seeds.len() && in_region(w, seeds[i], seeds[i + 1], depth))
}

/// `w` is a block of the blocktree of the seeds: one of the seeds, or a key
/// of the region between two neighbouring seeds.
pub open spec fn in_blocktree(w: Key, seeds: Seq<Key>, depth: u64) -> bool {
    exists|i: int| 0 <= i < seeds.len() && #[trigger] block_at(w, seeds, i, depth)
}

/// The stretches of the seeds follow one another along the curve.
proof fn lemma_seeds_in_order(seeds: Seq<Key>, depth: u64, i: int, j: int)
    requires
        seeds_linear(seeds, depth),
        0 <= i <= j < seeds.len(),
    ensures
        seeds[i].morton() <= seeds[j].morton(),
        cell_end(seeds[i], depth) <= cell_end(seeds[j], depth),
        i < j ==> cell_end(seeds[i], depth) <= seeds[j].morton(),
        i < j ==> !encloses(seeds[i], seeds[j], depth) && !encloses(seeds[j], seeds[i], depth),
{
    lemma_cell_span(seeds[i].3, depth);
    lemma_cell_span(seeds[j].3, depth);
    if i < j {
        assert(key_lt(seeds[i].key_of(), seeds[j].key_of()));
        lemma_key_order_total(seeds[i], seeds[j]);
        lemma_ancestor_wf(seeds[i], seeds[i].3, depth);
        if encloses(seeds[j], seeds[i], depth) {
            if seeds[j].3 < seeds[i].3 {
                lemma_ancestor_less(seeds[j], seeds[i], depth);
            }
        }
        lemma_stretches_apart(seeds[i], seeds[j], depth);
    }
}

/// The last seed whose stretch begins at or before the index of `c`.
proof fn lemma_find_zone(c: Key, seeds: Seq<Key>, depth: u64, from: int) -> (zone: int)
    requires
        0 <= from < seeds.len(),
        seeds[from].morton() <= c.morton(),
    ensures
        from <= zone < seeds.len(),
        seeds[zone].morton() <= c.morton(),
        zone + 1 < seeds.len() ==> c.morton() < seeds[zone + 1].morton(),
    decreases seeds.len() - from,
{
    if from + 1 < seeds.len() && seeds[from + 1].morton() <= c.morton() {
        lemma_find_zone(c, seeds, depth, from + 1)
    } else {
        from
    }
}

/// No block of the blocktree but those of the zone of `c` holds `c`.
proof fn lemma_other_zones(c: Key, seeds: Seq<Key>, depth: u64, zone: int, other: u64, j: int)
    requires
        seeds_linear(seeds, depth),
        c.wf(depth),
        c.3 == depth,
        0 <= zone < seeds.len(),
        seeds[zone].morton() <= c.morton() < cell_end(seeds.last(), depth),
        zone + 1 < seeds.len() ==> c.morton() < seeds[zone + 1].morton(),
        other <= depth,
        0 <= j < seeds.len(),
        block_at(ancestor_at(c, other, depth), seeds, j, depth),
    ensures
        j == zone,
        ancestor_at(c, other, depth) == seeds[zone] <==> c.morton() < cell_end(seeds[zone], depth),
{
    let v = ancestor_at(c, other, depth);
    lemma_ancestor_wf(c, other, depth);
    lemma_ancestor_interval(c, other, depth);
    lemma_cell_span(other, depth);
    lemma_seeds_in_order(seeds, depth, 0, zone);
    if j < zone {
        lemma_seeds_in_order(seeds, depth, j, zone);
        lemma_seeds_in_order(seeds, depth, j + 1, zone);
    } else if j > zone {
        lemma_seeds_in_order(seeds, depth, zone, j);
        lemma_seeds_in_order(seeds, depth, zone + 1, j);
    }
    if v != seeds[j] {
        lemma_seeds_in_order(seeds, depth, j, j + 1);
        lemma_region_between(v, seeds[j], seeds[j + 1], depth);
    }
}

/// The blocktree of linear seeds is a partition of the stretch of the curve
/// from the first seed to the last: each cell of the deepest level in that
/// stretch lies in exactly one block.
///
/// The seeds of all processes in a row, each process completing the
/// regions up to the first seed of the next, give the seeds of this law:
/// the union of the local blocktrees is the blocktree of all the seeds.
pub proof fn lemma_blocktree_partition(c: Key, seeds: Seq<Key>, depth: u64) -> (level: u64)
    requires
        seeds_linear(seeds, depth),
        seeds.len() > 0,
        c.wf(depth),
        c.3 == depth,
        seeds[0].morton() <= c.morton() < cell_end(seeds.last(), depth),
    ensures
        level <= depth,
        in_blocktree(ancestor_at(c, level, depth), seeds, depth),
        forall|other: u64|
            other <= depth && other != level ==> !in_blocktree(
                #[trigger] ancestor_at(c, other, depth),
                seeds,
                depth,
            ),
{
    let zone = lemma_find_zone(c, seeds, depth, 0);
    let seed = seeds[zone];
    lemma_inside_stretch(c, seed, depth);
    if c.morton() < cell_end(seed, depth) {
        let level = seed.3;
        assert(block_at(ancestor_at(c, level, depth), seeds, zone, depth));
        assert forall|other: u64| other <= depth && other != level implies !in_blocktree(
            #[trigger] ancestor_at(c, other, depth),
            seeds,
            depth,
        ) by {
            let v = ancestor_at(c, other, depth);
            if in_blocktree(v, seeds, depth) {
                let j = choose|j: int| 0 <= j < seeds.len() && #[trigger] block_at(v, seeds, j, depth);
                lemma_other_zones(c, seeds, depth, zone, other, j);
                if v != seed {
                    lemma_seeds_in_order(seeds, depth, zone, zone + 1);
                    lemma_region_between(v, seed, seeds[zone + 1], depth);
                    lemma_ancestor_interval(c, other, depth);
                }
            }
        }
        level
    } else {
        lemma_seeds_in_order(seeds, depth, zone, seeds.len() - 1);
        assert(zone + 1 < seeds.len());
        lemma_seeds_in_order(seeds, depth, zone, zone + 1);
        let level = lemma_region_fills(c, seed, seeds[zone + 1], depth);
        assert(block_at(ancestor_at(c, level, depth), seeds, zone, depth));
        assert forall|other: u64| other <= depth && other != level implies !in_blocktree(
            #[trigger] ancestor_at(c, other, depth),
            seeds,
            depth,
        ) by {
            let v = ancestor_at(c, other, depth);
            if in_blocktree(v, seeds, depth) {
                let j = choose|j: int| 0 <= j < seeds.len() && #[trigger] block_at(v, seeds, j, depth);
                lemma_other_zones(c, seeds, depth, zone, other, j);
            }
        }
        level
    }
}


/// The stretch of the whole domain runs from index 0 to `8^depth`, and the
/// index of every cell of the tree lies in it.
pub proof fn lemma_domain_stretch(c: Key, depth: u64)
    requires
        c.wf(depth),
    ensures
        c.morton() < span(depth as nat),
        cell_end(c, depth) <= span(depth as nat),
{
    lemma_interleave_bound(c.0 as nat, c.1 as nat, c.2 as nat, depth as nat);
    lemma_root(c, depth);
    lemma_stretch_nested(crate::morton::root_key(), c, depth);
    assert(interleave(0, 0, 0) == 0);
}

/// The seed that the first process adds begins the curve.
pub proof fn lemma_first_seed_begins(seed: Key, seeds: Seq<Key>, depth: u64)
    requires
        depth <= crate::morton::MAX_DEPTH,
        crate::blocktree::is_first_seed(seed, seeds, depth),
    ensures
        seed.morton() == 0,
{
    let (least, ancestor) = choose|least: Key, ancestor: Key|
        {
            &&& crate::sorting::is_min_key(seeds, least)
            &&& #[trigger] crate::morton::is_finest_common_ancestor(
                ancestor,
                Key(0, 0, 0, depth),
                least,
                depth,
            )
            &&& seed == Key(ancestor.0, ancestor.1, ancestor.2, (ancestor.3 + 1) as u64)
        };
    lemma_side_divides(0, ancestor.3, depth);
    lemma_align_down(0, crate::morton::side(ancestor.3, depth));
    assert(interleave(0, 0, 0) == 0);
}

/// The seed that the last process adds ends the curve.
pub proof fn lemma_last_seed_ends(seed: Key, seeds: Seq<Key>, depth: u64)
    requires
        1 <= depth <= crate::morton::MAX_DEPTH,
        crate::blocktree::is_last_seed(seed, seeds, depth),
    ensures
        cell_end(seed, depth) == span(depth as nat),
{
    let (greatest, ancestor) = choose|greatest: Key, ancestor: Key|
        {
            &&& crate::sorting::is_max_key(seeds, greatest)
            &&& #[trigger] crate::morton::is_finest_common_ancestor(
                ancestor,
                crate::morton::deepest_last(crate::morton::root_key(), depth),
                greatest,
                depth,
            )
            &&& seed == crate::morton::key_child(ancestor, 7, depth)
        };
    let last = crate::morton::deepest_last(crate::morton::root_key(), depth);
    lemma_side_divides(0, depth, depth);
    lemma_interleave_last(depth as nat);
    crate::arith::lemma_pow2_small(depth as nat);
    assert(last == Key(
        (pow2(depth as nat) - 1) as u64,
        (pow2(depth as nat) - 1) as u64,
        (pow2(depth as nat) - 1) as u64,
        depth,
    ));
    assert(last.wf(depth)) by {
        assert((pow2(depth as nat) - 1) as nat % 1 == 0);
    }
    assert(last.morton() == span(depth as nat) - 1);
    lemma_ancestor_wf(last, ancestor.3, depth);
    lemma_ancestor_interval(last, ancestor.3, depth);
    lemma_domain_stretch(ancestor, depth);
    assert(cell_end(ancestor, depth) == span(depth as nat));
    crate::morton::lemma_child_wf(ancestor, 7, depth);
    crate::morton::lemma_child_interval(ancestor, 7, depth);
    lemma_cell_span(ancestor.3, depth);
}


/// The blocktree of linear seeds is linear: none of its blocks encloses
/// another.
pub proof fn lemma_blocktree_linear(first: Key, second: Key, seeds: Seq<Key>, depth: u64)
    requires
        seeds_linear(seeds, depth),
        in_blocktree(first, seeds, depth),
        in_blocktree(second, seeds, depth),
        first != second,
    ensures
        !encloses(first, second, depth),
{
    if encloses(first, second, depth) {
        let j = choose|j: int| 0 <= j < seeds.len() && #[trigger] block_at(second, seeds, j, depth);
        assert(second.wf(depth));
        let i = choose|i: int| 0 <= i < seeds.len() && #[trigger] block_at(first, seeds, i, depth);
        assert(first.wf(depth));
        let c = Key(second.0, second.1, second.2, depth);
        crate::morton::lemma_first_descendent_wf(second, depth);
        lemma_side_divides(0, second.3, depth);
        lemma_align_down(second.0 as nat, crate::morton::side(second.3, depth));
        lemma_align_down(second.1 as nat, crate::morton::side(second.3, depth));
        lemma_align_down(second.2 as nat, crate::morton::side(second.3, depth));
        assert(ancestor_at(c, second.3, depth) == second);
        lemma_ancestor_of_ancestor(c, first.3, second.3, depth);
        assert(ancestor_at(c, first.3, depth) == first);
        lemma_ancestor_wf(second, second.3, depth);
        assert(first.3 < second.3);
        lemma_cell_span(second.3, depth);
        lemma_seeds_in_order(seeds, depth, 0, j);
        lemma_seeds_in_order(seeds, depth, j, seeds.len() - 1);
        if second != seeds[j] {
            lemma_seeds_in_order(seeds, depth, j, j + 1);
            lemma_seeds_in_order(seeds, depth, j + 1, seeds.len() - 1);
            lemma_region_between(second, seeds[j], seeds[j + 1], depth);
            lemma_cell_span(seeds[j].3, depth);
            lemma_cell_span(seeds[j + 1].3, depth);
        }
        let level = lemma_blocktree_partition(c, seeds, depth);
        if level != first.3 {
            assert(!in_blocktree(ancestor_at(c, first.3, depth), seeds, depth));
        } else {
            assert(!in_blocktree(ancestor_at(c, second.3, depth), seeds, depth));
        }
    }
}


/// The deepest last descendent of a cell is the greatest key in the cell,
/// and the cell itself the least.
pub proof fn lemma_last_descendent_greatest(k: Key, c: Key, depth: u64)
    requires
        k.wf(depth),
        c.wf(depth),
        encloses(k, c, depth),
    ensures
        crate::morton::deepest_last(k, depth).morton() + 1 == cell_end(k, depth),
        !key_lt(crate::morton::deepest_last(k, depth), c),
        !key_lt(c, k),
{
    let t = (depth - k.3) as nat;
    let p = pow2(t);
    let last = crate::morton::deepest_last(k, depth);
    lemma_side_divides(0, k.3, depth);
    crate::arith::lemma_pow2_small(depth as nat);
    lemma_interleave_last(t);
    crate::arith::lemma_multiple_below(k.0 as nat, pow2(depth as nat), p);
    crate::arith::lemma_multiple_below(k.1 as nat, pow2(depth as nat), p);
    crate::arith::lemma_multiple_below(k.2 as nat, pow2(depth as nat), p);
    lemma_last_axis(k.0 as nat, p);
    lemma_last_axis(k.1 as nat, p);
    lemma_last_axis(k.2 as nat, p);
    crate::interleave::lemma_interleave_split(last.0 as nat, last.1 as nat, last.2 as nat, t);
    crate::interleave::lemma_interleave_split(k.0 as nat, k.1 as nat, k.2 as nat, t);
    assert(interleave(0, 0, 0) == 0);
    lemma_stretch_nested(k, c, depth);
    lemma_cell_span(c.3, depth);
    lemma_key_order_total(last, c);
    lemma_key_order_total(k, c);
    lemma_interleave_injective(
        last.0 as nat,
        last.1 as nat,
        last.2 as nat,
        c.0 as nat,
        c.1 as nat,
        c.2 as nat,
    );
}

proof fn lemma_last_axis(x: nat, p: nat)
    requires
        p > 0,
        x % p == 0,
    ensures
        ((x + p - 1) as nat) / p == x / p,
        ((x + p - 1) as nat) % p == p - 1,
{
    let q = x / p;
    vstd::arithmetic::div_mod::lemma_fundamental_div_mod(x as int, p as int);
    assert(x + p - 1 == q * p + (p - 1)) by (nonlinear_arith)
        requires
            x == p * q + 0,
    ;
    vstd::arithmetic::div_mod::lemma_fundamental_div_mod_converse(
        (x + p - 1) as int,
        p as int,
        q as int,
        (p - 1) as int,
    );
}


/// `w` is a block of the local blocktree of the seeds: one of the seeds but
/// the last, or a key of the region between two neighbouring seeds; the
/// last seed is a block only on the last process.
pub open spec fn in_local_blocktree(w: Key, seeds: Seq<Key>, depth: u64, last: bool) -> bool {
    (exists|i: int| 0 <= i < seeds.len() - 1 && #[trigger] block_at(w, seeds, i, depth)) || (last
        && w == seeds.last())
}

/// On the last process the local blocktree is the blocktree of the seeds.
pub proof fn lemma_local_is_whole(w: Key, seeds: Seq<Key>, depth: u64)
    requires
        seeds.len() > 0,
    ensures
        in_local_blocktree(w, seeds, depth, true) <==> in_blocktree(w, seeds, depth),
{
    let last = seeds.len() - 1;
    if in_local_blocktree(w, seeds, depth, true) {
        if w == seeds.last() {
            assert(block_at(w, seeds, last, depth));
        } else {
            let i = choose|i: int| 0 <= i < seeds.len() - 1 && #[trigger] block_at(w, seeds, i, depth);
            assert(block_at(w, seeds, i, depth));
        }
    }
    if in_blocktree(w, seeds, depth) {
        let i = choose|i: int| 0 <= i < seeds.len() && #[trigger] block_at(w, seeds, i, depth);
        if i < last {
            assert(block_at(w, seeds, i, depth));
        }
    }
}

/// Of linear seeds no two are one inside the other, whatever their places.
pub proof fn lemma_linear_members(seeds: Seq<Key>, a: Key, b: Key, depth: u64)
    requires
        seeds_linear(seeds, depth),
        seeds.contains(a),
        seeds.contains(b),
        a != b,
    ensures
        !encloses(a, b, depth),
{
    let i = choose|i: int| 0 <= i < seeds.len() && seeds[i] == a;
    let j = choose|j: int| 0 <= j < seeds.len() && seeds[j] == b;
    if i < j {
        lemma_seeds_in_order(seeds, depth, i, j);
    } else {
        lemma_seeds_in_order(seeds, depth, j, i);
    }
}

/// Seeds in strictly increasing order of which no two are one inside the
/// other are linear.
pub proof fn lemma_linear_by_members(seeds: Seq<Key>, depth: u64)
    requires
        forall|i: int| 0 <= i < seeds.len() ==> (#[trigger] seeds[i]).wf(depth),
        strictly_sorted_by_key(seeds),
        forall|a: Key, b: Key|
            seeds.contains(a) && seeds.contains(b) && a != b ==> !#[trigger] encloses(a, b, depth),
    ensures
        seeds_linear(seeds, depth),
{
    assert forall|i: int, j: int| 0 <= i < j < seeds.len() implies !encloses(
        #[trigger] seeds[i],
        #[trigger] seeds[j],
        depth,
    ) by {
        assert(seeds.contains(seeds[i]) && seeds.contains(seeds[j]));
        assert(key_lt(seeds[i].key_of(), seeds[j].key_of()));
    }
}

/// The last cell of the domain has the last index.
pub proof fn lemma_domain_last(depth: u64)
    requires
        depth <= crate::morton::MAX_DEPTH,
    ensures
        crate::morton::deepest_last(crate::morton::root_key(), depth).wf(depth),
        crate::morton::deepest_last(crate::morton::root_key(), depth).morton() + 1 == span(
            depth as nat,
        ),
{
    let last = crate::morton::deepest_last(crate::morton::root_key(), depth);
    lemma_side_divides(0, depth, depth);
    lemma_interleave_last(depth as nat);
    crate::arith::lemma_pow2_small(depth as nat);
    assert(last == Key(
        (pow2(depth as nat) - 1) as u64,
        (pow2(depth as nat) - 1) as u64,
        (pow2(depth as nat) - 1) as u64,
        depth,
    ));
    assert((pow2(depth as nat) - 1) as nat % 1 == 0);
}

/// The seed that the first process adds and the seeds that it had lie
/// apart: none of them encloses the new seed, nor does it enclose one of
/// them.
pub proof fn lemma_first_seed_apart(
    seed: Key,
    ancestor: Key,
    least: Key,
    s: Key,
    seeds: Seq<Key>,
    depth: u64,
)
    requires
        1 <= depth <= crate::morton::MAX_DEPTH,
        seeds_linear(seeds, depth),
        forall|i: int| 0 <= i < seeds.len() ==> (#[trigger] seeds[i]).3 > 0,
        crate::sorting::is_min_key(seeds, least),
        crate::morton::is_finest_common_ancestor(ancestor, Key(0, 0, 0, depth), least, depth),
        seed == Key(ancestor.0, ancestor.1, ancestor.2, (ancestor.3 + 1) as u64),
        seeds.contains(s),
        !seeds.contains(seed),
    ensures
        !encloses(s, seed, depth),
        !encloses(seed, s, depth),
{
    let first = Key(0, 0, 0, depth);
    let at_least = choose|i: int| 0 <= i < seeds.len() && #[trigger] seeds[i].key_of() == least;
    assert(seeds.contains(seeds[at_least]));
    assert(least.wf(depth) && least.3 > 0);
    let at_s = choose|i: int| 0 <= i < seeds.len() && seeds[i] == s;
    assert(s.wf(depth));
    assert(!key_lt(seeds[at_s].key_of(), least));
    lemma_ancestor_wf(least, ancestor.3, depth);
    lemma_side_divides(0, ancestor.3, depth);
    lemma_align_down(0, crate::morton::side(ancestor.3, depth));
    lemma_side_divides(0, seed.3, depth);
    lemma_align_down(0, crate::morton::side(seed.3, depth));
    crate::morton::lemma_first_child_wf(ancestor, depth);
    crate::morton::lemma_child_wf(ancestor, 0, depth);
    crate::morton::lemma_child_interval(ancestor, 0, depth);
    lemma_ancestor_wf(seed, seed.3, depth);
    lemma_ancestor_wf(least, least.3, depth);
    assert(ancestor_at(first, seed.3, depth) == seed);
    if encloses(s, seed, depth) {
        if s.3 <= ancestor.3 {
            lemma_ancestor_of_ancestor(seed, s.3, ancestor.3, depth);
            lemma_ancestor_of_ancestor(least, s.3, ancestor.3, depth);
            assert(encloses(s, least, depth));
            lemma_linear_members(seeds, s, least, depth);
        }
        assert(false);
    }
    if encloses(seed, s, depth) {
        lemma_stretch_nested(seed, s, depth);
        lemma_cell_span(s.3, depth);
        lemma_ancestor_interval(least, ancestor.3, depth);
        lemma_key_order_total(s, least);
        lemma_interval_ancestor(seed, least, depth);
        assert(encloses(seed, least, depth));
        if seed.3 < least.3 {
            assert(seed.3 <= crate::morton::common_limit(first, least));
        }
        assert(false);
    }
}

/// The seed that the last process adds and the seeds that it had lie apart.
pub proof fn lemma_last_seed_apart(
    seed: Key,
    ancestor: Key,
    greatest: Key,
    s: Key,
    seeds: Seq<Key>,
    depth: u64,
)
    requires
        1 <= depth <= crate::morton::MAX_DEPTH,
        seeds_linear(seeds, depth),
        forall|i: int| 0 <= i < seeds.len() ==> (#[trigger] seeds[i]).3 > 0,
        crate::sorting::is_max_key(seeds, greatest),
        crate::morton::is_finest_common_ancestor(
            ancestor,
            crate::morton::deepest_last(crate::morton::root_key(), depth),
            greatest,
            depth,
        ),
        seed == crate::morton::key_child(ancestor, 7, depth),
        seeds.contains(s),
        !seeds.contains(seed),
    ensures
        !encloses(s, seed, depth),
        !encloses(seed, s, depth),
{
    let last = crate::morton::deepest_last(crate::morton::root_key(), depth);
    lemma_domain_last(depth);
    let at_greatest = choose|i: int|
        0 <= i < seeds.len() && #[trigger] seeds[i].key_of() == greatest;
    assert(seeds.contains(seeds[at_greatest]));
    assert(greatest.wf(depth) && greatest.3 > 0);
    let at_s = choose|i: int| 0 <= i < seeds.len() && seeds[i] == s;
    assert(s.wf(depth));
    assert(!key_lt(greatest, seeds[at_s].key_of()));
    lemma_ancestor_wf(greatest, ancestor.3, depth);
    crate::morton::lemma_child_wf(ancestor, 7, depth);
    crate::morton::lemma_child_interval(ancestor, 7, depth);
    lemma_cell_span(ancestor.3, depth);
    lemma_ancestor_wf(seed, seed.3, depth);
    lemma_ancestor_wf(greatest, greatest.3, depth);
    assert(cell_end(seed, depth) == cell_end(ancestor, depth));
    if encloses(s, seed, depth) {
        if s.3 <= ancestor.3 {
            lemma_ancestor_of_ancestor(seed, s.3, ancestor.3, depth);
            lemma_ancestor_of_ancestor(greatest, s.3, ancestor.3, depth);
            assert(encloses(s, greatest, depth));
            lemma_linear_members(seeds, s, greatest, depth);
        }
        assert(false);
    }
    if encloses(seed, s, depth) {
        lemma_stretch_nested(seed, s, depth);
        lemma_ancestor_interval(greatest, ancestor.3, depth);
        lemma_key_order_total(s, greatest);
        lemma_interval_ancestor(seed, greatest, depth);
        assert(encloses(seed, greatest, depth));
        lemma_ancestor_interval(last, ancestor.3, depth);
        lemma_domain_stretch(ancestor, depth);
        lemma_cell_span(seed.3, depth);
        lemma_interval_ancestor(seed, last, depth);
        if seed.3 < greatest.3 {
            assert(seed.3 <= crate::morton::common_limit(last, greatest));
        }
        assert(false);
    }
}


/// Among linear seeds in strictly increasing order the seed that the last
/// process adds comes last, and the first seed stays the first.
pub proof fn lemma_last_seed_is_last(seed: Key, before: Seq<Key>, after: Seq<Key>, depth: u64)
    requires
        1 <= depth <= crate::morton::MAX_DEPTH,
        before.len() > 0,
        after.len() > 0,
        seeds_linear(before, depth),
        seeds_linear(after, depth),
        crate::blocktree::is_last_seed(seed, before, depth),
        crate::blocktree::with_seed(before, after, seed),
        seed.wf(depth),
    ensures
        after.last() == seed,
        after[0] == before[0],
{
    lemma_last_seed_ends(seed, before, depth);
    let end = after.last();
    assert(after.contains(seed));
    let at = choose|i: int| 0 <= i < after.len() && after[i] == seed;
    if at < after.len() - 1 {
        lemma_seeds_in_order(after, depth, at, after.len() - 1);
        lemma_domain_stretch(end, depth);
        assert(false);
    }
    // the first seed: the least of the seeds before, which the new seed does not precede
    let first = after[0];
    assert(after.contains(first));
    assert(before.contains(before[0]));
    assert(after.contains(before[0]));
    let at_old = choose|i: int| 0 <= i < after.len() && after[i] == before[0];
    if first != before[0] {
        assert(at_old > 0);
        assert(key_lt(after[0].key_of(), after[at_old].key_of()));
        if before.contains(first) {
            let j = choose|j: int| 0 <= j < before.len() && before[j] == first;
            assert(j > 0);
            assert(key_lt(before[0].key_of(), before[j].key_of()));
            lemma_key_order_total(first, before[0]);
        } else {
            assert(first == seed);
            assert(after.len() == 1) by {
                if after.len() > 1 {
                    assert(at == 0);
                }
            }
        }
        assert(false);
    }
}


/// Seeds that begin and end the curve give a blocktree that covers the
/// whole domain: each cell of the deepest level lies in exactly one block.
pub proof fn lemma_blocktree_covers_domain(c: Key, seeds: Seq<Key>, depth: u64) -> (level: u64)
    requires
        seeds_linear(seeds, depth),
        seeds.len() > 0,
        seeds[0].morton() == 0,
        cell_end(seeds.last(), depth) == span(depth as nat),
        c.wf(depth),
        c.3 == depth,
    ensures
        level <= depth,
        in_blocktree(ancestor_at(c, level, depth), seeds, depth),
        forall|other: u64|
            other <= depth && other != level ==> !in_blocktree(
                #[trigger] ancestor_at(c, other, depth),
                seeds,
                depth,
            ),
{
    lemma_domain_stretch(c, depth);
    lemma_blocktree_partition(c, seeds, depth)
}

/// The seeds that the process of the given rank works on, where `seeds`
/// are the seeds of all processes in a row and the seeds of process `r`
/// begin at place `cuts[r]`: its own seeds and, but on the last process,
/// the first seed of the next process.
pub open spec fn local_seeds(seeds: Seq<Key>, cuts: Seq<int>, rank: int) -> Seq<Key> {
    if rank + 1 < cuts.len() {
        seeds.subrange(cuts[rank], cuts[rank + 1] + 1)
    } else {
        seeds.subrange(cuts[rank], seeds.len() as int)
    }
}

/// The places at which the seeds of the processes begin: the first at 0,
/// each after the one before, all among the seeds.
pub open spec fn cuts_fit(seeds: Seq<Key>, cuts: Seq<int>) -> bool {
    &&& cuts.len() > 0
    &&& cuts[0] == 0
    &&& cuts.last() < seeds.len()
    &&& forall|r: int| 0 <= r < cuts.len() - 1 ==> #[trigger] cuts[r] < cuts[r + 1]
}

/// `w` is a block of the local blocktree of the process of the given rank.
pub open spec fn block_of_rank(w: Key, seeds: Seq<Key>, cuts: Seq<int>, rank: int, depth: u64) -> bool {
    in_local_blocktree(w, local_seeds(seeds, cuts, rank), depth, rank + 1 == cuts.len())
}

/// The process whose seeds hold the place `at`.
proof fn lemma_rank_of(seeds: Seq<Key>, cuts: Seq<int>, at: int, from: int) -> (rank: int)
    requires
        cuts_fit(seeds, cuts),
        0 <= from < cuts.len(),
        cuts[from] <= at < seeds.len(),
    ensures
        from <= rank < cuts.len(),
        cuts[rank] <= at,
        rank + 1 < cuts.len() ==> at < cuts[rank + 1],
    decreases cuts.len() - from,
{
    if from + 1 < cuts.len() && cuts[from + 1] <= at {
        lemma_rank_of(seeds, cuts, at, from + 1)
    } else {
        from
    }
}

proof fn lemma_cuts_in_range(seeds: Seq<Key>, cuts: Seq<int>, rank: int)
    requires
        cuts_fit(seeds, cuts),
        0 <= rank < cuts.len(),
    ensures
        0 <= cuts[rank] <= cuts.last() < seeds.len(),
        rank + 1 < cuts.len() ==> cuts[rank] < cuts[rank + 1] <= cuts.last(),
    decreases cuts.len() - rank,
{
    if rank + 1 < cuts.len() {
        lemma_cuts_in_range(seeds, cuts, rank + 1);
    }
    if rank > 0 {
        lemma_cuts_from_zero(seeds, cuts, rank);
    }
}

proof fn lemma_cuts_from_zero(seeds: Seq<Key>, cuts: Seq<int>, rank: int)
    requires
        cuts_fit(seeds, cuts),
        0 <= rank < cuts.len(),
    ensures
        0 <= cuts[rank],
    decreases rank,
{
    if rank > 0 {
        lemma_cuts_from_zero(seeds, cuts, rank - 1);
        assert(cuts[rank - 1] < cuts[rank]);
    }
}

/// The union of the local blocktrees of all processes is the blocktree of
/// all the seeds: a key is a block of some process exactly where it is a
/// block of the blocktree of the seeds of all processes in a row.
pub proof fn lemma_union_of_local_blocktrees(w: Key, seeds: Seq<Key>, cuts: Seq<int>, depth: u64)
    requires
        cuts_fit(seeds, cuts),
    ensures
        in_blocktree(w, seeds, depth) <==> exists|rank: int|
            0 <= rank < cuts.len() && #[trigger] block_of_rank(w, seeds, cuts, rank, depth),
{
    if in_blocktree(w, seeds, depth) {
        let at = choose|i: int| 0 <= i < seeds.len() && #[trigger] block_at(w, seeds, i, depth);
        let rank = lemma_rank_of(seeds, cuts, at, 0);
        lemma_cuts_in_range(seeds, cuts, rank);
        let local = local_seeds(seeds, cuts, rank);
        let i = at - cuts[rank];
        if rank + 1 < cuts.len() || at + 1 < seeds.len() {
            assert(local[i] == seeds[at]);
            assert(local[i + 1] == seeds[at + 1]);
            assert(block_at(w, local, i, depth));
        } else {
            assert(w == seeds[at]);
            assert(local.last() == seeds.last());
        }
        assert(block_of_rank(w, seeds, cuts, rank, depth));
    }
    if exists|rank: int|
        0 <= rank < cuts.len() && #[trigger] block_of_rank(w, seeds, cuts, rank, depth) {
        let rank = choose|rank: int|
            0 <= rank < cuts.len() && #[trigger] block_of_rank(w, seeds, cuts, rank, depth);
        lemma_cuts_in_range(seeds, cuts, rank);
        let local = local_seeds(seeds, cuts, rank);
        if rank + 1 == cuts.len() && w == local.last() {
            assert(local.last() == seeds.last());
            assert(block_at(w, seeds, seeds.len() - 1, depth));
        } else {
            let i = choose|i: int| 0 <= i < local.len() - 1 && #[trigger] block_at(w, local, i, depth);
            let at = cuts[rank] + i;
            assert(local[i] == seeds[at]);
            assert(local[i + 1] == seeds[at + 1]);
            assert(block_at(w, seeds, at, depth));
        }
    }
}


/// Of the cells around `c`, from the root down to `c` itself, the one at
/// `level` is among the blocks and no other is.
pub open spec fn covers_once(blocks: Seq<Key>, c: Key, level: u64, depth: u64) -> bool {
    &&& level <= depth
    &&& blocks.contains(ancestor_at(c, level, depth))
    &&& forall|other: u64|
        other <= depth && other != level ==> !blocks.contains(
            #[trigger] ancestor_at(c, other, depth),
        )
}

/// The blocks are a partition of the domain: each cell of the deepest
/// level lies in exactly one of them.
pub open spec fn is_partition(blocks: Seq<Key>, depth: u64) -> bool {
    forall|c: Key|
        #![trigger c.wf(depth)]
        c.wf(depth) && c.3 == depth ==> exists|level: u64| #[trigger]
            covers_once(blocks, c, level, depth)
}

/// None of the blocks encloses another.
pub open spec fn is_linear(blocks: Seq<Key>, depth: u64) -> bool {
    forall|a: Key, b: Key|
        blocks.contains(a) && blocks.contains(b) && a != b ==> !#[trigger] encloses(a, b, depth)
}

/// Blocks that are the blocktree of linear seeds, or a part of it, are
/// linear; the whole blocktree of seeds that begin and end the curve is a
/// partition of the domain.
pub proof fn lemma_blocks_partition(blocks: Seq<Key>, seeds: Seq<Key>, depth: u64, last: bool)
    requires
        seeds.len() > 0,
        seeds_linear(seeds, depth),
        forall|w: Key| blocks.contains(w) <==> #[trigger] in_local_blocktree(w, seeds, depth, last),
    ensures
        is_linear(blocks, depth),
        last && seeds[0].morton() == 0 && cell_end(seeds.last(), depth) == span(depth as nat)
            ==> is_partition(blocks, depth),
{
    assert forall|w: Key| blocks.contains(w) implies in_blocktree(w, seeds, depth) by {
        assert(in_local_blocktree(w, seeds, depth, last));
        lemma_local_is_whole(w, seeds, depth);
        if !(last && w == seeds.last()) {
            let i = choose|i: int| 0 <= i < seeds.len() - 1 && #[trigger] block_at(w, seeds, i, depth);
            assert(block_at(w, seeds, i, depth));
        }
    }
    assert forall|a: Key, b: Key|
        blocks.contains(a) && blocks.contains(b) && a != b implies !#[trigger] encloses(
        a,
        b,
        depth,
    ) by {
        lemma_blocktree_linear(a, b, seeds, depth);
    }
    if last && seeds[0].morton() == 0 && cell_end(seeds.last(), depth) == span(depth as nat) {
        assert forall|c: Key| #![trigger c.wf(depth)] c.wf(depth) && c.3 == depth implies exists|
            level: u64,
        | #[trigger] covers_once(blocks, c, level, depth) by {
            let level = lemma_blocktree_covers_domain(c, seeds, depth);
            assert forall|other: u64| other <= depth implies (blocks.contains(
                #[trigger] ancestor_at(c, other, depth),
            ) <==> in_blocktree(ancestor_at(c, other, depth), seeds, depth)) by {
                let v = ancestor_at(c, other, depth);
                lemma_local_is_whole(v, seeds, depth);
                assert(blocks.contains(v) <==> in_local_blocktree(v, seeds, depth, last));
            }
            assert(covers_once(blocks, c, level, depth));
        }
    }
}


/// The blocks follow the seeds: a block at an earlier seed comes before a
/// block at a later seed.
pub proof fn lemma_blocks_in_order(w1: Key, w2: Key, seeds: Seq<Key>, i: int, j: int, depth: u64)
    requires
        strictly_sorted_by_key(seeds),
        0 <= i < j < seeds.len(),
        block_at(w1, seeds, i, depth),
        block_at(w2, seeds, j, depth),
    ensures
        key_lt(w1, w2),
{
    assert(key_lt(seeds[i].key_of(), seeds[i + 1].key_of()));
    if i + 1 < j {
        assert(key_lt(seeds[i + 1].key_of(), seeds[j].key_of()));
    }
}

proof fn lemma_cuts_ascend(seeds: Seq<Key>, cuts: Seq<int>, lower: int, upper: int)
    requires
        cuts_fit(seeds, cuts),
        0 <= lower <= upper < cuts.len(),
    ensures
        cuts[lower] <= cuts[upper],
    decreases upper - lower,
{
    if lower < upper {
        lemma_cuts_ascend(seeds, cuts, lower, upper - 1);
        assert(cuts[upper - 1] < cuts[upper]);
    }
}

/// The processes hold consecutive parts of the blocktree: each block of a
/// process comes before each block of a process of higher rank.
pub proof fn lemma_ranks_in_order(
    w1: Key,
    w2: Key,
    seeds: Seq<Key>,
    cuts: Seq<int>,
    lower: int,
    upper: int,
    depth: u64,
)
    requires
        cuts_fit(seeds, cuts),
        strictly_sorted_by_key(seeds),
        0 <= lower < upper < cuts.len(),
        block_of_rank(w1, seeds, cuts, lower, depth),
        block_of_rank(w2, seeds, cuts, upper, depth),
    ensures
        key_lt(w1, w2),
{
    lemma_cuts_in_range(seeds, cuts, lower);
    lemma_cuts_in_range(seeds, cuts, upper);
    lemma_cuts_ascend(seeds, cuts, lower + 1, upper);
    let first = local_seeds(seeds, cuts, lower);
    let second = local_seeds(seeds, cuts, upper);
    let i = choose|i: int| 0 <= i < first.len() - 1 && #[trigger] block_at(w1, first, i, depth);
    let at1 = cuts[lower] + i;
    assert(first[i] == seeds[at1]);
    assert(first[i + 1] == seeds[at1 + 1]);
    assert(block_at(w1, seeds, at1, depth));
    if upper + 1 == cuts.len() && w2 == second.last() {
        assert(second.last() == seeds.last());
        assert(block_at(w2, seeds, seeds.len() - 1, depth));
        lemma_blocks_in_order(w1, w2, seeds, at1, seeds.len() - 1, depth);
    } else {
        let j = choose|j: int| 0 <= j < second.len() - 1 && #[trigger] block_at(w2, second, j, depth);
        let at2 = cuts[upper] + j;
        assert(second[j] == seeds[at2]);
        assert(second[j + 1] == seeds[at2 + 1]);
        assert(block_at(w2, seeds, at2, depth));
        lemma_blocks_in_order(w1, w2, seeds, at1, at2, depth);
    }
}


/// Each seed comes before the next and does not enclose it.
pub open spec fn neighbours_apart(seeds: Seq<Key>, depth: u64) -> bool {
    forall|i: int|
        0 <= i < seeds.len() - 1 ==> key_lt(#[trigger] seeds[i], seeds[i + 1]) && !encloses(
            seeds[i],
            seeds[i + 1],
            depth,
        )
}

proof fn lemma_neighbours_in_order(seeds: Seq<Key>, depth: u64, i: int, j: int)
    requires
        forall|k: int| 0 <= k < seeds.len() ==> (#[trigger] seeds[k]).wf(depth),
        neighbours_apart(seeds, depth),
        0 <= i < j < seeds.len(),
    ensures
        cell_end(seeds[i], depth) <= seeds[j].morton(),
        key_lt(seeds[i], seeds[j]),
    decreases j - i,
{
    let a = seeds[j - 1];
    let b = seeds[j];
    assert(key_lt(a, b) && !encloses(a, b, depth));
    lemma_key_order_total(a, b);
    lemma_ancestor_wf(a, a.3, depth);
    if encloses(b, a, depth) {
        if b.3 < a.3 {
            lemma_ancestor_less(b, a, depth);
        }
        assert(false);
    }
    lemma_stretches_apart(a, b, depth);
    lemma_cell_span(a.3, depth);
    lemma_cell_span(b.3, depth);
    if i < j - 1 {
        lemma_neighbours_in_order(seeds, depth, i, j - 1);
    }
    lemma_cell_span(seeds[i].3, depth);
}

/// Seeds of which each comes before the next without enclosing it are
/// linear.
pub proof fn lemma_neighbours_linear(seeds: Seq<Key>, depth: u64)
    requires
        forall|k: int| 0 <= k < seeds.len() ==> (#[trigger] seeds[k]).wf(depth),
        neighbours_apart(seeds, depth),
    ensures
        seeds_linear(seeds, depth),
{
    assert forall|i: int, j: int| 0 <= i < j < seeds.len() implies key_lt(
        #[trigger] seeds[i].key_of(),
        #[trigger] seeds[j].key_of(),
    ) by {
        lemma_neighbours_in_order(seeds, depth, i, j);
    }
    assert forall|i: int, j: int| 0 <= i < j < seeds.len() implies !encloses(
        #[trigger] seeds[i],
        #[trigger] seeds[j],
        depth,
    ) by {
        lemma_neighbours_in_order(seeds, depth, i, j);
        if encloses(seeds[i], seeds[j], depth) {
            lemma_stretch_nested(seeds[i], seeds[j], depth);
            lemma_cell_span(seeds[j].3, depth);
        }
    }
}

/// Whether the seeds are linear: cells of the tree in strictly increasing
/// order, none enclosing another.
pub fn are_linear_seeds(seeds: &[Key], depth: &u64) -> (linear: bool)
    ensures
        linear == seeds_linear(seeds@, *depth),
{
    if !crate::morton::are_valid_keys(seeds, depth) {
        return false;
    }
    if seeds.len() < 2 {
        return true;
    }
    let mut i: usize = 0;
    while i < seeds.len() - 1
        invariant
            seeds@.len() >= 2,
            i <= seeds@.len() - 1,
            forall|k: int| 0 <= k < seeds@.len() ==> (#[trigger] seeds@[k]).wf(*depth),
            forall|k: int|
                0 <= k < i ==> key_lt(#[trigger] seeds@[k], seeds@[k + 1]) && !encloses(
                    seeds@[k],
                    seeds@[k + 1],
                    *depth,
                ),
        decreases seeds.len() - i,
    {
        let a = seeds[i];
        let b = seeds[i + 1];
        if !crate::morton::less_than(&a, &b) {
            proof {
                if seeds_linear(seeds@, *depth) {
                    assert(key_lt(seeds@[i as int].key_of(), seeds@[i + 1].key_of()));
                }
            }
            return false;
        }
        if a.3 <= b.3 {
            let above = crate::morton::find_ancestor_at(&b, a.3, depth);
            if above == a {
                proof {
                    assert(encloses(seeds@[i as int], seeds@[i + 1], *depth));
                }
                return false;
            }
        }
        i = i + 1;
    }
    proof {
        lemma_neighbours_linear(seeds@, *depth);
    }
    true
}

/// Where the seeds that each process works on are linear, the seeds of all
/// processes in a row are linear.
pub proof fn lemma_linear_from_local(seeds: Seq<Key>, cuts: Seq<int>, depth: u64)
    requires
        cuts_fit(seeds, cuts),
        forall|rank: int|
            0 <= rank < cuts.len() ==> seeds_linear(#[trigger] local_seeds(seeds, cuts, rank), depth),
    ensures
        seeds_linear(seeds, depth),
{
    assert forall|k: int| 0 <= k < seeds.len() implies (#[trigger] seeds[k]).wf(depth) by {
        let rank = lemma_rank_of(seeds, cuts, k, 0);
        lemma_cuts_in_range(seeds, cuts, rank);
        let local = local_seeds(seeds, cuts, rank);
        assert(seeds_linear(local, depth));
        assert(local[k - cuts[rank]] == seeds[k]);
    }
    assert forall|k: int| 0 <= k < seeds.len() - 1 implies key_lt(#[trigger] seeds[k], seeds[k + 1])
        && !encloses(seeds[k], seeds[k + 1], depth) by {
        let rank = lemma_rank_of(seeds, cuts, k, 0);
        lemma_cuts_in_range(seeds, cuts, rank);
        let local = local_seeds(seeds, cuts, rank);
        assert(seeds_linear(local, depth));
        let i = k - cuts[rank];
        assert(local[i] == seeds[k]);
        assert(local[i + 1] == seeds[k + 1]);
        assert(key_lt(local[i].key_of(), local[i + 1].key_of()));
        assert(!encloses(local[i], local[i + 1], depth));
    }
    lemma_neighbours_linear(seeds, depth);
}


/// The union of the local blocktrees is a partition of the domain, where
/// the seeds that each process works on are linear and the seeds of all
/// processes begin and end the curve: each cell of the deepest level lies
/// in a block of some process at exactly one level.
pub proof fn lemma_union_partition(c: Key, seeds: Seq<Key>, cuts: Seq<int>, depth: u64) -> (level:
    u64)
    requires
        cuts_fit(seeds, cuts),
        forall|rank: int|
            0 <= rank < cuts.len() ==> seeds_linear(#[trigger] local_seeds(seeds, cuts, rank), depth),
        seeds[0].morton() == 0,
        cell_end(seeds.last(), depth) == span(depth as nat),
        c.wf(depth),
        c.3 == depth,
    ensures
        level <= depth,
        exists|rank: int|
            0 <= rank < cuts.len() && #[trigger] block_of_rank(
                ancestor_at(c, level, depth),
                seeds,
                cuts,
                rank,
                depth,
            ),
        forall|other: u64, rank: int|
            other <= depth && other != level && 0 <= rank < cuts.len() ==> !#[trigger] block_of_rank(
                ancestor_at(c, other, depth),
                seeds,
                cuts,
                rank,
                depth,
            ),
{
    lemma_cuts_in_range(seeds, cuts, 0);
    lemma_linear_from_local(seeds, cuts, depth);
    let level = lemma_blocktree_covers_domain(c, seeds, depth);
    lemma_union_of_local_blocktrees(ancestor_at(c, level, depth), seeds, cuts, depth);
    assert forall|other: u64, rank: int|
        other <= depth && other != level && 0 <= rank < cuts.len() implies !#[trigger] block_of_rank(
        ancestor_at(c, other, depth),
        seeds,
        cuts,
        rank,
        depth,
    ) by {
        lemma_union_of_local_blocktrees(ancestor_at(c, other, depth), seeds, cuts, depth);
        assert(!in_blocktree(ancestor_at(c, other, depth), seeds, depth));
    }
    level
}

} // verus!
