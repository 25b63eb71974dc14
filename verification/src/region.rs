use vstd::prelude::*;
use vstd::seq_lib::{
    lemma_no_dup_in_concat, lemma_seq_concat_contains_all_elements, lemma_seq_contains_after_push,
    to_multiset_contains,
};
use crate::morton::children_spec;
use crate::sorting::{sorted_by_key, strictly_sorted_by_key};
use crate::morton::{
    ancestor_at, ancestors_spec, cell_span, common_limit, is_ancestor, is_finest_common_ancestor,
    key_child, key_lt, key_parent, lemma_ancestor_interval, lemma_ancestor_less,
    lemma_ancestor_of_ancestor, lemma_ancestor_wf, lemma_cell_span, lemma_child_interval,
    lemma_child_of_parent, lemma_child_wf, lemma_key_order_total, lemma_parent_wf, lemma_root,
    octant_of, Key, Keyed,
};

verus! {

/// `q` is on the list of ancestors of `k`: a proper ancestor of `k`, or the
/// root where `k` is the root.
pub open spec fn listed_ancestor(q: Key, k: Key, depth: u64) -> bool {
    is_ancestor(q, k, depth) || (k.3 == 0 && q == k)
}

/// The list of ancestors of a key holds what `listed_ancestor` says.
pub proof fn lemma_listed(q: Key, k: Key, depth: u64)
    requires
        k.wf(depth),
    ensures
        ancestors_spec(k, depth).contains(q) <==> listed_ancestor(q, k, depth),
{
    let list = ancestors_spec(k, depth);
    if k.3 == 0 {
        assert(list[0] == k);
    } else {
        if is_ancestor(q, k, depth) {
            assert(list[k.3 - 1 - q.3] == q);
        }
    }
}

/// `w` belongs to the region between `a` and `b`: it lies strictly between
/// them, does not enclose `b`, and is as coarse as can be, its parent
/// enclosing `a` or `b`.
pub open spec fn in_region(w: Key, a: Key, b: Key, depth: u64) -> bool {
    &&& w.wf(depth)
    &&& w.3 >= 1
    &&& key_lt(a, w)
    &&& key_lt(w, b)
    &&& !listed_ancestor(w, b, depth)
    &&& (listed_ancestor(key_parent(w, depth), a, depth) || listed_ancestor(
        key_parent(w, depth),
        b,
        depth,
    ))
}

/// `region` is the region between `a` and `b`: its keys, once each, in
/// Morton order.
pub open spec fn is_region(region: Seq<Key>, a: Key, b: Key, depth: u64) -> bool {
    &&& strictly_sorted_by_key(region)
    &&& forall|w: Key| #[trigger] region.contains(w) <==> in_region(w, a, b, depth)
}

/// Two keys have one region between them.
pub proof fn lemma_region_unique(first: Seq<Key>, second: Seq<Key>, a: Key, b: Key, depth: u64)
    requires
        is_region(first, a, b, depth),
        is_region(second, a, b, depth),
    ensures
        first == second,
{
    assert forall|key: Key| first.contains(key) <==> second.contains(key) by {
        assert(first.contains(key) <==> in_region(key, a, b, depth));
        assert(second.contains(key) <==> in_region(key, a, b, depth));
    }
    crate::sorting::lemma_strictly_sorted_unique(first, second);
}

/// The cells on the two chains of ancestors are cells of the tree.
pub proof fn lemma_listed_wf(q: Key, k: Key, depth: u64)
    requires
        k.wf(depth),
        listed_ancestor(q, k, depth),
    ensures
        q.wf(depth),
        q == ancestor_at(k, q.3, depth),
        q.3 < depth || depth == 0,
        q.3 > 0 ==> listed_ancestor(key_parent(q, depth), k, depth),
        q.3 > 0 ==> q.3 < k.3,
{
    lemma_ancestor_wf(k, q.3, depth);
    if q.3 > 0 {
        lemma_ancestor_of_ancestor(k, (q.3 - 1) as u64, q.3, depth);
    }
}

/// The finest common ancestor is on both chains, and above it the chains
/// are one.
pub proof fn lemma_fca_listed(fca: Key, a: Key, b: Key, depth: u64)
    requires
        a.wf(depth),
        b.wf(depth),
        is_finest_common_ancestor(fca, a, b, depth),
    ensures
        listed_ancestor(fca, a, depth),
        listed_ancestor(fca, b, depth),
        fca.wf(depth),
        forall|level: u64|
            level <= fca.3 ==> ancestor_at(a, level, depth) == #[trigger] ancestor_at(
                fca,
                level,
                depth,
            ) && ancestor_at(b, level, depth) == ancestor_at(fca, level, depth),
{
    lemma_root(a, depth);
    lemma_root(b, depth);
    lemma_ancestor_wf(a, fca.3, depth);
    assert forall|level: u64| level <= fca.3 implies ancestor_at(a, level, depth)
        == #[trigger] ancestor_at(fca, level, depth) && ancestor_at(b, level, depth)
        == ancestor_at(fca, level, depth) by {
        lemma_ancestor_of_ancestor(a, level, fca.3, depth);
        lemma_ancestor_of_ancestor(b, level, fca.3, depth);
    }
}

/// The region lies below the finest common ancestor: the parent of each of
/// its keys is that ancestor or lies below it.
pub proof fn lemma_region_below_fca(w: Key, fca: Key, a: Key, b: Key, depth: u64)
    requires
        a.wf(depth),
        b.wf(depth),
        is_finest_common_ancestor(fca, a, b, depth),
        in_region(w, a, b, depth),
    ensures
        key_parent(w, depth).3 >= fca.3,
{
    let p = key_parent(w, depth);
    lemma_parent_wf(w, depth);
    if p.3 < fca.3 {
        lemma_fca_listed(fca, a, b, depth);
        lemma_root(a, depth);
        lemma_root(b, depth);
        let f = ancestor_at(fca, w.3, depth);
        assert(p == ancestor_at(fca, p.3, depth));
        assert(f == ancestor_at(a, w.3, depth) && f == ancestor_at(b, w.3, depth));
        lemma_ancestor_wf(fca, w.3, depth);
        lemma_ancestor_of_ancestor(fca, p.3, w.3, depth);
        assert(key_parent(f, depth) == p);
        if w == f {
            assert(is_ancestor(w, b, depth));
        } else {
            lemma_child_of_parent(w, depth);
            lemma_child_of_parent(f, depth);
            let n = octant_of(w, depth);
            let m = octant_of(f, depth);
            lemma_child_interval(p, n, depth);
            lemma_child_interval(p, m, depth);
            lemma_ancestor_interval(a, w.3, depth);
            lemma_ancestor_interval(b, w.3, depth);
            lemma_cell_span(w.3, depth);
            let s = cell_span(w.3, depth) as int;
            if n < m {
                assert(n * s + s <= m * s) by (nonlinear_arith)
                    requires
                        n < m,
                        s > 0,
                ;
                assert(key_lt(w, a));
            } else {
                assert(m * s + s <= n * s) by (nonlinear_arith)
                    requires
                        m < n,
                        s > 0,
                ;
                assert(key_lt(b, w));
            }
        }
    }
}

/// A cell on one of the chains is not in the region: it encloses `b`, or it
/// encloses `a` and so comes before it.
pub proof fn lemma_chain_not_in_region(q: Key, a: Key, b: Key, depth: u64)
    requires
        a.wf(depth),
        b.wf(depth),
        listed_ancestor(q, a, depth) || listed_ancestor(q, b, depth),
    ensures
        !(key_lt(a, q) && key_lt(q, b) && !listed_ancestor(q, b, depth)),
{
    if !listed_ancestor(q, b, depth) {
        if is_ancestor(q, a, depth) {
            lemma_ancestor_less(q, a, depth);
        }
    }
}

/// The eight children of a cell are eight different keys.
pub proof fn lemma_children_distinct(k: Key, n: int, m: int, depth: u64)
    requires
        k.wf(depth),
        k.3 < depth,
        0 <= n < 8,
        0 <= m < 8,
        n != m,
    ensures
        key_child(k, n, depth) != key_child(k, m, depth),
{
    lemma_child_interval(k, n, depth);
    lemma_child_interval(k, m, depth);
    lemma_cell_span((k.3 + 1) as u64, depth);
    let s = cell_span((k.3 + 1) as u64, depth) as int;
    assert(n * s != m * s) by (nonlinear_arith)
        requires
            n != m,
            s > 0,
    ;
}


/// The test by which the refinement keeps a cell for the region.
pub open spec fn emits(w: Key, a: Key, b: Key, depth: u64) -> bool {
    key_lt(a, w) && key_lt(w, b) && !listed_ancestor(w, b, depth)
}

/// The cell lies on one of the two chains of ancestors.
pub open spec fn on_chain(q: Key, a: Key, b: Key, depth: u64) -> bool {
    listed_ancestor(q, a, depth) || listed_ancestor(q, b, depth)
}

/// The cells that the refinement opens: those on the chains from the finest
/// common ancestor downwards.
pub open spec fn opened(q: Key, fca: Key, a: Key, b: Key, depth: u64) -> bool {
    q.3 >= fca.3 && on_chain(q, a, b, depth)
}

/// The working list at `level` holds, once each, the children of the opened
/// cells one level up.
pub(crate) closed spec fn frontier_inv(
    frontier: Seq<Key>,
    level: u64,
    fca: Key,
    a: Key,
    b: Key,
    depth: u64,
) -> bool {
    &&& frontier.no_duplicates()
    &&& forall|c: Key| #[trigger]
        frontier.contains(c) <==> (c.wf(depth) && c.3 == level && opened(
            key_parent(c, depth),
            fca,
            a,
            b,
            depth,
        ))
}

/// The keys found so far are, once each, the keys of the region above `level`.
pub(crate) closed spec fn emitted_inv(out: Seq<Key>, level: u64, a: Key, b: Key, depth: u64) -> bool {
    &&& out.no_duplicates()
    &&& forall|w: Key| #[trigger] out.contains(w) <==> (in_region(w, a, b, depth) && w.3 < level)
}

/// What holds while one level of the working list is gone through, the
/// first `i` of its cells done.
pub(crate) closed spec fn round_inv(
    frontier: Seq<Key>,
    i: int,
    before: Seq<Key>,
    out: Seq<Key>,
    next: Seq<Key>,
    level: u64,
    a: Key,
    b: Key,
    depth: u64,
) -> bool {
    &&& 0 <= i <= frontier.len()
    &&& out.no_duplicates()
    &&& next.no_duplicates()
    &&& forall|w: Key| #[trigger]
        out.contains(w) <==> before.contains(w) || (frontier.take(i).contains(w) && emits(
            w,
            a,
            b,
            depth,
        ))
    &&& forall|c: Key| #[trigger]
        next.contains(c) <==> (c.wf(depth) && c.3 == level + 1 && frontier.take(i).contains(
            key_parent(c, depth),
        ) && !emits(key_parent(c, depth), a, b, depth) && on_chain(
            key_parent(c, depth),
            a,
            b,
            depth,
        ))
}

proof fn lemma_take_step_contains(s: Seq<Key>, i: int, x: Key)
    requires
        0 <= i < s.len(),
    ensures
        s.take(i + 1).contains(x) <==> s.take(i).contains(x) || s[i] == x,
        s.no_duplicates() ==> !s.take(i).contains(s[i]),
{
    assert(s.take(i + 1) =~= s.take(i).push(s[i]));
    lemma_seq_contains_after_push(s.take(i), s[i], x);
    if s.no_duplicates() && s.take(i).contains(s[i]) {
        let j = choose|j: int| 0 <= j < s.take(i).len() && s.take(i)[j] == s[i];
        assert(s[j] == s[i]);
    }
}

/// Before the first level: the children of the finest common ancestor, and
/// nothing found yet.
pub(crate) proof fn lemma_region_start(fca: Key, a: Key, b: Key, depth: u64)
    requires
        a.wf(depth),
        b.wf(depth),
        is_finest_common_ancestor(fca, a, b, depth),
    ensures
        fca.3 < depth ==> frontier_inv(children_spec(fca, depth), (fca.3 + 1) as u64, fca, a, b, depth),
        emitted_inv(Seq::empty(), (fca.3 + 1) as u64, a, b, depth),
        fca.3 >= depth ==> forall|w: Key| !in_region(w, a, b, depth),
{
    lemma_fca_listed(fca, a, b, depth);
    let none = Seq::<Key>::empty();
    assert forall|w: Key| #[trigger] none.contains(w) <==> (in_region(w, a, b, depth) && w.3 < fca.3 + 1) by {
        if in_region(w, a, b, depth) {
            lemma_region_below_fca(w, fca, a, b, depth);
            lemma_parent_wf(w, depth);
        }
    }
    if fca.3 >= depth {
        assert forall|w: Key| !in_region(w, a, b, depth) by {
            if in_region(w, a, b, depth) {
                lemma_region_below_fca(w, fca, a, b, depth);
                lemma_parent_wf(w, depth);
            }
        }
    } else {
        let kids = children_spec(fca, depth);
        assert forall|i: int, j: int| 0 <= i < kids.len() && 0 <= j < kids.len() && i != j implies kids[i] != kids[j] by {
            lemma_children_distinct(fca, i, j, depth);
        }
        assert forall|c: Key| #[trigger]
            kids.contains(c) <==> (c.wf(depth) && c.3 == fca.3 + 1 && opened(
                key_parent(c, depth),
                fca,
                a,
                b,
                depth,
            )) by {
            if kids.contains(c) {
                let n = choose|n: int| 0 <= n < kids.len() && kids[n] == c;
                lemma_child_wf(fca, n, depth);
            }
            if c.wf(depth) && c.3 == fca.3 + 1 && opened(key_parent(c, depth), fca, a, b, depth) {
                let q = key_parent(c, depth);
                lemma_parent_wf(c, depth);
                if listed_ancestor(q, a, depth) {
                    lemma_listed_wf(q, a, depth);
                } else {
                    lemma_listed_wf(q, b, depth);
                }
                assert(q == fca);
                lemma_child_of_parent(c, depth);
            }
        }
    }
}

/// At the start of a level nothing of it is done.
pub(crate) proof fn lemma_round_start(frontier: Seq<Key>, out: Seq<Key>, level: u64, a: Key, b: Key, depth: u64)
    requires
        out.no_duplicates(),
    ensures
        round_inv(frontier, 0, out, out, Seq::empty(), level, a, b, depth),
{
    assert(frontier.take(0) =~= Seq::<Key>::empty());
}

/// A cell that passes the test joins the keys found.
pub(crate) proof fn lemma_round_emit(
    frontier: Seq<Key>,
    i: int,
    before: Seq<Key>,
    out: Seq<Key>,
    next: Seq<Key>,
    level: u64,
    fca: Key,
    a: Key,
    b: Key,
    depth: u64,
)
    requires
        frontier_inv(frontier, level, fca, a, b, depth),
        emitted_inv(before, level, a, b, depth),
        round_inv(frontier, i, before, out, next, level, a, b, depth),
        i < frontier.len(),
        emits(frontier[i], a, b, depth),
    ensures
        round_inv(frontier, i + 1, before, out.push(frontier[i]), next, level, a, b, depth),
{
    let w = frontier[i];
    let grown = out.push(w);
    assert(frontier.contains(w));
    lemma_take_step_contains(frontier, i, w);
    assert(!out.contains(w));
    assert forall|x: Key| #[trigger]
        grown.contains(x) <==> before.contains(x) || (frontier.take(i + 1).contains(x) && emits(
            x,
            a,
            b,
            depth,
        )) by {
        lemma_seq_contains_after_push(out, w, x);
        lemma_take_step_contains(frontier, i, x);
    }
    assert forall|c: Key| #[trigger]
        next.contains(c) <==> (c.wf(depth) && c.3 == level + 1 && frontier.take(i + 1).contains(
            key_parent(c, depth),
        ) && !emits(key_parent(c, depth), a, b, depth) && on_chain(
            key_parent(c, depth),
            a,
            b,
            depth,
        )) by {
        lemma_take_step_contains(frontier, i, key_parent(c, depth));
    }
    assert(grown.no_duplicates()) by {
        assert forall|p: int, q: int| 0 <= p < grown.len() && 0 <= q < grown.len() && p != q implies grown[p] != grown[q] by {
            if p == out.len() {
                assert(out.contains(out[q]));
            } else if q == out.len() {
                assert(out.contains(out[p]));
            }
        }
    }
}

/// A cell that neither passes the test nor lies on a chain is dropped.
pub(crate) proof fn lemma_round_skip(
    frontier: Seq<Key>,
    i: int,
    before: Seq<Key>,
    out: Seq<Key>,
    next: Seq<Key>,
    level: u64,
    a: Key,
    b: Key,
    depth: u64,
)
    requires
        round_inv(frontier, i, before, out, next, level, a, b, depth),
        i < frontier.len(),
        !emits(frontier[i], a, b, depth),
        !on_chain(frontier[i], a, b, depth),
    ensures
        round_inv(frontier, i + 1, before, out, next, level, a, b, depth),
{
    assert forall|x: Key| #[trigger]
        out.contains(x) <==> before.contains(x) || (frontier.take(i + 1).contains(x) && emits(
            x,
            a,
            b,
            depth,
        )) by {
        lemma_take_step_contains(frontier, i, x);
    }
    assert forall|c: Key| #[trigger]
        next.contains(c) <==> (c.wf(depth) && c.3 == level + 1 && frontier.take(i + 1).contains(
            key_parent(c, depth),
        ) && !emits(key_parent(c, depth), a, b, depth) && on_chain(
            key_parent(c, depth),
            a,
            b,
            depth,
        )) by {
        lemma_take_step_contains(frontier, i, key_parent(c, depth));
    }
}

/// A cell on a chain is opened: its children join the next working list.
pub(crate) proof fn lemma_round_expand(
    frontier: Seq<Key>,
    i: int,
    before: Seq<Key>,
    out: Seq<Key>,
    next: Seq<Key>,
    level: u64,
    fca: Key,
    a: Key,
    b: Key,
    depth: u64,
)
    requires
        a.wf(depth),
        b.wf(depth),
        frontier_inv(frontier, level, fca, a, b, depth),
        round_inv(frontier, i, before, out, next, level, a, b, depth),
        i < frontier.len(),
        !emits(frontier[i], a, b, depth),
        on_chain(frontier[i], a, b, depth),
        level >= 1,
    ensures
        frontier[i].wf(depth),
        frontier[i].3 < depth,
        round_inv(
            frontier,
            i + 1,
            before,
            out,
            next + children_spec(frontier[i], depth),
            level,
            a,
            b,
            depth,
        ),
{
    let w = frontier[i];
    let kids = children_spec(w, depth);
    let grown = next + kids;
    assert(frontier.contains(w));
    if listed_ancestor(w, a, depth) {
        lemma_listed_wf(w, a, depth);
    } else {
        lemma_listed_wf(w, b, depth);
    }
    lemma_take_step_contains(frontier, i, w);
    assert forall|x: Key| #[trigger]
        out.contains(x) <==> before.contains(x) || (frontier.take(i + 1).contains(x) && emits(
            x,
            a,
            b,
            depth,
        )) by {
        lemma_take_step_contains(frontier, i, x);
    }
    assert forall|n: int| 0 <= n < 8 implies (#[trigger] kids[n]).wf(depth) && kids[n].3 == level + 1
        && key_parent(kids[n], depth) == w by {
        lemma_child_wf(w, n, depth);
    }
    assert forall|c: Key| #[trigger]
        grown.contains(c) <==> (c.wf(depth) && c.3 == level + 1 && frontier.take(i + 1).contains(
            key_parent(c, depth),
        ) && !emits(key_parent(c, depth), a, b, depth) && on_chain(
            key_parent(c, depth),
            a,
            b,
            depth,
        )) by {
        lemma_seq_concat_contains_all_elements(next, kids, c);
        lemma_take_step_contains(frontier, i, key_parent(c, depth));
        if kids.contains(c) {
            let n = choose|n: int| 0 <= n < kids.len() && kids[n] == c;
            assert(kids[n].wf(depth));
        }
        if c.wf(depth) && c.3 == level + 1 && key_parent(c, depth) == w {
            lemma_child_of_parent(c, depth);
        }
    }
    assert(kids.no_duplicates()) by {
        assert forall|p: int, q: int| 0 <= p < kids.len() && 0 <= q < kids.len() && p != q implies kids[p] != kids[q] by {
            lemma_children_distinct(w, p, q, depth);
        }
    }
    assert forall|p: int, q: int| 0 <= p < next.len() && 0 <= q < kids.len() implies next[p] != kids[q] by {
        assert(next.contains(next[p]));
        assert(kids[q].wf(depth));
    }
    lemma_no_dup_in_concat(next, kids);
}

/// At the end of a level the next working list and the keys found are
/// those of the next level.
pub(crate) proof fn lemma_round_end(
    frontier: Seq<Key>,
    before: Seq<Key>,
    out: Seq<Key>,
    next: Seq<Key>,
    level: u64,
    fca: Key,
    a: Key,
    b: Key,
    depth: u64,
)
    requires
        a.wf(depth),
        b.wf(depth),
        is_finest_common_ancestor(fca, a, b, depth),
        fca.3 < level <= depth,
        frontier_inv(frontier, level, fca, a, b, depth),
        emitted_inv(before, level, a, b, depth),
        round_inv(frontier, frontier.len() as int, before, out, next, level, a, b, depth),
    ensures
        frontier_inv(next, (level + 1) as u64, fca, a, b, depth),
        emitted_inv(out, (level + 1) as u64, a, b, depth),
{
    assert(frontier.take(frontier.len() as int) =~= frontier);
    assert forall|w: Key| #[trigger]
        out.contains(w) <==> (in_region(w, a, b, depth) && w.3 < level + 1) by {
        assert(before.contains(w) <==> (in_region(w, a, b, depth) && w.3 < level));
        if in_region(w, a, b, depth) && w.3 == level {
            lemma_region_below_fca(w, fca, a, b, depth);
            assert(frontier.contains(w));
        }
        if frontier.contains(w) {
            assert(w.wf(depth) && w.3 == level);
        }
    }
    assert forall|c: Key| #[trigger]
        next.contains(c) <==> (c.wf(depth) && c.3 == level + 1 && opened(
            key_parent(c, depth),
            fca,
            a,
            b,
            depth,
        )) by {
        let q = key_parent(c, depth);
        if c.wf(depth) && c.3 == level + 1 {
            lemma_parent_wf(c, depth);
            if frontier.contains(q) {
                assert(q.3 == level);
            }
            if opened(q, fca, a, b, depth) {
                lemma_chain_not_in_region(q, a, b, depth);
                if listed_ancestor(q, a, depth) {
                    lemma_listed_wf(q, a, depth);
                } else {
                    lemma_listed_wf(q, b, depth);
                }
                assert(on_chain(key_parent(q, depth), a, b, depth));
                lemma_parent_wf(q, depth);
                assert(frontier.contains(q));
            }
        }
    }
}

/// Past the deepest level the keys found are the whole region.
pub(crate) proof fn lemma_region_done(out: Seq<Key>, sorted: Seq<Key>, a: Key, b: Key, depth: u64)
    requires
        emitted_inv(out, (depth + 1) as u64, a, b, depth),
        sorted_by_key(sorted),
        sorted.to_multiset() == out.to_multiset(),
    ensures
        strictly_sorted_by_key(sorted),
        forall|w: Key| #[trigger] sorted.contains(w) <==> in_region(w, a, b, depth),
{
    assert forall|w: Key| #[trigger] sorted.contains(w) <==> in_region(w, a, b, depth) by {
        to_multiset_contains(sorted, w);
        to_multiset_contains(out, w);
        assert(out.contains(w) <==> (in_region(w, a, b, depth) && w.3 < depth + 1));
    }
    out.lemma_multiset_has_no_duplicates();
    sorted.lemma_multiset_has_no_duplicates_conv();
    assert forall|i: int, j: int| 0 <= i < j < sorted.len() implies key_lt(
        #[trigger] sorted[i].key_of(),
        #[trigger] sorted[j].key_of(),
    ) by {
        assert(!key_lt(sorted[j].key_of(), sorted[i].key_of()));
        lemma_key_order_total(sorted[i], sorted[j]);
    }
}

/// What the inner loop needs to know of the cell it looks at.
pub(crate) proof fn lemma_frontier_cell(frontier: Seq<Key>, i: int, level: u64, fca: Key, a: Key, b: Key, depth: u64)
    requires
        frontier_inv(frontier, level, fca, a, b, depth),
        0 <= i < frontier.len(),
    ensures
        frontier[i].wf(depth),
        frontier[i].3 == level,
{
    assert(frontier.contains(frontier[i]));
}


/// The keys found so far are found once each.
pub(crate) proof fn lemma_emitted_distinct(out: Seq<Key>, level: u64, a: Key, b: Key, depth: u64)
    requires
        emitted_inv(out, level, a, b, depth),
    ensures
        out.no_duplicates(),
{
}

} // verus!
