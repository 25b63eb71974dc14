use vstd::prelude::*;
use vstd::arithmetic::power2::pow2;
pub use crate::tree::keys_to_leaves;
use vstd::bits::{lemma_u64_pow2_no_overflow, lemma_u64_shl_is_mul};
use crate::arith::{
    align_down, lemma_align_down, lemma_align_down_nested, lemma_multiple_below,
    lemma_multiple_mod_double, lemma_multiple_of_multiple, lemma_pow2_divides, lemma_pow2_double,
    lemma_pow2_small,
};
use crate::interleave::{
    interleave, lemma_anchor_lt_is_interleave_lt, lemma_interleave_aligned,
    lemma_interleave_injective, lemma_interleave_split, lemma_interleave_unfold, lemma_span_step,
    less_msb, low_digit, span,
};

verus! {

/// Maximum points per **Leaf**
pub const MAX_POINTS: usize = 50;

/// Used as an integer sentinel value.
pub const SENTINEL: u64 = 999;

/// The deepest tree that the keys can address: three anchors of this many
/// bits interleave into one 64-bit Morton index.
pub const MAX_DEPTH: u64 = 21;

/// **Morton Key**, anchor and level represented as (x, y, z, level).
#[derive(Clone, Copy, Debug, PartialEq, Eq, Hash, Structural)]
pub struct Key(pub u64, pub u64, pub u64, pub u64);

/// Vector of **Keys**.
pub type Keys = Vec<Key>;

/// **Point**, Cartesian coordinates (x, y, z).
///
/// The library never computes with the coordinates: it carries each as the
/// 64-bit pattern of an IEEE-754 double, so that a point keeps them wherever
/// its key takes it.
#[derive(Clone, Copy, Debug)]
pub struct Point {
    pub x: u64,
    pub y: u64,
    pub z: u64,
    pub key: Key,
    pub global_idx: usize,
}

/// Vector of **Points**.
pub type Points = Vec<Point>;

/// **Leaf Key**, bundles **Morton Key**, associated **Block** and particle **Points** it contains.
#[derive(Clone, Copy, Debug)]
pub struct Leaf {
    pub key: Key,
    pub block: Key,
    pub npoints: usize,
}

/// Vector of **Leaves**.
pub type Leaves = Vec<Leaf>;

/// The bit pattern of the quiet not-a-number that marks a coordinate as unset.
pub const UNSET_COORDINATE: u64 = 0x7ff8_0000_0000_0000;

/// The sentinel key: the key of a point that has not been encoded and the
/// block of a leaf that has not been assigned.
pub open spec fn sentinel_key() -> Key {
    Key(SENTINEL, SENTINEL, SENTINEL, 0)
}

impl Default for Key {
    fn default() -> (key: Key)
        ensures
            key == sentinel_key(),
    {
        Key(SENTINEL, SENTINEL, SENTINEL, 0)
    }
}

impl Default for Point {
    fn default() -> (point: Point)
        ensures
            point == (Point {
                x: UNSET_COORDINATE,
                y: UNSET_COORDINATE,
                z: UNSET_COORDINATE,
                key: sentinel_key(),
                global_idx: 0,
            }),
    {
        Point {
            x: UNSET_COORDINATE,
            y: UNSET_COORDINATE,
            z: UNSET_COORDINATE,
            key: Key::default(),
            global_idx: 0,
        }
    }
}

impl Default for Leaf {
    fn default() -> (leaf: Leaf)
        ensures
            leaf == (Leaf { key: sentinel_key(), block: sentinel_key(), npoints: 0 }),
    {
        Leaf { key: Key::default(), block: Key::default(), npoints: 0 }
    }
}

/// What is ordered along the Morton curve: a key, and whatever carries one.
pub trait Keyed: Copy {
    /// The key by which the item is ordered.
    spec fn key_of(&self) -> Key;

    /// The key by which the item is ordered.
    fn sort_key(&self) -> (key: Key)
        ensures
            key == self.key_of(),
    ;
}

impl Keyed for Key {
    open spec fn key_of(&self) -> Key {
        *self
    }

    fn sort_key(&self) -> (key: Key) {
        *self
    }
}

impl Keyed for Leaf {
    open spec fn key_of(&self) -> Key {
        self.key
    }

    fn sort_key(&self) -> (key: Key) {
        self.key
    }
}

impl Keyed for Point {
    open spec fn key_of(&self) -> Key {
        self.key
    }

    fn sort_key(&self) -> (key: Key) {
        self.key
    }
}

/// The side length of a cell at `level`, counted in cells of the deepest
/// level `depth`.
pub open spec fn side(level: u64, depth: u64) -> nat {
    pow2((depth - level) as nat)
}

impl Key {
    /// The Morton index of the key's anchor.
    pub open spec fn morton(self) -> nat {
        interleave(self.0 as nat, self.1 as nat, self.2 as nat)
    }

    /// The key names a cell of a tree of the given depth: its level is at
    /// most `depth`, and its anchor lies inside the domain on a corner of the
    /// grid of its level.
    pub open spec fn wf(self, depth: u64) -> bool {
        &&& depth <= MAX_DEPTH
        &&& self.3 <= depth
        &&& self.0 < pow2(depth as nat)
        &&& self.1 < pow2(depth as nat)
        &&& self.2 < pow2(depth as nat)
        &&& self.0 as nat % side(self.3, depth) == 0
        &&& self.1 as nat % side(self.3, depth) == 0
        &&& self.2 as nat % side(self.3, depth) == 0
    }
}

/// The root of every tree.
pub open spec fn root_key() -> Key {
    Key(0, 0, 0, 0)
}

/// The cell at `level` that encloses the anchor of `k`.
pub open spec fn ancestor_at(k: Key, level: u64, depth: u64) -> Key {
    Key(
        align_down(k.0 as nat, side(level, depth)) as u64,
        align_down(k.1 as nat, side(level, depth)) as u64,
        align_down(k.2 as nat, side(level, depth)) as u64,
        level,
    )
}

/// The parent of `k`; the root is its own parent.
pub open spec fn key_parent(k: Key, depth: u64) -> Key {
    if k.3 == 0 {
        k
    } else {
        ancestor_at(k, (k.3 - 1) as u64, depth)
    }
}

/// `a` is a proper ancestor of `k`.
pub open spec fn is_ancestor(a: Key, k: Key, depth: u64) -> bool {
    a.3 < k.3 && a == ancestor_at(k, a.3, depth)
}

/// The key one level below `p` whose anchor is displaced from that of `p` by
/// `s` along the axes that the octant number `n` selects: `x` by bit 2, `y`
/// by bit 1, `z` by bit 0.
pub open spec fn offset_key(p: Key, s: nat, n: int) -> Key {
    Key(
        (p.0 + s * (n / 4)) as u64,
        (p.1 + s * ((n / 2) % 2)) as u64,
        (p.2 + s * (n % 2)) as u64,
        (p.3 + 1) as u64,
    )
}

/// The `n`-th child of `k`.
pub open spec fn key_child(k: Key, n: int, depth: u64) -> Key {
    offset_key(k, side((k.3 + 1) as u64, depth), n)
}

/// The eight children of `k`, in Morton order.
pub open spec fn children_spec(k: Key, depth: u64) -> Seq<Key> {
    Seq::new(8, |n: int| key_child(k, n, depth))
}

/// The eight keys that `find_siblings` returns for `k`: below the root they
/// are the children of the parent of `k`.
pub open spec fn siblings_spec(k: Key, depth: u64) -> Seq<Key> {
    Seq::new(8, |n: int| offset_key(key_parent(k, depth), side(k.3, depth), n))
}

/// The proper ancestors of `k`, from the parent up to the root. The root is
/// listed as its own only ancestor.
pub open spec fn ancestors_spec(k: Key, depth: u64) -> Seq<Key> {
    if k.3 == 0 {
        seq![k]
    } else {
        Seq::new(k.3 as nat, |i: int| ancestor_at(k, (k.3 - 1 - i) as u64, depth))
    }
}

/// The side of a level is twice the side of the level below it.
pub proof fn lemma_side_step(level: u64, depth: u64)
    requires
        1 <= level <= depth <= MAX_DEPTH,
    ensures
        side((level - 1) as u64, depth) == 2 * side(level, depth),
        0 < side(level, depth) <= 0x200000,
{
    lemma_pow2_double((depth - level) as nat);
    lemma_pow2_small((depth - level) as nat);
    lemma_pow2_small((depth - level + 1) as nat);
}

/// The sides of two levels divide one another, and all divide the domain.
pub proof fn lemma_side_divides(coarse: u64, fine: u64, depth: u64)
    requires
        coarse <= fine <= depth <= MAX_DEPTH,
    ensures
        0 < side(fine, depth) <= side(coarse, depth) <= pow2(depth as nat) <= 0x200000,
        side(coarse, depth) == side(fine, depth) * pow2((fine - coarse) as nat),
        pow2((fine - coarse) as nat) > 0,
        side(0, depth) == pow2(depth as nat),
        side(depth, depth) == 1,
        pow2(depth as nat) % side(fine, depth) == 0,
        pow2(depth as nat) % side(coarse, depth) == 0,
{
    lemma_pow2_divides((depth - fine) as nat, depth as nat);
    lemma_pow2_divides((depth - fine) as nat, (depth - coarse) as nat);
    lemma_pow2_divides((depth - coarse) as nat, depth as nat);
    lemma_pow2_divides(0, (fine - coarse) as nat);
    lemma_pow2_small(depth as nat);
    vstd::arithmetic::power2::lemma2_to64();
}

/// Within a tree the only key at level 0 is the root, and every key has the
/// root above it.
pub proof fn lemma_root(k: Key, depth: u64)
    requires
        k.wf(depth),
    ensures
        k.3 == 0 ==> k == root_key(),
        ancestor_at(k, 0, depth) == root_key(),
        root_key().wf(depth),
{
    lemma_side_divides(0, k.3, depth);
    let p = pow2(depth as nat);
    vstd::arithmetic::div_mod::lemma_small_mod(k.0 as nat, p);
    vstd::arithmetic::div_mod::lemma_small_mod(k.1 as nat, p);
    vstd::arithmetic::div_mod::lemma_small_mod(k.2 as nat, p);
    vstd::arithmetic::div_mod::lemma_small_mod(0, p);
}

/// The ancestor at a level is a key of the tree, and a key is its own
/// ancestor at its own level.
pub proof fn lemma_ancestor_wf(k: Key, level: u64, depth: u64)
    requires
        k.wf(depth),
        level <= depth,
    ensures
        ancestor_at(k, level, depth).wf(depth),
        level == k.3 ==> ancestor_at(k, level, depth) == k,
        ancestor_at(k, level, depth).0 <= k.0,
        ancestor_at(k, level, depth).1 <= k.1,
        ancestor_at(k, level, depth).2 <= k.2,
{
    lemma_side_divides(0, level, depth);
    let m = side(level, depth);
    lemma_align_down(k.0 as nat, m);
    lemma_align_down(k.1 as nat, m);
    lemma_align_down(k.2 as nat, m);
}

/// Ancestors compose: the ancestor at a coarser level of the ancestor at a
/// finer level is the ancestor at the coarser level.
pub proof fn lemma_ancestor_of_ancestor(k: Key, coarse: u64, fine: u64, depth: u64)
    requires
        k.wf(depth),
        coarse <= fine <= depth,
    ensures
        ancestor_at(ancestor_at(k, fine, depth), coarse, depth) == ancestor_at(k, coarse, depth),
{
    lemma_side_divides(coarse, fine, depth);
    let m = side(fine, depth);
    let c = pow2((fine - coarse) as nat);
    lemma_align_down(k.0 as nat, m);
    lemma_align_down(k.1 as nat, m);
    lemma_align_down(k.2 as nat, m);
    lemma_align_down_nested(k.0 as nat, m, c);
    lemma_align_down_nested(k.1 as nat, m, c);
    lemma_align_down_nested(k.2 as nat, m, c);
    lemma_ancestor_wf(k, fine, depth);
}

/// The parent of a key of the tree is a key of the tree, one level up.
pub proof fn lemma_parent_wf(k: Key, depth: u64)
    requires
        k.wf(depth),
    ensures
        key_parent(k, depth).wf(depth),
        k.3 > 0 ==> key_parent(k, depth).3 == k.3 - 1,
{
    if k.3 > 0 {
        lemma_ancestor_wf(k, (k.3 - 1) as u64, depth);
    }
}

/// The children of a key of the tree are keys of the tree, and the key is
/// the parent of each.
pub proof fn lemma_child_wf(k: Key, n: int, depth: u64)
    requires
        k.wf(depth),
        k.3 < depth,
        0 <= n < 8,
    ensures
        key_child(k, n, depth).wf(depth),
        key_child(k, n, depth).3 == k.3 + 1,
        key_parent(key_child(k, n, depth), depth) == k,
{
    let level = (k.3 + 1) as u64;
    let h = side(level, depth);
    let p = pow2(depth as nat);
    lemma_side_step(level, depth);
    lemma_side_divides(0, k.3, depth);
    lemma_child_axis(k.0 as nat, h, p, n / 4);
    lemma_child_axis(k.1 as nat, h, p, (n / 2) % 2);
    lemma_child_axis(k.2 as nat, h, p, n % 2);
}

proof fn lemma_child_axis(x: nat, h: nat, p: nat, i: int)
    requires
        h > 0,
        x % (2 * h) == 0,
        p % (2 * h) == 0,
        x < p,
        0 <= i <= 1,
    ensures
        x + h * i < p,
        (x + h * i) % (h as int) == 0,
        align_down((x + h * i) as nat, 2 * h) == x,
{
    lemma_multiple_below(x, p, 2 * h);
    lemma_multiple_of_multiple(x, h, 2);
    lemma_multiple_mod_double(x, h);
    lemma_align_down(x, 2 * h);
    if i == 1 {
        assert(h * i == h) by (nonlinear_arith)
            requires
                i == 1,
        ;
        lemma_align_down(x + h, 2 * h);
        assert((x + h) % h == 0) by (nonlinear_arith)
            requires
                h > 0,
                x % h == 0,
        {
            let q = x / h;
            assert(x == h * q);
            assert(x + h == h * (q + 1));
            assert((h * (q + 1)) % h == 0);
        }
    } else {
        assert(h * i == 0) by (nonlinear_arith)
            requires
                i == 0,
        ;
    }
}

/// Every key below the root is one of the children of its parent: the child
/// whose octant number is read off the key's anchor.
pub proof fn lemma_child_of_parent(k: Key, depth: u64)
    requires
        k.wf(depth),
        k.3 > 0,
    ensures
        0 <= octant_of(k, depth) < 8,
        key_child(key_parent(k, depth), octant_of(k, depth), depth) == k,
        children_spec(key_parent(k, depth), depth).contains(k),
{
    let s = side(k.3, depth);
    lemma_side_step(k.3, depth);
    lemma_multiple_mod_double(k.0 as nat, s);
    lemma_multiple_mod_double(k.1 as nat, s);
    lemma_multiple_mod_double(k.2 as nat, s);
    lemma_parent_wf(k, depth);
    lemma_align_down(k.0 as nat, 2 * s);
    lemma_align_down(k.1 as nat, 2 * s);
    lemma_align_down(k.2 as nat, 2 * s);
    let p = key_parent(k, depth);
    let n = octant_of(k, depth);
    let bx: int = if k.0 as nat % (2 * s) == 0 { 0 } else { 1 };
    let by: int = if k.1 as nat % (2 * s) == 0 { 0 } else { 1 };
    let bz: int = if k.2 as nat % (2 * s) == 0 { 0 } else { 1 };
    assert(n == 4 * bx + 2 * by + bz);
    assert(n / 4 == bx && (n / 2) % 2 == by && n % 2 == bz);
    lemma_unit_product(s, bx);
    lemma_unit_product(s, by);
    lemma_unit_product(s, bz);
    assert((p.3 + 1) as u64 == k.3);
    assert(p.0 + s * bx == k.0);
    assert(p.1 + s * by == k.1);
    assert(p.2 + s * bz == k.2);
    assert(key_child(p, n, depth) == k);
    assert(children_spec(p, depth)[n] == k);
}

/// Below the root the siblings of a key are the children of its parent.
pub proof fn lemma_siblings_are_children(k: Key, depth: u64)
    requires
        k.wf(depth),
        k.3 > 0,
    ensures
        siblings_spec(k, depth) == children_spec(key_parent(k, depth), depth),
        siblings_spec(k, depth).contains(k),
{
    lemma_parent_wf(k, depth);
    lemma_child_of_parent(k, depth);
    assert(siblings_spec(k, depth) =~= children_spec(key_parent(k, depth), depth));
}

proof fn lemma_unit_product(s: nat, i: int)
    by (nonlinear_arith)
    requires
        0 <= i <= 1,
    ensures
        s * i == (if i == 1 { s as int } else { 0 }),
{
}

/// The octant of its parent that `k` occupies.
pub open spec fn octant_of(k: Key, depth: u64) -> int {
    let m = 2 * side(k.3, depth);
    4 * (if k.0 as nat % m == 0 { 0int } else { 1int })
        + 2 * (if k.1 as nat % m == 0 { 0int } else { 1int })
        + (if k.2 as nat % m == 0 { 0int } else { 1int })
}

/// The strict Morton order on keys: by the Morton index of the anchor, and
/// among keys of one anchor the coarser first.
pub open spec fn key_lt(a: Key, b: Key) -> bool {
    a.morton() < b.morton() || (a.morton() == b.morton() && a.3 < b.3)
}

/// The order is total: of two keys exactly one is less than the other, unless
/// they are the same key.
pub proof fn lemma_key_order_total(a: Key, b: Key)
    ensures
        key_lt(a, b) || a == b || key_lt(b, a),
        !(key_lt(a, b) && key_lt(b, a)),
        !(key_lt(a, b) && a == b),
        !(key_lt(b, a) && a == b),
{
    lemma_interleave_injective(
        a.0 as nat,
        a.1 as nat,
        a.2 as nat,
        b.0 as nat,
        b.1 as nat,
        b.2 as nat,
    );
}

/// The order is transitive.
pub proof fn lemma_key_order_transitive(a: Key, b: Key, c: Key)
    requires
        key_lt(a, b),
        key_lt(b, c),
    ensures
        key_lt(a, c),
{
}

/// Keys of one level are ordered as the Morton indices of their anchors.
pub proof fn lemma_key_order_on_level(a: Key, b: Key)
    requires
        a.3 == b.3,
    ensures
        key_lt(a, b) <==> a.morton() < b.morton(),
{
}

/// Subroutine in less than function, equivalent to comparing floor of log_2(x). Adapted from [2].
fn most_significant_bit(x: u64, y: u64) -> (r: bool)
    ensures
        r == less_msb(x, y),
{
    (x < y) && (x < (x ^ y))
}

/// Compare the ordering of two **Morton Keys**. If key `a` is less than key
/// `b`, this function evaluates to true.
pub fn less_than(a: &Key, b: &Key) -> (r: bool)
    ensures
        r == key_lt(*a, *b),
{
    proof {
        lemma_interleave_injective(
            a.0 as nat,
            a.1 as nat,
            a.2 as nat,
            b.0 as nat,
            b.1 as nat,
            b.2 as nat,
        );
    }
    // If anchors match, the one at the coarser level has the lesser Morton id.
    let same_anchor = (a.0 == b.0) && (a.1 == b.1) && (a.2 == b.2);
    if same_anchor {
        a.3 < b.3
    } else {
        proof {
            lemma_anchor_lt_is_interleave_lt(a.0, a.1, a.2, b.0, b.1, b.2);
        }
        let dx: u64 = a.0 ^ b.0;
        let dy: u64 = a.1 ^ b.1;
        let dz: u64 = a.2 ^ b.2;
        let mut argmax: u8 = 0;
        let mut best: u64 = dx;
        if most_significant_bit(best, dy) {
            argmax = 1;
            best = dy;
        }
        if most_significant_bit(best, dz) {
            argmax = 2;
        }
        if argmax == 0 {
            a.0 < b.0
        } else if argmax == 1 {
            a.1 < b.1
        } else {
            a.2 < b.2
        }
    }
}


/// The number of cells of the deepest level inside a cell of `level`.
pub open spec fn cell_span(level: u64, depth: u64) -> nat {
    span((depth - level) as nat)
}

/// A cell of a finer level spans fewer cells of the deepest level.
pub proof fn lemma_cell_span(level: u64, depth: u64)
    requires
        level <= depth,
    ensures
        cell_span(level, depth) > 0,
        cell_span(depth, depth) == 1,
        level < depth ==> cell_span(level, depth) == 8 * cell_span((level + 1) as u64, depth),
{
    lemma_span_step((depth - level) as nat);
    lemma_span_step(0);
    if level < depth {
        lemma_span_step((depth - level - 1) as nat);
    }
}

/// Along the Morton curve a cell covers one interval: the index of a key
/// lies at or after that of each of its ancestors, and less than the
/// ancestor's span after it.
pub proof fn lemma_ancestor_interval(k: Key, level: u64, depth: u64)
    requires
        k.wf(depth),
        level <= depth,
    ensures
        ancestor_at(k, level, depth).morton() <= k.morton() < ancestor_at(k, level, depth).morton()
            + cell_span(level, depth),
{
    let t = (depth - level) as nat;
    lemma_side_divides(0, level, depth);
    lemma_align_down(k.0 as nat, pow2(t));
    lemma_align_down(k.1 as nat, pow2(t));
    lemma_align_down(k.2 as nat, pow2(t));
    lemma_interleave_aligned(k.0 as nat, k.1 as nat, k.2 as nat, t);
}

/// A proper ancestor comes before its descendants in the Morton order.
pub proof fn lemma_ancestor_less(a: Key, k: Key, depth: u64)
    requires
        k.wf(depth),
        is_ancestor(a, k, depth),
    ensures
        key_lt(a, k),
{
    lemma_ancestor_interval(k, a.3, depth);
}

/// A key whose index lies in the interval of a cell at or above its level
/// lies in that cell.
pub proof fn lemma_interval_ancestor(a: Key, k: Key, depth: u64)
    requires
        a.wf(depth),
        k.wf(depth),
        a.3 <= k.3,
        a.morton() <= k.morton() < a.morton() + cell_span(a.3, depth),
    ensures
        ancestor_at(k, a.3, depth) == a,
{
    let t = (depth - a.3) as nat;
    let p = pow2(t);
    let s = span(t);
    let b = ancestor_at(k, a.3, depth);
    lemma_side_divides(0, a.3, depth);
    lemma_ancestor_wf(k, a.3, depth);
    lemma_ancestor_interval(k, a.3, depth);
    lemma_span_step(t);
    lemma_align_down(k.0 as nat, p);
    lemma_align_down(k.1 as nat, p);
    lemma_align_down(k.2 as nat, p);
    lemma_align_down(a.0 as nat, p);
    lemma_align_down(a.1 as nat, p);
    lemma_align_down(a.2 as nat, p);
    lemma_interleave_aligned(k.0 as nat, k.1 as nat, k.2 as nat, t);
    lemma_interleave_aligned(a.0 as nat, a.1 as nat, a.2 as nat, t);
    let qa = interleave(a.0 as nat / p, a.1 as nat / p, a.2 as nat / p);
    let qb = interleave(k.0 as nat / p, k.1 as nat / p, k.2 as nat / p);
    assert(a.morton() == s * qa);
    assert(b.morton() == s * qb);
    assert(qa == qb) by (nonlinear_arith)
        requires
            s > 0,
            s * qa < s * qb + s,
            s * qb < s * qa + s,
    ;
    lemma_interleave_injective(
        a.0 as nat / p,
        a.1 as nat / p,
        a.2 as nat / p,
        k.0 as nat / p,
        k.1 as nat / p,
        k.2 as nat / p,
    );
    vstd::arithmetic::div_mod::lemma_fundamental_div_mod(a.0 as int, p as int);
    vstd::arithmetic::div_mod::lemma_fundamental_div_mod(a.1 as int, p as int);
    vstd::arithmetic::div_mod::lemma_fundamental_div_mod(a.2 as int, p as int);
    vstd::arithmetic::div_mod::lemma_fundamental_div_mod(k.0 as int, p as int);
    vstd::arithmetic::div_mod::lemma_fundamental_div_mod(k.1 as int, p as int);
    vstd::arithmetic::div_mod::lemma_fundamental_div_mod(k.2 as int, p as int);
}

/// The children of a cell divide its interval of the Morton curve into
/// eight, in the order of their octant numbers.
pub proof fn lemma_child_interval(k: Key, n: int, depth: u64)
    requires
        k.wf(depth),
        k.3 < depth,
        0 <= n < 8,
    ensures
        key_child(k, n, depth).morton() == k.morton() + n * cell_span((k.3 + 1) as u64, depth),
{
    let level = (k.3 + 1) as u64;
    let t = (depth - level) as nat;
    let h = pow2(t);
    let c = key_child(k, n, depth);
    lemma_child_wf(k, n, depth);
    lemma_side_step(level, depth);
    lemma_interleave_split(k.0 as nat, k.1 as nat, k.2 as nat, t);
    lemma_interleave_split(c.0 as nat, c.1 as nat, c.2 as nat, t);
    let (i, j, l) = (n / 4, (n / 2) % 2, n % 2);
    assert(n == 4 * i + 2 * j + l);
    lemma_unit_product(h, i);
    lemma_unit_product(h, j);
    lemma_unit_product(h, l);
    lemma_child_quotient(k.0 as nat, h, i);
    lemma_child_quotient(k.1 as nat, h, j);
    lemma_child_quotient(k.2 as nat, h, l);
    let (qx, qy, qz) = (k.0 as nat / h, k.1 as nat / h, k.2 as nat / h);
    lemma_interleave_unfold(qx, qy, qz);
    lemma_interleave_unfold((qx + i) as nat, (qy + j) as nat, (qz + l) as nat);
    assert(interleave(0, 0, 0) == 0);
    let base = interleave(qx, qy, qz);
    assert(h == side(level, depth));
    lemma_pow2_small(depth as nat);
    assert(c.0 as nat == (k.0 + h * i) as nat);
    assert(c.1 as nat == (k.1 + h * j) as nat);
    assert(c.2 as nat == (k.2 + h * l) as nat);
    assert(c.0 as nat / h == (qx + i) as nat && c.0 as nat % h == 0);
    assert(c.1 as nat / h == (qy + j) as nat && c.1 as nat % h == 0);
    assert(c.2 as nat / h == (qz + l) as nat && c.2 as nat % h == 0);
    assert(k.morton() == span(t) * base);
    assert(low_digit((qx + i) as nat, (qy + j) as nat, (qz + l) as nat) == n);
    assert(low_digit(qx, qy, qz) == 0);
    assert(interleave((qx + i) as nat, (qy + j) as nat, (qz + l) as nat) == base + n);
    assert(c.morton() == span(t) * (base + n));
    assert(span(t) * (base + n) == span(t) * base + n * span(t)) by (nonlinear_arith);
}

/// The children of a cell come in Morton order, after the cell itself.
pub proof fn lemma_children_sorted(k: Key, n: int, m: int, depth: u64)
    requires
        k.wf(depth),
        k.3 < depth,
        0 <= n < m < 8,
    ensures
        key_lt(k, key_child(k, n, depth)),
        key_lt(key_child(k, n, depth), key_child(k, m, depth)),
{
    lemma_child_interval(k, n, depth);
    lemma_child_interval(k, m, depth);
    lemma_cell_span((k.3 + 1) as u64, depth);
    let s = cell_span((k.3 + 1) as u64, depth) as int;
    assert(n * s < m * s && 0 <= n * s) by (nonlinear_arith)
        requires
            0 <= n < m,
            s > 0,
    ;
}

proof fn lemma_child_quotient(x: nat, h: nat, i: int)
    requires
        h > 0,
        x % (2 * h) == 0,
        0 <= i <= 1,
    ensures
        x % h == 0,
        (x / h) % 2 == 0,
        ((x + h * i) as nat) / h == x / h + i,
        ((x + h * i) as nat) % h == 0,
        ((x / h + i) as nat) / 2 == (x / h) / 2,
        ((x / h + i) as nat) % 2 == i,
{
    let q = x / (2 * h);
    vstd::arithmetic::div_mod::lemma_fundamental_div_mod(x as int, (2 * h) as int);
    assert(x == h * (2 * q)) by (nonlinear_arith)
        requires
            x == (2 * h) * q + 0,
    ;
    lemma_unit_product(h, i);
    assert(x + h * i == h * (2 * q + i) + 0) by (nonlinear_arith)
        requires
            x == h * (2 * q),
    ;
    assert(x == (2 * q) * h + 0) by (nonlinear_arith)
        requires
            x == h * (2 * q),
    ;
    assert(x + h * i == (2 * q + i) * h + 0) by (nonlinear_arith)
        requires
            x == h * (2 * q),
    ;
    vstd::arithmetic::div_mod::lemma_fundamental_div_mod_converse(
        x as int,
        h as int,
        (2 * q) as int,
        0,
    );
    vstd::arithmetic::div_mod::lemma_fundamental_div_mod_converse(
        (x + h * i) as int,
        h as int,
        2 * q + i,
        0,
    );
}

/// `2^e` as a machine word.
fn power_of_two(e: u64) -> (r: u64)
    requires
        e <= MAX_DEPTH + 1,
    ensures
        r == pow2(e as nat),
        0 < r <= 0x400000,
{
    proof {
        lemma_pow2_small(e as nat);
        lemma_u64_pow2_no_overflow(e as nat);
        lemma_u64_shl_is_mul(1, e);
    }
    1u64 << e
}

/// Subroutine for finding the parent of a Morton key in its component representation. The trick
/// is to figure out whether the anchor of a key survives at its parent level, and notice that
/// anchors at odd indices don't survive. `parent_level_diff' refers to the difference between the
/// parent's key's level, and the maximum depth of the tree.
fn odd_index(idx: u64, parent_level_diff: u64) -> (r: bool)
    requires
        parent_level_diff <= MAX_DEPTH + 1,
    ensures
        r == (idx as nat % pow2(parent_level_diff as nat) != 0),
{
    let factor = power_of_two(parent_level_diff);
    (idx % factor) != 0
}

/// One anchor coordinate of the parent: kept where it survives, else moved
/// down by the side of the child.
fn parent_anchor(idx: u64, level: u64, depth: u64) -> (r: u64)
    requires
        1 <= level <= depth <= MAX_DEPTH,
        idx as nat % side(level, depth) == 0,
    ensures
        r == align_down(idx as nat, side((level - 1) as u64, depth)),
{
    let shift = power_of_two(depth - level);
    let parent_level_diff = depth - (level - 1);
    proof {
        lemma_side_step(level, depth);
        lemma_multiple_mod_double(idx as nat, side(level, depth));
        lemma_align_down(idx as nat, 2 * side(level, depth));
    }
    if odd_index(idx, parent_level_diff) {
        idx - shift
    } else {
        idx
    }
}

/// Whether the key names a cell of a tree of the given depth.
pub fn is_valid_key(key: &Key, depth: &u64) -> (valid: bool)
    ensures
        valid == key.wf(*depth),
{
    if *depth > MAX_DEPTH || key.3 > *depth {
        return false;
    }
    let bound = power_of_two(*depth);
    let size = power_of_two(*depth - key.3);
    key.0 < bound && key.1 < bound && key.2 < bound && key.0 % size == 0 && key.1 % size == 0
        && key.2 % size == 0
}

/// Whether the keys of all the items name cells of a tree of the given
/// depth.
pub fn are_valid_keys<T: Keyed>(items: &[T], depth: &u64) -> (valid: bool)
    ensures
        valid == (forall|i: int| 0 <= i < items@.len() ==> (#[trigger] items@[i]).key_of().wf(*depth)),
{
    let mut i: usize = 0;
    while i < items.len()
        invariant
            i <= items@.len(),
            forall|j: int| 0 <= j < i ==> (#[trigger] items@[j]).key_of().wf(*depth),
        decreases items.len() - i,
    {
        if !is_valid_key(&items[i].sort_key(), depth) {
            return false;
        }
        i = i + 1;
    }
    true
}

/// Encode a **Point** in a **Morton Key**.
///
/// `cell` holds, for each axis, the number of the cell of the deepest level
/// in which the point lies: the distance of the point from the lower corner
/// of the domain, divided by the side of such a cell and rounded down.
pub fn encode_point(point: &mut Point, level: &u64, cell: &(u64, u64, u64))
    ensures
        *final(point) == (Point { key: Key(cell.0, cell.1, cell.2, *level), ..*old(point) }),
{
    point.key = Key(cell.0, cell.1, cell.2, *level);
}

/// Encode a vector of **Points** with their corresponding Morton keys at a given discretisation.
pub fn encode_points(points: &mut Vec<Point>, level: &u64, cells: &[(u64, u64, u64)])
    requires
        cells@.len() == old(points)@.len(),
    ensures
        final(points)@.len() == old(points)@.len(),
        forall|i: int|
            0 <= i < old(points)@.len() ==> #[trigger] final(points)@[i] == (Point {
                key: Key(cells@[i].0, cells@[i].1, cells@[i].2, *level),
                ..old(points)@[i]
            }),
{
    let ghost given = points@;
    let mut i: usize = 0;
    while i < points.len()
        invariant
            i <= points@.len(),
            points@.len() == given.len(),
            cells@.len() == given.len(),
            forall|j: int|
                0 <= j < i ==> #[trigger] points@[j] == (Point {
                    key: Key(cells@[j].0, cells@[j].1, cells@[j].2, *level),
                    ..given[j]
                }),
            forall|j: int| i <= j < given.len() ==> #[trigger] points@[j] == given[j],
        decreases points.len() - i,
    {
        let mut point = points[i];
        encode_point(&mut point, level, &cells[i]);
        points.set(i, point);
        i = i + 1;
    }
}

/// A point of the domain gets the key of a cell of the tree, below the
/// root: the three numbers of its cell lie below `2^depth`.
pub proof fn lemma_encoded_in_domain(cell: (u64, u64, u64), depth: u64)
    requires
        depth <= MAX_DEPTH,
        cell.0 < pow2(depth as nat),
        cell.1 < pow2(depth as nat),
        cell.2 < pow2(depth as nat),
    ensures
        Key(cell.0, cell.1, cell.2, depth).wf(depth),
        ancestor_at(Key(cell.0, cell.1, cell.2, depth), 0, depth) == root_key(),
{
    let key = Key(cell.0, cell.1, cell.2, depth);
    lemma_side_divides(depth, depth, depth);
    assert(cell.0 as nat % 1 == 0 && cell.1 as nat % 1 == 0 && cell.2 as nat % 1 == 0);
    lemma_root(key, depth);
}

/// Points of one cell get one key, and the keys of points of two cells are
/// ordered as the cells are along the Morton curve.
pub proof fn lemma_encoding_monotone(first: (u64, u64, u64), second: (u64, u64, u64), level: u64)
    ensures
        first == second ==> Key(first.0, first.1, first.2, level) == Key(
            second.0,
            second.1,
            second.2,
            level,
        ),
        interleave(first.0 as nat, first.1 as nat, first.2 as nat) < interleave(
            second.0 as nat,
            second.1 as nat,
            second.2 as nat,
        ) ==> key_lt(
            Key(first.0, first.1, first.2, level),
            Key(second.0, second.1, second.2, level),
        ),
{
}

/// Find the cell at `level` that encloses the anchor of a **Morton Key**.
pub fn find_ancestor_at(key: &Key, level: u64, depth: &u64) -> (ancestor: Key)
    requires
        key.wf(*depth),
        level <= *depth,
    ensures
        ancestor == ancestor_at(*key, level, *depth),
        ancestor.wf(*depth),
{
    let size = power_of_two(*depth - level);
    proof {
        lemma_ancestor_wf(*key, level, *depth);
        lemma_align_down(key.0 as nat, size as nat);
        lemma_align_down(key.1 as nat, size as nat);
        lemma_align_down(key.2 as nat, size as nat);
    }
    Key(key.0 - key.0 % size, key.1 - key.1 % size, key.2 - key.2 % size, level)
}

/// Find the parent of a **Morton Key**. Parents contain the key, and are at the previous level of
/// discretisation.
pub fn find_parent(key: &Key, depth: &u64) -> (parent: Key)
    requires
        key.wf(*depth),
    ensures
        parent == key_parent(*key, *depth),
        parent.wf(*depth),
{
    proof {
        lemma_parent_wf(*key, *depth);
        lemma_root(*key, *depth);
    }
    // Return root if root fed in
    if key.3 == 0 {
        Key(0, 0, 0, 0)
    } else {
        Key(
            parent_anchor(key.0, key.3, *depth),
            parent_anchor(key.1, key.3, *depth),
            parent_anchor(key.2, key.3, *depth),
            key.3 - 1,
        )
    }
}

/// The eight keys one level below `first`, displaced by `shift` along each
/// combination of axes, in Morton order.
fn octants(first: &Key, shift: u64) -> (keys: Keys)
    requires
        first.0 + shift <= u64::MAX,
        first.1 + shift <= u64::MAX,
        first.2 + shift <= u64::MAX,
        first.3 < u64::MAX,
    ensures
        keys@ == Seq::new(8, |n: int| offset_key(*first, shift as nat, n)),
{
    let mut keys: Keys = Vec::new();
    let mut n: u64 = 0;
    while n < 8
        invariant
            n <= 8,
            first.0 + shift <= u64::MAX,
            first.1 + shift <= u64::MAX,
            first.2 + shift <= u64::MAX,
            first.3 < u64::MAX,
            keys@ == Seq::new(n as nat, |m: int| offset_key(*first, shift as nat, m)),
        decreases 8 - n,
    {
        let i: u64 = n / 4;
        let j: u64 = (n / 2) % 2;
        let k: u64 = n % 2;
        proof {
            lemma_unit_product(shift as nat, i as int);
            lemma_unit_product(shift as nat, j as int);
            lemma_unit_product(shift as nat, k as int);
        }
        keys.push(Key(first.0 + shift * i, first.1 + shift * j, first.2 + shift * k, first.3 + 1));
        n = n + 1;
    }
    keys
}

/// Find the siblings of a **Morton Key**. Siblings share the same parent.
///
/// The root has no siblings: for it the result is eight keys of level 1 on
/// a grid as wide as the domain, of which only the first lies in the tree.
pub fn find_siblings(key: &Key, depth: &u64) -> (siblings: Keys)
    requires
        key.wf(*depth),
    ensures
        siblings@ == siblings_spec(*key, *depth),
{
    let parent = find_parent(key, depth);
    let shift = power_of_two(*depth - key.3);
    proof {
        lemma_pow2_small(*depth as nat);
    }
    octants(&parent, shift)
}

/// Find the children of a **Morton Key**.
pub fn find_children(key: &Key, depth: &u64) -> (children: Keys)
    requires
        key.wf(*depth),
        key.3 < *depth,
    ensures
        children@ == children_spec(*key, *depth),
{
    let shift = power_of_two(*depth - (key.3 + 1));
    proof {
        lemma_pow2_small(*depth as nat);
    }
    octants(key, shift)
}

/// Find all ancestors of a **Morton Key**, excludes the key.
pub fn find_ancestors(key: &Key, depth: &u64) -> (ancestors: Keys)
    requires
        key.wf(*depth),
    ensures
        ancestors@ == ancestors_spec(*key, *depth),
{
    let mut parent = find_parent(key, depth);
    let mut ancestors: Keys = Vec::new();
    ancestors.push(parent);
    if key.3 == 0 {
        return ancestors;
    }
    proof {
        lemma_ancestor_wf(*key, key.3, *depth);
    }
    while parent.3 > 0
        invariant
            key.wf(*depth),
            key.3 > 0,
            parent.3 < key.3,
            parent == ancestor_at(*key, parent.3, *depth),
            parent.wf(*depth),
            ancestors@ == Seq::new(
                (key.3 - parent.3) as nat,
                |i: int| ancestor_at(*key, (key.3 - 1 - i) as u64, *depth),
            ),
        decreases parent.3,
    {
        proof {
            lemma_ancestor_of_ancestor(*key, (parent.3 - 1) as u64, parent.3, *depth);
        }
        parent = find_parent(&parent, depth);
        ancestors.push(parent);
    }
    ancestors
}

/// Whether `keys` holds `key`.
pub fn contains_key(keys: &[Key], key: &Key) -> (found: bool)
    ensures
        found == keys@.contains(*key),
{
    let mut i: usize = 0;
    while i < keys.len()
        invariant
            i <= keys@.len(),
            forall|j: int| 0 <= j < i ==> keys@[j] != *key,
        decreases keys.len() - i,
    {
        if keys[i] == *key {
            return true;
        }
        i = i + 1;
    }
    false
}

/// The deepest level at which the chains of proper ancestors of `a` and `b`
/// can meet: one above the coarser of the two keys, and level 0 where one of
/// them is the root.
pub open spec fn common_limit(a: Key, b: Key) -> u64 {
    let lower = if a.3 <= b.3 { a.3 } else { b.3 };
    if lower == 0 { 0 } else { (lower - 1) as u64 }
}

/// `f` is the finest common ancestor of `a` and `b`: it lies on both chains
/// of proper ancestors, and below it the two chains differ.
pub open spec fn is_finest_common_ancestor(f: Key, a: Key, b: Key, depth: u64) -> bool {
    &&& f.3 <= common_limit(a, b)
    &&& f == ancestor_at(a, f.3, depth)
    &&& f == ancestor_at(b, f.3, depth)
    &&& forall|level: u64|
        f.3 < level <= common_limit(a, b) ==> ancestor_at(a, level, depth) != ancestor_at(
            b,
            level,
            depth,
        )
}

/// Two keys have one finest common ancestor.
pub proof fn lemma_finest_common_ancestor_unique(f: Key, g: Key, a: Key, b: Key, depth: u64)
    requires
        is_finest_common_ancestor(f, a, b, depth),
        is_finest_common_ancestor(g, a, b, depth),
    ensures
        f == g,
{
    if f.3 < g.3 {
        assert(ancestor_at(a, g.3, depth) != ancestor_at(b, g.3, depth));
    } else if g.3 < f.3 {
        assert(ancestor_at(a, f.3, depth) != ancestor_at(b, f.3, depth));
    }
}

/// Find the finest common ancestor of two **Morton Keys**.
pub fn find_finest_common_ancestor(a: &Key, b: &Key, depth: &u64) -> (fca: Key)
    requires
        a.wf(*depth),
        b.wf(*depth),
    ensures
        is_finest_common_ancestor(fca, *a, *b, *depth),
        fca.wf(*depth),
{
    let ancestors_a = find_ancestors(a, depth);
    let ancestors_b = find_ancestors(b, depth);
    proof {
        lemma_root(*a, *depth);
        lemma_root(*b, *depth);
    }
    let top: Ghost<u64> = Ghost(if a.3 == 0 { 0 } else { (a.3 - 1) as u64 });
    let mut i: usize = 0;
    while i < ancestors_a.len() - 1
        invariant
            a.wf(*depth),
            b.wf(*depth),
            ancestors_a@ == ancestors_spec(*a, *depth),
            ancestors_b@ == ancestors_spec(*b, *depth),
            top@ == (if a.3 == 0 { 0 } else { (a.3 - 1) as u64 }),
            i < ancestors_a.len(),
            forall|level: u64|
                top@ - i < level <= common_limit(*a, *b) ==> ancestor_at(*a, level, *depth)
                    != ancestor_at(*b, level, *depth),
        decreases ancestors_a.len() - i,
    {
        let candidate = ancestors_a[i];
        if contains_key(ancestors_b.as_slice(), &candidate) {
            proof {
                let j = choose|j: int| 0 <= j < ancestors_b@.len() && ancestors_b@[j] == candidate;
                assert(ancestors_b@[j] == ancestor_at(*b, (b.3 - 1 - j) as u64, *depth));
                lemma_ancestor_wf(*a, candidate.3, *depth);
            }
            return candidate;
        }
        proof {
            let level = (top@ - i) as u64;
            if level <= common_limit(*a, *b) {
                let j = b.3 - 1 - level;
                assert(ancestors_b@[j] == ancestor_at(*b, level, *depth));
            }
        }
        i = i + 1;
    }
    proof {
        lemma_ancestor_wf(*a, 0, *depth);
    }
    ancestors_a[i]
}

/// The deepest first descendent of a **Morton Key**. First descendants always share anchors.
pub fn find_deepest_first_descendent(key: &Key, depth: &u64) -> (dfd: Key)
    ensures
        dfd == (if key.3 < *depth { Key(key.0, key.1, key.2, *depth) } else { *key }),
{
    if key.3 < *depth {
        Key(key.0, key.1, key.2, *depth)
    } else {
        *key
    }
}

/// The first descendent of a cell at the deepest level is a cell of the tree.
pub proof fn lemma_first_descendent_wf(k: Key, depth: u64)
    requires
        k.wf(depth),
    ensures
        Key(k.0, k.1, k.2, depth).wf(depth),
{
    lemma_side_divides(k.3, depth, depth);
    assert(k.0 as nat % 1 == 0 && k.1 as nat % 1 == 0 && k.2 as nat % 1 == 0);
}

/// The first child of a cell above the deepest level is a cell of the tree.
pub proof fn lemma_first_child_wf(k: Key, depth: u64)
    requires
        k.wf(depth),
        k.3 < depth,
    ensures
        Key(k.0, k.1, k.2, (k.3 + 1) as u64).wf(depth),
        Key(k.0, k.1, k.2, (k.3 + 1) as u64) == key_child(k, 0, depth),
{
    lemma_child_wf(k, 0, depth);
    let h = side((k.3 + 1) as u64, depth);
    lemma_unit_product(h, 0);
}

/// The greatest of the children of a **Morton Key**: the last of them.
pub fn find_greatest_child(key: &Key, depth: &u64) -> (greatest: Key)
    requires
        key.wf(*depth),
        key.3 < *depth,
    ensures
        greatest == key_child(*key, 7, *depth),
        greatest.wf(*depth),
{
    let children = find_children(key, depth);
    let greatest = match crate::sorting::max_key(children.as_slice()) {
        Some(child) => child,
        None => *key,
    };
    proof {
        lemma_child_wf(*key, 7, *depth);
        assert(children@[7] == key_child(*key, 7, *depth));
        let i = choose|i: int|
            0 <= i < children@.len() && #[trigger] children@[i].key_of() == greatest;
        if i < 7 {
            lemma_children_sorted(*key, i, 7, *depth);
            assert(!key_lt(greatest, children@[7].key_of()));
        }
    }
    greatest
}

/// The last cell of the deepest level inside `k`.
pub open spec fn deepest_last(k: Key, depth: u64) -> Key {
    Key(
        (k.0 + side(k.3, depth) - 1) as u64,
        (k.1 + side(k.3, depth) - 1) as u64,
        (k.2 + side(k.3, depth) - 1) as u64,
        depth,
    )
}

/// The deepest last descendent of a **Morton Key**. At the deepest level nodes are considered to
/// have side lengths of 1.
pub fn find_deepest_last_descendent(key: &Key, depth: &u64) -> (dld: Key)
    requires
        key.wf(*depth),
    ensures
        dld == deepest_last(*key, *depth),
        dld.wf(*depth),
{
    let mut dld = *key;
    proof {
        lemma_side_divides(key.3, key.3, *depth);
        lemma_side_divides(key.3, *depth, *depth);
        lemma_multiple_below(key.0 as nat, pow2(*depth as nat), side(key.3, *depth));
        lemma_multiple_below(key.1 as nat, pow2(*depth as nat), side(key.3, *depth));
        lemma_multiple_below(key.2 as nat, pow2(*depth as nat), side(key.3, *depth));
    }
    while dld.3 < *depth
        invariant
            key.wf(*depth),
            dld.wf(*depth),
            key.3 <= dld.3 <= *depth,
            dld.0 == key.0 + side(key.3, *depth) - side(dld.3, *depth),
            dld.1 == key.1 + side(key.3, *depth) - side(dld.3, *depth),
            dld.2 == key.2 + side(key.3, *depth) - side(dld.3, *depth),
        decreases *depth - dld.3,
    {
        let greatest = find_greatest_child(&dld, depth);
        proof {
            lemma_child_wf(dld, 7, *depth);
            lemma_side_step((dld.3 + 1) as u64, *depth);
            let h = side((dld.3 + 1) as u64, *depth);
            lemma_unit_product(h, 1);
            lemma_pow2_small(*depth as nat);
            assert(7int / 4 == 1 && (7int / 2) % 2 == 1 && 7int % 2 == 1);
            assert(greatest.0 == dld.0 + h);
            assert(greatest.1 == dld.1 + h);
            assert(greatest.2 == dld.2 + h);
        }
        dld = greatest;
    }
    dld
}

} // verus!
