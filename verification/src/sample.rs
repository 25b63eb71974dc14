use vstd::prelude::*;
use rand::Rng;
use crate::morton::{key_lt, less_than, Key, Keyed, Leaf, Leaves};
use crate::sorting::{keeps_order_within_keys, sort_by_key, sorted_by_key};

verus! {

/// Sample density for over sampled parallel Sample Sort implementation.
pub const K: usize = 10;

/// `rand::rngs::ThreadRng`: the handle of a random number generator. The
/// library only passes it on.
#[verifier::external_type_specification]
#[verifier::external_body]
pub struct ExThreadRng(rand::rngs::ThreadRng);

/// `rand::thread_rng`: the random number generator of the calling thread.
/// Nothing is claimed of it.
#[verifier::external_body]
fn thread_generator() -> rand::rngs::ThreadRng {
    rand::thread_rng()
}

/// `rand::Rng::gen_range` on `0..n`: a number drawn from that range. The
/// range must not be empty, or the call panics. All that is claimed of the
/// number is that it lies in the range.
#[verifier::external_body]
fn random_below(generator: &mut rand::rngs::ThreadRng, n: usize) -> (index: usize)
    requires
        n > 0,
    ensures
        index < n,
{
    generator.gen_range(0..n)
}

/// The leaves at the given places, in the order of the places.
pub fn leaves_at(local_leaves: &[Leaf], places: &[usize]) -> (samples: Leaves)
    requires
        forall|i: int| 0 <= i < places@.len() ==> (#[trigger] places@[i]) < local_leaves@.len(),
    ensures
        samples@.len() == places@.len(),
        forall|i: int|
            0 <= i < places@.len() ==> #[trigger] samples@[i] == local_leaves@[places@[i] as int],
{
    let mut samples: Leaves = Vec::new();
    let mut i: usize = 0;
    while i < places.len()
        invariant
            i <= places@.len(),
            forall|j: int| 0 <= j < places@.len() ==> (#[trigger] places@[j]) < local_leaves@.len(),
            samples@.len() == i,
            forall|j: int| 0 <= j < i ==> #[trigger] samples@[j] == local_leaves@[places@[j] as int],
        decreases places.len() - i,
    {
        samples.push(local_leaves[places[i]]);
        i = i + 1;
    }
    samples
}

/// Draw `K` of the local leaves at random, with replacement.
///
/// Which leaves are drawn is left to chance; each sample is one of the
/// local leaves.
pub fn sample_leaves(local_leaves: &[Leaf]) -> (samples: Leaves)
    requires
        local_leaves@.len() > 0,
    ensures
        samples@.len() == K,
        forall|i: int| 0 <= i < K ==> local_leaves@.contains(#[trigger] samples@[i]),
{
    let nleaves = local_leaves.len();
    let mut generator = thread_generator();
    let mut places: Vec<usize> = Vec::new();
    let mut i: usize = 0;
    while i < K
        invariant
            i <= K,
            nleaves == local_leaves@.len(),
            nleaves > 0,
            places@.len() == i,
            forall|j: int| 0 <= j < i ==> (#[trigger] places@[j]) < nleaves,
        decreases K - i,
    {
        let place = random_below(&mut generator, nleaves);
        places.push(place);
        i = i + 1;
    }
    leaves_at(local_leaves, places.as_slice())
}

/// How many splitters `n` samples give: one for each `K`-th sample after the
/// first `K`.
pub open spec fn splitter_count(n: nat) -> nat {
    if n <= K {
        0
    } else {
        ((n - K - 1) / (K as int) + 1) as nat
    }
}

/// `K` samples from each of `p` processes give `p - 1` splitters.
pub proof fn lemma_splitter_count(p: nat)
    requires
        p >= 1,
    ensures
        splitter_count((p * K) as nat) == p - 1,
{
    assert(p * K == 10 * p) by (nonlinear_arith)
        requires
            K == 10,
    ;
}

/// Choose the splitters among the samples of all processes.
///
/// The samples are sorted; the first `K` are passed over, and of the rest
/// every `K`-th is a splitter, the first of them included. `K` samples from
/// each of `P` processes give `P - 1` splitters.
pub fn choose_splitters(received_samples: &mut Leaves) -> (splitters: Leaves)
    ensures
        sorted_by_key(final(received_samples)@),
        final(received_samples)@.to_multiset() == old(received_samples)@.to_multiset(),
        keeps_order_within_keys(old(received_samples)@, final(received_samples)@),
        splitters@.len() == splitter_count(old(received_samples)@.len()),
        forall|i: int|
            0 <= i < splitters@.len() ==> #[trigger] splitters@[i] == final(received_samples)@[K
                * (i + 1)],
{
    sort_by_key(received_samples);
    let mut splitters: Leaves = Vec::new();
    let n = received_samples.len();
    if n <= K {
        return splitters;
    }
    let count = (n - K - 1) / K + 1;
    let mut i: usize = 0;
    while i < count
        invariant
            n == received_samples@.len(),
            n > K,
            count == splitter_count(n as nat),
            i <= count,
            splitters@.len() == i,
            forall|j: int|
                0 <= j < i ==> #[trigger] splitters@[j] == received_samples@[K * (j + 1)],
        decreases count - i,
    {
        splitters.push(received_samples[K * (i + 1)]);
        i = i + 1;
    }
    splitters
}

/// The first splitter from place `from` on that lies above `key`, or the
/// number of splitters where none does.
pub open spec fn first_above(key: Key, splitters: Seq<Leaf>, from: int) -> int
    decreases splitters.len() - from,
{
    if from >= splitters.len() {
        splitters.len() as int
    } else if key_lt(key, splitters[from].key) {
        from
    } else {
        first_above(key, splitters, from + 1)
    }
}

/// The bucket of `key`: bucket `i` takes the keys from splitter `i - 1` up
/// to, and without, splitter `i`; the first takes all below the first
/// splitter, the last all from the last splitter on.
pub open spec fn bucket_index(key: Key, splitters: Seq<Leaf>) -> int {
    first_above(key, splitters, 0)
}

/// Find the bucket of one key.
pub fn find_bucket(key: &Key, splitters: &[Leaf]) -> (bucket: usize)
    ensures
        bucket == bucket_index(*key, splitters@),
        bucket <= splitters@.len(),
{
    let mut i: usize = 0;
    while i < splitters.len()
        invariant
            i <= splitters@.len(),
            bucket_index(*key, splitters@) == first_above(*key, splitters@, i as int),
        decreases splitters.len() - i,
    {
        if less_than(key, &splitters[i].key) {
            return i;
        }
        i = i + 1;
    }
    i
}

/// The items that belong in the given bucket.
pub open spec fn in_bucket<T: Keyed>(splitters: Seq<Leaf>, bucket: int) -> spec_fn(T) -> bool {
    |item: T| bucket_index(item.key_of(), splitters) == bucket
}

/// Sort local items into one bucket for each process: one more bucket than
/// there are splitters. Within a bucket the items keep their order.
pub fn bucket_by_splitters<T: Keyed>(items: &[T], splitters: &[Leaf]) -> (buckets: Vec<Vec<T>>)
    requires
        splitters@.len() < usize::MAX,
    ensures
        buckets@.len() == splitters@.len() + 1,
        forall|b: int|
            0 <= b < buckets@.len() ==> (#[trigger] buckets@[b])@ == items@.filter(
                in_bucket(splitters@, b),
            ),
{
    let mut places: Vec<usize> = Vec::new();
    let mut i: usize = 0;
    while i < items.len()
        invariant
            i <= items@.len(),
            places@.len() == i,
            forall|j: int|
                0 <= j < i ==> (#[trigger] places@[j]) == bucket_index(
                    items@[j].key_of(),
                    splitters@,
                ),
        decreases items.len() - i,
    {
        places.push(find_bucket(&items[i].sort_key(), splitters));
        i = i + 1;
    }
    let mut buckets: Vec<Vec<T>> = Vec::new();
    let mut b: usize = 0;
    while b < splitters.len() + 1
        invariant
            b <= splitters@.len() + 1,
            splitters@.len() < usize::MAX,
            places@.len() == items@.len(),
            forall|j: int|
                0 <= j < items@.len() ==> (#[trigger] places@[j]) == bucket_index(
                    items@[j].key_of(),
                    splitters@,
                ),
            buckets@.len() == b,
            forall|c: int|
                0 <= c < b ==> (#[trigger] buckets@[c])@ == items@.filter(in_bucket(splitters@, c)),
        decreases splitters.len() + 1 - b,
    {
        let ghost belongs = in_bucket::<T>(splitters@, b as int);
        let mut bucket: Vec<T> = Vec::new();
        let mut j: usize = 0;
        proof {
            assert(items@.take(0).filter(belongs) =~= Seq::<T>::empty()) by {
                items@.take(0).lemma_filter_len(belongs);
            }
        }
        while j < items.len()
            invariant
                j <= items@.len(),
                places@.len() == items@.len(),
                forall|p: int|
                    0 <= p < items@.len() ==> (#[trigger] places@[p]) == bucket_index(
                        items@[p].key_of(),
                        splitters@,
                    ),
                belongs == in_bucket::<T>(splitters@, b as int),
                bucket@ == items@.take(j as int).filter(belongs),
            decreases items.len() - j,
        {
            proof {
                assert(items@.take(j + 1) =~= items@.take(j as int).push(items@[j as int]));
                items@.take(j as int).lemma_filter_push(items@[j as int], belongs);
            }
            if places[j] == b {
                bucket.push(items[j]);
            }
            j = j + 1;
        }
        proof {
            assert(items@.take(j as int) =~= items@);
        }
        buckets.push(bucket);
        b = b + 1;
    }
    buckets
}

/// The buckets are ordered among themselves: a key of an earlier bucket is
/// less than every key of a later one.
pub proof fn lemma_buckets_ordered(first: Key, second: Key, splitters: Seq<Leaf>)
    requires
        bucket_index(first, splitters) < bucket_index(second, splitters),
    ensures
        key_lt(first, second),
{
    lemma_first_above_ordered(first, second, splitters, 0);
}

proof fn lemma_first_above_bounds(key: Key, splitters: Seq<Leaf>, from: int)
    requires
        0 <= from <= splitters.len(),
    ensures
        from <= first_above(key, splitters, from) <= splitters.len(),
    decreases splitters.len() - from,
{
    if from < splitters.len() && !key_lt(key, splitters[from].key) {
        lemma_first_above_bounds(key, splitters, from + 1);
    }
}

proof fn lemma_first_above_ordered(first: Key, second: Key, splitters: Seq<Leaf>, from: int)
    requires
        0 <= from,
        first_above(first, splitters, from) < first_above(second, splitters, from),
    ensures
        key_lt(first, second),
    decreases splitters.len() - from,
{
    if from < splitters.len() {
        lemma_first_above_bounds(first, splitters, from + 1);
        lemma_first_above_bounds(second, splitters, from + 1);
        if !key_lt(first, splitters[from].key) {
            lemma_first_above_ordered(first, second, splitters, from + 1);
        }
    }
}

/// Take in what other processes sent and sort: the leaves received, then
/// the leaves of the local bucket, in Morton order.
pub fn gather_sorted<T: Keyed>(received: &mut Vec<T>, local: &mut Vec<T>)
    ensures
        sorted_by_key(final(received)@),
        final(received)@.to_multiset() == (old(received)@ + old(local)@).to_multiset(),
        keeps_order_within_keys(old(received)@ + old(local)@, final(received)@),
        final(local)@.len() == 0,
{
    received.append(local);
    sort_by_key(received);
}

} // verus!
