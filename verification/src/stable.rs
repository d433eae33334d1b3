//! Stable arrangement of positions by key.
//!
//! Every sort in this crate is a stable sort by an integer key. Such a sort
//! is described here by the order in which it visits the positions of its
//! input: the arrangement `ord` lists the positions `0..n` by rising key,
//! positions of equal key in rising order. There is exactly one such
//! arrangement for a given sequence of keys.

use rayon::slice::ParallelSliceMut;
use vstd::prelude::*;
use vstd::set_lib::*;

verus! {

/// Position `a` is visited before position `b`: its key is smaller, or the
/// keys are equal and `a` is the earlier position.
pub open spec fn precedes(keys: Seq<int>, a: int, b: int) -> bool {
    keys[a] < keys[b] || (keys[a] == keys[b] && a < b)
}

/// `ord` is the stable arrangement of the positions of `keys`: it holds
/// `keys.len()` positions, and each is visited before all that follow it.
pub open spec fn is_stable_order(keys: Seq<int>, ord: Seq<int>) -> bool {
    &&& ord.len() == keys.len()
    &&& forall|i: int| 0 <= i < ord.len() ==> 0 <= #[trigger] ord[i] < keys.len()
    &&& forall|i: int, j: int|
        0 <= i < j < ord.len() ==> precedes(keys, #[trigger] ord[i], #[trigger] ord[j])
}

/// The items of `s` in the order `ord`: place `i` holds `s[ord[i]]`.
pub open spec fn permuted<T>(s: Seq<T>, ord: Seq<int>) -> Seq<T> {
    Seq::new(ord.len(), |i: int| s[ord[i]])
}

/// `ord` lists each of `0..ord.len()` exactly once.
pub open spec fn is_permutation(ord: Seq<int>) -> bool {
    &&& forall|i: int| 0 <= i < ord.len() ==> 0 <= #[trigger] ord[i] < ord.len()
    &&& forall|i: int, j: int|
        0 <= i < ord.len() && 0 <= j < ord.len() && i != j ==> #[trigger] ord[i] != #[trigger] ord[j]
    &&& forall|v: int| 0 <= v < ord.len() ==> #[trigger] ord.contains(v)
}

/// The keys of a sequence of exec integers, as mathematical integers.
pub open spec fn key_ints(keys: Seq<i64>) -> Seq<int> {
    Seq::new(keys.len(), |i: int| keys[i] as int)
}

/// The positions of a sequence of exec indices, as mathematical integers.
pub open spec fn index_ints(ord: Seq<usize>) -> Seq<int> {
    Seq::new(ord.len(), |i: int| ord[i] as int)
}

/// `after` is `before` rearranged, `from[i]` being the place in `before` of
/// the item at place `i` of `after`; the first components rise along
/// `after`, and items with equal first components keep the order they had.
pub open spec fn stably_sorted_from(
    before: Seq<(i64, usize)>,
    after: Seq<(i64, usize)>,
    from: Seq<int>,
) -> bool {
    &&& after.len() == before.len()
    &&& from.len() == before.len()
    &&& forall|i: int|
        0 <= i < after.len() ==> 0 <= #[trigger] from[i] < before.len() && after[i] == before[from[i]]
    &&& forall|i: int, j: int|
        0 <= i < j < after.len() ==> #[trigger] from[i] != #[trigger] from[j]
    &&& forall|i: int, j: int|
        0 <= i < j < after.len() ==> (#[trigger] after[i]).0 <= (#[trigger] after[j]).0
    &&& forall|i: int, j: int|
        0 <= i < j < after.len() && after[i].0 == after[j].0 ==> #[trigger] from[i] < #[trigger] from[j]
}

/// Sorts with rayon's `ParallelSliceMut::par_sort_by_key`, the key being the
/// first component of each pair. The contract is what rayon documents of
/// that method: the slice is rearranged into key order, and the sort is
/// stable, so pairs with equal keys are not reordered. Nothing of this is
/// proved here.
#[verifier::external_body]
fn par_sort_by_first(items: &mut Vec<(i64, usize)>)
    ensures
        exists|from: Seq<int>| stably_sorted_from(old(items)@, final(items)@, from),
{
    items.par_sort_by_key(|e| e.0);
}

/// The stable arrangement of the positions of `keys`, computed by a
/// parallel stable sort of the keys tagged with their positions.
pub fn stable_order(keys: &Vec<i64>) -> (ord: Vec<usize>)
    ensures
        is_stable_order(key_ints(keys@), index_ints(ord@)),
{
    let n: usize = keys.len();
    let mut tagged: Vec<(i64, usize)> = Vec::with_capacity(n);
    let mut j: usize = 0;
    while j < n
        invariant
            n == keys.len(),
            j <= n,
            tagged@.len() == j,
            forall|k: int| 0 <= k < j ==> #[trigger] tagged@[k] == (keys@[k], k as usize),
        decreases n - j,
    {
        tagged.push((keys[j], j));
        j = j + 1;
    }
    let ghost before = tagged@;
    par_sort_by_first(&mut tagged);
    let ghost from = choose|from: Seq<int>| stably_sorted_from(before, tagged@, from);
    let mut ord: Vec<usize> = Vec::with_capacity(n);
    let mut i: usize = 0;
    while i < n
        invariant
            n == keys.len(),
            i <= n,
            tagged@.len() == n,
            ord@.len() == i,
            forall|k: int| 0 <= k < i ==> #[trigger] ord@[k] == tagged@[k].1,
        decreases n - i,
    {
        ord.push(tagged[i].1);
        i = i + 1;
    }
    proof {
        let ks = key_ints(keys@);
        let os = index_ints(ord@);
        assert forall|i: int| 0 <= i < os.len() implies os[i] == from[i] && ks[os[i]] == tagged@[i].0 by {
            assert(tagged@[i] == before[from[i]]);
        }
        assert forall|i: int, j: int| 0 <= i < j < os.len() implies precedes(
            ks,
            #[trigger] os[i],
            #[trigger] os[j],
        ) by {
            assert(tagged@[i].0 <= tagged@[j].0);
            assert(from[i] != from[j]);
            if tagged@[i].0 == tagged@[j].0 {
                assert(from[i] < from[j]);
            }
        }
    }
    ord
}

/// A stable arrangement visits every position exactly once.
pub proof fn lemma_stable_order_is_permutation(keys: Seq<int>, ord: Seq<int>)
    requires
        is_stable_order(keys, ord),
    ensures
        is_permutation(ord),
{
    let n = ord.len() as int;
    assert forall|i: int, j: int|
        0 <= i < n && 0 <= j < n && i != j implies #[trigger] ord[i] != #[trigger] ord[j] by {
        if i < j {
            assert(precedes(keys, ord[i], ord[j]));
        } else {
            assert(precedes(keys, ord[j], ord[i]));
        }
    }
    lemma_distinct_positions_cover(ord);
}

/// `n` distinct values out of `0..n` are all of `0..n`.
pub proof fn lemma_distinct_positions_cover(ord: Seq<int>)
    requires
        forall|i: int| 0 <= i < ord.len() ==> 0 <= #[trigger] ord[i] < ord.len(),
        forall|i: int, j: int|
            0 <= i < ord.len() && 0 <= j < ord.len() && i != j ==> #[trigger] ord[i] != #[trigger] ord[j],
    ensures
        is_permutation(ord),
{
    let n = ord.len() as int;
    let held = ord.to_set();
    let all = set_int_range(0, n);
    assert(ord.no_duplicates());
    ord.unique_seq_to_set();
    lemma_int_range(0, n);
    assert(held.subset_of(all)) by {
        assert forall|v: int| held.contains(v) implies all.contains(v) by {
            let i = choose|i: int| 0 <= i < ord.len() && ord[i] == v;
            assert(0 <= ord[i] < n);
        }
    }
    lemma_len_subset(held, all);
    lemma_subset_equality(held, all);
    assert forall|v: int| 0 <= v < n implies #[trigger] ord.contains(v) by {
        assert(all.contains(v));
        assert(held.contains(v));
    }
}

/// The keys have one stable arrangement only: two arrangements of the same
/// keys agree at every place.
pub proof fn lemma_stable_order_unique(keys: Seq<int>, a: Seq<int>, b: Seq<int>)
    requires
        is_stable_order(keys, a),
        is_stable_order(keys, b),
    ensures
        a == b,
{
    if a.len() > 0 {
        lemma_stable_orders_agree_upto(keys, a, b, a.len() - 1);
    }
    assert(a =~= b);
}

proof fn lemma_stable_orders_agree_upto(keys: Seq<int>, a: Seq<int>, b: Seq<int>, i: int)
    requires
        is_stable_order(keys, a),
        is_stable_order(keys, b),
        0 <= i < a.len(),
    ensures
        forall|k: int| 0 <= k <= i ==> a[k] == b[k],
    decreases i,
{
    if i > 0 {
        lemma_stable_orders_agree_upto(keys, a, b, i - 1);
    }
    lemma_stable_order_is_permutation(keys, a);
    lemma_stable_order_is_permutation(keys, b);
    assert(b.contains(a[i]));
    assert(a.contains(b[i]));
    let ja = choose|j: int| 0 <= j < b.len() && b[j] == a[i];
    let jb = choose|j: int| 0 <= j < a.len() && a[j] == b[i];
    if ja < i {
        assert(a[ja] == b[ja]);
        assert(a[ja] != a[i]);
    }
    if jb < i {
        assert(b[jb] == a[jb]);
        assert(b[jb] != b[i]);
    }
    if ja > i && jb > i {
        assert(precedes(keys, b[i], b[ja]));
        assert(precedes(keys, a[i], a[jb]));
    }
}

/// The keys read from the far end, each one negated.
pub open spec fn mirrored_keys(keys: Seq<int>) -> Seq<int> {
    Seq::new(keys.len(), |j: int| -keys[keys.len() - 1 - j])
}

/// An arrangement read from the far end, each of its positions counted from
/// the far end too.
pub open spec fn mirrored_order(ord: Seq<int>) -> Seq<int> {
    Seq::new(ord.len(), |i: int| ord.len() - 1 - ord[ord.len() - 1 - i])
}

/// Sorting a line backwards by the negated keys and reading the result
/// backwards is sorting the line itself: the stable arrangement of the
/// mirrored keys, mirrored, is the stable arrangement of the keys.
pub proof fn lemma_mirrored_order(keys: Seq<int>, ord: Seq<int>)
    requires
        is_stable_order(mirrored_keys(keys), ord),
    ensures
        is_stable_order(keys, mirrored_order(ord)),
{
    let n = keys.len() as int;
    let back = mirrored_keys(keys);
    let turned = mirrored_order(ord);
    assert forall|i: int| 0 <= i < turned.len() implies 0 <= #[trigger] turned[i] < keys.len() by {
        assert(0 <= ord[n - 1 - i] < n);
    }
    assert forall|i: int, j: int| 0 <= i < j < turned.len() implies precedes(
        keys,
        #[trigger] turned[i],
        #[trigger] turned[j],
    ) by {
        let a = ord[n - 1 - j];
        let b = ord[n - 1 - i];
        assert(0 <= a < n && 0 <= b < n);
        assert(precedes(back, a, b));
        assert(back[a] == -keys[n - 1 - a]);
        assert(back[b] == -keys[n - 1 - b]);
    }
}

} // verus!
