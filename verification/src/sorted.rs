//! Lists that are sorted by name.
use crate::model::{GitCrate, GitCrateView, GitRepo, GitRepoView};
use crate::order::{
    is_text_before, lemma_text_before_irreflexive, lemma_text_before_total,
    lemma_text_before_transitive, text_before,
};
use vstd::prelude::*;

verus! {

/// `x` put into a sorted list, behind the items that do not come after it.
pub open spec fn place<T>(sorted: Seq<T>, x: T, key: spec_fn(T) -> Seq<char>) -> Seq<T>
    decreases sorted.len(),
{
    if sorted.len() > 0 && text_before(key(x), key(sorted.last())) {
        place(sorted.drop_last(), x, key).push(sorted.last())
    } else {
        sorted.push(x)
    }
}

/// The items in the order of their keys; items with the same key keep their order.
pub open spec fn sort_by<T>(items: Seq<T>, key: spec_fn(T) -> Seq<char>) -> Seq<T>
    decreases items.len(),
{
    if items.len() == 0 {
        Seq::empty()
    } else {
        place(sort_by(items.drop_last(), key), items.last(), key)
    }
}

/// An item with a name.
pub trait Named: DeepView + Sized {
    /// The name of an item.
    spec fn name_key() -> spec_fn(Self::V) -> Seq<char>;

    /// The name of this item.
    fn name_text(&self) -> (r: &str)
        ensures
            r@ == Self::name_key()(self.deep_view()),
    ;
}

/// The name of a repository.
pub open spec fn repo_key() -> spec_fn(GitRepoView) -> Seq<char> {
    |r: GitRepoView| r.name
}

/// The name of a crate.
pub open spec fn crate_key() -> spec_fn(GitCrateView) -> Seq<char> {
    |c: GitCrateView| c.name
}

impl Named for GitRepo {
    open spec fn name_key() -> spec_fn(GitRepoView) -> Seq<char> {
        repo_key()
    }

    fn name_text(&self) -> (r: &str) {
        self.name.as_str()
    }
}

impl Named for GitCrate {
    open spec fn name_key() -> spec_fn(GitCrateView) -> Seq<char> {
        crate_key()
    }

    fn name_text(&self) -> (r: &str) {
        self.name.as_str()
    }
}

/// Puts `x` into a list that is sorted by name, behind the items that do not come after it.
pub fn insert_by_name<T: Named>(items: &mut Vec<T>, x: T)
    ensures
        final(items).deep_view() == place(old(items).deep_view(), x.deep_view(), T::name_key()),
{
    let ghost all = items.deep_view();
    let ghost xv = x.deep_view();
    let ghost key = T::name_key();
    let mut at: usize = items.len();
    assert(all.take(all.len() as int) =~= all);
    assert(place(all, xv, key) + all.skip(all.len() as int) =~= place(all, xv, key));
    while at > 0 && is_text_before(x.name_text(), items[at - 1].name_text())
        invariant
            all == items.deep_view(),
            all.len() == items@.len(),
            xv == x.deep_view(),
            key == T::name_key(),
            at <= items@.len(),
            place(all, xv, key) == place(all.take(at as int), xv, key) + all.skip(at as int),
        decreases at,
    {
        proof {
            let t = all.take(at as int);
            assert(t.last() == all[at - 1]);
            assert(t.drop_last() =~= all.take(at - 1));
            assert(place(all.take(at - 1), xv, key).push(t.last()) + all.skip(at as int) =~= place(
                all.take(at - 1),
                xv,
                key,
            ) + all.skip(at - 1));
        }
        at = at - 1;
    }
    proof {
        let t = all.take(at as int);
        if at > 0 {
            assert(t.last() == all[at - 1]);
        }
        assert(place(t, xv, key) == t.push(xv));
    }
    items.insert(at, x);
    assert(items.deep_view() =~= all.take(at as int).push(xv) + all.skip(at as int));
}

/// The items stand in the order of their keys.
pub open spec fn is_sorted<T>(items: Seq<T>, key: spec_fn(T) -> Seq<char>) -> bool {
    forall|i: int, j: int|
        0 <= i < j < items.len() ==> !text_before(key(#[trigger] items[j]), key(#[trigger] items[i]))
}

/// What `place` adds to a list.
proof fn lemma_place_contains<T>(sorted: Seq<T>, x: T, key: spec_fn(T) -> Seq<char>)
    ensures
        place(sorted, x, key).len() == sorted.len() + 1,
        place(sorted, x, key).to_multiset() == sorted.to_multiset().insert(x),
    decreases sorted.len(),
{
    broadcast use vstd::seq_lib::group_to_multiset_ensures;

    if sorted.len() > 0 && text_before(key(x), key(sorted.last())) {
        lemma_place_contains(sorted.drop_last(), x, key);
        assert(sorted.drop_last().push(sorted.last()) =~= sorted);
        assert(place(sorted, x, key).to_multiset() =~= sorted.to_multiset().insert(x));
    }
}

/// Sorting neither adds nor loses an item.
pub proof fn lemma_sort_keeps_items<T>(items: Seq<T>, key: spec_fn(T) -> Seq<char>)
    ensures
        sort_by(items, key).to_multiset() == items.to_multiset(),
    decreases items.len(),
{
    broadcast use vstd::seq_lib::group_to_multiset_ensures;

    if items.len() > 0 {
        lemma_sort_keeps_items(items.drop_last(), key);
        lemma_place_contains(sort_by(items.drop_last(), key), items.last(), key);
        assert(items.drop_last().push(items.last()) =~= items);
    } else {
        assert(items =~= Seq::<T>::empty());
    }
}

/// Every item of a list stands in the sorted list, and every item of that in the list.
pub proof fn lemma_sort_contains<T>(items: Seq<T>, key: spec_fn(T) -> Seq<char>, x: T)
    ensures
        sort_by(items, key).contains(x) <==> items.contains(x),
{
    broadcast use vstd::seq_lib::group_to_multiset_ensures;

    lemma_sort_keeps_items(items, key);
    assert(sort_by(items, key).contains(x) <==> sort_by(items, key).to_multiset().count(x) > 0);
    assert(items.contains(x) <==> items.to_multiset().count(x) > 0);
}

proof fn lemma_place_is_sorted<T>(sorted: Seq<T>, x: T, key: spec_fn(T) -> Seq<char>)
    requires
        is_sorted(sorted, key),
    ensures
        is_sorted(place(sorted, x, key), key),
        forall|i: int|
            0 <= i < place(sorted, x, key).len() ==> #[trigger] place(sorted, x, key)[i] == x
                || sorted.contains(place(sorted, x, key)[i]),
    decreases sorted.len(),
{
    let placed = place(sorted, x, key);
    lemma_place_contains(sorted, x, key);
    if sorted.len() > 0 && text_before(key(x), key(sorted.last())) {
        let front = sorted.drop_last();
        let inner = place(front, x, key);
        lemma_place_is_sorted(front, x, key);
        lemma_place_contains(front, x, key);
        assert forall|i: int| 0 <= i < placed.len() implies #[trigger] placed[i] == x
            || sorted.contains(placed[i]) by {
            if i < inner.len() {
                assert(placed[i] == inner[i]);
                if inner[i] != x {
                    assert(front.contains(inner[i]));
                    let k: int = choose|k: int| 0 <= k < front.len() && front[k] == inner[i];
                    assert(sorted[k] == inner[i]);
                }
            } else {
                assert(sorted[sorted.len() - 1] == placed[i]);
            }
        }
        assert forall|i: int, j: int| 0 <= i < j < placed.len() implies !text_before(
            key(#[trigger] placed[j]),
            key(#[trigger] placed[i]),
        ) by {
            assert(placed[i] == inner[i]);
            if j < inner.len() {
                assert(placed[j] == inner[j]);
            } else {
                if inner[i] == x {
                    if text_before(key(sorted.last()), key(x)) {
                        lemma_text_before_transitive(key(x), key(sorted.last()), key(x));
                        lemma_text_before_irreflexive(key(x));
                    }
                } else {
                    let k: int = choose|k: int| 0 <= k < front.len() && front[k] == inner[i];
                    assert(sorted[k] == inner[i]);
                }
            }
        }
    } else {
        assert forall|i: int| 0 <= i < placed.len() implies #[trigger] placed[i] == x
            || sorted.contains(placed[i]) by {
            if i < sorted.len() {
                assert(sorted[i] == placed[i]);
            }
        }
        assert forall|i: int, j: int| 0 <= i < j < placed.len() implies !text_before(
            key(#[trigger] placed[j]),
            key(#[trigger] placed[i]),
        ) by {
            assert(placed[i] == sorted[i]);
            if j == sorted.len() && text_before(key(x), key(sorted[i])) {
                let last = sorted.last();
                if i < sorted.len() - 1 {
                    assert(!text_before(key(sorted[sorted.len() - 1]), key(sorted[i])));
                    lemma_text_before_total(key(sorted[i]), key(last));
                    if text_before(key(sorted[i]), key(last)) {
                        lemma_text_before_transitive(key(x), key(sorted[i]), key(last));
                    }
                }
            }
        }
    }
}

/// The sorted list stands in the order of the keys.
pub proof fn lemma_sort_is_sorted<T>(items: Seq<T>, key: spec_fn(T) -> Seq<char>)
    ensures
        is_sorted(sort_by(items, key), key),
    decreases items.len(),
{
    if items.len() > 0 {
        lemma_sort_is_sorted(items.drop_last(), key);
        lemma_place_is_sorted(sort_by(items.drop_last(), key), items.last(), key);
    }
}

/// The item has the key `k`.
pub open spec fn has_key<T>(key: spec_fn(T) -> Seq<char>, k: Seq<char>) -> spec_fn(T) -> bool {
    |x: T| key(x) == k
}

proof fn lemma_place_is_stable<T>(
    sorted: Seq<T>,
    x: T,
    key: spec_fn(T) -> Seq<char>,
    k: Seq<char>,
)
    requires
        is_sorted(sorted, key),
    ensures
        place(sorted, x, key).filter(has_key(key, k)) == sorted.push(x).filter(has_key(key, k)),
    decreases sorted.len(),
{
    let p = has_key(key, k);
    if sorted.len() > 0 && text_before(key(x), key(sorted.last())) {
        let front = sorted.drop_last();
        let last = sorted.last();
        lemma_place_is_stable(front, x, key, k);
        let inner = place(front, x, key);
        inner.lemma_filter_push(last, p);
        front.lemma_filter_push(x, p);
        front.lemma_filter_push(last, p);
        sorted.lemma_filter_push(x, p);
        assert(front.push(last) =~= sorted);
        lemma_text_before_irreflexive(key(x));
        assert(!(p(x) && p(last)));
    }
}

/// Items with the same key keep their order.
pub proof fn lemma_sort_is_stable<T>(items: Seq<T>, key: spec_fn(T) -> Seq<char>, k: Seq<char>)
    ensures
        sort_by(items, key).filter(has_key(key, k)) == items.filter(has_key(key, k)),
    decreases items.len(),
{
    let p = has_key(key, k);
    if items.len() > 0 {
        let front = items.drop_last();
        lemma_sort_is_stable(front, key, k);
        lemma_sort_is_sorted(front, key);
        lemma_place_is_stable(sort_by(front, key), items.last(), key, k);
        sort_by(front, key).lemma_filter_push(items.last(), p);
        front.lemma_filter_push(items.last(), p);
        assert(front.push(items.last()) =~= items);
    } else {
        assert(items =~= Seq::<T>::empty());
    }
}

/// What is left of a list stands in the order of the list.
pub proof fn lemma_filter_keeps_order<T>(items: Seq<T>, p: spec_fn(T) -> bool, i: int, j: int)
    requires
        0 <= i < j < items.filter(p).len(),
    ensures
        exists|a: int, b: int|
            0 <= a < b < items.len() && #[trigger] items[a] == items.filter(p)[i]
                && #[trigger] items[b] == items.filter(p)[j],
    decreases items.len(),
{
    reveal(Seq::filter);
    let front = items.drop_last();
    let kept = front.filter(p);
    if j < kept.len() {
        lemma_filter_keeps_order(front, p, i, j);
        let (a, b): (int, int) = choose|a: int, b: int|
            0 <= a < b < front.len() && #[trigger] front[a] == kept[i] && #[trigger] front[b]
                == kept[j];
        assert(items[a] == front[a] && items[b] == front[b]);
    } else {
        assert(kept.contains(kept[i]));
        front.lemma_filter_contains_rev(p, kept[i]);
        let a: int = choose|a: int| 0 <= a < front.len() && front[a] == kept[i];
        assert(items[a] == front[a]);
        assert(items[items.len() - 1] == items.last());
    }
}

} // verus!
