//! Lists that pick some of a number of items, in order.

use vstd::prelude::*;

verus! {

/// The list holds one value for each of the first `count` positions that `picked` picks, in
/// order, and `at` tells the position of each; `shown` says how a value follows from its position.
pub open spec fn is_listing<B>(
    at: Seq<int>,
    list: Seq<B>,
    count: int,
    picked: spec_fn(int) -> bool,
    shown: spec_fn(int, B) -> bool,
) -> bool {
    &&& at.len() == list.len()
    &&& forall|j: int, k: int| 0 <= j < k < at.len() ==> #[trigger] at[j] < #[trigger] at[k]
    &&& forall|k: int|
        0 <= k < at.len() ==> 0 <= #[trigger] at[k] < count && picked(at[k]) && shown(
            at[k],
            list[k],
        )
    &&& forall|i: int| 0 <= i < count && #[trigger] picked(i) ==> at.contains(i)
}

/// The list holds one value for each of the first `count` positions that `picked` picks, in
/// order; `shown` says how a value follows from its position.
pub open spec fn lists<B>(
    list: Seq<B>,
    count: int,
    picked: spec_fn(int) -> bool,
    shown: spec_fn(int, B) -> bool,
) -> bool {
    exists|at: Seq<int>| #[trigger] is_listing(at, list, count, picked, shown)
}

proof fn lemma_filter_at<A, B>(
    items: Seq<A>,
    wanted: spec_fn(A) -> bool,
    made: spec_fn(A) -> B,
) -> (at: Seq<int>)
    ensures
        is_listing(
            at,
            items.filter(wanted).map_values(made),
            items.len() as int,
            |i: int| wanted(items[i]),
            |i: int, b: B| b == made(items[i]),
        ),
    decreases items.len(),
{
    reveal(Seq::filter);
    if items.len() == 0 {
        Seq::empty()
    } else {
        let rest = items.drop_last();
        let before = lemma_filter_at(rest, wanted, made);
        let last = items.len() - 1;
        let all = items.filter(wanted).map_values(made);
        let some = rest.filter(wanted).map_values(made);
        let at = if wanted(items.last()) {
            before.push(last)
        } else {
            before
        };
        if wanted(items.last()) {
            assert(all == some.push(made(items.last())));
        } else {
            assert(all == some);
        }
        let picked = |i: int| wanted(items[i]);
        let picked_before = |i: int| wanted(rest[i]);
        let shown = |i: int, b: B| b == made(items[i]);
        let shown_before = |i: int, b: B| b == made(rest[i]);
        assert(is_listing(before, some, rest.len() as int, picked_before, shown_before));
        assert forall|k: int| 0 <= k < at.len() implies 0 <= #[trigger] at[k] < items.len()
            && picked(at[k]) && shown(at[k], all[k]) by {
            if k < before.len() {
                assert(at[k] == before[k]);
                assert(picked_before(before[k]) && shown_before(before[k], some[k]));
                assert(rest[before[k]] == items[before[k]]);
            }
        }
        assert forall|j: int, k: int| 0 <= j < k < at.len() implies #[trigger] at[j]
            < #[trigger] at[k] by {
            assert(at[j] == before[j]);
            if k < before.len() {
                assert(before[j] < before[k]);
            }
        }
        assert forall|i: int| 0 <= i < items.len() && #[trigger] picked(i) implies at.contains(
            i,
        ) by {
            if i < last {
                assert(rest[i] == items[i]);
                assert(picked_before(i));
                let k = choose|k: int| 0 <= k < before.len() && before[k] == i;
                assert(at[k] == i);
            } else {
                assert(at[before.len() as int] == i);
            }
        }
        at
    }
}

/// What is made of the wanted items of a sequence lists these items.
pub proof fn lemma_filter_lists<A, B>(
    items: Seq<A>,
    wanted: spec_fn(A) -> bool,
    made: spec_fn(A) -> B,
)
    ensures
        lists(
            items.filter(wanted).map_values(made),
            items.len() as int,
            |i: int| wanted(items[i]),
            |i: int, b: B| b == made(items[i]),
        ),
{
    let at = lemma_filter_at(items, wanted, made);
    assert(is_listing(
        at,
        items.filter(wanted).map_values(made),
        items.len() as int,
        |i: int| wanted(items[i]),
        |i: int, b: B| b == made(items[i]),
    ));
}

/// A list is told as well by another way of picking the same positions, and by anything that
/// holds of the values.
pub proof fn lemma_lists_too<B>(
    list: Seq<B>,
    count: int,
    picked: spec_fn(int) -> bool,
    shown: spec_fn(int, B) -> bool,
    also_picked: spec_fn(int) -> bool,
    also_shown: spec_fn(int, B) -> bool,
)
    requires
        lists(list, count, picked, shown),
        forall|i: int| 0 <= i < count ==> #[trigger] picked(i) == also_picked(i),
        forall|i: int, b: B|
            0 <= i < count && picked(i) && #[trigger] shown(i, b) ==> also_shown(i, b),
    ensures
        lists(list, count, also_picked, also_shown),
{
    let at = choose|at: Seq<int>| #[trigger] is_listing(at, list, count, picked, shown);
    assert forall|i: int| 0 <= i < count && #[trigger] also_picked(i) implies at.contains(i) by {
        assert(picked(i));
    }
    assert forall|k: int| 0 <= k < at.len() implies 0 <= #[trigger] at[k] < count && also_picked(
        at[k],
    ) && also_shown(at[k], list[k]) by {
        assert(picked(at[k]) && shown(at[k], list[k]));
    }
    assert(is_listing(at, list, count, also_picked, also_shown));
}

/// A list of a stretch of positions lists them where they stand among all.
pub proof fn lemma_lists_stretch<B>(
    list: Seq<B>,
    count: int,
    picked: spec_fn(int) -> bool,
    shown: spec_fn(int, B) -> bool,
    from: int,
    total: int,
    also_picked: spec_fn(int) -> bool,
    also_shown: spec_fn(int, B) -> bool,
)
    requires
        lists(list, count, picked, shown),
        0 <= from,
        from + count <= total,
        forall|i: int| 0 <= i < count && #[trigger] picked(i) ==> also_picked(from + i),
        forall|i: int|
            0 <= i < total && #[trigger] also_picked(i) ==> from <= i < from + count && picked(
                i - from,
            ),
        forall|i: int, b: B|
            0 <= i < count && picked(i) && #[trigger] shown(i, b) ==> also_shown(from + i, b),
    ensures
        lists(list, total, also_picked, also_shown),
{
    let at = choose|at: Seq<int>| #[trigger] is_listing(at, list, count, picked, shown);
    let moved = at.map_values(|i: int| from + i);
    assert forall|k: int| 0 <= k < moved.len() implies 0 <= #[trigger] moved[k] < total
        && also_picked(moved[k]) && also_shown(moved[k], list[k]) by {
        assert(picked(at[k]) && shown(at[k], list[k]));
    }
    assert forall|j: int, k: int| 0 <= j < k < moved.len() implies #[trigger] moved[j]
        < #[trigger] moved[k] by {
        assert(at[j] < at[k]);
    }
    assert forall|i: int| 0 <= i < total && #[trigger] also_picked(i) implies moved.contains(i) by {
        assert(picked(i - from));
        let k = choose|k: int| 0 <= k < at.len() && at[k] == i - from;
        assert(moved[k] == i);
    }
    assert(is_listing(moved, list, total, also_picked, also_shown));
}

/// Two lists of the same positions whose values follow from them in only one way are the same.
pub proof fn lemma_one_list<B>(
    list: Seq<B>,
    other: Seq<B>,
    count: int,
    picked: spec_fn(int) -> bool,
    shown: spec_fn(int, B) -> bool,
)
    requires
        lists(list, count, picked, shown),
        lists(other, count, picked, shown),
        forall|i: int, a: B, b: B|
            0 <= i < count && #[trigger] shown(i, a) && #[trigger] shown(i, b) ==> a == b,
    ensures
        list == other,
{
    let at = choose|at: Seq<int>| #[trigger] is_listing(at, list, count, picked, shown);
    let other_at = choose|at: Seq<int>| #[trigger] is_listing(at, other, count, picked, shown);
    lemma_same_positions(at, list, other_at, other, count, picked, shown);
    lemma_same_positions(other_at, other, at, list, count, picked, shown);
    assert forall|k: int| 0 <= k < list.len() implies list[k] == other[k] by {
        assert(at[k] == other_at[k]);
        assert(shown(at[k], list[k]));
        assert(shown(other_at[k], other[k]));
    }
    assert(list == other);
}

proof fn lemma_same_positions<B>(
    at: Seq<int>,
    list: Seq<B>,
    other_at: Seq<int>,
    other: Seq<B>,
    count: int,
    picked: spec_fn(int) -> bool,
    shown: spec_fn(int, B) -> bool,
)
    requires
        is_listing(at, list, count, picked, shown),
        is_listing(other_at, other, count, picked, shown),
    ensures
        at.len() <= other_at.len(),
        forall|k: int| 0 <= k < at.len() ==> #[trigger] at[k] == other_at[k],
{
    lemma_positions_up_to(at, list, other_at, other, count, picked, shown, at.len() as int);
}

proof fn lemma_positions_up_to<B>(
    at: Seq<int>,
    list: Seq<B>,
    other_at: Seq<int>,
    other: Seq<B>,
    count: int,
    picked: spec_fn(int) -> bool,
    shown: spec_fn(int, B) -> bool,
    n: int,
)
    requires
        is_listing(at, list, count, picked, shown),
        is_listing(other_at, other, count, picked, shown),
        0 <= n <= at.len(),
    ensures
        n <= other_at.len(),
        forall|k: int| 0 <= k < n ==> #[trigger] at[k] == other_at[k],
    decreases n,
{
    if n > 0 {
        let last = n - 1;
        lemma_positions_up_to(at, list, other_at, other, count, picked, shown, last);
        assert(picked(at[last]));
        let k = choose|k: int| 0 <= k < other_at.len() && other_at[k] == at[last];
        if k < last {
            assert(at[k] == other_at[k]);
            assert(at[k] < at[last]);
        }
        if k > last {
            assert(picked(other_at[last]));
            let j = choose|j: int| 0 <= j < at.len() && at[j] == other_at[last];
            assert(other_at[last] < other_at[k]);
            if j < last {
                assert(at[j] == other_at[j]);
                assert(other_at[j] < other_at[last]);
            } else if j > last {
                assert(at[last] < at[j]);
            }
        }
    }
}

} // verus!
