use vstd::multiset::Multiset;
use vstd::prelude::*;

use crate::bins::{total_size, Bin, Pack};

verus! {

/// Sizes never increase along the sequence.
pub open spec fn sorted_desc<T: Pack>(s: Seq<T>) -> bool {
    forall|i: int, j: int| 0 <= i < j < s.len() ==> s[i].spec_size() >= s[j].spec_size()
}

/// The items that each bin holds, bin by bin.
pub open spec fn contents<T>(bins: Seq<Bin<T>>) -> Seq<Seq<T>> {
    bins.map_values(|b: Bin<T>| b.items@)
}

/// Every bin holds exactly `capacity` worth of items and free space.
pub open spec fn all_conserve<T: Pack>(bins: Seq<Bin<T>>, capacity: u64) -> bool {
    forall|k: int| 0 <= k < bins.len() ==> #[trigger] bins[k].conserves(capacity)
}

/// Every item is at most `capacity` in size.
pub open spec fn all_fit<T: Pack>(s: Seq<T>, capacity: u64) -> bool {
    forall|i: int| 0 <= i < s.len() ==> #[trigger] s[i].spec_size() <= capacity
}

/// A group of items can take `x` without exceeding `capacity`.
pub open spec fn fits_in<T: Pack>(group: Seq<T>, x: T, capacity: u64) -> bool {
    total_size(group) + x.spec_size() <= capacity
}

/// The first group at or after `k` that can take `x`, or the number of groups
/// if none can.
pub open spec fn first_fit_from<T: Pack>(groups: Seq<Seq<T>>, x: T, capacity: u64, k: int) -> int
    decreases groups.len() - k,
{
    if k < 0 || k >= groups.len() {
        groups.len() as int
    } else if fits_in(groups[k], x, capacity) {
        k
    } else {
        first_fit_from(groups, x, capacity, k + 1)
    }
}

/// Puts `x` into the first group that can take it, else into a new group
/// at the end.
pub open spec fn place<T: Pack>(groups: Seq<Seq<T>>, x: T, capacity: u64) -> Seq<Seq<T>> {
    let k = first_fit_from(groups, x, capacity, 0);
    if k < groups.len() {
        groups.update(k, groups[k].push(x))
    } else {
        groups.push(seq![x])
    }
}

/// First fit: the items, in the order given, each placed by `place`,
/// starting from `groups`.
pub open spec fn first_fit<T: Pack>(items: Seq<T>, groups: Seq<Seq<T>>, capacity: u64) -> Seq<Seq<T>>
    decreases items.len(),
{
    if items.len() == 0 {
        groups
    } else {
        place(first_fit(items.drop_last(), groups, capacity), items.last(), capacity)
    }
}

pub proof fn lemma_total_size_push<T: Pack>(s: Seq<T>, x: T)
    ensures
        total_size(s.push(x)) == total_size(s) + x.spec_size(),
{
    assert(s.push(x).drop_last() =~= s);
}

proof fn lemma_first_fit_from_is<T: Pack>(
    groups: Seq<Seq<T>>,
    x: T,
    capacity: u64,
    k: int,
    j: int,
)
    requires
        0 <= k <= j <= groups.len(),
        forall|m: int| 0 <= m < j ==> !fits_in(#[trigger] groups[m], x, capacity),
        j < groups.len() ==> fits_in(groups[j], x, capacity),
    ensures
        first_fit_from(groups, x, capacity, k) == j,
    decreases j - k,
{
    if k < j {
        lemma_first_fit_from_is(groups, x, capacity, k + 1, j);
    }
}

/// All the items of all the groups, as a multiset.
pub open spec fn groups_multiset<T>(groups: Seq<Seq<T>>) -> Multiset<T>
    decreases groups.len(),
{
    if groups.len() == 0 {
        Multiset::empty()
    } else {
        groups_multiset(groups.drop_last()).add(groups.last().to_multiset())
    }
}

/// How many items the groups hold together.
pub open spec fn item_count<T>(groups: Seq<Seq<T>>) -> nat
    decreases groups.len(),
{
    if groups.len() == 0 {
        0
    } else {
        item_count(groups.drop_last()) + groups.last().len()
    }
}

pub proof fn lemma_item_count<T>(groups: Seq<Seq<T>>)
    ensures
        groups_multiset(groups).len() == item_count(groups),
    decreases groups.len(),
{
    broadcast use vstd::seq_lib::group_to_multiset_ensures;

    if groups.len() > 0 {
        lemma_item_count(groups.drop_last());
    }
}

pub proof fn lemma_groups_multiset_push<T>(groups: Seq<Seq<T>>, g: Seq<T>)
    ensures
        groups_multiset(groups.push(g)) == groups_multiset(groups).add(g.to_multiset()),
{
    assert(groups.push(g).drop_last() =~= groups);
}

pub proof fn lemma_groups_multiset_grow<T>(groups: Seq<Seq<T>>, k: int, x: T)
    requires
        0 <= k < groups.len(),
    ensures
        groups_multiset(groups.update(k, groups[k].push(x))) == groups_multiset(groups).insert(x),
    decreases groups.len(),
{
    broadcast use vstd::seq_lib::group_to_multiset_ensures;

    let u = groups.update(k, groups[k].push(x));
    if k == groups.len() - 1 {
        assert(u.drop_last() =~= groups.drop_last());
        assert(groups_multiset(u) =~= groups_multiset(groups).insert(x));
    } else {
        lemma_groups_multiset_grow(groups.drop_last(), k, x);
        assert(u.drop_last() =~= groups.drop_last().update(k, groups[k].push(x)));
        assert(groups_multiset(u) =~= groups_multiset(groups).insert(x));
    }
}

/// First fit loses no item and makes up none.
pub proof fn lemma_first_fit_multiset<T: Pack>(items: Seq<T>, groups: Seq<Seq<T>>, capacity: u64)
    ensures
        groups_multiset(first_fit(items, groups, capacity)) == groups_multiset(groups).add(
            items.to_multiset(),
        ),
    decreases items.len(),
{
    broadcast use vstd::seq_lib::group_to_multiset_ensures;

    if items.len() == 0 {
        assert(groups_multiset(groups).add(items.to_multiset()) =~= groups_multiset(groups));
    } else {
        let rest = items.drop_last();
        let x = items.last();
        lemma_first_fit_multiset(rest, groups, capacity);
        let g = first_fit(rest, groups, capacity);
        let k = first_fit_from(g, x, capacity, 0);
        if k < g.len() {
            lemma_first_fit_from_range(g, x, capacity, 0);
            lemma_groups_multiset_grow(g, k, x);
        } else {
            lemma_groups_multiset_push(g, seq![x]);
            assert(seq![x].drop_last() =~= Seq::<T>::empty());
        }
        assert(rest.push(x) =~= items);
        assert(groups_multiset(first_fit(items, groups, capacity)) =~= groups_multiset(groups).add(
            items.to_multiset(),
        ));
    }
}

proof fn lemma_first_fit_from_range<T: Pack>(groups: Seq<Seq<T>>, x: T, capacity: u64, k: int)
    requires
        0 <= k,
    ensures
        k <= first_fit_from(groups, x, capacity, k) || first_fit_from(groups, x, capacity, k)
            == groups.len(),
        first_fit_from(groups, x, capacity, k) <= groups.len(),
        0 <= first_fit_from(groups, x, capacity, k),
    decreases groups.len() - k,
{
    if k < groups.len() && !fits_in(groups[k], x, capacity) {
        lemma_first_fit_from_range(groups, x, capacity, k + 1);
    }
}

pub proof fn lemma_singleton_multiset<T>(x: T)
    ensures
        seq![x].to_multiset() =~= Multiset::<T>::empty().insert(x),
{
    broadcast use vstd::seq_lib::group_to_multiset_ensures;

    let e = Seq::<T>::empty();
    assert forall|a: T| e.to_multiset().count(a) == 0 by {
        if e.to_multiset().count(a) > 0 {
            assert(e.contains(a));
        }
    }
    assert(e.push(x) =~= seq![x]);
}

/// Adding an item that fits to one bin keeps every bin's balance and adds
/// just that item to the contents.
pub proof fn lemma_add_to_bin<T: Pack>(
    before: Seq<Bin<T>>,
    after: Seq<Bin<T>>,
    k: int,
    x: T,
    capacity: u64,
)
    requires
        all_conserve(before, capacity),
        0 <= k < before.len(),
        x.spec_size() <= before[k].remaining_space,
        after == before.update(k, after[k]),
        after[k].items@ == before[k].items@.push(x),
        after[k].remaining_space == before[k].remaining_space - x.spec_size(),
    ensures
        all_conserve(after, capacity),
        contents(after) == contents(before).update(k, contents(before)[k].push(x)),
        groups_multiset(contents(after)) == groups_multiset(contents(before)).insert(x),
{
    lemma_total_size_push(before[k].items@, x);
    assert(before[k].conserves(capacity));
    assert forall|j: int| 0 <= j < after.len() implies #[trigger] after[j].conserves(capacity) by {
        assert(before[j].conserves(capacity));
    }
    assert(contents(after) =~= contents(before).update(k, contents(before)[k].push(x)));
    lemma_groups_multiset_grow(contents(before), k, x);
}

/// Opening a new bin seeded with one item adds just that item to the
/// contents.
pub proof fn lemma_open_bin<T: Pack>(before: Seq<Bin<T>>, b: Bin<T>, x: T, capacity: u64)
    requires
        all_conserve(before, capacity),
        b.conserves(capacity),
        b.items@ == seq![x],
    ensures
        all_conserve(before.push(b), capacity),
        contents(before.push(b)) == contents(before).push(seq![x]),
        groups_multiset(contents(before.push(b))) == groups_multiset(contents(before)).insert(x),
{
    let after = before.push(b);
    assert forall|j: int| 0 <= j < after.len() implies #[trigger] after[j].conserves(capacity) by {
        if j < before.len() {
            assert(after[j] == before[j]);
        }
    }
    assert(contents(after) =~= contents(before).push(seq![x]));
    lemma_groups_multiset_push(contents(before), seq![x]);
    lemma_singleton_multiset(x);
    assert(groups_multiset(contents(before)).add(Multiset::<T>::empty().insert(x))
        =~= groups_multiset(contents(before)).insert(x));
}

/// Index of the largest item of a size-descending sequence that still fits
/// into the bin: the first one that fits, or none.
pub fn largest_that_fits<T: Pack>(items: &Vec<T>, bin: &Bin<T>) -> (r: Option<usize>)
    requires
        sorted_desc(items@),
    ensures
        match r {
            None => forall|i: int|
                0 <= i < items@.len() ==> #[trigger] items@[i].spec_size() > bin.remaining_space,
            Some(i) => {
                &&& i < items@.len()
                &&& items@[i as int].spec_size() <= bin.remaining_space
                &&& forall|j: int|
                    0 <= j < i ==> #[trigger] items@[j].spec_size() > bin.remaining_space
            },
        },
{
    let n = items.len();
    if n == 0 || !bin.does_fit(&items[n - 1]) {
        return None;
    }
    let mut i: usize = n - 1;
    while i > 0
        invariant
            i < n == items@.len(),
            items@[i as int].spec_size() <= bin.remaining_space,
            sorted_desc(items@),
        decreases i,
    {
        if !bin.does_fit(&items[i - 1]) {
            return Some(i);
        }
        i = i - 1;
    }
    Some(0)
}

/// Places each item, in the order given, into the first bin it fits, opening
/// a new bin when none does.
pub(crate) fn first_fit_decreasing_prv<T: Pack>(items: Vec<T>, bins: Vec<Bin<T>>, capacity: u64) -> (r:
    Vec<Bin<T>>)
    requires
        all_fit(items@, capacity),
        all_conserve(bins@, capacity),
    ensures
        contents(r@) == first_fit(items@, contents(bins@), capacity),
        all_conserve(r@, capacity),
{
    let ghost all = items@;
    let ghost start = contents(bins@);
    let mut items = items;
    let mut bins = bins;
    let mut done: usize = 0;
    assert(items.len() <= usize::MAX);
    while items.len() > 0
        invariant
            done + items@.len() == all.len() <= usize::MAX,
            items@ == all.subrange(done as int, all.len() as int),
            all_fit(all, capacity),
            all_conserve(bins@, capacity),
            contents(bins@) == first_fit(all.take(done as int), start, capacity),
        decreases items@.len(),
    {
        let item = items.remove(0);
        let ghost groups = contents(bins@);
        assert(all.take(done + 1).drop_last() =~= all.take(done as int));
        assert(item == all[done as int]);
        let mut j: usize = 0;
        while j < bins.len() && !bins[j].does_fit(&item)
            invariant
                j <= bins@.len(),
                groups == contents(bins@),
                all_conserve(bins@, capacity),
                forall|m: int| 0 <= m < j ==> !fits_in(#[trigger] groups[m], item, capacity),
            decreases bins@.len() - j,
        {
            assert(bins@[j as int].conserves(capacity));
            j = j + 1;
        }
        proof {
            if j < bins@.len() {
                assert(bins@[j as int].conserves(capacity));
            }
            lemma_first_fit_from_is(groups, item, capacity, 0, j as int);
        }
        if j < bins.len() {
            let ghost before = bins@;
            bins[j].add_item(item);
            proof {
                lemma_total_size_push(before[j as int].items@, item);
                assert(contents(bins@) =~= groups.update(j as int, groups[j as int].push(item)));
                assert forall|k: int| 0 <= k < bins@.len() implies #[trigger] bins@[k].conserves(
                    capacity,
                ) by {
                    assert(before[k].conserves(capacity));
                }
            }
        } else {
            let ghost before = bins@;
            let b = Bin::new_from(item, capacity);
            bins.push(b);
            proof {
                assert(contents(bins@) =~= groups.push(seq![item]));
                assert forall|k: int| 0 <= k < bins@.len() implies #[trigger] bins@[k].conserves(
                    capacity,
                ) by {
                    if k < bins@.len() - 1 {
                        assert(bins@[k] == before[k]);
                    }
                }
            }
        }
        done = done + 1;
    }
    assert(all.take(all.len() as int) =~= all);
    bins
}

} // verus!
