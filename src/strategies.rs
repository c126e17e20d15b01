use vstd::multiset::Multiset;
use vstd::prelude::*;

use crate::bins::{total_size, Bin, ObjectTooBigError, Pack};
use crate::placement::{
    all_conserve, all_fit, contents, first_fit, first_fit_decreasing_prv, fits_in,
    groups_multiset, item_count, largest_that_fits, lemma_add_to_bin, lemma_open_bin, lemma_groups_multiset_grow, lemma_groups_multiset_push, lemma_first_fit_multiset, lemma_item_count, lemma_total_size_push,
    sorted_desc,
};

verus! {

/// `i` is the first position of `items` whose item is larger than `capacity`.
pub open spec fn first_oversized<T: Pack>(items: Seq<T>, capacity: u64, i: int) -> bool {
    &&& 0 <= i < items.len()
    &&& items[i].spec_size() > capacity
    &&& forall|j: int| 0 <= j < i ==> #[trigger] items[j].spec_size() <= capacity
}

/// The error names the first item of `items` that is larger than `capacity`.
pub open spec fn reports_first_oversized<T: Pack>(
    items: Seq<T>,
    capacity: u64,
    e: ObjectTooBigError,
) -> bool {
    exists|i: int| first_oversized(items, capacity, i) && e.0 == items[i].spec_size() && e.1 == capacity
}

/// What every strategy promises: it fails exactly when some item is larger than
/// the capacity, naming the first such item; otherwise every bin holds exactly
/// `capacity` worth of items and free space, and the bins together hold the
/// input items, each once.
pub open spec fn packs<T: Pack>(
    items: Seq<T>,
    capacity: u64,
    r: Result<Vec<Bin<T>>, ObjectTooBigError>,
) -> bool {
    match r {
        Err(e) => !all_fit(items, capacity) && reports_first_oversized(items, capacity, e),
        Ok(bins) => {
            &&& all_fit(items, capacity)
            &&& all_conserve(bins@, capacity)
            &&& groups_multiset(contents(bins@)) == items.to_multiset()
            &&& item_count(contents(bins@)) == items.len()
        },
    }
}

/// Next fit: one open group at a time; an item that does not fit into it
/// closes it and opens a new one.
pub open spec fn next_fit<T: Pack>(items: Seq<T>, capacity: u64) -> Seq<Seq<T>>
    decreases items.len(),
{
    if items.len() == 0 {
        seq![Seq::empty()]
    } else {
        let g = next_fit(items.drop_last(), capacity);
        let x = items.last();
        if fits_in(g.last(), x, capacity) {
            g.update(g.len() - 1, g.last().push(x))
        } else {
            g.push(seq![x])
        }
    }
}

/// What `online_nf` returns: the packing, and in it the bins of next fit.
pub open spec fn next_fit_outcome<T: Pack>(
    items: Seq<T>,
    capacity: u64,
    r: Result<Vec<Bin<T>>, ObjectTooBigError>,
) -> bool {
    &&& packs(items, capacity, r)
    &&& r matches Ok(bins) ==> contents(bins@) == next_fit(items, capacity)
}

proof fn lemma_empty_multiset<T>(s: Seq<T>)
    requires
        s.len() == 0,
    ensures
        s.to_multiset() =~= Multiset::<T>::empty(),
{
    broadcast use vstd::seq_lib::group_to_multiset_ensures;

    assert forall|a: T| s.to_multiset().count(a) == 0 by {
        if s.to_multiset().count(a) > 0 {
            assert(s.contains(a));
        }
    }
}

proof fn lemma_next_fit_multiset<T: Pack>(items: Seq<T>, capacity: u64)
    ensures
        next_fit(items, capacity).len() >= 1,
        groups_multiset(next_fit(items, capacity)) == items.to_multiset(),
    decreases items.len(),
{
    broadcast use vstd::seq_lib::group_to_multiset_ensures;

    if items.len() == 0 {
        let g = next_fit(items, capacity);
        assert(g.drop_last() =~= Seq::<Seq<T>>::empty());
        lemma_empty_multiset(items);
        lemma_empty_multiset(g.last());
        assert(groups_multiset(g.drop_last()) == Multiset::<T>::empty());
        assert(groups_multiset(g) =~= items.to_multiset());
    } else {
        let rest = items.drop_last();
        let x = items.last();
        lemma_next_fit_multiset(rest, capacity);
        let g = next_fit(rest, capacity);
        if fits_in(g.last(), x, capacity) {
            lemma_groups_multiset_grow(g, g.len() - 1, x);
        } else {
            lemma_groups_multiset_push(g, seq![x]);
            assert(seq![x].drop_last() =~= Seq::<T>::empty());
        }
        assert(rest.push(x) =~= items);
        assert(groups_multiset(next_fit(items, capacity)) =~= items.to_multiset());
    }
}

pub proof fn lemma_first_oversized_unique<T: Pack>(items: Seq<T>, capacity: u64, i: int, j: int)
    requires
        first_oversized(items, capacity, i),
        first_oversized(items, capacity, j),
    ensures
        i == j,
{
    if i < j {
        assert(items[i].spec_size() <= capacity);
    } else if j < i {
        assert(items[j].spec_size() <= capacity);
    }
}

/// Items that appear in both sequences equally often fit alike.
proof fn lemma_all_fit_permuted<T: Pack>(a: Seq<T>, b: Seq<T>, capacity: u64)
    requires
        all_fit(a, capacity),
        a.to_multiset() == b.to_multiset(),
    ensures
        all_fit(b, capacity),
{
    broadcast use vstd::seq_lib::group_to_multiset_ensures;

    assert forall|i: int| 0 <= i < b.len() implies #[trigger] b[i].spec_size() <= capacity by {
        assert(b.contains(b[i]));
        assert(b.to_multiset().count(b[i]) > 0);
        assert(a.contains(b[i]));
    }
}

/// Fails on the first item larger than `capacity`, if any.
fn check_sizes<T: Pack>(items: &Vec<T>, capacity: u64) -> (r: Result<(), ObjectTooBigError>)
    ensures
        r is Ok <==> all_fit(items@, capacity),
        r matches Err(e) ==> reports_first_oversized(items@, capacity, e),
{
    let mut i: usize = 0;
    while i < items.len()
        invariant
            i <= items@.len(),
            forall|j: int| 0 <= j < i ==> #[trigger] items@[j].spec_size() <= capacity,
        decreases items@.len() - i,
    {
        let size = items[i].get_size();
        if size > capacity {
            assert(first_oversized(items@, capacity, i as int));
            return Err(ObjectTooBigError(size, capacity));
        }
        i = i + 1;
    }
    Ok(())
}

/// The items reordered by size, largest first.
fn sort_by_size_desc<T: Pack>(items: Vec<T>) -> (r: Vec<T>)
    ensures
        sorted_desc(r@),
        r@.to_multiset() == items@.to_multiset(),
{
    broadcast use vstd::seq_lib::group_to_multiset_ensures;

    let ghost all = items@;
    let mut rest = items;
    let mut out: Vec<T> = Vec::new();
    while rest.len() > 0
        invariant
            sorted_desc(out@),
            out@.to_multiset().add(rest@.to_multiset()) == all.to_multiset(),
        decreases rest@.len(),
    {
        let ghost before = rest@;
        let x = rest.pop().unwrap();
        assert(before =~= rest@.push(x));
        let size = x.get_size();
        let mut j: usize = 0;
        while j < out.len() && out[j].get_size() >= size
            invariant
                j <= out@.len(),
                forall|m: int| 0 <= m < j ==> #[trigger] out@[m].spec_size() >= size,
            decreases out@.len() - j,
        {
            j = j + 1;
        }
        let ghost prev = out@;
        out.insert(j, x);
        assert(sorted_desc(out@)) by {
            assert forall|a: int, b: int| 0 <= a < b < out@.len() implies out@[a].spec_size()
                >= out@[b].spec_size() by {
                if b == j {
                    assert(out@[a] == prev[a]);
                } else if a == j {
                    assert(out@[b] == prev[b - 1]);
                    if b - 1 > j {
                        assert(prev[j as int].spec_size() >= prev[b - 1].spec_size());
                    }
                }
            }
        }
        proof {
            vstd::seq_lib::to_multiset_insert(prev, j as int, x);
            vstd::seq_lib::to_multiset_build(rest@, x);
        }
        assert(out@.to_multiset().add(rest@.to_multiset()) =~= all.to_multiset());
    }
    assert(out@.to_multiset().add(rest@.to_multiset()) =~= out@.to_multiset());
    out
}

/// Next fit, in the order given: fast, at the cost of possibly many bins.
/// The last bin is always returned, so even no items give one empty bin.
pub fn online_nf<T: Pack>(items: Vec<T>, capacity: u64) -> (r: Result<Vec<Bin<T>>, ObjectTooBigError>)
    ensures
        next_fit_outcome(items@, capacity, r),
{
    let ghost all = items@;
    let mut rest = items;
    let mut current_bin: Bin<T> = Bin::new(capacity);
    let mut closed_bins: Vec<Bin<T>> = Vec::new();
    let mut done: usize = 0;
    assert(rest.len() <= usize::MAX);
    assert(all.take(0) =~= Seq::<T>::empty());
    assert(contents(closed_bins@).push(current_bin.items@) =~= next_fit(all.take(0), capacity));
    while rest.len() > 0
        invariant
            all == items@,
            done + rest@.len() == all.len() <= usize::MAX,
            rest@ == all.subrange(done as int, all.len() as int),
            forall|j: int| 0 <= j < done ==> #[trigger] all[j].spec_size() <= capacity,
            current_bin.conserves(capacity),
            all_conserve(closed_bins@, capacity),
            contents(closed_bins@).push(current_bin.items@) == next_fit(
                all.take(done as int),
                capacity,
            ),
        decreases rest@.len(),
    {
        let item = rest.remove(0);
        assert(item == all[done as int]);
        assert(all.take(done + 1).drop_last() =~= all.take(done as int));
        let ghost groups = contents(closed_bins@).push(current_bin.items@);
        let item_size = item.get_size();
        if item_size > current_bin.remaining_space {
            if item_size > capacity {
                assert(first_oversized(all, capacity, done as int));
                assert(!all_fit(all, capacity));
                assert(reports_first_oversized(all, capacity, ObjectTooBigError(item_size, capacity)));
                return Err(ObjectTooBigError(item_size, capacity));
            }
            let ghost before = closed_bins@;
            closed_bins.push(current_bin);
            current_bin = Bin::new(capacity);
            proof {
                assert(total_size(Seq::<T>::empty()) == 0);
                assert forall|k: int| 0 <= k < closed_bins@.len() implies #[trigger] closed_bins@[k].conserves(
                    capacity,
                ) by {
                    if k < closed_bins@.len() - 1 {
                        assert(closed_bins@[k] == before[k]);
                    }
                }
            }
            let ghost mid = contents(closed_bins@).push(current_bin.items@);
            assert(mid =~= groups.push(Seq::<T>::empty()));
            proof {
                lemma_total_size_push(current_bin.items@, item);
            }
            current_bin.add_item(item);
            assert(contents(closed_bins@).push(current_bin.items@) =~= groups.push(seq![item]));
        } else {
            proof {
                lemma_total_size_push(current_bin.items@, item);
            }
            current_bin.add_item(item);
            assert(contents(closed_bins@).push(current_bin.items@) =~= groups.update(
                groups.len() - 1,
                groups.last().push(item),
            ));
        }
        done = done + 1;
    }
    assert(all.take(all.len() as int) =~= all);
    let ghost before = closed_bins@;
    closed_bins.push(current_bin);
    proof {
        assert(contents(closed_bins@) =~= next_fit(all, capacity));
        assert forall|k: int| 0 <= k < closed_bins@.len() implies #[trigger] closed_bins@[k].conserves(
            capacity,
        ) by {
            if k < closed_bins@.len() - 1 {
                assert(closed_bins@[k] == before[k]);
            }
        }
        lemma_next_fit_multiset(all, capacity);
        lemma_item_count(contents(closed_bins@));
        vstd::seq_lib::to_multiset_len(all);
    }
    Ok(closed_bins)
}

/// First fit decreasing: the items by size, largest first, each into the
/// first bin it fits.
pub fn ffd<T: Pack>(items: Vec<T>, capacity: u64) -> (r: Result<Vec<Bin<T>>, ObjectTooBigError>)
    ensures
        packs(items@, capacity, r),
        r matches Ok(bins) ==> exists|s: Seq<T>|
            #[trigger] sorted_desc(s) && s.to_multiset() == items@.to_multiset() && contents(bins@)
                == first_fit(s, Seq::empty(), capacity),
{
    match check_sizes(&items, capacity) {
        Err(e) => {
            return Err(e);
        },
        Ok(()) => {},
    }
    let ghost orig = items@;
    let sorted = sort_by_size_desc(items);
    let ghost s = sorted@;
    proof {
        lemma_all_fit_permuted(orig, s, capacity);
    }
    let start: Vec<Bin<T>> = Vec::new();
    assert(contents(start@) =~= Seq::<Seq<T>>::empty());
    let bins = first_fit_decreasing_prv(sorted, start, capacity);
    proof {
        lemma_first_fit_multiset(s, Seq::empty(), capacity);
        assert(groups_multiset(Seq::<Seq<T>>::empty()).add(s.to_multiset()) =~= s.to_multiset());
        lemma_item_count(contents(bins@));
        vstd::seq_lib::to_multiset_len(orig);
        assert(sorted_desc(s));
    }
    Ok(bins)
}

/// Size classes against the capacity: 0 for large (over a half), 1 for
/// medium (over a third), 2 for small (over a sixth), 3 for tiny.
pub open spec fn size_class<T: Pack>(x: T, capacity: u64) -> int {
    if x.spec_size() > capacity / 2 {
        0
    } else if x.spec_size() > capacity / 3 {
        1
    } else if x.spec_size() > capacity / 6 {
        2
    } else {
        3
    }
}

/// The items of one size class, in the order given.
pub open spec fn of_class<T: Pack>(s: Seq<T>, capacity: u64, c: int) -> Seq<T>
    decreases s.len(),
{
    if s.len() == 0 {
        Seq::empty()
    } else {
        let p = of_class(s.drop_last(), capacity, c);
        if size_class(s.last(), capacity) == c {
            p.push(s.last())
        } else {
            p
        }
    }
}

/// One group per item, holding just that item.
pub open spec fn seeds<T>(s: Seq<T>) -> Seq<Seq<T>> {
    s.map_values(|x: T| seq![x])
}

/// Free space left by a group.
pub open spec fn room<T: Pack>(g: Seq<T>, capacity: u64) -> int {
    capacity - total_size(g)
}

/// Position of the first item whose size is at most `room`, or the length
/// if there is none.
pub open spec fn first_fitting<T: Pack>(s: Seq<T>, room: int) -> int
    decreases s.len(),
{
    if s.len() == 0 || s[0].spec_size() <= room {
        0
    } else {
        1 + first_fitting(s.drop_first(), room)
    }
}

/// Group `j` takes the first (largest) medium item that fits, if any.
pub open spec fn medium_step<T: Pack>(g: Seq<Seq<T>>, m: Seq<T>, capacity: u64, j: int) -> (
    Seq<Seq<T>>,
    Seq<T>,
) {
    let i = first_fitting(m, room(g[j], capacity));
    if i < m.len() {
        (g.update(j, g[j].push(m[i])), m.remove(i))
    } else {
        (g, m)
    }
}

/// The medium step on groups `0 .. k`, in order.
pub open spec fn medium_pass<T: Pack>(g: Seq<Seq<T>>, m: Seq<T>, capacity: u64, k: int) -> (
    Seq<Seq<T>>,
    Seq<T>,
)
    decreases k,
{
    if k <= 0 {
        (g, m)
    } else {
        let p = medium_pass(g, m, capacity, k - 1);
        medium_step(p.0, p.1, capacity, k - 1)
    }
}

/// Group `j`, if it holds one item and the two smallest small items fit
/// together, takes the smallest, then the largest small item that still fits.
pub open spec fn small_step<T: Pack>(g: Seq<Seq<T>>, sm: Seq<T>, capacity: u64, j: int) -> (
    Seq<Seq<T>>,
    Seq<T>,
) {
    let n = sm.len();
    if g[j].len() == 1 && n >= 2 && sm[n - 1].spec_size() + sm[n - 2].spec_size() <= room(
        g[j],
        capacity,
    ) {
        let g1 = g.update(j, g[j].push(sm[n - 1]));
        let s1 = sm.drop_last();
        let i = first_fitting(s1, room(g1[j], capacity));
        if i < s1.len() {
            (g1.update(j, g1[j].push(s1[i])), s1.remove(i))
        } else {
            (g1, s1)
        }
    } else {
        (g, sm)
    }
}

/// The small step on groups from the last down to `k`.
pub open spec fn small_pass<T: Pack>(g: Seq<Seq<T>>, sm: Seq<T>, capacity: u64, k: int) -> (
    Seq<Seq<T>>,
    Seq<T>,
)
    decreases g.len() - k,
{
    if k < 0 || k >= g.len() {
        (g, sm)
    } else {
        let p = small_pass(g, sm, capacity, k + 1);
        small_step(p.0, p.1, capacity, k)
    }
}

/// The groups that the modified first fit decreasing makes of items already
/// sorted largest first.
pub open spec fn modified_first_fit<T: Pack>(s: Seq<T>, capacity: u64) -> Seq<Seq<T>> {
    let seeded = seeds(of_class(s, capacity, 0));
    let after_medium = medium_pass(seeded, of_class(s, capacity, 1), capacity, seeded.len() as int);
    let after_small = small_pass(after_medium.0, of_class(s, capacity, 2), capacity, 0);
    first_fit(after_medium.1 + after_small.1 + of_class(s, capacity, 3), after_small.0, capacity)
}

proof fn lemma_first_fitting_is<T: Pack>(s: Seq<T>, room: int, i: int)
    requires
        0 <= i <= s.len(),
        forall|j: int| 0 <= j < i ==> #[trigger] s[j].spec_size() > room,
        i < s.len() ==> s[i].spec_size() <= room,
    ensures
        first_fitting(s, room) == i,
    decreases i,
{
    if i > 0 {
        assert(s[0].spec_size() > room);
        assert forall|j: int| 0 <= j < i - 1 implies #[trigger] s.drop_first()[j].spec_size()
            > room by {
            assert(s.drop_first()[j] == s[j + 1]);
        }
        lemma_first_fitting_is(s.drop_first(), room, i - 1);
    }
}

/// Splits items sorted largest first into seeded bins (large items), and the
/// medium, small and tiny items, each in the order given.
fn classify<T: Pack>(sorted: Vec<T>, capacity: u64) -> (r: (Vec<Bin<T>>, Vec<T>, Vec<T>, Vec<T>))
    requires
        sorted_desc(sorted@),
        all_fit(sorted@, capacity),
    ensures
        contents(r.0@) == seeds(of_class(sorted@, capacity, 0)),
        r.1@ == of_class(sorted@, capacity, 1),
        r.2@ == of_class(sorted@, capacity, 2),
        r.3@ == of_class(sorted@, capacity, 3),
        all_conserve(r.0@, capacity),
        sorted_desc(r.1@),
        sorted_desc(r.2@),
        all_fit(r.1@, capacity),
        all_fit(r.2@, capacity),
        all_fit(r.3@, capacity),
        pooled(r.0@, r.1@, r.2@, r.3@) == sorted@.to_multiset(),
{
    broadcast use vstd::seq_lib::group_to_multiset_ensures;

    let ghost all = sorted@;
    let mut rest = sorted;
    let mut bins: Vec<Bin<T>> = Vec::new();
    let mut medium: Vec<T> = Vec::new();
    let mut small: Vec<T> = Vec::new();
    let mut tiny: Vec<T> = Vec::new();
    let half = capacity / 2;
    let third = capacity / 3;
    let sixth = capacity / 6;
    let mut done: usize = 0;
    proof {
        lemma_empty_multiset(medium@);
        lemma_empty_multiset(small@);
        lemma_empty_multiset(tiny@);
        assert(contents(bins@) =~= Seq::<Seq<T>>::empty());
        assert(pooled(bins@, medium@, small@, tiny@).add(rest@.to_multiset()) =~= all.to_multiset());
        assert(all.take(0) =~= Seq::<T>::empty());
        assert(seeds(Seq::<T>::empty()) =~= Seq::<Seq<T>>::empty());
    }
    assert(rest.len() <= usize::MAX);
    while rest.len() > 0
        invariant
            done + rest@.len() == all.len() <= usize::MAX,
            rest@ == all.subrange(done as int, all.len() as int),
            half == capacity / 2,
            third == capacity / 3,
            sixth == capacity / 6,
            contents(bins@) == seeds(of_class(all.take(done as int), capacity, 0)),
            medium@ == of_class(all.take(done as int), capacity, 1),
            small@ == of_class(all.take(done as int), capacity, 2),
            tiny@ == of_class(all.take(done as int), capacity, 3),
            sorted_desc(rest@),
            all_fit(rest@, capacity),
            sorted_desc(medium@),
            sorted_desc(small@),
            forall|i: int, j: int|
                0 <= i < medium@.len() && 0 <= j < rest@.len() ==> #[trigger] medium@[i].spec_size()
                    >= #[trigger] rest@[j].spec_size(),
            forall|i: int, j: int|
                0 <= i < small@.len() && 0 <= j < rest@.len() ==> #[trigger] small@[i].spec_size()
                    >= #[trigger] rest@[j].spec_size(),
            all_fit(medium@, capacity),
            all_fit(small@, capacity),
            all_fit(tiny@, capacity),
            all_conserve(bins@, capacity),
            pooled(bins@, medium@, small@, tiny@).add(rest@.to_multiset()) == all.to_multiset(),
        decreases rest@.len(),
    {
        let ghost before = rest@;
        let ghost pool = pooled(bins@, medium@, small@, tiny@);
        let ghost seen = all.take(done as int);
        let item = rest.remove(0);
        proof {
            assert(before =~= rest@.insert(0, item));
            vstd::seq_lib::to_multiset_insert(rest@, 0, item);
            assert(item.spec_size() <= capacity);
            assert forall|j: int| 0 <= j < rest@.len() implies item.spec_size()
                >= #[trigger] rest@[j].spec_size() by {
                assert(rest@[j] == before[j + 1]);
            }
            assert(item == all[done as int]);
            assert(all.take(done + 1).drop_last() =~= seen);
            assert(all.take(done + 1).last() == item);
            let next = all.take(done + 1);
            assert(of_class(next, capacity, 0) == if size_class(item, capacity) == 0 {
                of_class(seen, capacity, 0).push(item)
            } else {
                of_class(seen, capacity, 0)
            });
            assert(of_class(next, capacity, 1) == if size_class(item, capacity) == 1 {
                of_class(seen, capacity, 1).push(item)
            } else {
                of_class(seen, capacity, 1)
            });
            assert(of_class(next, capacity, 2) == if size_class(item, capacity) == 2 {
                of_class(seen, capacity, 2).push(item)
            } else {
                of_class(seen, capacity, 2)
            });
            assert(of_class(next, capacity, 3) == if size_class(item, capacity) == 3 {
                of_class(seen, capacity, 3).push(item)
            } else {
                of_class(seen, capacity, 3)
            });
        }
        let size = item.get_size();
        if size > half {
            let ghost bb = bins@;
            let b = Bin::new_from(item, capacity);
            bins.push(b);
            proof {
                lemma_open_bin(bb, b, item, capacity);
                assert(pooled(bins@, medium@, small@, tiny@) =~= pool.insert(item));
                assert(seeds(of_class(seen, capacity, 0).push(item)) =~= seeds(
                    of_class(seen, capacity, 0),
                ).push(seq![item]));
                assert(size_class(item, capacity) == 0);
                assert(contents(bins@) == seeds(of_class(all.take(done + 1), capacity, 0)));
            }
        } else if size > third {
            let ghost vb = medium@;
            medium.push(item);
            proof {
                vstd::seq_lib::to_multiset_build(vb, item);
                assert(medium@.to_multiset() =~= vb.to_multiset().insert(item));
                assert(size_class(item, capacity) == 1);
                assert(medium@ == of_class(all.take(done + 1), capacity, 1));
                assert(pooled(bins@, medium@, small@, tiny@) =~= pool.insert(item));
            }
        } else if size > sixth {
            let ghost vb = small@;
            small.push(item);
            proof {
                vstd::seq_lib::to_multiset_build(vb, item);
                assert(small@.to_multiset() =~= vb.to_multiset().insert(item));
                assert(pooled(bins@, medium@, small@, tiny@) =~= pool.insert(item));
            }
        } else {
            let ghost vb = tiny@;
            tiny.push(item);
            proof {
                vstd::seq_lib::to_multiset_build(vb, item);
                assert(tiny@.to_multiset() =~= vb.to_multiset().insert(item));
                assert(pooled(bins@, medium@, small@, tiny@) =~= pool.insert(item));
            }
        }
        assert(pooled(bins@, medium@, small@, tiny@).add(rest@.to_multiset()) =~= all.to_multiset());
        done = done + 1;
    }
    proof {
        lemma_empty_multiset(rest@);
        assert(pooled(bins@, medium@, small@, tiny@) =~= all.to_multiset());
        assert(all.take(all.len() as int) =~= all);
    }
    (bins, medium, small, tiny)
}

/// Each bin, in order, takes the largest medium item that fits, if any.
fn insert_mediums<T: Pack>(bins: &mut Vec<Bin<T>>, medium: &mut Vec<T>, capacity: u64)
    requires
        all_conserve(old(bins)@, capacity),
        sorted_desc(old(medium)@),
        all_fit(old(medium)@, capacity),
    ensures
        (contents(final(bins)@), final(medium)@) == medium_pass(
            contents(old(bins)@),
            old(medium)@,
            capacity,
            old(bins)@.len() as int,
        ),
        all_conserve(final(bins)@, capacity),
        sorted_desc(final(medium)@),
        all_fit(final(medium)@, capacity),
        groups_multiset(contents(final(bins)@)).add(final(medium)@.to_multiset())
            == groups_multiset(contents(old(bins)@)).add(old(medium)@.to_multiset()),
{
    broadcast use vstd::seq_lib::group_to_multiset_ensures;

    let ghost g0 = contents(bins@);
    let ghost m0 = medium@;
    let ghost total = groups_multiset(g0).add(m0.to_multiset());
    let mut k: usize = 0;
    while k < bins.len()
        invariant
            k <= bins@.len() == g0.len(),
            (contents(bins@), medium@) == medium_pass(g0, m0, capacity, k as int),
            sorted_desc(medium@),
            all_fit(medium@, capacity),
            all_conserve(bins@, capacity),
            groups_multiset(contents(bins@)).add(medium@.to_multiset()) == total,
        decreases bins@.len() - k,
    {
        let ghost g = contents(bins@);
        let ghost mb = medium@;
        assert(bins@[k as int].conserves(capacity));
        assert(g[k as int] == bins@[k as int].items@);
        match largest_that_fits(&medium, &bins[k]) {
            Some(mi) => {
                proof {
                    lemma_first_fitting_is(mb, room(g[k as int], capacity), mi as int);
                }
                let ghost bb = bins@;
                let m = medium.remove(mi);
                bins[k].add_item(m);
                proof {
                    lemma_add_to_bin(bb, bins@, k as int, m, capacity);
                    vstd::seq_lib::to_multiset_remove(mb, mi as int);
                    assert(mb.contains(m));
                    vstd::seq_lib::to_multiset_contains(mb, m);
                    lemma_remove_keeps(mb, mi as int, capacity);
                    assert(groups_multiset(contents(bins@)).add(medium@.to_multiset()) =~= total);
                }
            },
            None => {
                proof {
                    lemma_first_fitting_is(mb, room(g[k as int], capacity), mb.len() as int);
                }
            },
        }
        k = k + 1;
    }
}

/// Going back from the last bin, a bin that still holds one item takes the
/// smallest small item and then the largest one that still fits, when the
/// two smallest fit together.
fn insert_smalls<T: Pack>(bins: &mut Vec<Bin<T>>, small: &mut Vec<T>, capacity: u64)
    requires
        all_conserve(old(bins)@, capacity),
        sorted_desc(old(small)@),
        all_fit(old(small)@, capacity),
    ensures
        (contents(final(bins)@), final(small)@) == small_pass(
            contents(old(bins)@),
            old(small)@,
            capacity,
            0,
        ),
        all_conserve(final(bins)@, capacity),
        sorted_desc(final(small)@),
        all_fit(final(small)@, capacity),
        groups_multiset(contents(final(bins)@)).add(final(small)@.to_multiset())
            == groups_multiset(contents(old(bins)@)).add(old(small)@.to_multiset()),
{
    broadcast use vstd::seq_lib::group_to_multiset_ensures;

    let ghost g0 = contents(bins@);
    let ghost s0 = small@;
    let ghost total = groups_multiset(g0).add(s0.to_multiset());
    let mut k: usize = bins.len();
    while k > 0
        invariant
            k <= bins@.len() == g0.len(),
            (contents(bins@), small@) == small_pass(g0, s0, capacity, k as int),
            sorted_desc(small@),
            all_fit(small@, capacity),
            all_conserve(bins@, capacity),
            groups_multiset(contents(bins@)).add(small@.to_multiset()) == total,
        decreases k,
    {
        k = k - 1;
        let ghost g = contents(bins@);
        let ghost sb = small@;
        assert(bins@[k as int].conserves(capacity));
        assert(g[k as int] == bins@[k as int].items@);
        let n = small.len();
        if bins[k].items.len() == 1 && n >= 2 {
            let a = small[n - 1].get_size();
            let b = small[n - 2].get_size();
            let space = bins[k].remaining_space;
            if a <= space && b <= space - a {
                let ghost bb = bins@;
                let x = small.pop().unwrap();
                bins[k].add_item(x);
                proof {
                    lemma_add_to_bin(bb, bins@, k as int, x, capacity);
                    assert(sb =~= small@.push(x));
                    vstd::seq_lib::to_multiset_build(small@, x);
                    assert(sb.to_multiset() =~= small@.to_multiset().insert(x));
                    assert(groups_multiset(contents(bins@)).add(small@.to_multiset()) =~= total);
                    assert(bins@[k as int].conserves(capacity));
                    assert forall|a: int, b: int| 0 <= a < b < small@.len() implies small@[a].spec_size()
                        >= small@[b].spec_size() by {
                        assert(small@[a] == sb[a]);
                        assert(small@[b] == sb[b]);
                    }
                    assert forall|a: int| 0 <= a < small@.len() implies #[trigger] small@[a].spec_size()
                        <= capacity by {
                        assert(small@[a] == sb[a]);
                    }
                }
                let ghost g1 = contents(bins@);
                let ghost s1 = small@;
                match largest_that_fits(&small, &bins[k]) {
                    Some(i) => {
                        proof {
                            lemma_first_fitting_is(s1, room(g1[k as int], capacity), i as int);
                        }
                        let ghost bb = bins@;
                        let y = small.remove(i);
                        bins[k].add_item(y);
                        proof {
                            lemma_add_to_bin(bb, bins@, k as int, y, capacity);
                            vstd::seq_lib::to_multiset_remove(s1, i as int);
                            assert(s1.contains(y));
                            vstd::seq_lib::to_multiset_contains(s1, y);
                            lemma_remove_keeps(s1, i as int, capacity);
                            assert(groups_multiset(contents(bins@)).add(small@.to_multiset())
                                =~= total);
                        }
                    },
                    None => {
                        proof {
                            lemma_first_fitting_is(s1, room(g1[k as int], capacity), s1.len() as int);
                        }
                    },
                }
            }
        }
    }
}

/// What the phases of the modified first fit decreasing hold between them:
/// the bins and the pools of items not yet placed.
spec fn pooled<T: Pack>(bins: Seq<Bin<T>>, a: Seq<T>, b: Seq<T>, c: Seq<T>) -> Multiset<T> {
    groups_multiset(contents(bins)).add(a.to_multiset()).add(b.to_multiset()).add(c.to_multiset())
}

/// Modified first fit decreasing: large items (over half the capacity) each
/// seed a bin; each such bin then takes the largest medium item (over a
/// third) that fits; going back over them, a bin that got none takes the two
/// smallest small items (over a sixth) when both fit, then the largest small
/// item that still fits; whatever is left is placed by first fit.
pub fn modified_ffd<T: Pack>(items: Vec<T>, capacity: u64) -> (r: Result<
    Vec<Bin<T>>,
    ObjectTooBigError,
>)
    ensures
        packs(items@, capacity, r),
        r matches Ok(bins) ==> exists|s: Seq<T>|
            #[trigger] sorted_desc(s) && s.to_multiset() == items@.to_multiset() && contents(bins@)
                == modified_first_fit(s, capacity),
{
    broadcast use vstd::seq_lib::group_to_multiset_ensures;

    match check_sizes(&items, capacity) {
        Err(e) => {
            return Err(e);
        },
        Ok(()) => {},
    }
    let ghost orig = items@;
    let sorted = sort_by_size_desc(items);
    let ghost all = sorted@;
    proof {
        lemma_all_fit_permuted(orig, all, capacity);
    }
    let (mut bins, mut medium, mut small, tiny) = classify(sorted, capacity);
    let ghost seeded = contents(bins@);
    proof {
        assert(seeded.len() == bins@.len());
    }
    let ghost gm1 = groups_multiset(seeded);
    let ghost mm1 = medium@.to_multiset();
    let ghost sm1 = small@.to_multiset();
    let ghost tm = tiny@.to_multiset();
    assert(gm1.add(mm1).add(sm1).add(tm) == all.to_multiset());
    insert_mediums(&mut bins, &mut medium, capacity);
    let ghost gm2 = groups_multiset(contents(bins@));
    let ghost mm2 = medium@.to_multiset();
    assert(gm2.add(mm2) == gm1.add(mm1));
    insert_smalls(&mut bins, &mut small, capacity);
    let ghost gm3 = groups_multiset(contents(bins@));
    let ghost sm3 = small@.to_multiset();
    assert(gm3.add(sm3) == gm2.add(sm1));
    assert forall|a: T| #[trigger] gm3.add(mm2).add(sm3).add(tm).count(a) == all.to_multiset().count(
        a,
    ) by {
        assert(gm3.add(sm3).count(a) == gm2.add(sm1).count(a));
        assert(gm2.add(mm2).count(a) == gm1.add(mm1).count(a));
        assert(gm1.add(mm1).add(sm1).add(tm).count(a) == all.to_multiset().count(a));
    }
    assert(gm3.add(mm2).add(sm3).add(tm) =~= all.to_multiset());
    assert(pooled(bins@, medium@, small@, tiny@) =~= all.to_multiset());
    let ghost m0 = medium@;
    let ghost s0 = small@;
    let ghost t0 = tiny@;
    let mut tiny = tiny;
    medium.append(&mut small);
    medium.append(&mut tiny);
    let ghost leftover = medium@;
    proof {
        assert(leftover =~= m0 + s0 + t0);
        vstd::seq_lib::lemma_multiset_commutative(m0, s0);
        vstd::seq_lib::lemma_multiset_commutative(m0 + s0, t0);
        assert forall|i: int| 0 <= i < leftover.len() implies #[trigger] leftover[i].spec_size()
            <= capacity by {
            if i < m0.len() {
                assert(leftover[i] == m0[i]);
            } else if i < m0.len() + s0.len() {
                assert(leftover[i] == s0[i - m0.len()]);
            } else {
                assert(leftover[i] == t0[i - m0.len() - s0.len()]);
            }
        }
    }
    let ghost placed = contents(bins@);
    let packed = first_fit_decreasing_prv(medium, bins, capacity);
    proof {
        lemma_first_fit_multiset(leftover, placed, capacity);
        assert(groups_multiset(contents(packed@)) =~= all.to_multiset());
        lemma_item_count(contents(packed@));
        vstd::seq_lib::to_multiset_len(orig);
        assert(contents(packed@) == modified_first_fit(all, capacity));
        assert(sorted_desc(all));
    }
    Ok(packed)
}

/// Taking one item out keeps a sequence sorted and within the capacity.
proof fn lemma_remove_keeps<T: Pack>(s: Seq<T>, i: int, capacity: u64)
    requires
        0 <= i < s.len(),
        sorted_desc(s),
        all_fit(s, capacity),
    ensures
        sorted_desc(s.remove(i)),
        all_fit(s.remove(i), capacity),
{
    let r = s.remove(i);
    assert forall|a: int, b: int| 0 <= a < b < r.len() implies r[a].spec_size()
        >= r[b].spec_size() by {
        let a0 = if a < i { a } else { a + 1 };
        let b0 = if b < i { b } else { b + 1 };
        assert(r[a] == s[a0]);
        assert(r[b] == s[b0]);
    }
    assert forall|a: int| 0 <= a < r.len() implies #[trigger] r[a].spec_size() <= capacity by {
        let a0 = if a < i { a } else { a + 1 };
        assert(r[a] == s[a0]);
    }
}

} // verus!
