//! Which of many receivers a position is computed from.

use crate::scalar::{one, Scalar};
use crate::tdoa_solver::{in_horizon, within_horizon, Measurement};
use vstd::arithmetic::power2::lemma_pow2_pos;
use vstd::prelude::*;

verus! {

/// So many receivers are enough.
pub const CLUSTER_SIZE: usize = 8;

/// The directions are parted into so many sectors.
pub const SECTORS: usize = 8;

/// Each sector is so many degrees wide.
pub const SECTOR_WIDTH: u64 = 45;

/// The item at `a` comes before the one at `b`: it is smaller, or equal and stands first.
pub open spec fn precedes(keys: Seq<Scalar>, a: int, b: int) -> bool {
    keys[a].less(keys[b]) || (!keys[b].less(keys[a]) && a < b)
}

/// No key is a NaN.
pub open spec fn all_numbers(keys: Seq<Scalar>) -> bool {
    forall|i: int| 0 <= i < keys.len() ==> !(#[trigger] keys[i]).is_nan()
}

/// The places of a list, each once; where all keys are numbers, in the order of the keys, and
/// equal ones in the order of the list.
pub open spec fn is_order(keys: Seq<Scalar>, order: Seq<usize>) -> bool {
    &&& order.len() == keys.len()
    &&& order.no_duplicates()
    &&& forall|i: int| 0 <= i < order.len() ==> (#[trigger] order[i]) < keys.len()
    &&& forall|x: usize| x < keys.len() ==> #[trigger] order.contains(x)
    &&& all_numbers(keys) ==> forall|i: int, j: int|
        0 <= i < j < order.len() ==> precedes(
            keys,
            #[trigger] order[i] as int,
            #[trigger] order[j] as int,
        )
}

/// The order of keys.
pub fn stable_order(keys: &Vec<Scalar>) -> (r: Vec<usize>)
    ensures
        is_order(keys@, r@),
{
    let mut r: Vec<usize> = Vec::new();
    let n: usize = keys.len();
    let mut i: usize = 0;
    while i < n
        invariant
            i <= n,
            n == keys@.len(),
            r@.len() == i,
            r@.no_duplicates(),
            forall|k: int| 0 <= k < i ==> (#[trigger] r@[k]) < i,
            forall|x: usize| x < i ==> #[trigger] r@.contains(x),
            all_numbers(keys@) ==> forall|a: int, b: int|
                0 <= a < b < i ==> precedes(
                    keys@,
                    #[trigger] r@[a] as int,
                    #[trigger] r@[b] as int,
                ),
        decreases n - i,
    {
        let mut at: usize = i;
        while at > 0 && keys[i].lt(keys[r[at - 1]])
            invariant
                at <= i < n,
                n == keys@.len(),
                r@.len() == i,
                forall|k: int| 0 <= k < i ==> (#[trigger] r@[k]) < i,
                forall|k: int| at <= k < i ==> keys@[i as int].less(keys@[#[trigger] r@[k] as int]),
            decreases at,
        {
            at -= 1;
        }
        let ghost before = r@;
        r.insert(at, i);
        proof {
            assert(r@ =~= before.insert(at as int, i));
            assert forall|x: usize| x < i + 1 implies #[trigger] r@.contains(x) by {
                if x == i {
                    assert(r@[at as int] == x);
                } else {
                    assert(before.contains(x));
                    let k = choose|k: int| 0 <= k < before.len() && before[k] == x;
                    assert(r@[if k < at {
                        k
                    } else {
                        k + 1
                    }] == x);
                }
            }
            if all_numbers(keys@) {
                assert forall|a: int, b: int| 0 <= a < b < i + 1 implies precedes(
                    keys@,
                    #[trigger] r@[a] as int,
                    #[trigger] r@[b] as int,
                ) by {
                    if b == at {
                        if at > 0 {
                            assert(!keys@[i as int].less(keys@[before[at - 1] as int]));
                            if a < at - 1 {
                                assert(precedes(
                                    keys@,
                                    before[a] as int,
                                    before[at - 1] as int,
                                ));
                            }
                        }
                    } else if a == at {
                        assert(r@[b] == before[b - 1]);
                    } else {
                        let x = if a < at {
                            a
                        } else {
                            a - 1
                        };
                        let y = if b < at {
                            b
                        } else {
                            b - 1
                        };
                        assert(r@[a] == before[x] && r@[b] == before[y]);
                    }
                }
            }
        }
        i += 1;
    }
    r
}

/// The timestamps of measurements.
pub open spec fn timestamps(ms: Seq<Measurement>) -> Seq<Scalar> {
    ms.map_values(|m: Measurement| m.timestamp_sec)
}

/// The items of a list at given places.
pub open spec fn at_places(ms: Seq<Measurement>, places: Seq<usize>) -> Seq<Measurement> {
    places.map_values(|p: usize| ms[p as int])
}

/// The measurements with the earliest first.
pub fn chronological(ms: &Vec<Measurement>) -> (r: Vec<Measurement>)
    ensures
        exists|order: Seq<usize>| #[trigger]
            is_order(timestamps(ms@), order) && r@ == at_places(ms@, order),
{
    let mut keys: Vec<Scalar> = Vec::new();
    let mut i: usize = 0;
    while i < ms.len()
        invariant
            i <= ms@.len(),
            keys@ =~= timestamps(ms@).take(i as int),
        decreases ms@.len() - i,
    {
        keys.push(ms[i].timestamp_sec);
        i += 1;
    }
    assert(keys@ =~= timestamps(ms@));
    let order: Vec<usize> = stable_order(&keys);
    pick(ms, &order)
}

/// The items of a list at given places.
fn pick(ms: &Vec<Measurement>, places: &Vec<usize>) -> (r: Vec<Measurement>)
    requires
        forall|i: int| 0 <= i < places@.len() ==> (#[trigger] places@[i]) < ms@.len(),
    ensures
        r@ == at_places(ms@, places@),
{
    let mut r: Vec<Measurement> = Vec::new();
    let mut i: usize = 0;
    while i < places.len()
        invariant
            i <= places@.len(),
            forall|i: int| 0 <= i < places@.len() ==> (#[trigger] places@[i]) < ms@.len(),
            r@ =~= at_places(ms@, places@).take(i as int),
        decreases places@.len() - i,
    {
        r.push(ms[places[i]]);
        i += 1;
    }
    assert(r@ =~= at_places(ms@, places@));
    r
}

/// How far off a receiver is, in metres, and in which direction, in degrees.
#[derive(Clone, Copy, Debug, PartialEq, Eq, Structural)]
pub struct Sight {
    pub distance: Scalar,
    pub bearing: Scalar,
}

/// The last of the sectors up to `k` that begins at or before a direction.
pub open spec fn sector_up_to(bearing: Scalar, k: int) -> int
    decreases k,
{
    if k <= 0 || bearing.is_nan() {
        0
    } else if !bearing.beneath(k * SECTOR_WIDTH, 1) {
        k
    } else {
        sector_up_to(bearing, k - 1)
    }
}

/// The sector of a direction.
pub open spec fn sector(bearing: Scalar) -> int {
    sector_up_to(bearing, SECTORS - 1)
}

/// The sector of a direction.
pub fn sector_of(bearing: Scalar) -> (r: usize)
    ensures
        r == sector(bearing),
        r < SECTORS,
{
    if bearing.nan() {
        return 0;
    }
    let mut k: usize = SECTORS - 1;
    while k > 0 && bearing.falls_below(k as u64 * SECTOR_WIDTH, 1)
        invariant
            k < SECTORS,
            !bearing.is_nan(),
            sector(bearing) == sector_up_to(bearing, k as int),
        decreases k,
    {
        k -= 1;
    }
    k
}

/// The receiver is within the radio horizon.
pub open spec fn is_close(sights: Seq<Sight>, i: usize) -> bool {
    in_horizon(sights[i as int].distance)
}

/// The receivers in order of distance that are within the radio horizon.
pub open spec fn close_ones(sights: Seq<Sight>, order: Seq<usize>) -> Seq<usize> {
    order.filter(|i: usize| is_close(sights, i))
}

/// The receivers to choose from, in order of distance: those within the radio horizon if
/// they are enough, else all.
pub open spec fn candidates(sights: Seq<Sight>, order: Seq<usize>) -> Seq<usize> {
    if close_ones(sights, order).len() >= CLUSTER_SIZE {
        close_ones(sights, order)
    } else {
        order
    }
}

/// A receiver among those listed stands in a sector.
pub open spec fn covered(sights: Seq<Sight>, list: Seq<usize>, s: int) -> bool {
    exists|i: int|
        0 <= i < list.len() && sector(sights[#[trigger] list[i] as int].bearing) == s
}

/// The first of each sector.
pub open spec fn leaders(sights: Seq<Sight>, list: Seq<usize>) -> Seq<usize>
    decreases list.len(),
{
    if list.len() == 0 {
        Seq::empty()
    } else {
        let before = leaders(sights, list.drop_last());
        if covered(sights, list.drop_last(), sector(sights[list.last() as int].bearing)) {
            before
        } else {
            before.push(list.last())
        }
    }
}

/// Receivers, filled up from a list until there are enough.
pub open spec fn filled(start: Seq<usize>, list: Seq<usize>) -> Seq<usize>
    decreases list.len(),
{
    if list.len() == 0 {
        start
    } else {
        let before = filled(start, list.drop_last());
        if before.len() < CLUSTER_SIZE && !before.contains(list.last()) {
            before.push(list.last())
        } else {
            before
        }
    }
}

/// The receivers that are chosen: the closest of each sector, then the closest of all.
pub open spec fn chosen(sights: Seq<Sight>, order: Seq<usize>) -> Seq<usize> {
    let list = candidates(sights, order);
    filled(leaders(sights, list), list)
}

/// The distances of receivers.
pub open spec fn distances(sights: Seq<Sight>) -> Seq<Scalar> {
    sights.map_values(|s: Sight| s.distance)
}

/// The places of the chosen receivers, the one that heard the frame first before the others.
pub open spec fn is_cluster(ms: Seq<Measurement>, sights: Seq<Sight>, places: Seq<usize>) -> bool {
    exists|order: Seq<usize>, turn: Seq<usize>|
        {
            &&& #[trigger] is_order(distances(sights), order)
            &&& #[trigger] is_order(timestamps(at_places(ms, chosen(sights, order))), turn)
            &&& places == turn.map_values(|t: usize| chosen(sights, order)[t as int])
        }
}

/// The receivers to choose from, in order of distance.
fn candidates_of(sights: &Vec<Sight>, order: &Vec<usize>) -> (r: Vec<usize>)
    requires
        forall|i: int| 0 <= i < order@.len() ==> (#[trigger] order@[i]) < sights@.len(),
    ensures
        r@ == candidates(sights@, order@),
{
    let mut close: Vec<usize> = Vec::new();
    let mut all: Vec<usize> = Vec::new();
    let ghost keep = |i: usize| is_close(sights@, i);
    let mut i: usize = 0;
    proof {
        reveal(Seq::filter);
        assert(order@.take(0) =~= Seq::<usize>::empty());
        assert(close@ =~= order@.take(0).filter(keep));
    }
    while i < order.len()
        invariant
            i <= order@.len(),
            keep == (|i: usize| is_close(sights@, i)),
            forall|i: int| 0 <= i < order@.len() ==> (#[trigger] order@[i]) < sights@.len(),
            close@ == order@.take(i as int).filter(keep),
            all@ == order@.take(i as int),
        decreases order@.len() - i,
    {
        proof {
            reveal(Seq::filter);
            assert(order@.take(i + 1).drop_last() =~= order@.take(i as int));
            assert(order@.take(i + 1).last() == order@[i as int]);
        }
        if within_horizon(sights[order[i]].distance) {
            close.push(order[i]);
        }
        all.push(order[i]);
        assert(all@ =~= order@.take(i + 1));
        i += 1;
    }
    assert(order@.take(i as int) =~= order@);
    if close.len() >= CLUSTER_SIZE {
        close
    } else {
        all
    }
}

/// The first of each sector.
fn leaders_of(sights: &Vec<Sight>, list: &Vec<usize>) -> (r: Vec<usize>)
    requires
        forall|i: int| 0 <= i < list@.len() ==> (#[trigger] list@[i]) < sights@.len(),
    ensures
        r@ == leaders(sights@, list@),
{
    let mut seen: Vec<bool> = vec![false;SECTORS];
    let mut r: Vec<usize> = Vec::new();
    let mut i: usize = 0;
    assert(list@.take(0) =~= Seq::<usize>::empty());
    assert(r@ =~= leaders(sights@, list@.take(0)));
    while i < list.len()
        invariant
            i <= list@.len(),
            forall|i: int| 0 <= i < list@.len() ==> (#[trigger] list@[i]) < sights@.len(),
            r@ == leaders(sights@, list@.take(i as int)),
            seen@.len() == SECTORS,
            forall|s: int|
                0 <= s < SECTORS ==> #[trigger] seen@[s] == covered(
                    sights@,
                    list@.take(i as int),
                    s,
                ),
        decreases list@.len() - i,
    {
        let s: usize = sector_of(sights[list[i]].bearing);
        let ghost now = list@.take(i as int);
        let ghost next = list@.take(i + 1);
        proof {
            assert(next.drop_last() =~= now);
            assert(next.last() == list@[i as int]);
            assert forall|t: int| covered(sights@, next, t) == (covered(sights@, now, t) || t == s) by {
                if covered(sights@, now, t) {
                    let k = choose|k: int|
                        0 <= k < now.len() && sector(sights@[#[trigger] now[k] as int].bearing) == t;
                    assert(next[k] == now[k]);
                }
                if covered(sights@, next, t) && t != s {
                    let k = choose|k: int|
                        0 <= k < next.len() && sector(sights@[#[trigger] next[k] as int].bearing)
                            == t;
                    assert(now[k] == next[k]);
                }
                assert(sector(sights@[next[i as int] as int].bearing) == s);
            }
        }
        if !seen[s] {
            seen.set(s, true);
            r.push(list[i]);
        }
        i += 1;
    }
    assert(list@.take(i as int) =~= list@);
    r
}

/// Receivers, filled up from a list until there are enough.
fn fill(start: Vec<usize>, list: &Vec<usize>) -> (r: Vec<usize>)
    ensures
        r@ == filled(start@, list@),
{
    let mut r: Vec<usize> = start;
    let mut i: usize = 0;
    assert(list@.take(0) =~= Seq::<usize>::empty());
    while i < list.len()
        invariant
            i <= list@.len(),
            r@ == filled(start@, list@.take(i as int)),
        decreases list@.len() - i,
    {
        proof {
            assert(list@.take(i + 1).drop_last() =~= list@.take(i as int));
            assert(list@.take(i + 1).last() == list@[i as int]);
        }
        let mut known: bool = false;
        let mut j: usize = 0;
        while j < r.len()
            invariant
                j <= r@.len(),
                i < list@.len(),
                known == exists|k: int| 0 <= k < j && r@[k] == list@[i as int],
            decreases r@.len() - j,
        {
            if r[j] == list[i] {
                known = true;
            }
            j += 1;
        }
        assert(known == r@.contains(list@[i as int]));
        if r.len() < CLUSTER_SIZE && !known {
            r.push(list[i]);
        }
        i += 1;
    }
    assert(list@.take(i as int) =~= list@);
    r
}

/// What is chosen stands in the list.
proof fn lemma_chosen_listed(sights: Seq<Sight>, list: Seq<usize>, start: Seq<usize>)
    ensures
        forall|x: usize| #[trigger] leaders(sights, list).contains(x) ==> list.contains(x),
        forall|x: usize| #[trigger]
            filled(start, list).contains(x) ==> start.contains(x) || list.contains(x),
    decreases list.len(),
{
    if list.len() > 0 {
        let before = list.drop_last();
        lemma_chosen_listed(sights, before, start);
        assert forall|x: usize| before.contains(x) implies list.contains(x) by {
            let k = choose|k: int| 0 <= k < before.len() && before[k] == x;
            assert(list[k] == x);
        }
        assert(list.contains(list.last())) by {
            assert(list[list.len() - 1] == list.last());
        }
        assert forall|x: usize| #[trigger] leaders(sights, list).contains(x) implies list.contains(
            x,
        ) by {
            let k = choose|k: int|
                0 <= k < leaders(sights, list).len() && leaders(sights, list)[k] == x;
            if k < leaders(sights, before).len() {
                assert(leaders(sights, before)[k] == x);
                assert(leaders(sights, before).contains(x));
            }
        }
        assert forall|x: usize| #[trigger] filled(start, list).contains(x) implies start.contains(x)
            || list.contains(x) by {
            let k = choose|k: int|
                0 <= k < filled(start, list).len() && filled(start, list)[k] == x;
            if k < filled(start, before).len() {
                assert(filled(start, before)[k] == x);
                assert(filled(start, before).contains(x));
            }
        }
    }
}

/// What is chosen stands in the order.
proof fn lemma_chosen_in_order(sights: Seq<Sight>, order: Seq<usize>)
    ensures
        forall|x: usize| #[trigger] chosen(sights, order).contains(x) ==> order.contains(x),
        forall|x: usize| #[trigger]
            candidates(sights, order).contains(x) ==> order.contains(x),
{
    let list = candidates(sights, order);
    lemma_filter_order(order, |i: usize| is_close(sights, i));
    lemma_chosen_listed(sights, list, leaders(sights, list));
}

/// One item of a list stands before another.
spec fn comes_before(list: Seq<usize>, x: usize, y: usize) -> bool {
    exists|a: int, b: int| 0 <= a < b < list.len() && #[trigger] list[a] == x && #[trigger] list[b] == y
}

/// What is kept of a list stands in it, in the same order.
proof fn lemma_filter_order(order: Seq<usize>, keep: spec_fn(usize) -> bool)
    ensures
        forall|x: usize| #[trigger] order.filter(keep).contains(x) ==> order.contains(x),
        forall|i: int, j: int|
            0 <= i < j < order.filter(keep).len() ==> comes_before(
                order,
                #[trigger] order.filter(keep)[i],
                #[trigger] order.filter(keep)[j],
            ),
    decreases order.len(),
{
    reveal(Seq::filter);
    let kept = order.filter(keep);
    if order.len() > 0 {
        let before = order.drop_last();
        let old_ones = before.filter(keep);
        lemma_filter_order(before, keep);
        assert forall|x: usize| #[trigger] kept.contains(x) implies order.contains(x) by {
            let k = choose|k: int| 0 <= k < kept.len() && kept[k] == x;
            if k < old_ones.len() {
                assert(old_ones[k] == x);
                assert(old_ones.contains(x));
                let a = choose|a: int| 0 <= a < before.len() && before[a] == x;
                assert(order[a] == x);
            } else {
                assert(order[order.len() - 1] == x);
            }
        }
        assert forall|i: int, j: int| 0 <= i < j < kept.len() implies comes_before(
            order,
            #[trigger] kept[i],
            #[trigger] kept[j],
        ) by {
            assert(old_ones[i] == kept[i]);
            if j < old_ones.len() {
                assert(old_ones[j] == kept[j]);
                assert(comes_before(before, old_ones[i], old_ones[j]));
                let (a, b) = choose|a: int, b: int|
                    0 <= a < b < before.len() && #[trigger] before[a] == old_ones[i]
                        && #[trigger] before[b] == old_ones[j];
                assert(order[a] == kept[i] && order[b] == kept[j]);
            } else {
                assert(old_ones.contains(kept[i]));
                let a = choose|a: int| 0 <= a < before.len() && before[a] == kept[i];
                assert(order[a] == kept[i] && order[order.len() - 1] == kept[j]);
            }
        }
    }
}

/// The measurements of the best receivers where there are many, with the earliest first.
pub fn select_optimal_cluster(measurements: Vec<Measurement>, sights: &Vec<Sight>) -> (r: Vec<
    Measurement,
>)
    requires
        measurements@.len() == sights@.len(),
    ensures
        measurements@.len() <= CLUSTER_SIZE ==> r@ == measurements@,
        measurements@.len() > CLUSTER_SIZE ==> exists|places: Seq<usize>| #[trigger]
            is_cluster(measurements@, sights@, places) && r@ == at_places(measurements@, places),
{
    let n: usize = measurements.len();
    if n <= CLUSTER_SIZE {
        return measurements;
    }
    let mut keys: Vec<Scalar> = Vec::new();
    let mut i: usize = 0;
    while i < n
        invariant
            i <= n,
            n == sights@.len(),
            keys@ =~= distances(sights@).take(i as int),
        decreases n - i,
    {
        keys.push(sights[i].distance);
        i += 1;
    }
    assert(keys@ =~= distances(sights@));
    let order: Vec<usize> = stable_order(&keys);
    let list: Vec<usize> = candidates_of(sights, &order);
    proof {
        lemma_chosen_in_order(sights@, order@);
        assert forall|i: int| 0 <= i < list@.len() implies (#[trigger] list@[i]) < sights@.len() by {
            assert(candidates(sights@, order@).contains(list@[i]));
        }
    }
    let places: Vec<usize> = fill(leaders_of(sights, &list), &list);
    proof {
        assert forall|i: int| 0 <= i < places@.len() implies (#[trigger] places@[i]) < n by {
            assert(chosen(sights@, order@).contains(places@[i]));
        }
    }
    let picked: Vec<Measurement> = pick(&measurements, &places);
    let r: Vec<Measurement> = chronological(&picked);
    proof {
        let turn = choose|turn: Seq<usize>| #[trigger]
            is_order(timestamps(picked@), turn) && r@ == at_places(picked@, turn);
        let c = chosen(sights@, order@);
        let at = turn.map_values(|t: usize| c[t as int]);
        assert(is_cluster(measurements@, sights@, at));
        assert(r@ =~= at_places(measurements@, at));
    }
    r
}

/// The sector of an item of a list.
spec fn sector_at(sights: Seq<Sight>, list: Seq<usize>, i: int) -> int {
    sector(sights[list[i] as int].bearing)
}

/// A leader of the same sector stands at a place in the list or before it.
spec fn is_led(sights: Seq<Sight>, list: Seq<usize>, some: Seq<usize>, k: int) -> bool {
    exists|m: int|
        0 <= m <= k && #[trigger] sector_at(sights, list, m) == sector_at(sights, list, k)
            && some.contains(list[m])
}

/// The first of each sector stand in different sectors.
proof fn lemma_leaders_differ(sights: Seq<Sight>, list: Seq<usize>)
    ensures
        forall|i: int, j: int|
            0 <= i < j < leaders(sights, list).len() ==> #[trigger] sector_at(
                sights,
                leaders(sights, list),
                i,
            ) != #[trigger] sector_at(sights, leaders(sights, list), j),
        forall|i: int|
            0 <= i < leaders(sights, list).len() ==> covered(
                sights,
                list,
                #[trigger] sector_at(sights, leaders(sights, list), i),
            ),
    decreases list.len(),
{
    if list.len() > 0 {
        let before = list.drop_last();
        let all = leaders(sights, list);
        let old_ones = leaders(sights, before);
        lemma_leaders_differ(sights, before);
        let s = sector_at(sights, list, list.len() - 1);
        assert forall|t: int| covered(sights, before, t) implies covered(sights, list, t) by {
            let k = choose|k: int|
                0 <= k < before.len() && sector(sights[#[trigger] before[k] as int].bearing) == t;
            assert(list[k] == before[k]);
        }
        assert forall|i: int| 0 <= i < old_ones.len() implies sector_at(sights, all, i)
            == #[trigger] sector_at(sights, old_ones, i) by {
            assert(all[i] == old_ones[i]);
        }
        assert forall|i: int| 0 <= i < all.len() implies covered(
            sights,
            list,
            #[trigger] sector_at(sights, all, i),
        ) by {
            if i < old_ones.len() {
                assert(covered(sights, before, sector_at(sights, old_ones, i)));
            } else {
                assert(sector(sights[list[list.len() - 1] as int].bearing) == s);
            }
        }
        assert forall|i: int, j: int| 0 <= i < j < all.len() implies #[trigger] sector_at(
            sights,
            all,
            i,
        ) != #[trigger] sector_at(sights, all, j) by {
            assert(covered(sights, before, sector_at(sights, old_ones, i)));
            if j < old_ones.len() {
                assert(sector_at(sights, old_ones, i) != sector_at(sights, old_ones, j));
            }
        }
    }
}

/// Every item of a list has a leader.
proof fn lemma_led(sights: Seq<Sight>, list: Seq<usize>, k: int)
    requires
        0 <= k < list.len(),
    ensures
        is_led(sights, list, leaders(sights, list), k),
    decreases list.len(),
{
    let before = list.drop_last();
    let all = leaders(sights, list);
    let old_ones = leaders(sights, before);
    let s = sector_at(sights, list, k);
    if k < before.len() || covered(sights, before, s) {
        let b = if k < before.len() {
            k
        } else {
            choose|b: int|
                0 <= b < before.len() && sector(sights[#[trigger] before[b] as int].bearing) == s
        };
        assert(list[b] == before[b]);
        lemma_led(sights, before, b);
        let m = choose|m: int|
            0 <= m <= b && #[trigger] sector_at(sights, before, m) == sector_at(sights, before, b)
                && old_ones.contains(before[m]);
        assert(list[m] == before[m]);
        let x = choose|x: int| 0 <= x < old_ones.len() && old_ones[x] == before[m];
        assert(all[x] == list[m]);
        assert(sector_at(sights, list, m) == s);
    } else {
        assert(all[all.len() - 1] == list[k]);
    }
}

/// Receivers that are filled up keep what they start with, and hold the whole list unless
/// there are enough.
proof fn lemma_filled(start: Seq<usize>, list: Seq<usize>)
    requires
        start.no_duplicates(),
        start.len() <= CLUSTER_SIZE,
    ensures
        filled(start, list).no_duplicates(),
        filled(start, list).len() <= CLUSTER_SIZE,
        start.len() <= filled(start, list).len(),
        forall|i: int| 0 <= i < start.len() ==> #[trigger] filled(start, list)[i] == start[i],
        filled(start, list).len() < CLUSTER_SIZE ==> forall|x: usize| #[trigger]
            list.contains(x) ==> filled(start, list).contains(x),
    decreases list.len(),
{
    if list.len() > 0 {
        let before = list.drop_last();
        lemma_filled(start, before);
        let all = filled(start, list);
        let old_ones = filled(start, before);
        if all.len() < CLUSTER_SIZE {
            assert forall|x: usize| #[trigger] list.contains(x) implies all.contains(x) by {
                let k = choose|k: int| 0 <= k < list.len() && list[k] == x;
                if k < before.len() {
                    assert(before[k] == x);
                    assert(before.contains(x));
                    let y = choose|y: int| 0 <= y < old_ones.len() && old_ones[y] == x;
                    assert(all[y] == x);
                } else if !old_ones.contains(x) {
                    assert(all[all.len() - 1] == x);
                }
            }
        }
    }
}

/// A sector has a number below eight.
proof fn lemma_sector_range(bearing: Scalar, k: int)
    requires
        k >= 0,
    ensures
        0 <= sector_up_to(bearing, k) <= k,
    decreases k,
{
    if k > 0 {
        lemma_sector_range(bearing, k - 1);
    }
}

/// There are no more leaders than sectors.
proof fn lemma_leaders_few(sights: Seq<Sight>, list: Seq<usize>)
    ensures
        leaders(sights, list).len() <= SECTORS,
        leaders(sights, list).no_duplicates(),
{
    let all = leaders(sights, list);
    lemma_leaders_differ(sights, list);
    let places = all.map_values(|x: usize| sector(sights[x as int].bearing));
    assert forall|i: int, j: int| 0 <= i < places.len() && 0 <= j < places.len() && i
        != j implies places[i] != places[j] by {
        if i < j {
            assert(sector_at(sights, all, i) != sector_at(sights, all, j));
        } else {
            assert(sector_at(sights, all, j) != sector_at(sights, all, i));
        }
    }
    places.unique_seq_to_set();
    let range = vstd::set_lib::set_int_range(0, SECTORS as int);
    vstd::set_lib::lemma_int_range(0, SECTORS as int);
    assert forall|s: int| places.to_set().contains(s) implies range.contains(s) by {
        let i = choose|i: int| 0 <= i < places.len() && places[i] == s;
        lemma_sector_range(sights[all[i] as int].bearing, SECTORS - 1);
    }
    vstd::set_lib::lemma_len_subset(places.to_set(), range);
    assert forall|i: int, j: int| 0 <= i < all.len() && 0 <= j < all.len() && i != j implies all[i]
        != all[j] by {
        assert(places[i] != places[j]);
    }
}

/// Of more than eight receivers exactly eight are chosen, each once.
pub proof fn law_cluster_has_eight(sights: Seq<Sight>, order: Seq<usize>)
    requires
        is_order(distances(sights), order),
        sights.len() > CLUSTER_SIZE,
    ensures
        chosen(sights, order).len() == CLUSTER_SIZE,
        chosen(sights, order).no_duplicates(),
{
    let list = candidates(sights, order);
    let c = chosen(sights, order);
    lemma_leaders_few(sights, list);
    lemma_filled(leaders(sights, list), list);
    lemma_filter_order(order, |i: usize| is_close(sights, i));
    assert(list.no_duplicates());
    if c.len() < CLUSTER_SIZE {
        list.unique_seq_to_set();
        c.unique_seq_to_set();
        assert(list.to_set().subset_of(c.to_set())) by {
            assert forall|x: usize| list.to_set().contains(x) implies c.to_set().contains(x) by {
                assert(list.contains(x));
            }
        }
        vstd::set_lib::lemma_len_subset(list.to_set(), c.to_set());
    }
}

/// From every direction that has a receiver to choose from, the closest one is chosen.
pub proof fn law_every_direction_is_heard(sights: Seq<Sight>, order: Seq<usize>, k: int)
    requires
        is_order(distances(sights), order),
        all_numbers(distances(sights)),
        0 <= k < candidates(sights, order).len(),
    ensures
        exists|x: usize| #[trigger]
            chosen(sights, order).contains(x) && sector(sights[x as int].bearing) == sector(
                sights[candidates(sights, order)[k] as int].bearing,
            ) && !sights[candidates(sights, order)[k] as int].distance.less(
                sights[x as int].distance,
            ),
{
    let list = candidates(sights, order);
    let d = distances(sights);
    lemma_led(sights, list, k);
    lemma_leaders_few(sights, list);
    lemma_filled(leaders(sights, list), list);
    lemma_filter_order(order, |i: usize| is_close(sights, i));
    let m = choose|m: int|
        0 <= m <= k && #[trigger] sector_at(sights, list, m) == sector_at(sights, list, k)
            && leaders(sights, list).contains(list[m]);
    let x = list[m];
    let first = leaders(sights, list);
    let i = choose|i: int| 0 <= i < first.len() && first[i] == x;
    assert(chosen(sights, order)[i] == x);
    assert(chosen(sights, order).contains(x));
    if m < k {
        assert(comes_before(order, list[m], list[k]));
        let (a, b) = choose|a: int, b: int|
            0 <= a < b < order.len() && #[trigger] order[a] == list[m] && #[trigger] order[b]
                == list[k];
        assert(precedes(d, order[a] as int, order[b] as int));
        assert(d[list[m] as int] == sights[list[m] as int].distance);
        assert(d[list[k] as int] == sights[list[k] as int].distance);
    }
}

/// Keys that are numbers have one order.
pub proof fn law_order_is_unique(keys: Seq<Scalar>, a: Seq<usize>, b: Seq<usize>)
    requires
        is_order(keys, a),
        is_order(keys, b),
        all_numbers(keys),
    ensures
        a == b,
{
    assert forall|i: int| 0 <= i < a.len() implies a[i] == b[i] by {
        lemma_same_place(keys, a, b, i);
    }
    assert(a =~= b);
}

/// Two orders of the same keys agree up to a place.
proof fn lemma_same_place(keys: Seq<Scalar>, a: Seq<usize>, b: Seq<usize>, i: int)
    requires
        is_order(keys, a),
        is_order(keys, b),
        all_numbers(keys),
        0 <= i < a.len(),
    ensures
        forall|j: int| 0 <= j <= i ==> a[j] == b[j],
    decreases i,
{
    if i > 0 {
        lemma_same_place(keys, a, b, i - 1);
    }
    let x = a[i];
    let y = b[i];
    if x != y {
        assert(b.contains(x) && a.contains(y));
        let in_b = choose|k: int| 0 <= k < b.len() && b[k] == x;
        let in_a = choose|k: int| 0 <= k < a.len() && a[k] == y;
        if in_b < i {
            assert(a[in_b] == b[in_b]);
        }
        if in_a < i {
            assert(a[in_a] == b[in_a]);
        }
        assert(precedes(keys, b[i] as int, b[in_b] as int));
        assert(precedes(keys, a[i] as int, a[in_a] as int));
        assert(!keys[x as int].is_nan() && !keys[y as int].is_nan());
    }
}

/// A direction from 0 to 360 degrees is in the sector of 45 degrees that its number names; what is
/// below or above is in the first or the last.
pub proof fn law_sectors_are_45_degrees_wide(bearing: Scalar)
    requires
        !bearing.is_nan(),
    ensures
        0 <= sector(bearing) <= 7,
        bearing.units() >= 0 ==> 45 * sector(bearing) * one() <= bearing.units(),
        bearing.units() < 360 * one() ==> bearing.units() < 45 * (sector(bearing) + 1) * one(),
        bearing.units() >= 315 * one() ==> sector(bearing) == 7,
        bearing.units() < 45 * one() ==> sector(bearing) == 0,
{
    lemma_sector_bounds(bearing, 7);
    let s = sector(bearing);
    assert(45 * s == s * 45 && 45 * (s + 1) == (s + 1) * 45);
    lemma_pow2_pos(1074);
    if s == 0 {
        assert(45 * s * one() == 0) by (nonlinear_arith)
            requires
                s == 0,
        ;
    }
    if s < 7 && bearing.units() >= 315 * one() {
        assert((s + 1) * 45 * one() <= 315 * one()) by (nonlinear_arith)
            requires
                s + 1 <= 7,
                one() > 0,
        ;
    }
    if s > 0 && bearing.units() < 45 * one() {
        assert(s * 45 * one() >= 45 * one()) by (nonlinear_arith)
            requires
                s >= 1,
                one() > 0,
        ;
    }
}

proof fn lemma_sector_bounds(bearing: Scalar, k: int)
    requires
        !bearing.is_nan(),
        k >= 0,
    ensures
        ({
            let s = sector_up_to(bearing, k);
            &&& 0 <= s <= k
            &&& s > 0 ==> s * 45 * one() <= bearing.units()
            &&& s < k ==> bearing.units() < (s + 1) * 45 * one()
        }),
    decreases k,
{
    if k > 0 {
        lemma_sector_bounds(bearing, k - 1);
    }
}

/// A receiver is within the radio horizon if and only if it is no farther than 450 km.
pub proof fn law_horizon_is_450_km(distance: Scalar)
    ensures
        !distance.is_nan() ==> (in_horizon(distance) <==> distance.units() <= 450_000 * one()),
        distance.is_nan() ==> !in_horizon(distance),
{
}

/// Where eight receivers are within the radio horizon none beyond it is chosen; where fewer are,
/// all are there to choose from.
pub proof fn law_close_receivers_come_first(sights: Seq<Sight>, order: Seq<usize>, x: usize)
    requires
        is_order(distances(sights), order),
        x < sights.len(),
    ensures
        candidates(sights, order).contains(x) ==> close_ones(sights, order).len() < 8
            || in_horizon(sights[x as int].distance),
        close_ones(sights, order).len() < 8 ==> candidates(sights, order).contains(x),
        in_horizon(sights[x as int].distance) ==> candidates(sights, order).contains(x),
        chosen(sights, order).contains(x) ==> candidates(sights, order).contains(x),
{
    let keep = |i: usize| is_close(sights, i);
    assert(order.contains(x));
    lemma_filter_order(order, keep);
    if in_horizon(sights[x as int].distance) {
        lemma_kept(order, keep, x);
    }
    let list = candidates(sights, order);
    if chosen(sights, order).contains(x) {
        lemma_filled_from(leaders(sights, list), list, x);
        lemma_leaders_from(sights, list, x);
    }
}

proof fn lemma_kept(list: Seq<usize>, keep: spec_fn(usize) -> bool, x: usize)
    requires
        list.contains(x),
        keep(x),
    ensures
        list.filter(keep).contains(x),
    decreases list.len(),
{
    reveal(Seq::filter);
    let before = list.drop_last();
    let k = choose|k: int| 0 <= k < list.len() && list[k] == x;
    let all = list.filter(keep);
    if k < before.len() {
        assert(before[k] == x);
        lemma_kept(before, keep, x);
        let old_ones = before.filter(keep);
        let i = choose|i: int| 0 <= i < old_ones.len() && old_ones[i] == x;
        assert(all[i] == x);
    } else {
        assert(all[all.len() - 1] == x);
    }
}

proof fn lemma_filled_from(start: Seq<usize>, list: Seq<usize>, x: usize)
    requires
        filled(start, list).contains(x),
    ensures
        start.contains(x) || list.contains(x),
    decreases list.len(),
{
    if list.len() > 0 {
        let before = filled(start, list.drop_last());
        let all = filled(start, list);
        let i = choose|i: int| 0 <= i < all.len() && all[i] == x;
        if i < before.len() {
            assert(before[i] == x);
            lemma_filled_from(start, list.drop_last(), x);
            if list.drop_last().contains(x) {
                let k = choose|k: int| 0 <= k < list.drop_last().len() && list.drop_last()[k] == x;
                assert(list[k] == x);
            }
        } else {
            assert(list[list.len() - 1] == x);
        }
    }
}

proof fn lemma_leaders_from(sights: Seq<Sight>, list: Seq<usize>, x: usize)
    ensures
        leaders(sights, list).contains(x) ==> list.contains(x),
    decreases list.len(),
{
    if list.len() > 0 && leaders(sights, list).contains(x) {
        let before = leaders(sights, list.drop_last());
        let all = leaders(sights, list);
        let i = choose|i: int| 0 <= i < all.len() && all[i] == x;
        if i < before.len() {
            assert(before[i] == x);
            lemma_leaders_from(sights, list.drop_last(), x);
            let k = choose|k: int| 0 <= k < list.drop_last().len() && list.drop_last()[k] == x;
            assert(list[k] == x);
        } else {
            assert(list[list.len() - 1] == x);
        }
    }
}

/// A receiver that is not the first of its sector is chosen only if all that come before it in the
/// order of distance are chosen.
pub proof fn law_filled_up_by_distance(
    sights: Seq<Sight>,
    order: Seq<usize>,
    near: int,
    far: int,
)
    requires
        is_order(distances(sights), order),
        0 <= near < far < candidates(sights, order).len(),
        chosen(sights, order).contains(candidates(sights, order)[far]),
        !leaders(sights, candidates(sights, order)).contains(candidates(sights, order)[far]),
    ensures
        chosen(sights, order).contains(candidates(sights, order)[near]),
{
    let list = candidates(sights, order);
    lemma_filter_order(order, |i: usize| is_close(sights, i));
    assert(list.no_duplicates());
    lemma_filled_in_order(leaders(sights, list), list, near, far);
}

proof fn lemma_filled_in_order(start: Seq<usize>, list: Seq<usize>, near: int, far: int)
    requires
        0 <= near < far < list.len(),
        list.no_duplicates(),
        filled(start, list).contains(list[far]),
        !start.contains(list[far]),
    ensures
        filled(start, list).contains(list[near]),
    decreases list.len(),
{
    let before = list.drop_last();
    let old_ones = filled(start, before);
    let all = filled(start, list);
    assert(before.no_duplicates());
    if far < before.len() {
        if !old_ones.contains(list[far]) {
            let i = choose|i: int| 0 <= i < all.len() && all[i] == list[far];
            assert(i == old_ones.len());
            assert(list[far] == list.last());
        }
        lemma_filled_in_order(start, before, near, far);
    } else {
        if old_ones.contains(list[far]) {
            lemma_filled_from(start, before, list[far]);
            let k = choose|k: int| 0 <= k < before.len() && before[k] == list[far];
            assert(list[k] == list[far]);
        }
        assert(old_ones.len() < CLUSTER_SIZE);
        assert(before[near] == list[near]);
        lemma_filled_short(start, before, list[near]);
    }
    let i = choose|i: int| 0 <= i < old_ones.len() && old_ones[i] == list[near];
    assert(all[i] == list[near]);
}

proof fn lemma_filled_short(start: Seq<usize>, list: Seq<usize>, x: usize)
    requires
        filled(start, list).len() < CLUSTER_SIZE,
        list.contains(x),
    ensures
        filled(start, list).contains(x),
    decreases list.len(),
{
    let before = list.drop_last();
    let old_ones = filled(start, before);
    let all = filled(start, list);
    let k = choose|k: int| 0 <= k < list.len() && list[k] == x;
    if k < before.len() {
        assert(before[k] == x);
        lemma_filled_short(start, before, x);
        let i = choose|i: int| 0 <= i < old_ones.len() && old_ones[i] == x;
        assert(all[i] == x);
    } else if !old_ones.contains(x) {
        assert(all[all.len() - 1] == x);
    }
}

/// Measurements in the order of their times are sorted, and are the measurements.
pub proof fn law_earliest_comes_first(ms: Seq<Measurement>, order: Seq<usize>, i: int, j: int)
    requires
        is_order(timestamps(ms), order),
        all_numbers(timestamps(ms)),
        0 <= i < j < order.len(),
    ensures
        at_places(ms, order).len() == ms.len(),
        at_places(ms, order)[i].timestamp_sec.units() <= at_places(
            ms,
            order,
        )[j].timestamp_sec.units(),
        order[i] != order[j],
        ms.contains(at_places(ms, order)[i]),
{
    let keys = timestamps(ms);
    assert(precedes(keys, order[i] as int, order[j] as int));
    assert(keys[order[i] as int] == ms[order[i] as int].timestamp_sec);
    assert(keys[order[j] as int] == ms[order[j] as int].timestamp_sec);
    assert(!keys[order[i] as int].is_nan() && !keys[order[j] as int].is_nan());
}

/// A cluster of more than eight measurements has eight of them, each once, with the earliest
/// first.
pub proof fn law_cluster_is_in_order_of_time(
    ms: Seq<Measurement>,
    sights: Seq<Sight>,
    places: Seq<usize>,
    i: int,
    j: int,
)
    requires
        is_cluster(ms, sights, places),
        ms.len() == sights.len(),
        sights.len() > 8,
        all_numbers(timestamps(ms)),
        0 <= i < j < places.len(),
    ensures
        places.len() == 8,
        places[i] != places[j],
        places[i] < ms.len(),
        ms[places[i] as int].timestamp_sec.units() <= ms[places[j] as int].timestamp_sec.units(),
{
    let (order, turn) = choose|order: Seq<usize>, turn: Seq<usize>|
        {
            &&& #[trigger] is_order(distances(sights), order)
            &&& #[trigger] is_order(timestamps(at_places(ms, chosen(sights, order))), turn)
            &&& places == turn.map_values(|t: usize| chosen(sights, order)[t as int])
        };
    let c = chosen(sights, order);
    law_cluster_has_eight(sights, order);
    lemma_chosen_in_order(sights, order);
    let some = at_places(ms, c);
    assert forall|k: int| 0 <= k < c.len() implies (#[trigger] c[k]) < ms.len() by {
        assert(c.contains(c[k]));
    }
    assert forall|k: int| 0 <= k < timestamps(some).len() implies !(#[trigger] timestamps(
        some,
    )[k]).is_nan() by {
        assert(timestamps(some)[k] == timestamps(ms)[c[k] as int]);
    }
    law_earliest_comes_first(some, turn, i, j);
    assert(turn[i] < c.len() && turn[j] < c.len());
}

/// Of more than eight receivers, all within the radio horizon, those of a cluster are such that from
/// the direction of each receiver one is taken that is no farther off.
pub proof fn law_cluster_hears_every_direction(
    ms: Seq<Measurement>,
    sights: Seq<Sight>,
    places: Seq<usize>,
    k: usize,
)
    requires
        is_cluster(ms, sights, places),
        ms.len() == sights.len(),
        sights.len() > 8,
        k < sights.len(),
        forall|i: int|
            0 <= i < sights.len() ==> !(#[trigger] sights[i]).distance.is_nan()
                && sights[i].distance.units() <= 450_000 * one(),
    ensures
        exists|x: usize| #[trigger]
            places.contains(x) && x < sights.len() && sector(sights[x as int].bearing) == sector(
                sights[k as int].bearing,
            ) && sights[x as int].distance.units() <= sights[k as int].distance.units(),
{
    let (order, turn) = choose|order: Seq<usize>, turn: Seq<usize>|
        {
            &&& #[trigger] is_order(distances(sights), order)
            &&& #[trigger] is_order(timestamps(at_places(ms, chosen(sights, order))), turn)
            &&& places == turn.map_values(|t: usize| chosen(sights, order)[t as int])
        };
    let c = chosen(sights, order);
    let list = candidates(sights, order);
    law_cluster_has_eight(sights, order);
    law_close_receivers_come_first(sights, order, k);
    let at = choose|at: int| 0 <= at < list.len() && list[at] == k;
    assert forall|i: int| 0 <= i < distances(sights).len() implies !(#[trigger] distances(
        sights,
    )[i]).is_nan() by {
        assert(distances(sights)[i] == sights[i].distance);
    }
    law_every_direction_is_heard(sights, order, at);
    let x = choose|x: usize| #[trigger]
        c.contains(x) && sector(sights[x as int].bearing) == sector(sights[k as int].bearing)
            && !sights[k as int].distance.less(sights[x as int].distance);
    lemma_chosen_in_order(sights, order);
    assert(order.contains(x));
    let o = choose|o: int| 0 <= o < order.len() && order[o] == x;
    assert(order[o] < sights.len());
    let i = choose|i: int| 0 <= i < c.len() && c[i] == x;
    assert(timestamps(at_places(ms, c)).len() == c.len());
    assert(turn.contains(i as usize));
    let t = choose|t: int| 0 <= t < turn.len() && turn[t] == i as usize;
    assert(places[t] == x);
    assert(places.contains(x));
    assert(!sights[x as int].distance.is_nan());
    assert(!sights[k as int].distance.is_nan());
}

} // verus!
