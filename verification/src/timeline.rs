//! Order by time, with things of one time in the order in which they came.
use vstd::prelude::*;

verus! {

/// Puts a place behind those whose time is no later.
pub open spec fn place_in(order: Seq<int>, times: Seq<i64>, i: int) -> Seq<int>
    decreases order.len(),
{
    if order.len() == 0 || times[order.last()] <= times[i] {
        order.push(i)
    } else {
        place_in(order.drop_last(), times, i).push(order.last())
    }
}

/// The places of the first `n` times, earliest first, those of one time in the order in which they
/// came.
pub open spec fn order_up_to(times: Seq<i64>, n: nat) -> Seq<int>
    decreases n,
{
    if n == 0 {
        Seq::empty()
    } else {
        place_in(order_up_to(times, (n - 1) as nat), times, n - 1)
    }
}

/// The places of all times, earliest first.
pub open spec fn in_order(times: Seq<i64>) -> Seq<int> {
    order_up_to(times, times.len())
}

/// The place `a` comes before the place `b`: its time is earlier, or it is the same and it came
/// earlier.
pub open spec fn before(times: Seq<i64>, a: int, b: int) -> bool {
    times[a] < times[b] || times[a] == times[b] && a < b
}

/// Places are below a bound, each stands there, and they are in order.
pub open spec fn ordered(order: Seq<int>, times: Seq<i64>, n: int) -> bool {
    &&& order.len() == n
    &&& forall|k: int| 0 <= k < order.len() ==> 0 <= #[trigger] order[k] < n
    &&& forall|a: int, b: int|
        #![trigger order[a], order[b]]
        0 <= a < b < order.len() ==> before(times, order[a], order[b])
    &&& forall|i: int| 0 <= i < n ==> #[trigger] order.contains(i)
}

/// A place goes where everything behind it is later.
proof fn lemma_place_in(order: Seq<int>, times: Seq<i64>, i: int, p: int)
    requires
        0 <= p <= order.len(),
        forall|k: int| p <= k < order.len() ==> times[#[trigger] order[k]] > times[i],
        p > 0 ==> times[order[p - 1]] <= times[i],
    ensures
        place_in(order, times, i) == order.insert(p, i),
    decreases order.len(),
{
    if p == order.len() {
        assert(order.insert(p, i) =~= order.push(i));
    } else {
        assert(times[order[order.len() - 1]] > times[i]);
        lemma_place_in(order.drop_last(), times, i, p);
        assert(order.insert(p, i) =~= order.drop_last().insert(p, i).push(order.last()));
    }
}

/// In an order there is a place for one more.
proof fn lemma_room(order: Seq<int>, times: Seq<i64>, n: int) -> (p: int)
    requires
        ordered(order, times, n),
    ensures
        0 <= p <= order.len(),
        forall|k: int| p <= k < order.len() ==> times[#[trigger] order[k]] > times[n],
        forall|k: int| 0 <= k < p ==> times[#[trigger] order[k]] <= times[n],
{
    lemma_room_up_to(order, times, n, n)
}

proof fn lemma_room_up_to(order: Seq<int>, times: Seq<i64>, n: int, q: int) -> (p: int)
    requires
        ordered(order, times, n),
        0 <= q <= order.len(),
        forall|k: int| q <= k < order.len() ==> times[#[trigger] order[k]] > times[n],
    ensures
        0 <= p <= order.len(),
        forall|k: int| p <= k < order.len() ==> times[#[trigger] order[k]] > times[n],
        forall|k: int| 0 <= k < p ==> times[#[trigger] order[k]] <= times[n],
    decreases q,
{
    if q == 0 {
        0
    } else if times[order[q - 1]] > times[n] {
        lemma_room_up_to(order, times, n, q - 1)
    } else {
        assert forall|k: int| 0 <= k < q implies times[#[trigger] order[k]] <= times[n] by {
            if k < q - 1 {
                assert(before(times, order[k], order[q - 1]));
            }
        }
        q
    }
}

/// The places of the first `n` times are in order.
proof fn lemma_ordered(times: Seq<i64>, n: nat)
    requires
        n <= times.len(),
    ensures
        ordered(order_up_to(times, n), times, n as int),
    decreases n,
{
    if n > 0 {
        let m = (n - 1) as nat;
        lemma_ordered(times, m);
        let order = order_up_to(times, m);
        let p = lemma_room(order, times, m as int);
        lemma_place_in(order, times, m as int, p);
        let more = order.insert(p, m as int);
        assert forall|k: int| 0 <= k < more.len() implies 0 <= #[trigger] more[k] < n by {
            if k < p {
                assert(more[k] == order[k]);
            } else if k > p {
                assert(more[k] == order[k - 1]);
            }
        }
        assert forall|a: int, b: int| #![trigger more[a], more[b]]
            0 <= a < b < more.len() implies before(times, more[a], more[b]) by {
            if b < p {
                assert(before(times, order[a], order[b]));
            } else if b == p {
                assert(more[a] == order[a]);
            } else if a == p {
                assert(more[b] == order[b - 1]);
            } else if a < p {
                assert(before(times, order[a], order[b - 1]));
            } else {
                assert(before(times, order[a - 1], order[b - 1]));
            }
        }
        assert forall|i: int| 0 <= i < n implies #[trigger] more.contains(i) by {
            if i == m {
                assert(more[p] == i);
            } else {
                assert(order.contains(i));
                let k = choose|k: int| 0 <= k < order.len() && order[k] == i;
                if k < p {
                    assert(more[k] == i);
                } else {
                    assert(more[k + 1] == i);
                }
            }
        }
    }
}

/// The order has every place once, earlier times before later ones, and places of one time as they
/// came.
pub proof fn law_order_is_by_time(times: Seq<i64>)
    ensures
        ordered(in_order(times), times, times.len() as int),
{
    lemma_ordered(times, times.len());
}

/// Places as mathematical integers.
pub open spec fn places(v: Seq<usize>) -> Seq<int> {
    Seq::new(v.len(), |k: int| v[k] as int)
}

/// The places of all times, earliest first.
pub fn order_of(times: &Vec<i64>) -> (r: Vec<usize>)
    ensures
        places(r@) == in_order(times@),
        forall|k: int| 0 <= k < r@.len() ==> (#[trigger] r@[k]) < times@.len(),
        r@.len() == times@.len(),
{
    let mut order: Vec<usize> = Vec::new();
    let mut i: usize = 0;
    assert(places(order@) =~= order_up_to(times@, 0));
    while i < times.len()
        invariant
            i <= times@.len(),
            places(order@) == order_up_to(times@, i as nat),
            order@.len() == i,
            forall|k: int| 0 <= k < order@.len() ==> (#[trigger] order@[k]) < i,
        decreases times@.len() - i,
    {
        let t: i64 = times[i];
        let mut p: usize = order.len();
        let ghost known = places(order@);
        while p > 0 && times[order[p - 1]] > t
            invariant
                p <= order@.len(),
                i < times@.len(),
                t == times@[i as int],
                known == places(order@),
                forall|k: int| 0 <= k < order@.len() ==> (#[trigger] order@[k]) < i,
                forall|k: int| p <= k < known.len() ==> times@[#[trigger] known[k]] > t,
            decreases p,
        {
            assert(known[p - 1] == order@[p - 1]);
            p = p - 1;
        }
        proof {
            if p > 0 {
                assert(known[p - 1] == order@[p - 1]);
            }
            lemma_place_in(known, times@, i as int, p as int);
            assert(places(order@.insert(p as int, i)) =~= known.insert(p as int, i as int));
            assert forall|k: int| 0 <= k < order@.insert(p as int, i).len() implies (
            #[trigger] order@.insert(p as int, i)[k]) < i + 1 by {
                if k < p {
                    assert(order@[k] < i);
                } else if k > p {
                    assert(order@[k - 1] < i);
                }
            }
        }
        order.insert(p, i);
        i = i + 1;
    }
    order
}

/// Every place stands in the order once, an earlier time before a later one, and of equal times the one that
/// came first.
pub proof fn law_every_place_has_its_turn(times: Seq<i64>)
    ensures
        in_order(times).len() == times.len(),
        in_order(times).no_duplicates(),
        forall|k: int| 0 <= k < times.len() ==> 0 <= #[trigger] in_order(times)[k] < times.len(),
        forall|a: int, b: int|
            #![trigger in_order(times)[a], in_order(times)[b]]
            0 <= a < b < times.len() ==> times[in_order(times)[a]] < times[in_order(times)[b]] || (
            times[in_order(times)[a]] == times[in_order(times)[b]] && in_order(times)[a] < in_order(
                times,
            )[b]),
{
    law_order_is_by_time(times);
    let order = in_order(times);
    assert forall|a: int, b: int| 0 <= a < order.len() && 0 <= b < order.len() && a != b implies order[a]
        != order[b] by {
        if a < b {
            assert(before(times, order[a], order[b]));
        } else {
            assert(before(times, order[b], order[a]));
        }
    }
}

} // verus!
