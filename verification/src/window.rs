//! Distances and windows on the browsing list, which wraps around.

use std::collections::HashSet;
use vstd::prelude::*;

verus! {

broadcast use vstd::std_specs::hash::group_hash_axioms;

/// How many steps forward lead from `from` to `to` in a ring of `count` places.
pub open spec fn steps(from: int, to: int, count: int) -> int {
    (to - from) % count
}

/// The distance of two places in a ring of `count` places, the shorter way
/// round; nothing is near in an empty ring.
pub open spec fn ring_distance(a: int, b: int, count: int) -> int {
    if count == 0 {
        usize::MAX as int
    } else if steps(b, a, count) <= steps(a, b, count) {
        steps(b, a, count)
    } else {
        steps(a, b, count)
    }
}

pub open spec fn push_new(s: Seq<int>, x: int) -> Seq<int> {
    if s.contains(x) {
        s
    } else {
        s.push(x)
    }
}

/// The places up to `reach` steps from `cur`, nearest first, forward before
/// backward, at most `fwd` steps forward and `bwd` steps backward.
pub open spec fn ring_window(cur: int, count: int, fwd: int, bwd: int, reach: nat) -> Seq<int>
    decreases reach,
{
    if reach == 0 {
        Seq::empty()
    } else {
        let near = ring_window(cur, count, fwd, bwd, (reach - 1) as nat);
        let ahead = if reach <= fwd {
            push_new(near, (cur + reach) % count)
        } else {
            near
        };
        if reach <= bwd {
            push_new(ahead, (cur - reach) % count)
        } else {
            ahead
        }
    }
}

/// How far a window reaches: never as far as all the way round.
pub open spec fn window_reach(count: int, fwd: int, bwd: int) -> nat {
    let far = if fwd >= bwd {
        fwd
    } else {
        bwd
    };
    if count <= 0 {
        0
    } else if far <= count - 1 {
        far as nat
    } else {
        (count - 1) as nat
    }
}

/// The places around `cur` that are worth preparing, in order of urgency.
pub open spec fn window(cur: int, count: int, fwd: int, bwd: int) -> Seq<int> {
    ring_window(cur, count, fwd, bwd, window_reach(count, fwd, bwd))
}

pub open spec fn places(v: Seq<usize>) -> Seq<int> {
    v.map_values(|i: usize| i as int)
}

proof fn mod_shift(x: int, count: int)
    requires
        count > 0,
    ensures
        (x + count) % count == x % count,
        (x - count) % count == x % count,
        0 <= x % count < count,
{
    vstd::arithmetic::div_mod::lemma_mod_add_multiples_vanish(x, count);
    vstd::arithmetic::div_mod::lemma_mod_sub_multiples_vanish(x, count);
    vstd::arithmetic::div_mod::lemma_mod_bound(x, count);
}

/// The steps between two places of the ring, without division.
proof fn steps_in_ring(a: int, b: int, count: int)
    requires
        0 <= a < count,
        0 <= b < count,
    ensures
        steps(a, b, count) == (if a <= b {
            b - a
        } else {
            b - a + count
        }),
{
    mod_shift(b - a, count);
    if a <= b {
        vstd::arithmetic::div_mod::lemma_small_mod((b - a) as nat, count as nat);
    } else {
        vstd::arithmetic::div_mod::lemma_small_mod((b - a + count) as nat, count as nat);
    }
}

/// A step forward or backward stays in the ring.
proof fn step_in_ring(cur: int, k: int, count: int)
    requires
        0 <= cur < count,
        0 < k < count,
    ensures
        (cur + k) % count == (if cur + k < count {
            cur + k
        } else {
            cur + k - count
        }),
        (cur - k) % count == (if cur - k >= 0 {
            cur - k
        } else {
            cur - k + count
        }),
{
    mod_shift(cur + k, count);
    mod_shift(cur - k, count);
    if cur + k < count {
        vstd::arithmetic::div_mod::lemma_small_mod((cur + k) as nat, count as nat);
    } else {
        vstd::arithmetic::div_mod::lemma_small_mod((cur + k - count) as nat, count as nat);
    }
    if cur - k >= 0 {
        vstd::arithmetic::div_mod::lemma_small_mod((cur - k) as nat, count as nat);
    } else {
        vstd::arithmetic::div_mod::lemma_small_mod((cur - k + count) as nat, count as nat);
    }
}

proof fn window_members(cur: int, count: int, fwd: int, bwd: int, reach: nat)
    requires
        0 <= cur < count,
        0 <= fwd,
        0 <= bwd,
        reach < count,
    ensures
        ring_window(cur, count, fwd, bwd, reach).no_duplicates(),
        forall|i: int| #[trigger]
            ring_window(cur, count, fwd, bwd, reach).contains(i) <==> {
                &&& 0 <= i < count
                &&& i != cur
                &&& (steps(cur, i, count) <= fwd && steps(cur, i, count) <= reach) || (steps(
                    i,
                    cur,
                    count,
                ) <= bwd && steps(i, cur, count) <= reach)
            },
    decreases reach,
{
    let w = ring_window(cur, count, fwd, bwd, reach);
    if reach > 0 {
        let prev = (reach - 1) as nat;
        let near = ring_window(cur, count, fwd, bwd, prev);
        window_members(cur, count, fwd, bwd, prev);
        step_in_ring(cur, reach as int, count);
        let f = (cur + reach) % count;
        let b = (cur - reach) % count;
        let ahead = if reach <= fwd {
            push_new(near, f)
        } else {
            near
        };
        push_new_members(near, f);
        push_new_members(ahead, b);
        assert forall|i: int| #[trigger] w.contains(i) <==> {
            &&& 0 <= i < count
            &&& i != cur
            &&& (steps(cur, i, count) <= fwd && steps(cur, i, count) <= reach) || (steps(
                i,
                cur,
                count,
            ) <= bwd && steps(i, cur, count) <= reach)
        } by {
            assert(w.contains(i) <==> near.contains(i) || (reach <= fwd && i == f) || (reach <= bwd
                && i == b));
            if 0 <= i < count {
                steps_in_ring(cur, i, count);
                steps_in_ring(i, cur, count);
            }
        }
    } else {
        assert forall|i: int| 0 <= i < count && i != cur implies steps(cur, i, count) > 0 && steps(
            i,
            cur,
            count,
        ) > 0 by {
            steps_in_ring(cur, i, count);
            steps_in_ring(i, cur, count);
        }
    }
}

proof fn push_new_members(s: Seq<int>, x: int)
    requires
        s.no_duplicates(),
    ensures
        push_new(s, x).no_duplicates(),
        forall|i: int| #[trigger] push_new(s, x).contains(i) <==> s.contains(i) || i == x,
{
    if !s.contains(x) {
        let t = s.push(x);
        assert forall|i: int| #[trigger] t.contains(i) <==> s.contains(i) || i == x by {
            if s.contains(i) {
                let j = choose|j: int| 0 <= j < s.len() && s[j] == i;
                assert(t[j] == i);
            }
            if i == x {
                assert(t[s.len() as int] == x);
            }
            if t.contains(i) {
                let j = choose|j: int| 0 <= j < t.len() && t[j] == i;
                if j < s.len() {
                    assert(s[j] == i);
                }
            }
        }
        assert forall|i: int, j: int|
            0 <= i < t.len() && 0 <= j < t.len() && i != j implies t[i] != t[j] by {
            if i < s.len() && j < s.len() {
                assert(s[i] != s[j]);
            } else if i < s.len() {
                assert(s.contains(s[i]));
            } else {
                assert(s.contains(s[j]));
            }
        }
    }
}

/// Distance is symmetric, no item is nearer than itself, and none is farther than
/// half the way round.
pub proof fn distance_is_symmetric(a: int, b: int, count: int)
    requires
        0 <= a < count,
        0 <= b < count,
    ensures
        ring_distance(a, b, count) == ring_distance(b, a, count),
        ring_distance(a, b, count) == 0 <==> a == b,
        0 <= 2 * ring_distance(a, b, count) <= count,
{
    if a >= b {
        vstd::arithmetic::div_mod::lemma_small_mod((a - b) as nat, count as nat);
    } else {
        vstd::arithmetic::div_mod::lemma_small_mod((b - a) as nat, count as nat);
    }
    if a != b {
        let d = if a > b {
            a - b
        } else {
            b - a
        };
        vstd::arithmetic::div_mod::lemma_small_mod((count - d) as nat, count as nat);
        vstd::arithmetic::div_mod::lemma_mod_add_multiples_vanish(-d, count);
        assert((count - d) % count == (-d) % count);
    }
}

/// A window lists, once each, exactly the other places that lie at most `fwd`
/// steps ahead or `bwd` steps behind.
pub proof fn window_covers_reach(cur: int, count: int, fwd: int, bwd: int)
    requires
        0 <= cur < count,
        0 <= fwd,
        0 <= bwd,
    ensures
        window(cur, count, fwd, bwd).no_duplicates(),
        forall|i: int| #[trigger]
            window(cur, count, fwd, bwd).contains(i) <==> 0 <= i < count && i != cur && (steps(
                cur,
                i,
                count,
            ) <= fwd || steps(i, cur, count) <= bwd),
{
    let reach = window_reach(count, fwd, bwd);
    window_members(cur, count, fwd, bwd, reach);
    assert forall|i: int| 0 <= i < count && i != cur implies steps(cur, i, count) <= count - 1
        && steps(i, cur, count) <= count - 1 by {
        steps_in_ring(cur, i, count);
        steps_in_ring(i, cur, count);
    }
}

/// Everything that a window lists is near enough to be still worth working on,
/// and a window with equal reach both ways lists everything that near.
pub proof fn window_is_near(cur: int, count: int, fwd: int, bwd: int, i: int)
    requires
        0 <= cur < count,
        0 <= fwd,
        0 <= bwd,
        0 <= i < count,
    ensures
        window(cur, count, fwd, bwd).contains(i) ==> ring_distance(i, cur, count) <= (if fwd
            >= bwd {
            fwd
        } else {
            bwd
        }),
        fwd == bwd ==> (window(cur, count, fwd, bwd).contains(i) <==> i != cur && ring_distance(
            i,
            cur,
            count,
        ) <= fwd),
        ring_distance(cur, cur, count) == 0,
        ring_distance(i, cur, count) == ring_distance(cur, i, count),
        2 * ring_distance(i, cur, count) <= count,
{
    window_covers_reach(cur, count, fwd, bwd);
    steps_in_ring(cur, i, count);
    steps_in_ring(i, cur, count);
    steps_in_ring(cur, cur, count);
}

/// The distance of two places in the browsing list, the shorter way round.
pub fn circular_dist(idx: usize, cur: usize, count: usize) -> (r: usize)
    requires
        count > 0 ==> cur <= idx + count <= usize::MAX && idx <= cur + count <= usize::MAX,
    ensures
        r == ring_distance(idx as int, cur as int, count as int),
{
    if count == 0 {
        return usize::MAX;
    }
    let fwd: usize = (idx + count - cur) % count;
    let bwd: usize = (cur + count - idx) % count;
    proof {
        mod_shift(idx - cur, count as int);
        mod_shift(cur - idx, count as int);
    }
    if fwd <= bwd {
        fwd
    } else {
        bwd
    }
}

/// The places around `cur` to prepare, in order of urgency: `fwd` steps ahead
/// and `bwd` steps behind, in turn.
pub fn window_indices(cur: usize, count: usize, fwd: usize, bwd: usize) -> (r: Vec<usize>)
    requires
        cur + count <= usize::MAX,
    ensures
        places(r@) == window(cur as int, count as int, fwd as int, bwd as int),
{
    let mut result: Vec<usize> = Vec::new();
    let mut seen: HashSet<usize> = HashSet::new();
    let far: usize = if fwd >= bwd {
        fwd
    } else {
        bwd
    };
    let max: usize = if count == 0 {
        0
    } else if far <= count - 1 {
        far
    } else {
        count - 1
    };
    assert(max == window_reach(count as int, fwd as int, bwd as int));
    let mut offset: usize = 0;
    assert(places(result@) =~= Seq::<int>::empty());
    assert(seen@ =~= result@.to_set());
    while offset < max
        invariant
            offset <= max,
            max < count || max == 0,
            cur + count <= usize::MAX,
            places(result@) == ring_window(
                cur as int,
                count as int,
                fwd as int,
                bwd as int,
                offset as nat,
            ),
            seen@ == result@.to_set(),
        decreases max - offset,
    {
        offset = offset + 1;
        if offset <= fwd {
            let idx: usize = (cur + offset) % count;
            take_new(&mut result, &mut seen, idx);
        }
        if offset <= bwd {
            let idx: usize = (cur + count - offset) % count;
            proof {
                mod_shift(cur - offset, count as int);
            }
            take_new(&mut result, &mut seen, idx);
        }
    }
    result
}

/// Append `idx` unless it has been seen.
fn take_new(result: &mut Vec<usize>, seen: &mut HashSet<usize>, idx: usize)
    requires
        old(seen)@ == old(result)@.to_set(),
    ensures
        final(seen)@ == final(result)@.to_set(),
        places(final(result)@) == push_new(places(old(result)@), idx as int),
{
    let ghost before = result@;
    assert(before.to_set().contains(idx) <==> places(before).contains(idx as int)) by {
        if before.contains(idx) {
            let j = choose|j: int| 0 <= j < before.len() && before[j] == idx;
            assert(places(before)[j] == idx as int);
        }
        if places(before).contains(idx as int) {
            let j = choose|j: int| 0 <= j < before.len() && places(before)[j] == idx as int;
            assert(before[j] == idx);
        }
    }
    if seen.insert(idx) {
        result.push(idx);
        assert(places(result@) =~= places(before).push(idx as int));
        assert(result@.to_set() =~= before.to_set().insert(idx)) by {
            assert forall|x: usize| result@.contains(x) <==> before.contains(x) || x == idx by {
                if before.contains(x) {
                    let j = choose|j: int| 0 <= j < before.len() && before[j] == x;
                    assert(result@[j] == x);
                }
                if x == idx {
                    assert(result@[before.len() as int] == x);
                }
                if result@.contains(x) {
                    let j = choose|j: int| 0 <= j < result@.len() && result@[j] == x;
                    if j < before.len() {
                        assert(before[j] == x);
                    }
                }
            }
        }
    } else {
        assert(seen@ =~= before.to_set());
    }
}

/// True while `idx` is still close enough to the item on screen to be worth
/// working on; lets running work bail out when the viewer has moved far away.
pub fn still_relevant(idx: usize, cur: usize, count: usize, max_dist: usize) -> (r: bool)
    requires
        count > 0 ==> cur <= idx + count <= usize::MAX && idx <= cur + count <= usize::MAX,
    ensures
        r == (ring_distance(idx as int, cur as int, count as int) <= max_dist),
{
    circular_dist(idx, cur, count) <= max_dist
}

/// Going round a ring: forward from `a` to `b` it is their difference, or that and once
/// round.
pub proof fn steps_go_round(a: int, b: int, count: int)
    requires
        0 <= a < count,
        0 <= b < count,
    ensures
        a <= b ==> steps(a, b, count) == b - a,
        a > b ==> steps(a, b, count) == b - a + count,
{
    steps_in_ring(a, b, count);
}

/// The distance of two places is their difference, or what is left of the ring, whichever
/// is shorter.
pub proof fn distance_is_the_shorter_way(a: int, b: int, count: int)
    requires
        0 <= a < count,
        0 <= b < count,
    ensures
        ({
            let apart = if a <= b {
                b - a
            } else {
                a - b
            };
            &&& ring_distance(a, b, count) <= apart
            &&& ring_distance(a, b, count) <= count - apart
            &&& ring_distance(a, b, count) == apart || ring_distance(a, b, count) == count - apart
        }),
{
    steps_in_ring(a, b, count);
    steps_in_ring(b, a, count);
}

/// In an empty list nothing is near anything.
pub proof fn nothing_is_near_in_an_empty_list(a: int, b: int)
    ensures
        ring_distance(a, b, 0) == usize::MAX,
{
}

/// A window begins with the next place, where it reaches ahead at all; the place before
/// is the second, or the first of a window that only reaches back.
pub proof fn window_begins_with_the_neighbors(cur: int, count: int, fwd: int, bwd: int)
    requires
        0 <= cur < count,
        count >= 2,
        0 <= fwd,
        0 <= bwd,
    ensures
        fwd > 0 ==> window(cur, count, fwd, bwd).len() > 0 && window(cur, count, fwd, bwd)[0] == (
        if cur + 1 < count {
            cur + 1
        } else {
            0
        }),
        fwd > 0 && bwd > 0 && count >= 3 ==> window(cur, count, fwd, bwd).len() > 1 && window(
            cur,
            count,
            fwd,
            bwd,
        )[1] == (if cur > 0 {
            cur - 1
        } else {
            count - 1
        }),
        fwd == 0 && bwd > 0 ==> window(cur, count, fwd, bwd).len() > 0 && window(
            cur,
            count,
            fwd,
            bwd,
        )[0] == (if cur > 0 {
            cur - 1
        } else {
            count - 1
        }),
{
    step_in_ring(cur, 1, count);
    let reach = window_reach(count, fwd, bwd);
    if reach > 0 {
        reveal_with_fuel(ring_window, 2);
        let first = ring_window(cur, count, fwd, bwd, 1);
        let none = ring_window(cur, count, fwd, bwd, 0);
        assert(none.len() == 0);
        window_grows(cur, count, fwd, bwd, 1, reach);
    }
}

/// A wider window begins with the narrower one.
proof fn window_grows(cur: int, count: int, fwd: int, bwd: int, less: nat, more: nat)
    requires
        less <= more,
    ensures
        ring_window(cur, count, fwd, bwd, less).len() <= ring_window(
            cur,
            count,
            fwd,
            bwd,
            more,
        ).len(),
        forall|j: int|
            0 <= j < ring_window(cur, count, fwd, bwd, less).len() ==> #[trigger] ring_window(
                cur,
                count,
                fwd,
                bwd,
                more,
            )[j] == ring_window(cur, count, fwd, bwd, less)[j],
    decreases more,
{
    if less < more {
        window_grows(cur, count, fwd, bwd, less, (more - 1) as nat);
    }
}

/// A window is ordered by urgency: where it does not reach half the way round, a nearer
/// place comes before a farther one, and of two equally near ones the one ahead.
pub proof fn nearer_places_come_first(cur: int, count: int, fwd: int, bwd: int, j: int, k: int)
    requires
        0 <= cur < count,
        0 <= fwd,
        0 <= bwd,
        2 * fwd < count,
        2 * bwd < count,
        0 <= j < k < window(cur, count, fwd, bwd).len(),
    ensures
        ({
            let near = window(cur, count, fwd, bwd)[j];
            let far = window(cur, count, fwd, bwd)[k];
            &&& ring_distance(near, cur, count) <= ring_distance(far, cur, count)
            &&& ring_distance(near, cur, count) == ring_distance(far, cur, count) ==> steps(
                cur,
                near,
                count,
            ) == ring_distance(near, cur, count)
        }),
{
    let reach = window_reach(count, fwd, bwd);
    window_is_ordered(cur, count, fwd, bwd, reach, j, k);
}

proof fn window_is_ordered(
    cur: int,
    count: int,
    fwd: int,
    bwd: int,
    reach: nat,
    j: int,
    k: int,
)
    requires
        0 <= cur < count,
        0 <= fwd,
        0 <= bwd,
        2 * fwd < count,
        2 * bwd < count,
        reach < count,
        0 <= j < k < ring_window(cur, count, fwd, bwd, reach).len(),
    ensures
        ({
            let near = ring_window(cur, count, fwd, bwd, reach)[j];
            let far = ring_window(cur, count, fwd, bwd, reach)[k];
            &&& ring_distance(near, cur, count) <= ring_distance(far, cur, count)
            &&& ring_distance(near, cur, count) == ring_distance(far, cur, count) ==> steps(
                cur,
                near,
                count,
            ) == ring_distance(near, cur, count)
        }),
    decreases reach,
{
    if reach > 0 {
        let prev = (reach - 1) as nat;
        let inner = ring_window(cur, count, fwd, bwd, prev);
        let w = ring_window(cur, count, fwd, bwd, reach);
        step_in_ring(cur, reach as int, count);
        let f = (cur + reach) % count;
        let b = (cur - reach) % count;
        steps_in_ring(cur, f, count);
        steps_in_ring(f, cur, count);
        steps_in_ring(cur, b, count);
        steps_in_ring(b, cur, count);
        if k < inner.len() {
            window_is_ordered(cur, count, fwd, bwd, prev, j, k);
            assert(w[j] == inner[j] && w[k] == inner[k]);
        } else {
            assert(w[k] == f || w[k] == b);
            if j < inner.len() {
                assert(w[j] == inner[j]);
                window_members(cur, count, fwd, bwd, prev);
                assert(inner.contains(inner[j]));
                steps_in_ring(cur, inner[j], count);
                steps_in_ring(inner[j], cur, count);
            } else {
                assert(w[j] == f);
            }
        }
    }
}

} // verus!
