//! The animation clock: which frame is shown when.

use vstd::prelude::*;

verus! {

/// The time that the first `n` frames take together.
pub open spec fn elapsed(delays: Seq<u64>, n: int) -> int
    decreases n,
{
    if n <= 0 {
        0
    } else {
        elapsed(delays, n - 1) + delays[n - 1]
    }
}

/// Whether there is anything to animate: two frames or more, and time to show
/// them.
pub open spec fn is_animated(delays: Seq<u64>) -> bool {
    delays.len() >= 2 && elapsed(delays, delays.len() as int) > 0
}

/// Whether frame `i` is the one shown at time `t` of an endless loop.
pub open spec fn shows(delays: Seq<u64>, t: int, i: int) -> bool {
    let within = t % elapsed(delays, delays.len() as int);
    0 <= i < delays.len() && elapsed(delays, i) <= within < elapsed(delays, i + 1)
}

proof fn elapsed_bounds(delays: Seq<u64>, n: int)
    requires
        0 <= n <= delays.len(),
    ensures
        0 <= elapsed(delays, n) <= n * u64::MAX,
    decreases n,
{
    if n > 0 {
        elapsed_bounds(delays, n - 1);
        assert(n * u64::MAX == (n - 1) * u64::MAX + u64::MAX) by (nonlinear_arith);
    }
}

proof fn elapsed_grows(delays: Seq<u64>, a: int, b: int)
    requires
        0 <= a <= b <= delays.len(),
    ensures
        elapsed(delays, a) <= elapsed(delays, b),
    decreases b,
{
    if a < b {
        elapsed_grows(delays, a, b - 1);
    }
}

/// At any time exactly one frame of an animation is shown.
pub proof fn one_frame_is_shown(delays: Seq<u64>, t: int, i: int, j: int)
    requires
        is_animated(delays),
        shows(delays, t, i),
        shows(delays, t, j),
    ensures
        i == j,
{
    if i < j {
        elapsed_grows(delays, i + 1, j);
    } else if j < i {
        elapsed_grows(delays, j + 1, i);
    }
}

/// An animation starts over after its last frame.
pub proof fn animation_repeats(delays: Seq<u64>, t: int, i: int)
    requires
        is_animated(delays),
    ensures
        shows(delays, t + elapsed(delays, delays.len() as int), i) == shows(delays, t, i),
{
    vstd::arithmetic::div_mod::lemma_mod_add_multiples_vanish(
        t,
        elapsed(delays, delays.len() as int),
    );
}

/// The frame to draw at time `t`, and the time until the next frame change, all
/// in milliseconds; a still never changes.
pub fn frame_at(delays: &Vec<u64>, t: u64) -> (r: (usize, Option<u64>))
    ensures
        is_animated(delays@) ==> shows(delays@, t as int, r.0 as int) && r.1 == Some(
            (elapsed(delays@, r.0 + 1) - t as int % elapsed(
                delays@,
                delays@.len() as int,
            )) as u64,
        ),
        !is_animated(delays@) ==> r.0 == 0 && r.1 is None,
{
    let n: usize = delays.len();
    let mut total: u128 = 0;
    for i in 0..n
        invariant
            n == delays@.len(),
            total == elapsed(delays@, i as int),
    {
        proof {
            elapsed_bounds(delays@, i as int);
            assert(i * u64::MAX + u64::MAX <= u64::MAX * u64::MAX + u64::MAX) by (nonlinear_arith)
                requires
                    i <= u64::MAX,
            ;
        }
        total = total + delays[i] as u128;
    }
    if n < 2 || total == 0 {
        return (0, None);
    }
    let mut left: u128 = t as u128 % total;
    let ghost within = t as int % elapsed(delays@, n as int);
    for i in 0..n
        invariant
            n == delays@.len(),
            within == elapsed(delays@, i as int) + left,
            0 <= within < elapsed(delays@, n as int),
            is_animated(delays@),
            within == t as int % elapsed(delays@, n as int),
    {
        let d: u64 = delays[i];
        assert(elapsed(delays@, i + 1) == elapsed(delays@, i as int) + d);
        if left < d as u128 {
            return (i, Some(d - left as u64));
        }
        left = left - d as u128;
    }
    (0, Some(delays[0]))
}

/// The numbers of a list, added up.
pub open spec fn sum(numbers: Seq<int>) -> int
    decreases numbers.len(),
{
    if numbers.len() == 0 {
        0
    } else {
        sum(numbers.drop_last()) + numbers.last()
    }
}

proof fn elapsed_is_sum(delays: Seq<u64>, n: int)
    requires
        0 <= n <= delays.len(),
    ensures
        elapsed(delays, n) == sum(delays.take(n).map_values(|d: u64| d as int)),
    decreases n,
{
    let now = delays.take(n).map_values(|d: u64| d as int);
    if n > 0 {
        elapsed_is_sum(delays, n - 1);
        assert(now.drop_last() =~= delays.take(n - 1).map_values(|d: u64| d as int));
    }
}

/// In every round of an animation, frame `i` is shown once the frames before it have
/// had their time, and for as long as its own delay: from the sum of the earlier delays
/// on, `delays[i]` milliseconds long. Two frames and some time are enough to animate.
pub proof fn frames_take_turns(delays: Seq<u64>, round: nat, i: int, within: int)
    requires
        delays.len() >= 2,
        0 <= i < delays.len(),
        0 <= within < delays[i],
    ensures
        is_animated(delays),
        ({
            let before = sum(delays.take(i).map_values(|d: u64| d as int));
            let whole = sum(delays.map_values(|d: u64| d as int));
            let t = round * whole + before + within;
            &&& shows(delays, t, i)
            &&& forall|j: int| shows(delays, t, j) ==> j == i
            &&& elapsed(delays, i + 1) - t % elapsed(delays, delays.len() as int) == delays[i]
                - within
        }),
{
    let n = delays.len() as int;
    let before = sum(delays.take(i).map_values(|d: u64| d as int));
    let whole = sum(delays.map_values(|d: u64| d as int));
    elapsed_is_sum(delays, i);
    elapsed_is_sum(delays, n);
    assert(delays.take(n) =~= delays);
    elapsed_grows(delays, i + 1, n);
    elapsed_bounds(delays, i);
    let t = round * whole + before + within;
    let rest = before + within;
    assert(0 <= rest < whole);
    assert(t == whole * round + rest) by (nonlinear_arith)
        requires
            t == round * whole + before + within,
            rest == before + within,
    ;
    vstd::arithmetic::div_mod::lemma_fundamental_div_mod_converse(t, whole, round as int, rest);
    assert forall|j: int| shows(delays, t, j) implies j == i by {
        one_frame_is_shown(delays, t, i, j);
    }
}

/// A single picture, or pictures without any time, are not animated.
pub proof fn stills_do_not_change(delays: Seq<u64>)
    requires
        delays.len() < 2 || forall|i: int| 0 <= i < delays.len() ==> delays[i] == 0,
    ensures
        !is_animated(delays),
{
    if delays.len() >= 2 {
        no_time_passes(delays, delays.len() as int);
    }
}

proof fn no_time_passes(delays: Seq<u64>, n: int)
    requires
        forall|i: int| 0 <= i < delays.len() ==> delays[i] == 0,
        0 <= n <= delays.len(),
    ensures
        elapsed(delays, n) == 0,
    decreases n,
{
    if n > 0 {
        no_time_passes(delays, n - 1);
    }
}

} // verus!
