//! What a bus clear does to the lines, told event by event.

use vstd::prelude::*;

use crate::bus_clear::{
    clear_ran, clear_ran_on, clocked, clocking_ran, pulse_begun, pulsed, scl_seen_low, scl_waited, stop_begun, stop_ran,
    BusClearError, BusLines, LineEvent, Lines, CLEAR_PULSES, HALF_PERIOD_US, SCL_RISE_POLLS,
};
use crate::unwired::Unwired;

verus! {

/// The lines are given what the history says, and the history holds what they
/// read: lines that keep a record of their own end up with the same one.
pub proof fn the_lines_are_given_what_the_history_says(
    before: Lines<Unwired>,
    event: LineEvent,
    after: Lines<Unwired>,
)
    requires
        after.log() == before.log().push(event),
        <Unwired as BusLines>::lines_ran(&before.held(), event, &after.held()),
        before.held().lines() == before.log(),
    ensures
        after.held().lines() == after.log(),
{
}

/// A wait for SCL looks until it is high, a half period apart, and gives up
/// when a thousand looks have found it low.
pub proof fn a_wait_for_scl_takes_a_thousand_looks(before: Seq<LineEvent>, after: Seq<LineEvent>, r: bool, k: int)
    requires
        scl_waited(before, after, r),
        before.len() <= k < after.len(),
    ensures
        !r ==> after.len() == before.len() + 2 * 1_000,
        r ==> after.len() < before.len() + 2 * 1_000,
        r ==> after.last() == LineEvent::Scl(true),
        (k - before.len()) % 2 == 0 && (r ==> k < after.len() - 1) ==> after[k] == LineEvent::Scl(false),
        (k - before.len()) % 2 == 1 ==> after[k] == LineEvent::Delay(5),
{
    let half = (k - before.len()) / 2;
    let log = if r {
        after.drop_last()
    } else {
        after
    };
    if k < log.len() {
        assert(after[k] == log[k]);
        assert(log[before.len() + 2 * half] == LineEvent::Scl(false));
    }
}

/// A clock keeps the timing of standard mode: SCL is low for at least 4.7
/// microseconds and, once it was seen high, high for at least 4.0.
pub proof fn a_clock_keeps_standard_mode_timing(before: Seq<LineEvent>, after: Seq<LineEvent>, level: bool)
    requires
        pulsed(before, after, Some(level)),
    ensures
        ({
            let b = before.len() as int;
            let n = after.len() as int;
            &&& n >= b + 6
            &&& after[b] == LineEvent::LowScl
            &&& after[b + 1] matches LineEvent::Delay(us) && 10 * us >= 47
            &&& after[b + 2] == LineEvent::ReleaseScl
            &&& after[n - 3] == LineEvent::Scl(true)
            &&& after[n - 2] matches LineEvent::Delay(us) && 10 * us >= 40
            &&& after[n - 1] == LineEvent::Sda(level)
        }),
{
    let b = before.len() as int;
    let n = after.len() as int;
    let risen = after.take(n - 2);
    let begun = pulse_begun(before);
    let low = risen.drop_last();
    assert(begun.len() == b + 3);
    assert(low[b] == begun[b] && low[b + 1] == begun[b + 1] && low[b + 2] == begun[b + 2]);
    assert(after[b] == risen[b] && after[b + 1] == risen[b + 1] && after[b + 2] == risen[b + 2]);
    assert(after[n - 3] == risen.last());
}

/// A STOP is SDA rising while SCL is high: SDA is pulled low while SCL is, SCL
/// is seen high, and only then is SDA let go. It succeeds where SDA rises.
pub proof fn a_stop_raises_sda_while_scl_is_high(
    before: Seq<LineEvent>,
    after: Seq<LineEvent>,
    r: Result<(), BusClearError>,
)
    requires
        stop_ran(before, after, r),
    ensures
        ({
            let b = before.len() as int;
            let n = after.len() as int;
            &&& n >= b + 5
            &&& after[b] == LineEvent::LowScl
            &&& after[b + 1] matches LineEvent::Delay(us) && 10 * us >= 47
            &&& after[b + 2] == LineEvent::LowSda
            &&& after[b + 3] is Delay
            &&& after[b + 4] == LineEvent::ReleaseScl
            &&& r != Err::<(), BusClearError>(BusClearError::SclHeldLow) ==> {
                &&& n >= b + 10
                &&& after[n - 5] == LineEvent::Scl(true)
                &&& after[n - 4] matches LineEvent::Delay(us) && 10 * us >= 40
                &&& after[n - 3] == LineEvent::ReleaseSda
                &&& after[n - 2] matches LineEvent::Delay(us) && 10 * us >= 47
                &&& after[n - 1] is Sda
                &&& r == Ok::<(), BusClearError>(()) <==> after[n - 1] == LineEvent::Sda(true)
                &&& r == Err::<(), BusClearError>(BusClearError::SdaHeldLow) <==> after[n - 1] == LineEvent::Sda(false)
            }
        }),
{
    let b = before.len() as int;
    let n = after.len() as int;
    let begun = stop_begun(before);
    assert(begun.len() == b + 5);
    if r == Err::<(), BusClearError>(BusClearError::SclHeldLow) {
        assert(after[b] == begun[b] && after[b + 1] == begun[b + 1] && after[b + 2] == begun[b + 2]);
        assert(after[b + 3] == begun[b + 3] && after[b + 4] == begun[b + 4]);
    } else {
        let risen = after.take(n - 4);
        let low = risen.drop_last();
        assert(low[b] == begun[b] && low[b + 1] == begun[b + 1] && low[b + 2] == begun[b + 2]);
        assert(low[b + 3] == begun[b + 3] && low[b + 4] == begun[b + 4]);
        assert(after[b] == risen[b] && after[b + 1] == risen[b + 1] && after[b + 2] == risen[b + 2]);
        assert(after[b + 3] == risen[b + 3] && after[b + 4] == risen[b + 4]);
        assert(after[n - 5] == risen.last());
    }
}

/// How often SCL was pulled low.
pub open spec fn pulls(log: Seq<LineEvent>) -> int
    decreases log.len(),
{
    if log.len() == 0 {
        0
    } else {
        pulls(log.drop_last()) + if log.last() is LowScl {
            1int
        } else {
            0int
        }
    }
}

proof fn lemma_pulls_push(log: Seq<LineEvent>, event: LineEvent)
    ensures
        pulls(log.push(event)) == pulls(log) + if event is LowScl {
            1int
        } else {
            0int
        },
{
    assert(log.push(event).drop_last() =~= log);
}

proof fn lemma_waiting_pulls_nothing(before: Seq<LineEvent>, log: Seq<LineEvent>, looks: int)
    requires
        scl_seen_low(before, log, looks),
        0 <= looks,
    ensures
        pulls(log) == pulls(before),
    decreases looks,
{
    if looks == 0 {
        assert(log =~= before);
    } else {
        let one = log.drop_last();
        let two = one.drop_last();
        let k = looks - 1;
        assert(log[before.len() + 2 * k] == LineEvent::Scl(false));
        assert(scl_seen_low(before, two, k)) by {
            assert forall|k: int|
                #![trigger two[before.len() + 2 * k]]
                0 <= k < looks - 1 implies two[before.len() + 2 * k] == LineEvent::Scl(false) && two[before.len() + 2
                * k + 1] == LineEvent::Delay(HALF_PERIOD_US) by {
                assert(log[before.len() + 2 * k] == LineEvent::Scl(false));
            }
        }
        lemma_waiting_pulls_nothing(before, two, k);
        assert(one =~= two.push(log[before.len() + 2 * k]));
        assert(log =~= one.push(log[before.len() + 2 * k + 1]));
        lemma_pulls_push(two, log[before.len() + 2 * k]);
        lemma_pulls_push(one, log[before.len() + 2 * k + 1]);
    }
}

proof fn lemma_wait_pulls_nothing(before: Seq<LineEvent>, after: Seq<LineEvent>, r: bool)
    requires
        scl_waited(before, after, r),
    ensures
        pulls(after) == pulls(before),
{
    if r {
        let looks = (after.len() - 1 - before.len()) / 2;
        lemma_waiting_pulls_nothing(before, after.drop_last(), looks);
        assert(after =~= after.drop_last().push(after.last()));
        lemma_pulls_push(after.drop_last(), after.last());
    } else {
        lemma_waiting_pulls_nothing(before, after, SCL_RISE_POLLS as int);
    }
}

proof fn lemma_pulse_pulls_once(before: Seq<LineEvent>, after: Seq<LineEvent>, r: Option<bool>)
    requires
        pulsed(before, after, r),
    ensures
        pulls(after) == pulls(before) + 1,
{
    let one = before.push(LineEvent::LowScl);
    let two = one.push(LineEvent::Delay(HALF_PERIOD_US));
    lemma_pulls_push(before, LineEvent::LowScl);
    lemma_pulls_push(one, LineEvent::Delay(HALF_PERIOD_US));
    lemma_pulls_push(two, LineEvent::ReleaseScl);
    match r {
        None => {
            lemma_wait_pulls_nothing(pulse_begun(before), after, false);
        },
        Some(level) => {
            let risen = after.take(after.len() - 2);
            lemma_wait_pulls_nothing(pulse_begun(before), risen, true);
            let held = risen.push(LineEvent::Delay(HALF_PERIOD_US));
            lemma_pulls_push(risen, LineEvent::Delay(HALF_PERIOD_US));
            lemma_pulls_push(held, LineEvent::Sda(level));
        },
    }
}

proof fn lemma_clocked_pulls(before: Seq<LineEvent>, after: Seq<LineEvent>, count: nat)
    requires
        clocked(before, after, count),
    ensures
        pulls(after) == pulls(before) + count,
    decreases count,
{
    if count > 0 {
        let mid = choose|mid: Seq<LineEvent>|
            clocked(before, mid, (count - 1) as nat) && #[trigger] pulsed(mid, after, Some(false));
        lemma_clocked_pulls(before, mid, (count - 1) as nat);
        lemma_pulse_pulls_once(mid, after, Some(false));
    }
}

/// A bus clear clocks a stuck bus at most nine times, and once more for its
/// STOP.
pub proof fn a_bus_clear_clocks_nine_times_at_most(
    before: Seq<LineEvent>,
    after: Seq<LineEvent>,
    r: Result<(), BusClearError>,
)
    requires
        clear_ran(before, after, r),
    ensures
        pulls(before) <= pulls(after) <= pulls(before) + 10,
{
    let one = before.push(LineEvent::ReleaseScl);
    let released = one.push(LineEvent::ReleaseSda);
    lemma_pulls_push(before, LineEvent::ReleaseScl);
    lemma_pulls_push(one, LineEvent::ReleaseSda);
    if scl_waited(released, after, false) && r == Err::<(), BusClearError>(BusClearError::SclHeldLow) {
        lemma_wait_pulls_nothing(released, after, false);
    } else {
        let free = choose|free: Seq<LineEvent>| #[trigger]
            scl_waited(released, free, true) && clear_ran_on(free, after, r);
        lemma_wait_pulls_nothing(released, free, true);
        lemma_pulls_push(free, LineEvent::Sda(true));
        lemma_pulls_push(free, LineEvent::Sda(false));
        let stuck = free.push(LineEvent::Sda(false));
        if clocking_ran(stuck, after, false) && r == Err::<(), BusClearError>(BusClearError::SclHeldLow) {
            lemma_clocking_pulls(stuck, after, false);
        } else if after != free.push(LineEvent::Sda(true)) || r is Err {
            let done = choose|done: Seq<LineEvent>|
                {
                    &&& #[trigger] clocking_ran(stuck, done, true)
                    &&& {
                        ||| after == done.push(LineEvent::Sda(false)) && r == Err::<(), BusClearError>(
                            BusClearError::SdaHeldLow,
                        )
                        ||| stop_ran(done.push(LineEvent::Sda(true)), after, r)
                    }
                };
            lemma_clocking_pulls(stuck, done, true);
            lemma_pulls_push(done, LineEvent::Sda(false));
            lemma_pulls_push(done, LineEvent::Sda(true));
            if stop_ran(done.push(LineEvent::Sda(true)), after, r) {
                lemma_stop_pulls_once(done.push(LineEvent::Sda(true)), after, r);
            }
        }
    }
}

proof fn lemma_clocking_pulls(before: Seq<LineEvent>, after: Seq<LineEvent>, risen: bool)
    requires
        clocking_ran(before, after, risen),
    ensures
        pulls(before) + 1 <= pulls(after) <= pulls(before) + 9,
{
    let most = CLEAR_PULSES as nat;
    if risen && clocked(before, after, most) {
        lemma_clocked_pulls(before, after, most);
    } else {
        let last = if risen {
            Some(true)
        } else {
            None::<bool>
        };
        let (mid, count) = choose|mid: Seq<LineEvent>, count: nat|
            #[trigger] clocked(before, mid, count) && count < most && pulsed(mid, after, last);
        lemma_clocked_pulls(before, mid, count);
        lemma_pulse_pulls_once(mid, after, last);
    }
}

proof fn lemma_stop_pulls_once(before: Seq<LineEvent>, after: Seq<LineEvent>, r: Result<(), BusClearError>)
    requires
        stop_ran(before, after, r),
    ensures
        pulls(after) == pulls(before) + 1,
{
    let wait = LineEvent::Delay(HALF_PERIOD_US);
    let one = before.push(LineEvent::LowScl);
    let two = one.push(wait);
    let three = two.push(LineEvent::LowSda);
    let four = three.push(wait);
    lemma_pulls_push(before, LineEvent::LowScl);
    lemma_pulls_push(one, wait);
    lemma_pulls_push(two, LineEvent::LowSda);
    lemma_pulls_push(three, wait);
    lemma_pulls_push(four, LineEvent::ReleaseScl);
    if r == Err::<(), BusClearError>(BusClearError::SclHeldLow) && scl_waited(stop_begun(before), after, false) {
        lemma_wait_pulls_nothing(stop_begun(before), after, false);
    } else {
        let risen = after.take(after.len() - 4);
        lemma_wait_pulls_nothing(stop_begun(before), risen, true);
        let a = risen.push(wait);
        let b = a.push(LineEvent::ReleaseSda);
        let c = b.push(wait);
        lemma_pulls_push(risen, wait);
        lemma_pulls_push(a, LineEvent::ReleaseSda);
        lemma_pulls_push(b, wait);
        lemma_pulls_push(c, after.last());
    }
}

/// A bus that is given up because SDA stays low was clocked nine times, unless
/// SDA was seen high and fell back, before its STOP or behind it.
pub proof fn sda_is_given_nine_clocks(before: Seq<LineEvent>, after: Seq<LineEvent>)
    requires
        clear_ran(before, after, Err(BusClearError::SdaHeldLow)),
    ensures
        ({
            let n = after.len() as int;
            ||| pulls(after) == pulls(before) + 9
            ||| n > 1 && after[n - 2] == LineEvent::Sda(true)
            ||| n > 2 && after[n - 3] is ReleaseSda
        }),
{
    let r = Err::<(), BusClearError>(BusClearError::SdaHeldLow);
    let one = before.push(LineEvent::ReleaseScl);
    let released = one.push(LineEvent::ReleaseSda);
    lemma_pulls_push(before, LineEvent::ReleaseScl);
    lemma_pulls_push(one, LineEvent::ReleaseSda);
    let free = choose|free: Seq<LineEvent>| #[trigger]
        scl_waited(released, free, true) && clear_ran_on(free, after, r);
    lemma_wait_pulls_nothing(released, free, true);
    let stuck = free.push(LineEvent::Sda(false));
    lemma_pulls_push(free, LineEvent::Sda(false));
    let done = choose|done: Seq<LineEvent>|
        {
            &&& #[trigger] clocking_ran(stuck, done, true)
            &&& {
                ||| after == done.push(LineEvent::Sda(false)) && r == Err::<(), BusClearError>(
                    BusClearError::SdaHeldLow,
                )
                ||| stop_ran(done.push(LineEvent::Sda(true)), after, r)
            }
        };
    lemma_pulls_push(done, LineEvent::Sda(false));
    if !stop_ran(done.push(LineEvent::Sda(true)), after, r) {
        if clocked(stuck, done, CLEAR_PULSES as nat) {
            lemma_clocked_pulls(stuck, done, CLEAR_PULSES as nat);
        } else {
            let (mid, count) = choose|mid: Seq<LineEvent>, count: nat|
                #[trigger] clocked(stuck, mid, count) && count < CLEAR_PULSES && pulsed(
                    mid,
                    done,
                    Some(true),
                );
            assert(done.last() == LineEvent::Sda(true));
        }
    }
}

} // verus!
