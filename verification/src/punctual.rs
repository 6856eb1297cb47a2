//! How a polled transfer keeps to its budget: what it waits for is looked for
//! under a running clock, the clock is read behind every look that found it
//! missing, and a tick past the budget ends the transfer.

use vstd::prelude::*;

use crate::answers::{owed, Owed};
use crate::controller_registers::{
    enqueue_ran, final_status_ran, rx_step_ran, start_drain_ran, stop_poll_ran, CommandStep, RxStep,
    StartDrainStep, StopVerdict,
};
use crate::lpi2c_regs::Access;
use crate::session::{lemma_closing_words, recovered, taken_over};
use crate::ticks::deadline;
use crate::trace::{commands, extends, lemma_recoveries_grow, recoveries};
use crate::transfer::{empty_at, full_at, last_is, pending_at};
use crate::words::{ControllerCommand, Mtdr};

verus! {

broadcast use {crate::answers::lemma_owed_push, crate::trace::group_trace};

/// Where the clock of a polled transfer stands.
pub ghost enum Clock {
    /// It does not run.
    Off,
    /// It runs since this tick, and nothing was found missing since.
    On(u64),
    /// It runs since this tick. A look found what is waited for missing, and
    /// the clock was not read since.
    Unchecked(u64),
    /// As above, and the clock was read since, within the budget.
    Checked(u64),
    /// It runs since this tick, and a look found no room for a command behind
    /// a RECEIVE: either that command waits, or the data is looked for first.
    Held(u64),
    /// Something was waited for past the budget, or with no clock.
    Late,
    /// A recovery runs, which keeps a time of its own.
    Recovering,
}

/// The last entries of `log` are a look that found no room for a command
/// behind a RECEIVE.
pub open spec fn crowded(log: Seq<Access>) -> bool {
    full_at(log, log.len() as int) && last_is(log, ControllerCommand::Receive)
}

/// The last entries of `log` are a look that found what is waited for missing:
/// room for a command, but see [`crowded`], the end of a START or a STOP that
/// is owed, or data.
pub open spec fn missing(log: Seq<Access>) -> bool {
    let n = log.len() as int;
    ||| full_at(log, n) && !last_is(log, ControllerCommand::Receive)
    ||| pending_at(log, n) && owed(log) is Answer
    ||| empty_at(log, n)
}

/// Where the clock stands behind `log` once `a` follows. A byte, a command and
/// a status that is cleared end a wait; one more RECEIVE, which is queued
/// ahead of the data, does not.
pub open spec fn clock_next(log: Seq<Access>, state: Clock, a: Access, budget: u64) -> Clock {
    match a {
        Access::RecoveryBegin(_) => Clock::Recovering,
        Access::WriteMtdr(word) => match state {
            Clock::Late => state,
            Clock::Recovering => if word.cmd == ControllerCommand::Start {
                Clock::Off
            } else {
                state
            },
            _ => if word.cmd == ControllerCommand::Receive && last_is(log, ControllerCommand::Receive) {
                state
            } else {
                Clock::Off
            },
        },
        Access::ReadMrdr(_) | Access::WriteMsr(_) => match state {
            Clock::Late | Clock::Recovering => state,
            _ => Clock::Off,
        },
        Access::Now(tick) => match state {
            Clock::Off | Clock::On(_) => Clock::On(tick),
            Clock::Unchecked(start) | Clock::Checked(start) | Clock::Held(start) => if tick <= deadline(
                start,
                budget,
            ) {
                Clock::Checked(start)
            } else {
                Clock::Late
            },
            _ => state,
        },
        _ => if crowded(log.push(a)) {
            match state {
                Clock::On(start) | Clock::Checked(start) => Clock::Held(start),
                Clock::Recovering => state,
                _ => Clock::Late,
            }
        } else if missing(log.push(a)) {
            match state {
                Clock::On(start) | Clock::Checked(start) | Clock::Held(start) => Clock::Unchecked(start),
                Clock::Recovering => state,
                _ => Clock::Late,
            }
        } else {
            state
        },
    }
}

/// Where the clock of a transfer that began at `before` stands at `log`.
pub open spec fn clock(before: Seq<Access>, log: Seq<Access>, budget: u64) -> Clock
    decreases log.len(),
{
    if log.len() <= before.len() {
        Clock::Off
    } else {
        clock_next(log.drop_last(), clock(before, log.drop_last(), budget), log.last(), budget)
    }
}

/// A polled transfer came from `before` to `after`, and nothing that it waited
/// for was missing longer than its budget.
#[verifier::opaque]
pub open spec fn kept_time(before: Seq<Access>, after: Seq<Access>, budget: u64) -> bool {
    &&& extends(before, after)
    &&& clock(before, after, budget) is Off || clock(before, after, budget) is On
}

/// A wait that began with this tick goes on, within its budget.
#[verifier::opaque]
pub open spec fn waiting(before: Seq<Access>, log: Seq<Access>, start: u64, budget: u64) -> bool {
    &&& extends(before, log)
    &&& clock(before, log, budget) == Clock::On(start) || clock(before, log, budget) == Clock::Checked(start)
}

/// As [`waiting`], behind a look that found no room for one more RECEIVE.
#[verifier::opaque]
pub open spec fn held_up(before: Seq<Access>, log: Seq<Access>, start: u64, budget: u64) -> bool {
    &&& extends(before, log)
    &&& clock(before, log, budget) == Clock::Held(start)
}

pub proof fn lemma_clock_push(before: Seq<Access>, log: Seq<Access>, a: Access, budget: u64)
    requires
        before.len() <= log.len(),
    ensures
        clock(before, log.push(a), budget) == clock_next(log, clock(before, log, budget), a, budget),
{
    assert(log.push(a).drop_last() =~= log);
}

pub proof fn lemma_kept_nothing(before: Seq<Access>, budget: u64)
    ensures
        kept_time(before, before, budget),
{
    reveal(kept_time);
}

/// A wait begins.
pub proof fn lemma_wait_begins(before: Seq<Access>, log: Seq<Access>, start: u64, budget: u64)
    requires
        kept_time(before, log, budget),
    ensures
        waiting(before, log.push(Access::Now(start)), start, budget),
        kept_time(before, log.push(Access::Now(start)), budget),
{
    reveal(kept_time);
    reveal(waiting);
    lemma_clock_push(before, log, Access::Now(start), budget);
}

/// A command was tried: it went in, or there was no room, and the clock was
/// read within the budget.
pub proof fn lemma_command_tried(
    before: Seq<Access>,
    round: Seq<Access>,
    log: Seq<Access>,
    word: Mtdr,
    r: CommandStep,
    start: u64,
    budget: u64,
)
    requires
        waiting(before, round, start, budget) || kept_time(before, round, budget),
        enqueue_ran(round, log, word, r),
        !(r is Fault),
        owed(round) matches Owed::Answer(w) ==> w.cmd == ControllerCommand::Transmit,
        round.len() > 0 && round.last() is ReadMsr ==> !last_is(round, ControllerCommand::Receive),
    ensures
        r == CommandStep::Queued && !(word.cmd == ControllerCommand::Receive && last_is(
            round,
            ControllerCommand::Receive,
        )) ==> kept_time(before, log, budget),
        r == CommandStep::Queued && waiting(before, round, start, budget) && word.cmd == ControllerCommand::Receive
            && last_is(round, ControllerCommand::Receive) ==> waiting(before, log, start, budget),
        r == CommandStep::Full && waiting(before, round, start, budget) && last_is(round, ControllerCommand::Receive)
            ==> held_up(before, log, start, budget),
        r == CommandStep::Full && waiting(before, round, start, budget) ==> forall|now: u64|
            now <= deadline(start, budget) ==> #[trigger] waiting(before, log.push(Access::Now(now)), start, budget),
{
    reveal(kept_time);
    reveal(waiting);
    reveal(held_up);
    let status = log[round.len() as int];
    let fifo = log[round.len() as int + 1];
    let param = log[round.len() as int + 2];
    let one = round.push(status);
    let two = one.push(fifo);
    let three = two.push(param);
    lemma_clock_push(before, round, status, budget);
    lemma_clock_push(before, one, fifo, budget);
    lemma_clock_push(before, two, param, budget);
    lemma_clock_push(before, three, Access::WriteMtdr(word), budget);
    assert(!missing(one) && !crowded(one));
    assert(!missing(two) && !crowded(two));
    assert forall|now: u64|
        r == CommandStep::Full && waiting(before, round, start, budget) && now <= deadline(
            start,
            budget,
        ) implies #[trigger] waiting(before, log.push(Access::Now(now)), start, budget) by {
        lemma_clock_push(before, log, Access::Now(now), budget);
    }
}

/// A queued START was polled, and the clock was read within the budget where
/// it had not settled.
pub proof fn lemma_start_polled(
    before: Seq<Access>,
    round: Seq<Access>,
    log: Seq<Access>,
    r: StartDrainStep,
    start: u64,
    budget: u64,
)
    requires
        waiting(before, round, start, budget),
        start_drain_ran(round, log, r),
        last_is(round, ControllerCommand::Start),
        owed(round) matches Owed::Answer(w) && w.cmd == ControllerCommand::Start,
    ensures
        r is Drained ==> waiting(before, log, start, budget),
        r is Pending ==> forall|now: u64|
            now <= deadline(start, budget) ==> #[trigger] waiting(before, log.push(Access::Now(now)), start, budget),
{
    reveal(waiting);
    let status = log[round.len() as int];
    let fifo = log[round.len() as int + 1];
    let one = round.push(status);
    lemma_clock_push(before, round, status, budget);
    lemma_clock_push(before, one, fifo, budget);
    assert(!missing(one) && !crowded(one));
    assert forall|now: u64| r is Pending && now <= deadline(start, budget) implies #[trigger] waiting(
        before,
        log.push(Access::Now(now)),
        start,
        budget,
    ) by {
        lemma_clock_push(before, log, Access::Now(now), budget);
    }
}

/// A queued STOP was polled, and the clock was read within the budget where it
/// had not completed.
pub proof fn lemma_stop_polled(
    before: Seq<Access>,
    round: Seq<Access>,
    log: Seq<Access>,
    r: StopVerdict,
    start: u64,
    budget: u64,
)
    requires
        waiting(before, round, start, budget),
        stop_poll_ran(round, log, r),
        last_is(round, ControllerCommand::Stop),
        owed(round) matches Owed::Answer(w) && w.cmd == ControllerCommand::Stop,
    ensures
        r is Completed ==> waiting(before, log, start, budget),
        r is Pending ==> forall|now: u64|
            now <= deadline(start, budget) ==> #[trigger] waiting(before, log.push(Access::Now(now)), start, budget),
{
    reveal(waiting);
    let status = log[round.len() as int];
    let fifo = log[round.len() as int + 1];
    let one = round.push(status);
    lemma_clock_push(before, round, status, budget);
    lemma_clock_push(before, one, fifo, budget);
    assert(!missing(one) && !crowded(one));
    assert forall|now: u64| r is Pending && now <= deadline(start, budget) implies #[trigger] waiting(
        before,
        log.push(Access::Now(now)),
        start,
        budget,
    ) by {
        lemma_clock_push(before, log, Access::Now(now), budget);
    }
}

/// A clean final status ends a wait.
pub proof fn lemma_status_finished(
    before: Seq<Access>,
    round: Seq<Access>,
    log: Seq<Access>,
    start: u64,
    budget: u64,
)
    requires
        waiting(before, round, start, budget),
        final_status_ran(round, log, None),
        !last_is(round, ControllerCommand::Receive),
    ensures
        kept_time(before, log, budget),
{
    reveal(kept_time);
    reveal(waiting);
    let status = log[round.len() as int];
    let one = round.push(status);
    lemma_clock_push(before, round, status, budget);
    lemma_clock_push(before, one, log[round.len() as int + 1], budget);
    assert(!missing(one) && !crowded(one));
}

/// A look for data found a byte, which ends a wait, or none, and then the
/// clock was read within the budget.
pub proof fn lemma_data_looked_for(
    before: Seq<Access>,
    round: Seq<Access>,
    log: Seq<Access>,
    r: Option<RxStep>,
    start: u64,
    budget: u64,
)
    requires
        waiting(before, round, start, budget) || held_up(before, round, start, budget),
        rx_step_ran(round, log, r),
        last_is(round, ControllerCommand::Receive),
        owed(round) is Live,
    ensures
        r matches Some(RxStep::Byte(_)) ==> kept_time(before, log, budget),
        r is None ==> forall|now: u64|
            now <= deadline(start, budget) ==> #[trigger] waiting(before, log.push(Access::Now(now)), start, budget),
{
    reveal(kept_time);
    reveal(waiting);
    reveal(held_up);
    let one = round.push(log[round.len() as int]);
    let two = one.push(log[round.len() as int + 1]);
    lemma_clock_push(before, round, log[round.len() as int], budget);
    lemma_clock_push(before, one, log[round.len() as int + 1], budget);
    lemma_clock_push(before, two, log[round.len() as int + 2], budget);
    assert(!missing(one) && !crowded(one));
    if r is None {
        assert(!missing(two) && !crowded(two));
    }
    assert forall|now: u64| r is None && now <= deadline(start, budget) implies #[trigger] waiting(
        before,
        log.push(Access::Now(now)),
        start,
        budget,
    ) by {
        lemma_clock_push(before, log, Access::Now(now), budget);
    }
}

/// A wait that goes on keeps the time of a transfer from an earlier place too,
/// and so does what kept it.
proof fn lemma_clock_earlier(a: Seq<Access>, b: Seq<Access>, log: Seq<Access>, budget: u64)
    requires
        extends(a, b),
        extends(b, log),
        clock(a, b, budget) is Off || clock(a, b, budget) is On,
    ensures
        ({
            let (x, y) = (clock(a, log, budget), clock(b, log, budget));
            ||| x == y
            ||| y is Off && x is On
            ||| y is Late
        }),
    decreases log.len(),
{
    if log.len() == b.len() {
        assert(log =~= b);
    } else {
        let last = log.drop_last();
        lemma_clock_earlier(a, b, last, budget);
        assert(log =~= last.push(log.last()));
    }
}

pub proof fn lemma_kept_on(a: Seq<Access>, b: Seq<Access>, c: Seq<Access>, budget: u64)
    requires
        kept_time(a, b, budget),
        kept_time(b, c, budget),
    ensures
        kept_time(a, c, budget),
{
    reveal(kept_time);
    lemma_clock_earlier(a, b, c, budget);
}

/// The tick that a running clock counts from was read since `before`.
pub proof fn lemma_clock_began(before: Seq<Access>, log: Seq<Access>, budget: u64) -> (began: int)
    ensures
        match clock(before, log, budget) {
            Clock::On(start) | Clock::Unchecked(start) | Clock::Checked(start) | Clock::Held(start) => {
                &&& before.len() <= began < log.len()
                &&& log[began] == Access::Now(start)
            },
            _ => true,
        },
    decreases log.len(),
{
    if log.len() <= before.len() {
        0
    } else {
        let began = lemma_clock_began(before, log.drop_last(), budget);
        if clock(before, log, budget) is On && log.last() is Now {
            log.len() - 1
        } else {
            began
        }
    }
}

/// Without a recovery, what is late stays late, and nothing recovers.
pub proof fn lemma_clock_without_recovery(before: Seq<Access>, log: Seq<Access>, after: Seq<Access>, budget: u64)
    requires
        extends(before, log),
        extends(log, after),
        recoveries(after) == recoveries(before),
    ensures
        recoveries(log) == recoveries(before),
        !(clock(before, after, budget) is Recovering),
        clock(before, log, budget) is Late ==> clock(before, after, budget) is Late,
    decreases after.len(),
{
    if after.len() == before.len() {
        assert(after =~= before);
        assert(log =~= before);
    } else {
        let last = after.drop_last();
        assert(after =~= last.push(after.last()));
        lemma_recoveries_grow(before, last);
        if log.len() < after.len() {
            lemma_clock_without_recovery(before, log, last, budget);
        } else {
            assert(log =~= after);
            lemma_clock_without_recovery(before, last, last, budget);
        }
    }
}

/// Until the next START a recovery keeps its own time.
proof fn lemma_recovering(before: Seq<Access>, begun: Seq<Access>, log: Seq<Access>, budget: u64)
    requires
        before.len() < begun.len(),
        begun.last() is RecoveryBegin,
        extends(begun, log),
        forall|i: int|
            commands(begun).len() <= i < commands(log).len() ==> #[trigger] commands(log)[i].cmd
                != ControllerCommand::Start,
    ensures
        clock(before, log, budget) is Recovering,
        commands(begun).len() <= commands(log).len(),
    decreases log.len(),
{
    if log.len() == begun.len() {
        assert(log =~= begun);
    } else {
        let last = log.drop_last();
        assert(log =~= last.push(log.last()));
        assert forall|i: int| commands(begun).len() <= i < commands(last).len() implies #[trigger] commands(
            last,
        )[i].cmd != ControllerCommand::Start by {
            assert(commands(log)[i] == commands(last)[i]);
        }
        lemma_recovering(before, begun, last, budget);
        if let Access::WriteMtdr(word) = log.last() {
            assert(commands(log)[commands(last).len() as int] == word);
        }
    }
}

/// What keeps the time behind a recovery, from a START on, keeps it from before
/// that recovery on.
pub proof fn lemma_kept_behind_recovery(
    before: Seq<Access>,
    log: Seq<Access>,
    retry: Seq<Access>,
    after: Seq<Access>,
    word: Mtdr,
    may_clock: bool,
    budget: u64,
)
    requires
        extends(before, log),
        recovered(log, retry, may_clock),
        kept_time(retry, after, budget),
        commands(after).len() > commands(retry).len(),
        commands(after)[commands(retry).len() as int] == word,
        word.cmd == ControllerCommand::Start,
    ensures
        kept_time(before, after, budget),
{
    reveal(kept_time);
    let begun = taken_over(log, retry);
    lemma_closing_words(log, retry, may_clock);
    lemma_recovering(before, begun, retry, budget);
    lemma_past_recovery(before, retry, after, word, budget);
}

proof fn lemma_past_recovery(before: Seq<Access>, retry: Seq<Access>, log: Seq<Access>, word: Mtdr, budget: u64)
    requires
        before.len() <= retry.len(),
        extends(retry, log),
        clock(before, retry, budget) is Recovering,
        commands(log).len() > commands(retry).len() ==> commands(log)[commands(retry).len() as int] == word,
        word.cmd == ControllerCommand::Start,
    ensures
        commands(log).len() >= commands(retry).len(),
        commands(log).len() == commands(retry).len() ==> clock(before, log, budget) is Recovering,
        commands(log).len() > commands(retry).len() ==> ({
            ||| clock(before, log, budget) == clock(retry, log, budget)
            ||| clock(retry, log, budget) is Late
        }),
    decreases log.len(),
{
    if log.len() == retry.len() {
        assert(log =~= retry);
    } else {
        let last = log.drop_last();
        assert(log =~= last.push(log.last()));
        if commands(last).len() > commands(retry).len() {
            assert(commands(log)[commands(retry).len() as int] == commands(last)[commands(retry).len() as int]);
        }
        lemma_past_recovery(before, retry, last, word, budget);
        if let Access::WriteMtdr(pushed) = log.last() {
            if commands(last).len() == commands(retry).len() {
                assert(commands(log)[commands(retry).len() as int] == pushed);
            }
        }
    }
}

} // verus!
