//! What a recovery does to the bus and to the engine, word by word and look by
//! look.

use vstd::arithmetic::power2::pow2;
use vstd::prelude::*;

use crate::controller::dma_exchange::chain_refused;
use crate::controller::IOError;
use crate::controller_registers::{
    receive_word, rx_discarded, ControllerStatusError, HaltResolution, HaltedFault, RetainedFault,
};
use crate::lpi2c_regs::Access;
use crate::meaning::flags::{
    a_clean_slate_has_no_data_and_no_flag, a_read_takes_as_few_commands_as_can_be, clean,
    the_command_fifo_has_a_power_of_two_entries,
};
use crate::session::{
    abandoned, bound, close_tried, closes, command_tail, data_proved, drain_close_ran, drain_fault_ran,
    fault_action_ran, fault_captured, fault_cleared_before_session, recovered, recovery_step, recovery_steps,
    session_rx_ran, session_unwound, settled_looked, shape_in_force, shut_down, taken_over, unslated, unwinding_ran,
    unwound, Abort, Drain, DrainStep, FaultVerdict, PendingRecovery, SessionPhase, SessionRxStep, SessionView,
    Unwinding,
};
use crate::ticks::deadline;
use crate::trace::{commands, entry, extends, received};
use crate::wait::POLL_LIMIT;
use crate::words::{ControllerCommand, Mtdr};

verus! {

broadcast use crate::trace::group_trace;

// The words.

/// A STOP, or the question for one byte.
pub open spec fn lets_go(word: Mtdr) -> bool {
    ||| word.cmd == ControllerCommand::Stop
    ||| word.cmd == ControllerCommand::Receive && word.data == 0
}

proof fn lemma_closes(words: Seq<Mtdr>)
    requires
        closes(words),
    ensures
        forall|i: int| 0 <= i < words.len() ==> lets_go(#[trigger] words[i]),
        words.len() > 0 ==> words.last().cmd == ControllerCommand::Stop,
    decreases words.len(),
{
    if words.len() > 0 {
        let n = words.len() as int;
        let rest = if n >= 2 && words[n - 2] == receive_word(1) {
            words.drop_last().drop_last()
        } else {
            words.drop_last()
        };
        lemma_closes(rest);
        assert forall|i: int| 0 <= i < n implies lets_go(#[trigger] words[i]) by {
            if i < rest.len() {
                assert(words[i] == rest[i]);
            }
        }
    }
}

/// A recovery begins with taking the bus over, puts nothing on it but STOPs and
/// questions for one byte, with a STOP last, and takes back nothing that was
/// there. It ends with the controller shut down for a line held low, or with
/// both FIFOs reset and every flag cleared.
pub proof fn a_recovery_only_lets_go(before: Seq<Access>, after: Seq<Access>, may_clock: bool)
    requires
        recovered(before, after, may_clock),
    ensures
        extends(before, after),
        entry(before, after, 0) is RecoveryBegin,
        ({
            let words = commands(after);
            let m = commands(before).len() as int;
            let n = after.len() as int;
            &&& m <= words.len()
            &&& words.take(m) == commands(before)
            &&& forall|i: int| m <= i < words.len() ==> lets_go(#[trigger] words[i])
            &&& !may_clock ==> forall|i: int|
                m <= i < words.len() ==> (#[trigger] words[i]).cmd == ControllerCommand::Stop
            &&& words.len() > m ==> words.last().cmd == ControllerCommand::Stop
            &&& {
                ||| after[n - 1] is TerminatePinLow
                ||| after[n - 1] matches Access::ResolveHalt(_, _, _, HaltResolution::PinLowTerminated)
                ||| {
                    &&& after[n - 3] is ReadMcr
                    &&& after[n - 2] matches Access::WriteMcr(word) && word.rtf && word.rrf
                    &&& after[n - 1] matches Access::WriteMsr(word) && word.ndf && word.alf && word.fef && word.pltf
                        && word.sdf && word.epf
                }
            }
        }),
{
    let begun = taken_over(before, after);
    let tail = command_tail(begun, after);
    let m = commands(before).len() as int;
    let n = after.len() as int;
    assert(commands(begun) == commands(before));
    lemma_closes(tail);
    assert(commands(after).take(m) =~= commands(before));
    assert forall|i: int| m <= i < commands(after).len() implies lets_go(#[trigger] commands(after)[i]) by {
        assert(commands(after)[i] == tail[i - m]);
    }
    if !may_clock {
        assert forall|i: int| m <= i < commands(after).len() implies (#[trigger] commands(after)[i]).cmd
            == ControllerCommand::Stop by {
            assert(commands(after)[i] == tail[i - m]);
        }
    }
    assert(after[before.len() as int] == begun[before.len() as int]);
    if !shut_down(after) {
        a_clean_slate_has_no_data_and_no_flag(after.take(n - 3), after);
        assert(entry(after.take(n - 3), after, 0) == after[n - 3]);
        assert(entry(after.take(n - 3), after, 1) == after[n - 2]);
        assert(entry(after.take(n - 3), after, 2) == after[n - 1]);
    }
}

// The steps.

/// The entry at `i` is one that a recovery may have there. Its time is `timeout`
/// ticks, and ends at `end`.
pub open spec fn stays_within(log: Seq<Access>, i: int, timeout: u64, end: u64) -> bool {
    match log[i] {
        Access::ResolveHalt(_, budget, until, _) => budget == timeout && until == end,
        Access::TerminatePinLow => log[i - 1] matches Access::ReadMsr(saw) && saw.pltf && !saw.ndf && !saw.fef,
        Access::ResetEngine => log[i - 1] matches Access::Now(now) && (now > end || i >= POLL_LIMIT),
        Access::WriteMcr(word) => {
            &&& log[i - 1] matches Access::ReadMcr(was) && word.rest == was.rest
            &&& word.rtf
            &&& word.rrf
            &&& log[i - 2] matches Access::ReadMsr(saw) && !saw.mbf
        },
        Access::WriteMsr(word) => {
            ||| log[i - 1] is WriteMcr
            ||| {
                &&& log[i - 1] matches Access::ReadMsr(saw) && saw.alf && !saw.ndf && !saw.fef && !saw.pltf
                &&& word.alf
                &&& !word.ndf && !word.fef && !word.pltf && !word.sdf && !word.epf
            }
        },
        _ => true,
    }
}

proof fn lemma_step_at(
    start: int,
    log: Seq<Access>,
    timeout: u64,
    end: u64,
    known: Option<HaltedFault>,
    i: int,
)
    requires
        recovery_steps(start, log, timeout, end, known),
        0 <= start <= i < log.len(),
    ensures
        recovery_step(start, log.take(i), log[i], timeout, end, known),
    decreases log.len(),
{
    let rest = log.drop_last();
    if i < rest.len() {
        lemma_step_at(start, rest, timeout, end, known, i);
        assert(rest.take(i) =~= log.take(i));
    } else {
        assert(rest =~= log.take(i));
    }
}

/// Until it leaves its clean slate a recovery keeps to its time, which began
/// with its first tick: a halt is given the time that the recovery has, the
/// engine is reset only behind it, the controller is shut down only for a line
/// that was seen held low with nothing halted, and the FIFOs are dropped only
/// where the engine was seen idle. Of the flags a lost arbitration alone is
/// cleared on the way, where nothing else is set.
pub proof fn a_recovery_keeps_to_its_time(
    before: Seq<Access>,
    after: Seq<Access>,
    timeout: u64,
    origin: Unwinding,
    known: Option<HaltedFault>,
)
    requires
        unwinding_ran(before, after, timeout, origin, known),
    ensures
        ({
            let start = entry(before, after, 0)->Now_0;
            let end = if start + timeout > u64::MAX {
                u64::MAX
            } else {
                (start + timeout) as u64
            };
            forall|i: int|
                before.len() <= i < unslated(after).len() ==> #[trigger] stays_within(unslated(after), i, timeout, end)
        }),
{
    let start = entry(before, after, 0)->Now_0;
    let end = deadline(start, timeout);
    assert forall|i: int| before.len() <= i < unslated(after).len() implies #[trigger] stays_within(
        unslated(after),
        i,
        timeout,
        end,
    ) by {
        lemma_step_at(before.len() as int, unslated(after), timeout, end, known, i);
    }
}

// Faults.

/// A fault that is bound to a session leaves its owner and its time as they
/// were. Of the faults an arbitration loss alone is not kept; one that is kept
/// takes the place of one that was there. A halt has the session recover for
/// what had run by then, which for an address that was not acknowledged is
/// nothing, and without a halt the phase goes by the data that was seen.
pub proof fn a_bound_fault_is_kept(session: SessionView, data: bool, fault: ControllerStatusError)
    ensures
        ({
            let next = bound(session, data, fault);
            let noted = data && session.phase == SessionPhase::FirstReceivePending;
            &&& next.owner == session.owner
            &&& next.timeout == session.timeout
            &&& fault == ControllerStatusError::ArbitrationLoss ==> next.fault == session.fault
            &&& fault == ControllerStatusError::PinLowTimeout ==> next.fault == Some(RetainedFault::PinLowTimeout)
            &&& fault == ControllerStatusError::AddressNack || fault == ControllerStatusError::Fifo ==> (next.fault
                matches Some(RetainedFault::Halted(halt)) && halt.error == fault)
            &&& fault == ControllerStatusError::AddressNack ==> next.phase == SessionPhase::Stable(Abort::General)
            &&& fault == ControllerStatusError::Fifo && noted ==> next.phase == SessionPhase::Stable(
                Abort::ReadStreaming,
            )
            &&& fault == ControllerStatusError::Fifo && !noted ==> next.phase == SessionPhase::Stable(
                session.phase.halt_shape(),
            )
            &&& !(next.fault matches Some(RetainedFault::Halted(_))) && noted ==> next.phase == SessionPhase::Stable(
                Abort::ReadStreaming,
            )
            &&& !(next.fault matches Some(RetainedFault::Halted(_))) && !noted ==> next.phase == session.phase
        }),
{
}

/// A look for data on behalf of a session hands on what was seen: a byte is the
/// one popped and proves that a question was heard, a fault goes by its name,
/// and nothing else changes the session.
pub proof fn a_session_learns_from_what_it_saw(
    before: Seq<Access>,
    after: Seq<Access>,
    session: SessionView,
    next: SessionView,
    r: Result<Option<SessionRxStep>, IOError>,
)
    requires
        session_rx_ran(before, after, session, next, r),
    ensures
        next.owner == session.owner,
        next.timeout == session.timeout,
        r is Ok ==> next.fault == session.fault,
        r matches Ok(Some(SessionRxStep::Byte(byte))) ==> {
            &&& after.last() matches Access::ReadMrdr(word) && word.data == byte
            &&& next.phase == (if session.phase == SessionPhase::FirstReceivePending {
                SessionPhase::Stable(Abort::ReadStreaming)
            } else {
                session.phase
            })
        },
        r matches Ok(Some(SessionRxStep::Ended)) ==> next == session,
        r matches Ok(None) ==> next == session,
        r is Err ==> after.last() is ReadMfsr,
{
}

/// A recovery acts on a fault by its kind. A line held low shuts the controller
/// down. A halt is handed to the engine under its own name, with the time that
/// the recovery has, and what comes back decides: the engine closed the
/// transaction, or was shut down, or leaves it to be closed. In the last case
/// data that was seen before makes an open question a heard one.
pub proof fn a_recovery_acts_by_the_kind_of_fault(
    before: Seq<Access>,
    after: Seq<Access>,
    fault: RetainedFault,
    unwinding: Unwinding,
    timeout: u64,
    deadline: u64,
    r: (FaultVerdict, Unwinding),
)
    requires
        fault_action_ran(before, after, fault, unwinding, timeout, deadline, r),
    ensures
        fault == RetainedFault::PinLowTimeout ==> after == before.push(Access::TerminatePinLow) && r.0
            == FaultVerdict::Terminated && r.1 == unwinding,
        fault matches RetainedFault::Halted(halt) ==> {
            let resolution = after.last()->ResolveHalt_3;
            let seen = (entry(before, after, 0)->ReadMfsr_0).rxcount != 0;
            &&& after.last() == Access::ResolveHalt(halt.error, timeout, deadline, resolution)
            &&& after.len() == before.len() + (if unwinding.late is Some {
                2int
            } else {
                1int
            })
            &&& resolution == HaltResolution::Settled <==> r.0 == FaultVerdict::Settled
            &&& resolution == HaltResolution::PinLowTerminated <==> r.0 == FaultVerdict::Terminated
            &&& resolution == HaltResolution::NeedsManualClose <==> r.0 == FaultVerdict::Unresolved
            &&& unwinding.late is None ==> r.1 == unwinding
            &&& unwinding.late is Some ==> entry(before, after, 0) is ReadMfsr && r.1.late is Some
            &&& unwinding.late is Some && halt.error == ControllerStatusError::AddressNack ==> r.1.abort
                == Abort::General
            &&& unwinding.late == Some(PendingRecovery(SessionPhase::FirstReceivePending)) && halt.error
                != ControllerStatusError::AddressNack ==> r.1.abort == (if seen {
                Abort::ReadStreaming
            } else {
                Abort::ReadAddressed
            })
        },
{
}

// The drain.

/// A round of the drain ends with what came of a fault: with the engine let go
/// or shut down it is the last one; and a halt that is left to be closed has
/// taken the close with it, so that another is queued.
pub proof fn a_halt_discards_the_close(
    before: Seq<Access>,
    after: Seq<Access>,
    fault: RetainedFault,
    drain: Drain,
    next: Drain,
    timeout: u64,
    deadline: u64,
    r: DrainStep,
)
    requires
        drain_fault_ran(before, after, fault, drain, next, timeout, deadline, r),
    ensures
        fault == RetainedFault::PinLowTimeout ==> r == DrainStep::Terminated,
        fault is Halted ==> {
            let resolution = after.last()->ResolveHalt_3;
            &&& after.last() is ResolveHalt
            &&& resolution == HaltResolution::Settled <==> r == DrainStep::Done
            &&& resolution == HaltResolution::PinLowTerminated <==> r == DrainStep::Terminated
            &&& resolution == HaltResolution::NeedsManualClose <==> r == DrainStep::Again
        },
        r == DrainStep::Again ==> !next.queued && next.idle_since is None,
        r != DrainStep::Again ==> next.queued == drain.queued,
{
}

/// A close is queued where none is pending, a bare STOP unless a target was left
/// driving the bus, and whether it ran is asked only once it is queued.
pub proof fn a_close_is_queued_once(
    before: Seq<Access>,
    tried: Seq<Access>,
    looked: Seq<Access>,
    drain: Drain,
    next: Drain,
    settled: bool,
)
    requires
        close_tried(before, tried, drain, next),
        settled_looked(tried, looked, next.queued, settled),
    ensures
        drain.queued ==> tried == before && next == drain,
        !drain.queued && next.queued ==> (tried.last() matches Access::WriteMtdr(word) && word.cmd
            == ControllerCommand::Stop),
        !drain.queued && next.queued ==> tried.len() == before.len() + (if drain.unwinding.abort
            == Abort::ReadAddressed {
            4int
        } else {
            3int
        }),
        !drain.queued && !next.queued ==> commands(tried) == commands(before),
        next.unwinding == drain.unwinding,
        next.idle_since == drain.idle_since,
        settled ==> next.queued && (looked.last() matches Access::ReadMsr(saw) && !saw.mbf),
        !next.queued ==> looked == tried,
{
}

/// A round of the drain that found no fault goes on while there is time, ends
/// where the engine was seen idle behind its close, and past its time resets the
/// engine.
pub proof fn a_drain_ends_idle_or_reset(
    before: Seq<Access>,
    after: Seq<Access>,
    drain: Drain,
    next: Drain,
    deadline: u64,
    from: int,
    r: DrainStep,
)
    requires
        drain_close_ran(before, after, drain, next, deadline, from, r),
    ensures
        r != DrainStep::Terminated,
        r == DrainStep::Again ==> (after.last() matches Access::Now(now) && now <= deadline),
        r == DrainStep::Done ==> {
            ||| after.last() matches Access::ReadMsr(saw) && !saw.mbf && next.queued
            ||| {
                &&& after.last() is ResetEngine
                &&& after[after.len() - 2] matches Access::Now(now) && (now > deadline || after.len() - from
                    >= POLL_LIMIT)
            }
        },
{
}

/// Dropping received data pops as many bytes as the FIFO was seen to hold, and
/// tells whether there was one.
pub proof fn a_discard_pops_what_was_there(before: Seq<Access>, after: Seq<Access>, any: bool)
    requires
        rx_discarded(before, after, any),
    ensures
        entry(before, after, 0) matches Access::ReadMfsr(saw) && (any <==> saw.rxcount > 0) && received(after).len()
            == received(before).len() + saw.rxcount,
        commands(after) == commands(before),
{
    lemma_pops(before.push(entry(before, after, 0)), after);
}

proof fn lemma_pops(before: Seq<Access>, after: Seq<Access>)
    requires
        extends(before, after),
        forall|i: int| before.len() <= i < after.len() ==> (#[trigger] after[i] is ReadMrdr),
    ensures
        received(after).len() == received(before).len() + after.len() - before.len(),
        commands(after) == commands(before),
    decreases after.len(),
{
    if after.len() > before.len() {
        lemma_pops(before, after.drop_last());
        assert(after =~= after.drop_last().push(after.last()));
        assert(after[after.len() - 1] is ReadMrdr);
    } else {
        assert(after =~= before);
    }
}

/// A DMA read of a list is refused where its questions, one for each 256 bytes
/// begun, do not fit into the command FIFO; nothing of it is queued then.
pub proof fn a_read_too_long_for_the_fifo_is_refused(before: Seq<Access>, after: Seq<Access>, length: int)
    requires
        chain_refused(before, after, length, true),
        0 < length,
    ensures
        after.len() == before.len() + 1,
        after.last() matches Access::ReadParam(param) && (length + 255) / 256 > pow2((param.mtxfifo % 16) as nat),
        commands(after) == commands(before),
{
    the_command_fifo_has_a_power_of_two_entries(after.last()->ReadParam_0);
    a_read_takes_as_few_commands_as_can_be(length);
}

// The shape.

/// Data came in behind `start`: a byte was popped, or a look found one.
pub open spec fn data_seen(start: int, log: Seq<Access>) -> bool {
    exists|i: int|
        {
            &&& start <= i < log.len()
            &&& match #[trigger] log[i] {
                Access::ReadMrdr(_) => true,
                Access::ReadMfsr(fifo) => fifo.rxcount != 0,
                _ => false,
            }
        }
}

proof fn lemma_data_seen(start: int, log: Seq<Access>)
    requires
        0 <= start,
        data_proved(start, log),
    ensures
        data_seen(start, log),
    decreases log.len(),
{
    let rest = log.drop_last();
    if data_proved(start, rest) {
        lemma_data_seen(start, rest);
        let i = choose|i: int|
            {
                &&& start <= i < rest.len()
                &&& match #[trigger] rest[i] {
                    Access::ReadMrdr(_) => true,
                    Access::ReadMfsr(fifo) => fifo.rxcount != 0,
                    _ => false,
                }
            };
        assert(log[i] == rest[i]);
    } else {
        let n = log.len() as int;
        if log[n - 1] is ResolveHalt {
            assert(rest.last() == log[n - 2]);
            assert(start <= n - 2);
        }
    }
}

proof fn lemma_popped_proves(start: int, log: Seq<Access>, i: int)
    requires
        0 <= start <= i < log.len(),
        log[i] is ReadMrdr,
    ensures
        data_proved(start, log),
    decreases log.len(),
{
    if i < log.len() - 1 {
        lemma_popped_proves(start, log.drop_last(), i);
    }
}

/// What the close of a recovery is for once a halt was handed to the engine: an
/// address that was not acknowledged leaves nothing to release. Otherwise a
/// question that was open was heard if data came in, and a byte that was popped
/// shows that it was; without data the target still drives the bus.
pub proof fn a_halt_decides_the_close(
    start: int,
    log: Seq<Access>,
    origin: Unwinding,
    error: ControllerStatusError,
    timeout: u64,
    end: u64,
    resolution: HaltResolution,
)
    requires
        0 <= start <= log.len(),
    ensures
        ({
            let halted = log.push(Access::ResolveHalt(error, timeout, end, resolution));
            let shape = shape_in_force(start, halted, origin);
            let open = origin.late == Some(PendingRecovery(SessionPhase::FirstReceivePending));
            let popped = exists|i: int| start <= i < log.len() && #[trigger] log[i] is ReadMrdr;
            &&& origin.late is None ==> shape == origin.abort
            &&& origin.late is Some && error == ControllerStatusError::AddressNack ==> shape == Abort::General
            &&& open && error != ControllerStatusError::AddressNack && popped ==> shape == Abort::ReadStreaming
            &&& open && error != ControllerStatusError::AddressNack && !data_seen(start, halted) ==> shape
                == Abort::ReadAddressed
        }),
        shape_in_force(log.len() as int, log, origin) == origin.abort,
        forall|a: Access| !(a is ResolveHalt) ==> #[trigger] shape_in_force(start, log.push(a), origin)
            == shape_in_force(start, log, origin),
{
    let halted = log.push(Access::ResolveHalt(error, timeout, end, resolution));
    if data_proved(start, halted) {
        lemma_data_seen(start, halted);
    }
    if exists|i: int| start <= i < log.len() && #[trigger] log[i] is ReadMrdr {
        let i = choose|i: int| start <= i < log.len() && #[trigger] log[i] is ReadMrdr;
        assert(halted[i] is ReadMrdr);
        lemma_popped_proves(start, halted, i);
    }
    assert forall|a: Access| !(a is ResolveHalt) implies #[trigger] shape_in_force(start, log.push(a), origin)
        == shape_in_force(start, log, origin) by {
        assert(log.push(a).drop_last() =~= log);
    }
}

// Giving up.

proof fn lemma_unwinding_begins(before: Seq<Access>, after: Seq<Access>, session: SessionView)
    requires
        session_unwound(before, after, session),
    ensures
        extends(before, after),
        session.fault is None || session.fault is Some && session.fault->0 is Halted ==> entry(before, after, 0) is Now,
        session.fault is None ==> entry(before, after, 1) is ReadMfsr && entry(before, after, 2) is ReadMsr,
        session.fault matches Some(RetainedFault::Halted(halt)) ==> entry(before, after, 1) is ReadMsr,
{
    reveal(unwound);
}

/// A session that is given up is recovered within its own time. A fault that it
/// holds is acted on without another look, a line held low by shutting the
/// controller down; otherwise the status is looked at once more. What is then
/// recovered for is what its queued commands will have done, unless a halt
/// froze them.
pub proof fn a_session_is_given_up_for_what_it_holds(before: Seq<Access>, after: Seq<Access>, session: SessionView)
    requires
        abandoned(before, after, session),
    ensures
        entry(before, after, 0) == Access::RecoveryBegin(session.timeout),
        session.fault == Some(RetainedFault::PinLowTimeout) ==> after == before.push(
            Access::RecoveryBegin(session.timeout),
        ).push(Access::TerminatePinLow),
        session.fault matches Some(RetainedFault::Halted(halt)) ==> {
            &&& entry(before, after, 1) is Now
            &&& entry(before, after, 2) is ReadMsr
            &&& entry(before, after, 3) matches Access::ResolveHalt(error, budget, _, _) && error == halt.error
                && budget == session.timeout
        },
        session.fault is None ==> entry(before, after, 1) is ReadMsr,
        session.fault is None && clean(entry(before, after, 1)->ReadMsr_0) ==> entry(before, after, 2) is Now && entry(
            before,
            after,
            3,
        ) is ReadMfsr && entry(before, after, 4) is ReadMsr,
{
    let begun = before.push(Access::RecoveryBegin(session.timeout));
    let (log, next) = choose|log: Seq<Access>, next: SessionView|
        {
            &&& #[trigger] fault_captured(begun, log, session, next)
            &&& session_unwound(log, after, next)
        };
    assert(extends(begun, log));
    assert(extends(log, after)) by {
        lemma_unwinding_begins(log, after, next);
    }
    assert(after[before.len() as int] == begun[before.len() as int]);
    if !(next.fault == Some(RetainedFault::PinLowTimeout)) {
        lemma_unwinding_begins(log, after, next);
    }
}

/// A fault before there is a session is cleared by its kind: a line held low
/// shuts the controller down, a halt is handed to the engine under its own name,
/// and a lost arbitration hands it nothing of its own.
pub proof fn a_fault_before_a_session_is_cleared_by_its_kind(
    before: Seq<Access>,
    after: Seq<Access>,
    timeout: u64,
    fault: ControllerStatusError,
)
    requires
        fault_cleared_before_session(before, after, timeout, fault),
    ensures
        entry(before, after, 0) == Access::RecoveryBegin(timeout),
        fault == ControllerStatusError::PinLowTimeout ==> after == before.push(Access::RecoveryBegin(timeout)).push(
            Access::TerminatePinLow,
        ),
        fault != ControllerStatusError::PinLowTimeout ==> entry(before, after, 1) is Now && entry(
            before,
            after,
            2,
        ) is ReadMsr,
        fault == ControllerStatusError::AddressNack || fault == ControllerStatusError::Fifo ==> (entry(
            before,
            after,
            3,
        ) matches Access::ResolveHalt(error, budget, _, _) && error == fault && budget == timeout),
{
    let begun = before.push(Access::RecoveryBegin(timeout));
    reveal(unwound);
    assert(extends(begun, after));
    assert(after[before.len() as int] == begun[before.len() as int]);
}

} // verus!
