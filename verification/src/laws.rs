//! What holds of the driver as a whole: how its operations relate to each
//! other, and what none of them ever does.

use vstd::arithmetic::div_mod::{lemma_div_denominator, lemma_div_pos_is_pos};
use vstd::prelude::*;

use crate::answers::{ending, ends_clean, ends_completed, ends_settled, owed, waking, Owed};
use crate::baud::{at_least_zero, clk_cycles, high_cycles, scl_latency, timing, viable, Prescale};
use crate::bus_clear::{clear_ran, clear_ran_on, clocking_ran, scl_waited, stop_ran, BusClearError, LineEvent};
use crate::controller::I2c;
use crate::controller::asynch::StopOp;
use crate::controller::blocking::{
    chain_opened, chunked_commands, exchanged, lemma_read_closed, operation_opened, read_closed, read_commands,
    read_opened, read_txn_aborted, Operation, OperationView,
};
use crate::controller::dma::{
    commands_of, handed_over, lemma_over_moved, rx_dma_polled, tiles, tx_dma_polled, DmaVerdict,
};
use crate::controller::dma_exchange::{
    checked_read_opened, dma_chain_opened, dma_exchanged, dma_operation_opened, DmaExchange, DmaLeg, DmaOperation,
};
use crate::controller::dma_txn::{
    chain_too_long, chunks_begin, dma_read_opened, dma_write_opened, DmaAttempts, DmaReadStage, DmaReadTxn, DmaWriteTxn,
};
use crate::controller::exchange::{Exchange, Leg};
use crate::controller::txn::{ReadTxn, WriteTxn};
use crate::controller_registers::{
    close_words, enqueue_ran, fault_retained, fifo_entries, receive_word, rx_ready_ran, rx_step_ran, start_word,
    status_error, stop_word, transmit_word, tx_room_step_ran, tx_settled_ran, CommandStep, ControllerStatusError,
    RetainedFault, RxStep, TxStep,
};
use crate::dma::chunk_end_at;
use crate::lpi2c_regs::{Access, Direction};
use crate::punctual::{
    crowded, kept_time, lemma_clock_began, lemma_clock_push, lemma_clock_without_recovery, missing,
};
use crate::session::{
    abandoned, bound, cancelled_before_session, close_of, close_pending, closes, closes_once, command_tail,
    fault_captured, fault_cleared_before_session, fault_shape, first_look, given_up, lemma_once_push, lemma_shaped_push,
    mirrors, no_room, only_stops, opens_read, recovered, recovery_ended, seen_idle, session_fits, session_unwound,
    shape_in_force, shaped_closes, shut_down, stayed_idle, taken_over, tick_read, unwinding_ran, unwound, IDLE_WINDOW,
    Abort, PendingRecovery, SessionPhase, SessionView, Unwinding,
};
use crate::target::{
    addressed_request, data_valid_delay, event_of, queued_count, read_answered, read_step_ran, request_of, taken_count,
    write_answered, write_step_ran, Address, IOError, Progress, ReadStatus, Request, WriteStatus,
};
use crate::target_registers::{
    dma_wakes, fault_of, listen_event_ran, listen_wakes, match_word, rx_chunk_end_of, rx_event_ran, rx_wakes,
    tx_step_of, tx_wakes, ListenEvent, RxChunkEnd, TargetRxEvent, TargetTxStep,
};
use crate::ticks::deadline;
use crate::trace::{commands, entry, extends, handed, lemma_recoveries_grow, received, recoveries, sent, taken, wire};
use crate::transfer::{
    aborted, aborted_for_good, aborting_recovers_once, asked_behind, cut_short, data_at, failed, kept_waiting,
    lemma_carried, lemma_cut_recovers, lemma_moved, lemma_moved_carried, lemma_moved_nothing, looked, moved, partway,
    read_transaction, receive_commands, receive_size, retryable, room_at, seamed_read, stalled, standing_since,
    stands_still, steady, still_from, transmit_commands, write_opened, write_transaction,
};
use crate::wait::{WaitOutcome, POLL_LIMIT};
use crate::words::{ControllerCommand, Mier, Msr, Mtdr, Sier, Ssr};

verus! {

broadcast use {crate::answers::lemma_owed_push, crate::trace::group_trace, crate::transfer::group_wire};

// What a command is answered with.

/// A transaction goes on only once its START has settled: a poll behind it
/// found the command FIFO drained without a fault, with a clean final status.
pub proof fn a_start_settles_before_the_transaction_goes_on(before: Seq<Access>, after: Seq<Access>)
    requires
        extends(before, after),
        recoveries(after) == recoveries(before),
        owed(before) matches Owed::Answer(word) && word.cmd == ControllerCommand::Start,
        owed(after) is Idle || owed(after) is Live || owed(after) is Answer && owed(after) != owed(before),
    ensures
        exists|i: int| before.len() < i <= after.len() && ends_settled(#[trigger] after.take(i)),
{
    lemma_answered(before, after);
    let i = choose|i: int| before.len() < i <= after.len() && answers(owed(before)->Answer_0, #[trigger] after.take(i));
    assert(ends_settled(after.take(i)));
}

/// A transaction is closed only once its STOP has completed: a poll behind it
/// found the command FIFO drained and the engine idle without a fault, with a
/// clean final status.
pub proof fn a_stop_completes_before_the_next_start(before: Seq<Access>, after: Seq<Access>)
    requires
        extends(before, after),
        recoveries(after) == recoveries(before),
        owed(before) matches Owed::Answer(word) && word.cmd == ControllerCommand::Stop,
        owed(after) is Idle || owed(after) is Live || owed(after) is Answer && owed(after) != owed(before),
    ensures
        exists|i: int| before.len() < i <= after.len() && ends_completed(#[trigger] after.take(i)),
{
    lemma_answered(before, after);
    let i = choose|i: int| before.len() < i <= after.len() && answers(owed(before)->Answer_0, #[trigger] after.take(i));
    assert(ends_completed(after.take(i)));
}

/// A write goes on behind a byte only once a look behind it found no fault.
pub proof fn a_sent_byte_is_followed_by_a_clean_look(before: Seq<Access>, after: Seq<Access>)
    requires
        extends(before, after),
        recoveries(after) == recoveries(before),
        owed(before) matches Owed::Answer(word) && word.cmd == ControllerCommand::Transmit,
        owed(after) is Idle || owed(after) is Live || owed(after) is Answer && owed(after) != owed(before),
    ensures
        exists|i: int| before.len() < i <= after.len() && ends_clean(#[trigger] after.take(i)),
{
    lemma_answered(before, after);
    let i = choose|i: int| before.len() < i <= after.len() && answers(owed(before)->Answer_0, #[trigger] after.take(i));
    assert(ends_clean(after.take(i)));
}

/// A fault that a look finds in an open transaction, and not on behalf of a
/// wake, ends it: without a recovery it never comes to be answered, nor to be
/// closed.
pub proof fn a_fault_ends_a_transaction(before: Seq<Access>, after: Seq<Access>, i: int)
    requires
        extends(before, after),
        recoveries(after) == recoveries(before),
        before.len() <= i < after.len(),
        after[i] is ReadMsr,
        status_error(after[i]->ReadMsr_0) is Some,
        !waking(after.take(i)),
        !ending(after.take(i)),
        !(owed(after.take(i)) is Idle),
    ensures
        owed(after) is Broken,
{
    let seen = after.take(i + 1);
    assert(seen =~= after.take(i).push(after[i]));
    lemma_recoveries_grow(before, seen);
    lemma_recoveries_grow(seen, after);
    assert(recoveries(seen) =~= recoveries(before));
    lemma_stays_broken(seen, after);
}

/// What is broken stays so until a recovery.
proof fn lemma_stays_broken(before: Seq<Access>, after: Seq<Access>)
    requires
        extends(before, after),
        recoveries(after) == recoveries(before),
        owed(before) is Broken,
    ensures
        owed(after) is Broken,
    decreases after.len(),
{
    if after.len() == before.len() {
        assert(after =~= before);
    } else {
        let log = after.drop_last();
        lemma_recoveries_grow(before, log);
        lemma_recoveries_grow(log, after);
        assert(recoveries(log) =~= recoveries(before));
        assert(after =~= log.push(after.last()));
        lemma_stays_broken(before, log);
    }
}

/// The end of the history answers the command.
spec fn answers(word: Mtdr, log: Seq<Access>) -> bool {
    if word.cmd == ControllerCommand::Start {
        ends_settled(log)
    } else if word.cmd == ControllerCommand::Stop {
        ends_completed(log)
    } else {
        word.cmd == ControllerCommand::Transmit && ends_clean(log)
    }
}

/// What is owed stays so until it is answered.
proof fn lemma_answered(before: Seq<Access>, after: Seq<Access>)
    requires
        extends(before, after),
        recoveries(after) == recoveries(before),
        owed(before) is Answer,
    ensures
        ({
            ||| owed(after) == owed(before)
            ||| owed(after) is Broken
            ||| exists|i: int|
                before.len() < i <= after.len() && answers(owed(before)->Answer_0, #[trigger] after.take(i))
        }),
    decreases after.len(),
{
    let word = owed(before)->Answer_0;
    if after.len() == before.len() {
        assert(after =~= before);
    } else {
        let log = after.drop_last();
        assert(extends(before, log));
        lemma_recoveries_grow(before, log);
        lemma_recoveries_grow(log, after);
        assert(recoveries(log) =~= recoveries(before));
        assert(after =~= log.push(after.last()));
        lemma_answered(before, log);
        assert(after.take(after.len() as int) =~= after);
        if exists|i: int| before.len() < i <= log.len() && answers(word, #[trigger] log.take(i)) {
            let i = choose|i: int| before.len() < i <= log.len() && answers(word, #[trigger] log.take(i));
            assert(after.take(i) =~= log.take(i));
        }
    }
}

// Receiving and transmitting.

/// Data outranks a fault: a byte that rests in the receive FIFO is handed out
/// whatever the status says.
pub proof fn data_comes_before_a_fault(before: Seq<Access>, after: Seq<Access>, r: Option<RxStep>)
    requires
        rx_step_ran(before, after, r),
        (entry(before, after, 0)->ReadMfsr_0).rxcount != 0,
    ensures
        r is Some && r->Some_0 is Byte,
        received(after) == received(before).push(r->Some_0->Byte_0),
{
}

/// A look that finds no data never takes a byte out of the FIFO.
pub proof fn only_data_is_popped(before: Seq<Access>, after: Seq<Access>, r: Option<RxStep>)
    requires
        rx_step_ran(before, after, r),
        !(r matches Some(RxStep::Byte(_))),
    ensures
        looked(before, after),
{
}

/// The wake predicate of a receive wait and the step behind it agree: on the
/// same observations the wait is over exactly when the step finds something.
pub proof fn receive_wake_matches_its_step(
    before: Seq<Access>,
    woken: Seq<Access>,
    later: Seq<Access>,
    stepped: Seq<Access>,
    ready: bool,
    r: Option<RxStep>,
)
    requires
        rx_ready_ran(before, woken, ready),
        rx_step_ran(later, stepped, r),
        entry(before, woken, 0) == entry(later, stepped, 0),
        (entry(later, stepped, 0)->ReadMfsr_0).rxcount == 0 ==> entry(before, woken, 1) == entry(later, stepped, 1),
        (entry(later, stepped, 0)->ReadMfsr_0).rxcount == 0 ==> entry(before, woken, 2) == entry(later, stepped, 2),
    ensures
        ready <==> r is Some,
{
}

/// A command enters the FIFO exactly when the step says so, and then it is
/// exactly that command, behind a status without a fault and a look that
/// found room.
pub proof fn a_command_is_queued_only_behind_a_clean_look(
    before: Seq<Access>,
    after: Seq<Access>,
    word: Mtdr,
    r: CommandStep,
)
    requires
        enqueue_ran(before, after, word, r),
    ensures
        r == CommandStep::Queued <==> commands(after) == commands(before).push(word),
        r != CommandStep::Queued ==> looked(before, after),
        r == CommandStep::Queued ==> {
            &&& status_error(entry(before, after, 0)->ReadMsr_0) is None
            &&& (entry(before, after, 1)->ReadMfsr_0).txcount < fifo_entries(entry(before, after, 2)->ReadParam_0)
        },
        status_error(entry(before, after, 0)->ReadMsr_0) is Some ==> r is Fault,
{
    assert(commands(before).push(word).len() == commands(before).len() + 1);
}

/// Nor does a whole transfer get round that look: each of its commands goes in
/// right behind one that found no fault, and room, and each of its bytes is
/// popped right behind one that found data.
pub proof fn a_transfer_overruns_no_fifo(
    before: Seq<Access>,
    after: Seq<Access>,
    words: Seq<Mtdr>,
    bytes: Seq<u8>,
    i: int,
)
    requires
        moved(before, after, words, bytes),
        before.len() <= i < after.len(),
    ensures
        after[i] is WriteMtdr ==> before.len() + 3 <= i && room_at(after, i),
        after[i] is ReadMrdr ==> before.len() + 1 <= i && data_at(after, i),
{
}

/// A polled transfer that succeeded waited for nothing past its budget: where a
/// look finds room, data, or the end of a START or STOP missing and the clock
/// is read right behind, the tick lies within the budget of an earlier tick of
/// that transfer.
pub proof fn a_polled_transfer_keeps_to_its_budget(
    before: Seq<Access>,
    after: Seq<Access>,
    budget: u64,
    n: int,
) -> (began: int)
    requires
        kept_time(before, after, budget),
        recoveries(after) == recoveries(before),
        before.len() < n < after.len(),
        missing(after.take(n)) || crowded(after.take(n)),
        after[n] is Now,
    ensures
        before.len() <= began < n,
        after[began] is Now,
        after[n]->Now_0 <= deadline(after[began]->Now_0, budget),
{
    reveal(kept_time);
    let look = after.take(n);
    let tick = after.take(n + 1);
    assert(look =~= look.drop_last().push(after[n - 1]));
    assert(tick =~= look.push(after[n]));
    lemma_clock_without_recovery(before, look, after, budget);
    lemma_clock_without_recovery(before, tick, after, budget);
    lemma_clock_without_recovery(before, look, look, budget);
    lemma_clock_push(before, look, after[n], budget);
    lemma_clock_push(before, look.drop_last(), after[n - 1], budget);
    let began = lemma_clock_began(before, look, budget);
    assert(look[began] == after[began]);
    began
}

/// The interrupt sources that a word enables and that a status raises.
pub open spec fn raised(armed: Mier, msr: Msr) -> bool {
    ||| armed.ndie && msr.ndf
    ||| armed.alie && msr.alf
    ||| armed.feie && msr.fef
    ||| armed.pltie && msr.pltf
}

/// Every armed set wakes on every error, and on nothing but errors besides
/// its data source: what the predicates call a fault is what the interrupt
/// reports.
pub proof fn armed_errors_are_the_errors_that_wake(msr: Msr)
    ensures
        raised(Mier::errors(), msr) <==> status_error(msr) is Some,
        raised(Mier::receive(), msr) <==> status_error(msr) is Some,
        raised(Mier::transmit(), msr) <==> status_error(msr) is Some,
        !raised(Mier::none(), msr),
{
}

/// A fault ends every transmit wait: whether for room or for an empty FIFO.
pub proof fn a_fault_ends_every_transmit_wait(
    before: Seq<Access>,
    after: Seq<Access>,
    settled: bool,
    room: Option<TxStep>,
)
    requires
        tx_settled_ran(before, after, settled) || tx_room_step_ran(before, after, room),
    ensures
        tx_settled_ran(before, after, settled) && status_error(entry(before, after, 1)->ReadMsr_0) is Some
            ==> settled,
        tx_room_step_ran(before, after, room) && status_error(entry(before, after, 0)->ReadMsr_0) is Some
            ==> room is Some && room->Some_0 is Fault,
{
}

// Sessions and recovery.

/// A write never clocks a byte in when it is given up: not while it is open,
/// not while its START or its STOP is pending.
pub proof fn a_write_recovery_clocks_nothing(phase: SessionPhase)
    requires
        phase.writable() || phase == (SessionPhase::StartPending { before: Abort::General, after: Abort::General })
            || phase == (SessionPhase::StopPending { before: Abort::General }),
    ensures
        !phase.clocks(),
{
}

/// Nothing that is observed later gives a session more to clock: neither
/// received data nor a bound fault.
pub proof fn observations_never_add_clocks(session: SessionView, data: bool, fault: ControllerStatusError)
    ensures
        session.phase.streamed().clocks() ==> session.phase.clocks(),
        bound(session, data, fault).phase.clocks() ==> session.phase.clocks(),
        bound(session, data, fault).owner == session.owner,
{
}

/// An address that was not acknowledged owns no data phase: its recovery is
/// the general close, whatever the transaction was about to do. Every other
/// fault keeps the shape of its transaction.
pub proof fn a_nack_recovers_with_the_general_close(error: ControllerStatusError, abort: Abort)
    ensures
        fault_shape(ControllerStatusError::AddressNack, abort) == Abort::General,
        error != ControllerStatusError::AddressNack ==> fault_shape(error, abort) == abort,
{
}

/// While commands are pending, a cancelled session recovers for what they
/// will have done, and a halted one for what was done before them.
pub proof fn pending_commands_split_the_recovery(before: Abort, after: Abort)
    ensures
        (SessionPhase::StartPending { before, after }).cancel_shape() == after,
        (SessionPhase::StartPending { before, after }).halt_shape() == before,
        SessionPhase::FirstReceivePending.cancel_shape() == Abort::ReadStreaming,
        SessionPhase::FirstReceivePending.halt_shape() == Abort::ReadAddressed,
        (SessionPhase::StopPending { before }).cancel_shape() == before,
        (SessionPhase::StopPending { before }).halt_shape() == before,
{
}

/// The permits exclude each other: a session that may transmit may not ask
/// for data, an addressed read may do nothing but ask, and only a session
/// that may be closed has no question open.
pub proof fn permits_exclude_each_other(phase: SessionPhase)
    ensures
        !(phase.writable() && phase.addressed()),
        !(phase.writable() && phase.reading()),
        !(phase.addressed() && phase.reading()),
        phase.addressed() ==> !phase.closable(),
        phase.closable() ==> phase.writable() || phase.reading(),
        phase.reading() && !phase.closable() ==> phase == SessionPhase::FirstReceivePending,
{
}

/// A halting fault and a pin-low timeout are kept for the cleanup; an
/// arbitration loss, which may be spurious, is not.
pub proof fn only_an_arbitration_loss_is_not_retained(fault: ControllerStatusError)
    ensures
        fault_retained(fault) is None <==> fault == ControllerStatusError::ArbitrationLoss,
{
}

/// A recovery puts nothing on the bus but complete closes, keeps what was
/// there before, counts once, and leaves the engine shut down or released.
pub proof fn a_recovery_only_closes(before: Seq<Access>, after: Seq<Access>, may_clock: bool)
    requires
        recovered(before, after, may_clock),
    ensures
        extends(before, after),
        commands(after) == commands(before) + command_tail(before, after),
        closes(command_tail(before, after)),
        !may_clock ==> only_stops(command_tail(before, after)),
        recoveries(after).len() == recoveries(before).len() + 1,
        recovery_ended(after),
{
    let begun = taken_over(before, after);
    assert(extends(before, begun));
    assert(commands(begun) == commands(before));
    assert(command_tail(before, after) == command_tail(begun, after));
}

/// No halt was handed to the engine behind `before`.
pub open spec fn nothing_halted(before: Seq<Access>, after: Seq<Access>) -> bool {
    forall|i: int| before.len() <= i < after.len() ==> !(#[trigger] after[i] is ResolveHalt)
}

/// Without a halt a recovery keeps its shape and queues one close at most.
proof fn lemma_one_close(before: Seq<Access>, log: Seq<Access>, origin: Unwinding)
    requires
        extends(before, log),
        nothing_halted(before, log),
        closes_once(before.len() as int, log),
    ensures
        shape_in_force(before.len() as int, log, origin) == origin.abort,
        shaped_closes(before.len() as int, log, origin) == (if close_pending(before.len() as int, log) {
            close_words(close_of(origin.abort))
        } else {
            Seq::empty()
        }),
    decreases log.len(),
{
    if log.len() > before.len() {
        let shorter = log.drop_last();
        assert(!(log[log.len() - 1] is ResolveHalt));
        assert(nothing_halted(before, shorter));
        lemma_one_close(before, shorter, origin);
        assert(Seq::<Mtdr>::empty() + close_words(close_of(origin.abort)) =~= close_words(close_of(origin.abort)));
    }
}

/// A look behind `before`, and before the last one, found the engine idle.
pub open spec fn looked_idle(before: Seq<Access>, log: Seq<Access>) -> bool {
    exists|i: int|
        {
            &&& before.len() <= i < log.len() - 1
            &&& #[trigger] log[i] is ReadMsr
            &&& !(log[i]->ReadMsr_0).mbf
        }
}

/// A recovery had no close to queue: the controller was shut down; two looks,
/// the last of them included, found the engine idle; it stood idle for the
/// whole window with commands queued, as one does that has closed the
/// transaction itself; or the command FIFO had no room for a close of `abort`
/// until the engine was hard-reset.
pub open spec fn needed_no_close(before: Seq<Access>, after: Seq<Access>, abort: Abort) -> bool {
    let log = after.take(after.len() - 3);
    ||| shut_down(after)
    ||| seen_idle(log) && looked_idle(before, log)
    ||| stayed_idle(before, log)
    ||| log.len() > before.len() && log.last() is ResetEngine && no_room(log, abort)
}

/// A recovery that met no halt closes the transaction by its shape, once, and
/// leaves the close out only where none was needed or none could be queued.
proof fn lemma_closed_by_shape(before: Seq<Access>, after: Seq<Access>, timeout: u64, origin: Unwinding)
    requires
        unwinding_ran(before, after, timeout, origin, None),
        nothing_halted(before, after),
    ensures
        ({
            ||| command_tail(before, after) == close_words(close_of(origin.abort))
            ||| command_tail(before, after).len() == 0 && needed_no_close(before, after, origin.abort)
        }),
{
    lemma_one_close(before, after, origin);
    assert(command_tail(before, after) =~= shaped_closes(before.len() as int, after, origin));
    if command_tail(before, after).len() == 0 && !shut_down(after) {
        let log = after.take(after.len() - 3);
        let first = first_look(before, origin.late is Some);
        assert(extends(before, log) && nothing_halted(before, log)) by {
            assert forall|i: int| before.len() <= i < log.len() implies !(#[trigger] log[i] is ResolveHalt) by {
                assert(!(after[i] is ResolveHalt));
            }
        }
        let start = before.len() as int;
        let n = log.len() as int;
        let one = log.push(after[n]);
        let two = one.push(after[n + 1]);
        assert(after =~= two.push(after[n + 2]));
        lemma_once_push(start, log, after[n]);
        lemma_once_push(start, one, after[n + 1]);
        lemma_once_push(start, two, after[n + 2]);
        lemma_shaped_push(start, log, after[n], origin);
        lemma_shaped_push(start, one, after[n + 1], origin);
        lemma_shaped_push(start, two, after[n + 2], origin);
        lemma_one_close(before, log, origin);
        assert(command_tail(before, log) == command_tail(before, after));
        if seen_idle(log) {
            assert(after.len() >= first + 5) by {
                reveal(unwound);
            }
            assert(log[first] == after[first]);
            assert(looked_idle(before, log));
        }
    }
}

/// What needed no close behind `b` needed none behind an earlier `a`.
proof fn lemma_no_close_earlier(a: Seq<Access>, b: Seq<Access>, after: Seq<Access>, from: Abort, to: Abort)
    requires
        extends(a, b),
        needed_no_close(b, after, from),
        close_of(from) == close_of(to),
    ensures
        needed_no_close(a, after, to),
{
    let log = after.take(after.len() - 3);
    if shut_down(after) {
    } else if seen_idle(log) && looked_idle(b, log) {
        let i = choose|i: int|
            {
                &&& b.len() <= i < log.len() - 1
                &&& #[trigger] log[i] is ReadMsr
                &&& !(log[i]->ReadMsr_0).mbf
            };
        assert(a.len() <= i < log.len() - 1 && log[i] is ReadMsr);
        assert(looked_idle(a, log));
    } else if stayed_idle(b, log) {
        let first = choose|first: u64|
            #[trigger] tick_read(b, log, first) && log.last()->Now_0 - first > IDLE_WINDOW;
        let i = choose|i: int| b.len() <= i < log.len() && #[trigger] log[i] == Access::Now(first);
        assert(a.len() <= i && log[i] == Access::Now(first));
        assert(tick_read(a, log, first));
    }
}

/// What stands on the wire decides how a transaction is closed when it is
/// given up. A read that was addressed and never asked for data leaves its
/// target driving SDA, where no STOP can form: one byte is clocked in first.
/// Everything else gets a bare STOP. Either close is queued once. It is left
/// out only where none was needed, or where the command FIFO had no room for
/// it until the engine was hard-reset. A halt on the way is another matter.
pub proof fn the_wire_decides_the_close(before: Seq<Access>, after: Seq<Access>, may_clock: bool)
    requires
        recovered(before, after, may_clock),
        nothing_halted(before, after),
    ensures
        ({
            let abort = if opens_read(wire(before)) {
                Abort::ReadAddressed
            } else {
                Abort::General
            };
            ||| command_tail(before, after) == (if opens_read(wire(before)) {
                seq![receive_word(1), stop_word()]
            } else {
                seq![stop_word()]
            })
            ||| command_tail(before, after).len() == 0 && needed_no_close(before, after, abort)
        }),
{
    let abort = if opens_read(wire(before)) {
        Abort::ReadAddressed
    } else {
        Abort::General
    };
    if given_up(before, after) {
        let session = choose|session: SessionView| #[trigger]
            session_fits(before, session) && abandoned(before, after, session);
        let begun = before.push(Access::RecoveryBegin(session.timeout));
        assert(commands(begun) == commands(before));
        assert(command_tail(before, after) == command_tail(begun, after));
        let (log, next) = choose|log: Seq<Access>, next: SessionView|
            {
                &&& #[trigger] fault_captured(begun, log, session, next)
                &&& session_unwound(log, after, next)
            };
        assert(log.len() >= begun.len());
        assert(commands(log) == commands(begun)) by {
            if log.len() > begun.len() {
                if log != begun.push(log[begun.len() as int]) {
                    let looked_at = log.drop_last();
                    assert(commands(log) == commands(looked_at));
                }
            }
        }
        assert(command_tail(begun, after) == command_tail(log, after));
        assert(nothing_halted(log, after));
        match next.fault {
            Some(RetainedFault::PinLowTimeout) => {
                assert(commands(after) == commands(log));
                assert(command_tail(log, after) =~= Seq::empty());
            },
            Some(RetainedFault::Halted(halt)) => {
                assert(after[log.len() as int + 2] is ResolveHalt);
            },
            None => {
                let origin = Unwinding {
                    abort: next.phase.cancel_shape(),
                    late: Some(PendingRecovery(next.phase)),
                };
                lemma_closed_by_shape(log, after, next.timeout, origin);
                assert(next.phase.cancel_shape() == session.phase.cancel_shape());
                assert(session.fault is None);
                assert(mirrors(wire(before), session.phase));
                assert(session.phase.cancel_shape() == Abort::ReadAddressed <==> opens_read(wire(before)));
                if needed_no_close(log, after, origin.abort) {
                    lemma_no_close_earlier(before, log, after, origin.abort, abort);
                }
            },
        }
    } else {
        let origin = Unwinding { abort: Abort::General, late: None };
        if exists|timeout: u64| #[trigger] cancelled_before_session(before, after, timeout) {
            let timeout = choose|timeout: u64| #[trigger] cancelled_before_session(before, after, timeout);
            let begun = before.push(Access::RecoveryBegin(timeout));
            assert(commands(begun) == commands(before));
            assert(command_tail(before, after) == command_tail(begun, after));
            lemma_closed_by_shape(begun, after, timeout, origin);
            if needed_no_close(begun, after, origin.abort) {
                lemma_no_close_earlier(before, begun, after, origin.abort, abort);
            }
        } else {
            let (timeout, fault) = choose|timeout: u64, fault: ControllerStatusError| #[trigger]
                fault_cleared_before_session(before, after, timeout, fault);
            let begun = before.push(Access::RecoveryBegin(timeout));
            assert(commands(begun) == commands(before));
            assert(command_tail(before, after) == command_tail(begun, after));
            match fault_retained(fault) {
                Some(RetainedFault::PinLowTimeout) => {
                    assert(commands(after) == commands(begun));
                    assert(command_tail(begun, after) =~= Seq::empty());
                },
                Some(RetainedFault::Halted(halt)) => {
                    assert(after[begun.len() as int + 2] is ResolveHalt);
                },
                None => {
                    lemma_closed_by_shape(begun, after, timeout, origin);
                    if needed_no_close(begun, after, origin.abort) {
                        lemma_no_close_earlier(before, begun, after, origin.abort, abort);
                    }
                },
            }
        }
    }
}

// Transfers.

/// Without the caller's consent a read is one transaction: one START, then
/// RECEIVE commands and nothing else, then one STOP.
pub proof fn a_read_is_one_transaction_unless_allowed(
    before: Seq<Access>,
    after: Seq<Access>,
    address: u8,
    data: Seq<u8>,
    i: int,
)
    requires
        read_closed(before, after, address, data, false),
        0 <= i < command_tail(before, after).len(),
    ensures
        read_transaction(before, after, address, data),
        recoveries(after) == recoveries(before),
        i == 0 ==> command_tail(before, after)[i] == start_word(address, true),
        i == command_tail(before, after).len() - 1 ==> command_tail(before, after)[i] == stop_word(),
        0 < i < command_tail(before, after).len() - 1 ==> command_tail(before, after)[i].cmd
            == ControllerCommand::Receive,
{
    let words = command_tail(before, after);
    let receives = words.subrange(1, words.len() - 1);
    if 0 < i < words.len() - 1 {
        assert(receives[i - 1] == words[i]);
        assert(receive_commands(data.len()).take(receives.len() as int)[i - 1] == receive_commands(data.len())[i - 1]);
    }
}

/// A read takes a second attempt only with the caller's consent, and only where
/// the first one stalled: the packet ended early, or nothing came in time.
/// Exactly one recovery lies between the two.
pub proof fn a_second_attempt_follows_a_stalled_one(
    before: Seq<Access>,
    after: Seq<Access>,
    address: u8,
    data: Seq<u8>,
    allow_chunks: bool,
)
    requires
        read_closed(before, after, address, data, allow_chunks),
        !read_transaction(before, after, address, data),
    ensures
        allow_chunks,
        recoveries(after).len() == recoveries(before).len() + 1,
        exists|log: Seq<Access>| extends(before, log) && extends(log, after) && #[trigger] stalled(log),
{
    let all = seq![start_word(address, true)] + receive_commands(data.len());
    let retry = choose|retry: Seq<Access>|
        {
            &&& cut_short(before, retry, all, true)
            &&& #[trigger] seamed_read(retry, after, address, data)
        };
    lemma_cut_recovers(before, retry, all, true);
    let log = choose|log: Seq<Access>|
        {
            &&& #[trigger] steady(before, log)
            &&& partway(before, log, all)
            &&& recoveries(log) == recoveries(before)
            &&& stalled(log)
            &&& recovered(log, retry, true)
        };
    assert(extends(log, taken_over(log, retry)));
}

/// With the caller's consent a read does not fail for want of its data before
/// its second attempt: it was recovered twice, or it had queued no RECEIVE
/// yet.
pub proof fn a_stalled_read_fails_only_at_its_second_attempt(
    before: Seq<Access>,
    after: Seq<Access>,
    timeout: u64,
    address: u8,
    len: nat,
    error: crate::controller::IOError,
)
    requires
        read_txn_aborted(before, after, timeout, address, len, error, true),
        retryable(error),
    ensures
        ({
            ||| recoveries(after).len() == recoveries(before).len() + 2
            ||| exists|log: Seq<Access>|
                #[trigger] recovered(log, after, true) && extends(before, log) && !asked_behind(before, log)
        }),
{
    let all = read_commands(address, len);
    let again = chunked_commands(address, len);
    if aborted_for_good(before, after, timeout, all, error, true) {
        let log = choose|log: Seq<Access>|
            {
                &&& #[trigger] failed(before, log, timeout, all, error)
                &&& recovered(log, after, true)
                &&& !asked_behind(before, log)
            };
        assert(recovered(log, after, true));
    } else {
        let retry = choose|retry: Seq<Access>| #[trigger]
            cut_short(before, retry, all, true) && aborted(retry, after, timeout, again, error, true);
        lemma_cut_recovers(before, retry, all, true);
        aborting_recovers_once(retry, after, timeout, again, error, true);
    }
}

/// A transfer times out only where nothing was popped and nothing but a
/// RECEIVE queued for the whole of its budget: every byte and every other
/// command grants it anew.
pub proof fn a_timeout_follows_a_budget_without_progress(
    before: Seq<Access>,
    log: Seq<Access>,
    timeout: u64,
    all: Seq<Mtdr>,
)
    requires
        failed(before, log, timeout, all, crate::controller::IOError::Timeout),
        log.len() - before.len() < POLL_LIMIT,
    ensures
        log.last() is Now,
        exists|start: u64| #[trigger]
            standing_since(before, log, start) && log.last()->Now_0 > deadline(start, timeout),
        forall|i: int|
            before.len() <= i < log.len() && (#[trigger] log[i] is ReadMrdr || (log[i] matches Access::WriteMtdr(word)
                && word.cmd != ControllerCommand::Receive)) ==> exists|j: int|
                i < j < log.len() && #[trigger] log[j] is Now && log.last()->Now_0 > deadline(log[j]->Now_0, timeout),
{
    let start = choose|start: u64| #[trigger]
        standing_since(before, log, start) && log.last()->Now_0 > deadline(start, timeout);
    let j = choose|j: int|
        before.len() <= j < log.len() && #[trigger] log[j] == Access::Now(start) && still_from(log, j);
    assert forall|i: int|
        before.len() <= i < log.len() && (#[trigger] log[i] is ReadMrdr || (log[i] matches Access::WriteMtdr(word)
            && word.cmd != ControllerCommand::Receive)) implies exists|j: int|
        i < j < log.len() && #[trigger] log[j] is Now && log.last()->Now_0 > deadline(log[j]->Now_0, timeout) by {
        assert(!stands_still(log[i]));
        assert(i < j);
        assert(log[j] is Now);
    }
}

/// What a read hands out is what came in, byte for byte, each taken where a
/// look had found it, however the read was carried out in the end.
pub proof fn a_read_returns_what_came_in(
    before: Seq<Access>,
    after: Seq<Access>,
    address: u8,
    data: Seq<u8>,
    allow_chunks: bool,
)
    requires
        read_closed(before, after, address, data, allow_chunks),
    ensures
        received(after).len() >= data.len(),
        received(after).skip(received(after).len() - data.len()) == data,
        exists|begun: Seq<Access>|
            extends(before, begun) && #[trigger] steady(begun, after) && received(after) == received(begun) + data,
{
    if read_transaction(before, after, address, data) {
        assert(extends(before, before) && steady(before, after));
        assert(received(after).skip(received(after).len() - data.len()) =~= data);
    } else {
        let all = seq![start_word(address, true)] + receive_commands(data.len());
        let retry = choose|retry: Seq<Access>|
            {
                &&& cut_short(before, retry, all, true)
                &&& #[trigger] seamed_read(retry, after, address, data)
            };
        lemma_cut_recovers(before, retry, all, true);
        assert(steady(retry, after));
        assert(received(after) == received(retry) + data);
        assert(received(after).skip(received(after).len() - data.len()) =~= data);
    }
}

/// The RECEIVE commands of a read ask for every byte once: each for at most
/// 256, and together for all of them.
pub proof fn receive_commands_ask_for_every_byte_once(len: nat, i: int)
    requires
        0 <= i < receive_commands(len).len(),
    ensures
        1 <= receive_size(len, i) <= 256,
        256 * i + receive_size(len, i) <= len,
        i + 1 < receive_commands(len).len() ==> receive_size(len, i) == 256,
        i + 1 == receive_commands(len).len() ==> 256 * i + receive_size(len, i) == len,
        receive_commands(len).len() == commands_of(len as int),
{
}

/// A write puts its bytes on the bus in order, between one START and one
/// STOP, each where the command FIFO had room for it, and takes nothing in.
pub proof fn a_write_sends_its_bytes_in_order(
    before: Seq<Access>,
    after: Seq<Access>,
    address: u8,
    data: Seq<u8>,
    i: int,
)
    requires
        write_transaction(before, after, address, data),
        0 <= i < data.len(),
    ensures
        command_tail(before, after).len() == data.len() + 2,
        command_tail(before, after)[0] == start_word(address, false),
        command_tail(before, after)[i + 1] == transmit_word(data[i]),
        command_tail(before, after).last() == stop_word(),
        forall|j: int| before.len() <= j < after.len() && #[trigger] after[j] is WriteMtdr ==> room_at(after, j),
        received(after) == received(before),
{
    let words = seq![start_word(address, false)] + transmit_commands(data) + seq![stop_word()];
    assert(command_tail(before, after) =~= words);
    assert(received(after) =~= received(before));
}

/// An open read and the STOP behind it are a whole read: a driver that waits
/// by interrupt and one that polls put the same transaction on the bus.
pub proof fn a_stop_closes_an_open_read(
    before: Seq<Access>,
    open: Seq<Access>,
    after: Seq<Access>,
    address: u8,
    data: Seq<u8>,
    allow_chunks: bool,
)
    requires
        data.len() > 0,
        read_opened(before, open, address, data, allow_chunks),
        moved(open, after, seq![stop_word()], Seq::empty()),
    ensures
        read_closed(before, after, address, data, allow_chunks),
{
    lemma_read_closed(before, open, after, address, data, allow_chunks);
}

/// An open write and the STOP behind it are a whole write.
pub proof fn a_stop_closes_an_open_write(
    before: Seq<Access>,
    open: Seq<Access>,
    after: Seq<Access>,
    address: u8,
    data: Seq<u8>,
)
    requires
        write_opened(before, open, address, data),
        moved(open, after, seq![stop_word()], Seq::empty()),
    ensures
        write_transaction(before, after, address, data),
{
    let none = Seq::<u8>::empty();
    lemma_moved(
        before,
        open,
        after,
        seq![start_word(address, false)] + transmit_commands(data),
        seq![stop_word()],
        none,
        none,
    );
    assert(none + none =~= none);
}

// Waiting between the turns of an operation.

/// A controller on which nothing but waiting happened.
pub open spec fn only_waited<H>(before: &I2c<H>, after: &I2c<H>) -> bool {
    &&& after.same_setup(before)
    &&& after.session_open() == before.session_open()
    &&& kept_waiting(before.log(), after.log())
}

/// A read keeps its place while it waits, so that its next turn can go on.
pub proof fn waiting_keeps_a_read<H>(op: ReadTxn, before: &I2c<H>, after: &I2c<H>, read: Seq<u8>)
    requires
        op.fits(before, read),
        only_waited(before, after),
    ensures
        op.fits(after, read),
{
}

/// A write keeps its place while it waits.
pub proof fn waiting_keeps_a_write<H>(op: WriteTxn, before: &I2c<H>, after: &I2c<H>, write: Seq<u8>)
    requires
        op.fits(before, write),
        only_waited(before, after),
    ensures
        op.fits(after, write),
{
}

/// A STOP keeps its place while it waits.
pub proof fn waiting_keeps_a_stop<H>(op: StopOp, before: &I2c<H>, after: &I2c<H>)
    requires
        op.fits(before),
        only_waited(before, after),
    ensures
        op.fits(after),
{
}

/// A DMA read keeps its place while it waits or its channel is polled.
pub proof fn waiting_keeps_a_dma_read<H>(op: DmaReadTxn, before: &I2c<H>, after: &I2c<H>)
    requires
        op.fits(before),
        only_waited(before, after),
    ensures
        op.fits(after),
{
    if let DmaReadStage::Restarting(start, place) = op.stage {
        lemma_chunks_wait(op, before, after);
    }
    if let DmaReadStage::Seaming(stop, place) = op.stage {
        lemma_chunks_wait(op, before, after);
    }
}

proof fn lemma_chunks_wait<H>(op: DmaReadTxn, before: &I2c<H>, after: &I2c<H>)
    requires
        only_waited(before, after),
    ensures
        chain_too_long(op.attempts@.from, before.log(), op.length as int)
            ==> chain_too_long(op.attempts@.from, after.log(), op.length as int),
{
    let from = op.attempts@.from;
    if chain_too_long(from, before.log(), op.length as int) {
        let i = choose|i: int|
            {
                &&& from.len() <= i < before.log().len()
                &&& #[trigger] before.log()[i] is ReadParam
                &&& commands_of(op.length as int) > fifo_entries(before.log()[i]->ReadParam_0)
            };
        assert(after.log()[i] == before.log()[i]);
    }
}

/// A DMA write keeps its place while its channel is polled: polling hands no
/// byte to the channel.
pub proof fn polling_keeps_a_dma_write<H>(
    op: DmaWriteTxn,
    before: &I2c<H>,
    after: &I2c<H>,
    r: Option<DmaVerdict>,
)
    requires
        op.fits(before),
        only_waited(before, after),
        tx_dma_polled(before.log(), after.log(), r),
    ensures
        op.fits(after),
{
}

/// An exchange keeps its place while it waits.
pub proof fn waiting_keeps_an_exchange<H>(
    exchange: Exchange,
    before: &I2c<H>,
    after: &I2c<H>,
    ops: Seq<Operation>,
)
    requires
        exchange.fits(before, ops),
        only_waited(before, after),
        !(exchange.leg is Fresh),
        !(exchange.leg is Between),
    ensures
        exchange.fits(after, ops),
{
    match exchange.leg {
        Leg::Reading(op, place) => {
            waiting_keeps_a_read(op, before, after, ops[place as int]@->Read_0);
        },
        Leg::Writing(op, place) => {
            waiting_keeps_a_write(op, before, after, ops[place as int]@->Write_0);
        },
        Leg::Stopping(op, _) => {
            waiting_keeps_a_stop(op, before, after);
        },
        _ => {},
    }
}

/// A DMA exchange keeps its place while it waits or its channel is polled.
pub proof fn waiting_keeps_a_dma_exchange<H>(
    exchange: DmaExchange,
    before: &I2c<H>,
    after: &I2c<H>,
    ops: Seq<DmaOperation>,
    r: Option<DmaVerdict>,
)
    requires
        exchange.fits(before, ops),
        only_waited(before, after),
        !(exchange.leg is Fresh),
        !(exchange.leg is Between),
        exchange.leg matches DmaLeg::Writing(op, _) ==> (op.stage is Pouring ==> tx_dma_polled(
            before.log(),
            after.log(),
            r,
        )),
    ensures
        exchange.fits(after, ops),
{
    match exchange.leg {
        DmaLeg::Reading(op, _, _) => {
            waiting_keeps_a_dma_read(op, before, after);
        },
        DmaLeg::Writing(op, _) => {
            if op.stage is Pouring {
                polling_keeps_a_dma_write(op, before, after, r);
            }
        },
        DmaLeg::Stopping(op, _) => {
            waiting_keeps_a_stop(op, before, after);
        },
        _ => {},
    }
}

proof fn lemma_chain_of_one(before: Seq<Access>, after: Seq<Access>, op: Operation, address: u8, allow_chunks: bool)
    requires
        chain_opened(before, after, seq![op], address, allow_chunks),
    ensures
        operation_opened(before, after, op@, address, allow_chunks),
{
    let ops = seq![op];
    let mid = choose|mid: Seq<Access>|
        {
            &&& chain_opened(before, mid, ops.drop_last(), address, allow_chunks)
            &&& #[trigger] operation_opened(mid, after, ops.last()@, address, allow_chunks)
        };
    assert(ops.drop_last() =~= Seq::<Operation>::empty());
    assert(mid == before);
}

/// An exchange of one read is a read: it holds what came in, between one START
/// and one STOP, or in chunks where the caller allowed it.
pub proof fn an_exchange_of_one_read_is_a_read(
    before: Seq<Access>,
    after: Seq<Access>,
    op: Operation,
    data: Seq<u8>,
    address: u8,
    allow_chunks: bool,
)
    requires
        op@ == OperationView::Read(data),
        data.len() > 0,
        exchanged(before, after, seq![op], address, allow_chunks),
    ensures
        read_closed(before, after, address, data, allow_chunks),
{
    let open = choose|open: Seq<Access>|
        {
            &&& #[trigger] chain_opened(before, open, seq![op], address, allow_chunks)
            &&& moved(open, after, seq![stop_word()], Seq::empty())
        };
    lemma_chain_of_one(before, open, op, address, allow_chunks);
    lemma_read_closed(before, open, after, address, data, allow_chunks);
}

/// An exchange of one write is a write: START, every byte in order, STOP.
pub proof fn an_exchange_of_one_write_is_a_write(
    before: Seq<Access>,
    after: Seq<Access>,
    op: Operation,
    data: Seq<u8>,
    address: u8,
    allow_chunks: bool,
)
    requires
        op@ == OperationView::Write(data),
        exchanged(before, after, seq![op], address, allow_chunks),
    ensures
        write_transaction(before, after, address, data),
{
    let open = choose|open: Seq<Access>|
        {
            &&& #[trigger] chain_opened(before, open, seq![op], address, allow_chunks)
            &&& moved(open, after, seq![stop_word()], Seq::empty())
        };
    lemma_chain_of_one(before, open, op, address, allow_chunks);
    a_stop_closes_an_open_write(before, open, after, address, data);
}

/// An exchange of a write and a read is one transaction: the read follows the
/// write by a repeated START, with no STOP between them.
pub proof fn an_exchange_of_a_write_and_a_read_is_both(
    before: Seq<Access>,
    after: Seq<Access>,
    first: Operation,
    second: Operation,
    sent: Seq<u8>,
    data: Seq<u8>,
    address: u8,
    allow_chunks: bool,
)
    requires
        first@ == OperationView::Write(sent),
        second@ == OperationView::Read(data),
        data.len() > 0,
        exchanged(before, after, seq![first, second], address, allow_chunks),
    ensures
        exists|half: Seq<Access>|
            {
                &&& #[trigger] write_opened(before, half, address, sent)
                &&& read_closed(half, after, address, data, allow_chunks)
            },
{
    let ops = seq![first, second];
    let open = choose|open: Seq<Access>|
        {
            &&& #[trigger] chain_opened(before, open, ops, address, allow_chunks)
            &&& moved(open, after, seq![stop_word()], Seq::empty())
        };
    let half = choose|half: Seq<Access>|
        {
            &&& chain_opened(before, half, ops.drop_last(), address, allow_chunks)
            &&& #[trigger] operation_opened(half, open, ops.last()@, address, allow_chunks)
        };
    assert(ops.drop_last() =~= seq![first]);
    lemma_chain_of_one(before, half, first, address, allow_chunks);
    lemma_read_closed(half, open, after, address, data, allow_chunks);
    assert(write_opened(before, half, address, sent));
}

/// Without consent a DMA read is one transaction from START to STOP, unless
/// the command FIFO was found too small for it.
pub proof fn a_dma_read_is_one_transaction_unless_allowed(
    before: Seq<Access>,
    after: Seq<Access>,
    length: usize,
    address: u8,
)
    requires
        dma_exchanged(before, after, seq![DmaOperation::Read(length)], address, false),
    ensures
        chain_too_long(before, after, length as int) || handed_over(
            before,
            after,
            seq![start_word(address, true)] + receive_commands(length as nat) + seq![stop_word()],
            Direction::Rx,
            length as int,
        ),
{
    let ops = seq![DmaOperation::Read(length)];
    let none = Seq::<u8>::empty();
    let stop = seq![stop_word()];
    let words = seq![start_word(address, true)] + receive_commands(length as nat);
    let open = choose|open: Seq<Access>|
        {
            &&& #[trigger] dma_chain_opened(before, open, ops, address, false)
            &&& moved(open, after, stop, none)
        };
    let mid = choose|mid: Seq<Access>|
        {
            &&& dma_chain_opened(before, mid, ops.drop_last(), address, false)
            &&& #[trigger] dma_operation_opened(mid, open, ops.last(), address, false)
        };
    assert(ops.drop_last() =~= Seq::<DmaOperation>::empty());
    assert(mid == before);
    assert(checked_read_opened(before, open, address, length as nat, false));
    let checked = choose|checked: Seq<Access>|
        {
            &&& looked(before, checked)
            &&& #[trigger] dma_read_opened(checked, open, address, length as nat, false)
        };
    assert(none + none =~= none);
    if handed_over(checked, open, words, Direction::Rx, length as int) {
        let transfers = handed(open).skip(handed(checked).len() as int);
        let nothing = Seq::<(Direction, usize, usize)>::empty();
        lemma_moved_nothing(before, checked);
        lemma_moved_carried(before, checked, Seq::empty());
        lemma_carried(before, checked, open, Seq::empty(), words, nothing, transfers);
        assert(Seq::empty() + words =~= words);
        assert(nothing + transfers =~= transfers);
        assert(handed(open).skip(handed(before).len() as int) =~= transfers);
        lemma_over_moved(before, open, after, words, stop, Direction::Rx, length as int);
    } else {
        let i = choose|i: int|
            {
                &&& checked.len() <= i < open.len()
                &&& #[trigger] open[i] is ReadParam
                &&& commands_of(length as int) > fifo_entries(open[i]->ReadParam_0)
            };
        assert(after[i] == open[i]);
    }
}

/// A completed transfer is reported before a fault, and a fault before the
/// end of the bus transaction.
pub proof fn dma_completion_comes_first(before: Seq<Access>, after: Seq<Access>, r: Option<DmaVerdict>)
    requires
        rx_dma_polled(before, after, r),
    ensures
        entry(before, after, 0)->DmaIsDone_1 <==> r == Some(DmaVerdict::Complete),
        r == Some(DmaVerdict::UnexpectedStop) ==> status_error(entry(before, after, 2)->ReadMsr_0) is None,
        looked(before, after),
{
}

/// The chunks of a DMA transfer cover the buffer: each begins where the last
/// one ended, none is empty, none is longer than the engine can take, and
/// the last one ends with the buffer.
pub proof fn dma_chunks_cover_a_buffer(total: int, from: int, max_transfer: int)
    requires
        0 <= from < total,
        max_transfer > 0,
    ensures
        from < chunk_end_at(total, from, max_transfer) <= total,
        chunk_end_at(total, from, max_transfer) - from <= max_transfer,
        chunk_end_at(total, from, max_transfer) < total ==> chunk_end_at(total, from, max_transfer) - from
            == max_transfer,
{
}

/// The transfers of a DMA read fill its buffer, and those of a DMA write empty
/// it, in order and each byte once, behind whatever was given up before.
pub proof fn dma_transfers_cover_their_buffer(
    before: Seq<Access>,
    after: Seq<Access>,
    address: u8,
    len: nat,
    allow_chunks: bool,
)
    ensures
        dma_read_opened(before, after, address, len, allow_chunks) ==> covered_behind(
            after,
            Direction::Rx,
            len as int,
        ),
        dma_write_opened(before, after, address, len) ==> covered_behind(after, Direction::Tx, len as int),
{
    if dma_read_opened(before, after, address, len, allow_chunks) {
        if handed_over(before, after, read_commands(address, len), Direction::Rx, len as int) {
            assert(covered_from(before, after, Direction::Rx, len as int));
        } else {
            let a = choose|a: DmaAttempts|
                {
                    &&& a.from == before
                    &&& #[trigger] chunks_begin(a, after, address, len as int, allow_chunks)
                    &&& handed_over(a.base, after, chunked_commands(address, len), Direction::Rx, len as int)
                };
            assert(covered_from(a.base, after, Direction::Rx, len as int));
        }
    }
    if dma_write_opened(before, after, address, len) {
        let opened = choose|opened: Seq<Access>|
            {
                &&& #[trigger] moved(before, opened, seq![start_word(address, false)], Seq::empty())
                &&& handed_over(opened, after, Seq::empty(), Direction::Tx, len as int)
            };
        assert(covered_from(opened, after, Direction::Tx, len as int));
    }
}

/// The transfers between `base` and `after` cover a buffer of `len` bytes.
pub open spec fn covered_from(base: Seq<Access>, after: Seq<Access>, way: Direction, len: int) -> bool {
    extends(base, after) && tiles(way, handed(after).skip(handed(base).len() as int), len)
}

/// The last transfers cover a buffer of `len` bytes.
pub open spec fn covered_behind(after: Seq<Access>, way: Direction, len: int) -> bool {
    exists|base: Seq<Access>| #[trigger] covered_from(base, after, way, len)
}

// The target.

/// The sources that a target's interrupt word enables and that a snapshot
/// raises. No wait tests a flag of a per-address source, so one that is
/// enabled counts as raised at any time.
pub open spec fn target_raised(armed: Sier, ssr: Ssr) -> bool {
    ||| armed.am0ie
    ||| armed.am1ie
    ||| armed.tdie && ssr.tdf
    ||| armed.rdie && ssr.rdf
    ||| armed.avie && ssr.avf
    ||| armed.rsie && ssr.rsf
    ||| armed.sdie && ssr.sdf
    ||| armed.beie && ssr.bef
    ||| armed.feie && ssr.fef
    ||| armed.gcie && ssr.gcf
    ||| armed.sarie && ssr.sarf
}

/// Each of the target's waits arms exactly the sources that end it. A listen
/// that has general calls and alerts switched off still ends for one that it
/// happens to see.
pub proof fn target_waits_arm_what_ends_them(ssr: Ssr, general_call: bool, smbus_alert: bool)
    ensures
        target_raised(Sier::receive(), ssr) <==> rx_wakes(ssr),
        target_raised(Sier::transmit(), ssr) <==> tx_wakes(ssr),
        target_raised(Sier::terminations(), ssr) <==> dma_wakes(ssr),
        target_raised(Sier::listen(general_call, smbus_alert), ssr) ==> listen_wakes(ssr),
        target_raised(Sier::listen(true, true), ssr) <==> listen_wakes(ssr),
        !target_raised(Sier::none(), ssr),
{
}

/// The wake predicates and the steps of the target agree.
pub proof fn target_wakes_match_their_steps(
    before: Seq<Access>,
    after: Seq<Access>,
    r: Option<TargetRxEvent>,
    ssr: Ssr,
)
    requires
        rx_event_ran(before, after, r),
    ensures
        r is Some <==> rx_wakes(entry(before, after, 0)->ReadSsr_0),
        tx_step_of(ssr) is Some <==> tx_wakes(ssr),
{
}

/// The target hands out data before it reports a fault or a termination, and
/// it queues nothing behind either.
pub proof fn target_data_comes_first_and_room_last(
    before: Seq<Access>,
    after: Seq<Access>,
    r: Option<TargetRxEvent>,
    ssr: Ssr,
)
    requires
        rx_event_ran(before, after, r),
    ensures
        (entry(before, after, 0)->ReadSsr_0).rdf ==> r is Some && r->Some_0 is Byte,
        tx_step_of(ssr) == Some(TargetTxStep::Room) ==> fault_of(ssr) is None && !ssr.sdf && !ssr.rsf && ssr.tdf,
{
}

/// A listen clears the flags that it saw and no others: one that is raised
/// between the look and the write survives.
pub proof fn a_listen_clears_only_what_it_saw(before: Seq<Access>, after: Seq<Access>, r: ListenEvent)
    requires
        listen_event_ran(before, after, r),
    ensures
        after.len() >= before.len() + 2,
        entry(before, after, 1) is WriteSsr,
        ({
            let saw = entry(before, after, 0)->ReadSsr_0;
            let cleared = entry(before, after, 1)->WriteSsr_0;
            &&& (cleared.rsf ==> saw.rsf)
            &&& (cleared.sdf ==> saw.sdf)
            &&& (cleared.bef ==> saw.bef)
            &&& (cleared.fef ==> saw.fef)
        }),
{
}

/// A listen that was woken never comes back empty-handed.
pub proof fn a_woken_listen_has_an_event(before: Seq<Access>, after: Seq<Access>, r: ListenEvent)
    requires
        listen_event_ran(before, after, r),
        listen_wakes(entry(before, after, 0)->ReadSsr_0),
    ensures
        r != ListenEvent::Nothing,
        request_of(event_of(r)) == Err::<Request, IOError>(IOError::Other) ==> r == ListenEvent::TransmitAck,
{
}

/// The direction of a request is the lowest bit of the address word, and its
/// address is the rest: no two words announce the same request.
pub proof fn requests_tell_address_words_apart(a: u16, b: u16)
    requires
        addressed_request(a) == addressed_request(b),
    ensures
        a == b,
{
}

/// A byte that waits behind a full chunk outranks the termination: the
/// termination stays latched for the follow-up, and no byte is lost.
pub proof fn residue_outranks_termination(ssr: Ssr, chunk_full: bool)
    requires
        ssr.rdf,
        chunk_full,
        fault_of(ssr) is None,
    ensures
        rx_chunk_end_of(ssr, chunk_full) == RxChunkEnd::ResiduePending,
{
}

/// A chunk is reported as ended only where no data is left behind.
pub proof fn an_ended_chunk_left_nothing_behind(ssr: Ssr)
    requires
        rx_chunk_end_of(ssr, true) == RxChunkEnd::Stopped || rx_chunk_end_of(ssr, true) == RxChunkEnd::Restarted,
    ensures
        !ssr.rdf,
        fault_of(ssr) is None,
{
}

/// A response that filled its buffer and the response that follows it take
/// the bytes of one write: what the two buffers hold is what came in, in
/// order and without a gap.
pub proof fn a_follow_up_loses_no_byte(
    before: Seq<Access>,
    mid: Seq<Access>,
    after: Seq<Access>,
    given: Seq<u8>,
    first: Seq<u8>,
    more: Seq<u8>,
    second: Seq<u8>,
    r: Result<WriteStatus, IOError>,
)
    requires
        write_answered(before, mid, given, first, Ok(WriteStatus::BufferFull(first.len() as usize))),
        first.len() <= usize::MAX,
        write_answered(mid, after, more, second, r),
    ensures
        taken(after) == taken(before) + (first + second.take(taken_count(mid, after))),
        (r matches Ok(WriteStatus::Stopped(n)) ==> n == taken_count(mid, after)),
{
    assert(first.take(first.len() as int) =~= first);
    assert(taken(before) + first + second.take(taken_count(mid, after)) =~= taken(before) + (first + second.take(
        taken_count(mid, after),
    )));
}

/// A response to a read that needs more and the response that follows it send
/// one stream: the whole first buffer, then the beginning of the second.
pub proof fn a_continued_read_is_one_stream(
    before: Seq<Access>,
    mid: Seq<Access>,
    after: Seq<Access>,
    first: Seq<u8>,
    second: Seq<u8>,
    n: usize,
    r: Result<ReadStatus, IOError>,
)
    requires
        read_answered(before, mid, first, Ok(ReadStatus::NeedMore(n))),
        read_answered(mid, after, second, r),
    ensures
        sent(after) == sent(before) + (first + second.take(queued_count(mid, after))),
{
    let count = queued_count(mid, after);
    assert(first.take(first.len() as int) =~= first);
    assert(sent(before) + first + second.take(count) =~= sent(before) + (first + second.take(count)));
}

/// The steps of an interrupt-driven response to a read send the buffer in
/// order, one byte at a time and none twice, and the count that it ends with
/// is the count of the bytes sent.
pub proof fn read_steps_send_the_buffer_in_order(
    from: Seq<Access>,
    before: Seq<Access>,
    after: Seq<Access>,
    buf: Seq<u8>,
    count: usize,
    waited: Option<WaitOutcome>,
    r: Progress<Result<ReadStatus, IOError>>,
)
    requires
        read_step_ran(before, after, buf, count as int, waited, r),
        count <= buf.len() <= usize::MAX,
        sent(before) == sent(from) + buf.take(count as int),
    ensures
        r matches Progress::Wait(next) ==> {
            &&& count <= next <= buf.len()
            &&& sent(after) == sent(from) + buf.take(next as int)
        },
        r is Done ==> sent(after) == sent(before),
        r matches Progress::Done(Ok(ReadStatus::Complete(n))) ==> n == count && n == buf.len(),
        r matches Progress::Done(Ok(ReadStatus::EarlyStop(n))) ==> n == count && n < buf.len(),
        r matches Progress::Done(Ok(ReadStatus::NeedMore(n))) ==> n == count && n == buf.len(),
{
    if count < buf.len() {
        assert(buf.take(count + 1) =~= buf.take(count as int).push(buf[count as int]));
        assert((sent(from) + buf.take(count as int)).push(buf[count as int]) =~= sent(from) + buf.take(count + 1));
    }
}

/// The steps of an interrupt-driven response to a write fill the buffer in
/// order with what came in, and the count that it ends with is the count of
/// the bytes received.
pub proof fn write_steps_fill_the_buffer_in_order(
    from: Seq<Access>,
    before: Seq<Access>,
    after: Seq<Access>,
    given: Seq<u8>,
    buf: Seq<u8>,
    count: usize,
    waited: Option<WaitOutcome>,
    r: Progress<Result<WriteStatus, IOError>>,
)
    requires
        write_step_ran(before, after, given, buf, count as int, waited, r),
        count <= given.len() <= usize::MAX,
        waited is Some ==> count < given.len(),
        taken(before) == taken(from) + given.take(count as int),
    ensures
        r matches Progress::Wait(next) ==> next < buf.len() && taken(after) == taken(from) + buf.take(next as int),
        r matches Progress::Done(Ok(WriteStatus::Stopped(n))) ==> taken(after) == taken(from) + buf.take(n as int),
        r matches Progress::Done(Ok(WriteStatus::Restarted(n))) ==> taken(after) == taken(from) + buf.take(n as int),
        r matches Progress::Done(Ok(WriteStatus::BufferFull(n))) ==> n == buf.len() && taken(after) == taken(from)
            + buf,
{
    let byte = entry(before, after, 1)->ReadSrdr_0;
    assert(given.take(given.len() as int) =~= given);
    assert(buf.take(buf.len() as int) =~= buf);
    if count < given.len() {
        let next = given.update(count as int, byte.data);
        assert(next.take(count + 1) =~= given.take(count as int).push(byte.data));
        assert((taken(from) + given.take(count as int)).push(byte.data) =~= taken(from) + next.take(count + 1));
    }
}

/// A target answers for exactly the addresses that can be represented and
/// are of one width: everything else is rejected before the hardware is
/// touched.
pub proof fn valid_addresses_are_representable_and_of_one_width(address: Address)
    ensures
        address matches Address::Single(a) ==> (address.plan() is Some <==> a <= 0x3ff),
        address matches Address::Dual(a, b) ==> (address.plan() is Some <==> (a <= 0x7f && b <= 0x7f) || (0x80 <= a
            <= 0x3ff && 0x80 <= b <= 0x3ff)),
        address matches Address::Range(range) ==> (address.plan() is Some <==> range.start < range.end && (range.end
            <= 0x80 || (0x80 <= range.start && range.end <= 0x400))),
{
}

/// The match registers hold the addresses of the plan: both fit their
/// ten-bit fields, and a range is programmed by its first and last address.
pub proof fn planned_addresses_fit_their_fields(address: Address)
    requires
        address.plan() is Some,
    ensures
        match_word(address.plan()->Some_0).addr0 <= 0x3ff,
        match_word(address.plan()->Some_0).addr1 <= 0x3ff,
        address matches Address::Range(range) ==> {
            &&& match_word(address.plan()->Some_0).addr0 == range.start
            &&& match_word(address.plan()->Some_0).addr1 == range.end - 1
        },
{
}

/// The data-valid delay always fits its six-bit field and is never zero.
pub proof fn the_data_valid_delay_fits(frequency: u32)
    ensures
        1 <= data_valid_delay(frequency) <= 63,
{
}

// Timing.

/// The timing fields fit the registers, whatever clock and rate they are
/// computed for.
pub proof fn timing_fields_fit(src_hz: int, baud_hz: int, p: Prescale, cycles: int)
    requires
        0 <= src_hz,
        0 < baud_hz,
    ensures
        0 <= timing(src_hz, baud_hz, p, cycles).0 < 64,
        0 <= timing(src_hz, baud_hz, p, cycles).1 < 64,
        0 <= timing(src_hz, baud_hz, p, cycles).2 < 64,
        0 <= timing(src_hz, baud_hz, p, cycles).3 < 256,
{
}

/// The low phase keeps the bus free for about 0.52 of the period: it falls
/// short of that by one cycle at most, or leaves the high phase no more than
/// one cycle.
pub proof fn the_low_phase_keeps_the_bus_free_time(src_hz: int, baud_hz: int, p: Prescale, cycles: int)
    requires
        0 <= src_hz,
        0 < baud_hz,
        0 <= cycles,
    ensures
        0 <= high_cycles(src_hz, baud_hz, p, cycles) <= cycles,
        ({
            let low = cycles - high_cycles(src_hz, baud_hz, p, cycles);
            let bus_free = 13 * src_hz / baud_hz / p.divider() / 25;
            low >= bus_free - 1 || low >= cycles - 1
        }),
{
}

proof fn lemma_quotient(x: int, q: int, k: int)
    requires
        0 <= x,
        0 < q,
        0 <= k,
    ensures
        x / q <= k <==> x < (k + 1) * q,
{
    assert(x / q <= k <==> x < (k + 1) * q) by (nonlinear_arith)
        requires
            0 <= x,
            0 < q,
            0 <= k,
    ;
}

/// The phases of a period of `cycles` cycles, of which `bus_free / 25` are to
/// stay free, fit their fields.
proof fn lemma_phases_fit(cycles: int, latency: int, bus_free: int)
    requires
        0 <= latency <= 2,
        0 < cycles <= 120 - latency,
        0 <= bus_free <= 1592,
    ensures
        ({
            let half = at_least_zero(cycles - latency) / 2;
            let limit = at_least_zero(cycles - bus_free / 25) + 1;
            let high = if half > limit {
                limit
            } else {
                half
            };
            0 <= high < 64 && 0 <= cycles - high < 64
        }),
{
}

/// A period of at most 122 cycles bounds everything that is derived from the
/// ratio of the two rates.
proof fn lemma_ratio_bounds(src_hz: int, baud_hz: int, d: int)
    requires
        0 <= src_hz,
        0 < baud_hz,
        0 < d,
        10 * src_hz / d / baud_hz <= 1224,
    ensures
        0 <= 13 * src_hz / baud_hz / d <= 1592,
        0 <= src_hz / baud_hz / d <= 122,
{
    let q = baud_hz * d;
    assert(0 < q && d * baud_hz == q) by (nonlinear_arith)
        requires
            0 < baud_hz,
            0 < d,
            q == baud_hz * d,
    ;
    lemma_div_denominator(10 * src_hz, d, baud_hz);
    lemma_div_denominator(13 * src_hz, baud_hz, d);
    lemma_div_denominator(src_hz, baud_hz, d);
    lemma_quotient(10 * src_hz, q, 1224);
    assert(13 * src_hz < (1592 + 1) * q && src_hz < (122 + 1) * q) by (nonlinear_arith)
        requires
            10 * src_hz < (1224 + 1) * q,
            0 < q,
    ;
    lemma_quotient(13 * src_hz, q, 1592);
    lemma_quotient(src_hz, q, 122);
    lemma_div_pos_is_pos(13 * src_hz, q);
    lemma_div_pos_is_pos(src_hz, q);
}

proof fn lemma_latency(p: Prescale)
    ensures
        0 <= scl_latency(p) <= 2,
        0 < p.divider(),
{
    match p {
        Prescale::DivideBy1 => {},
        _ => {},
    }
}

/// A prescaler is viable only where no timing field is cut: the fields are
/// then the phases themselves.
#[verifier::spinoff_prover]
pub proof fn a_viable_period_is_not_cut(src_hz: int, baud_hz: int, p: Prescale)
    requires
        0 <= src_hz,
        0 < baud_hz,
        viable(src_hz, baud_hz, p),
    ensures
        ({
            let cycles = clk_cycles(src_hz, baud_hz, p);
            let high = high_cycles(src_hz, baud_hz, p, cycles);
            let period = src_hz / baud_hz / p.divider();
            timing(src_hz, baud_hz, p, cycles) == (
                cycles - high,
                high,
                at_least_zero(period / 2 - 1),
                at_least_zero(period / 4 - 1),
            )
        }),
{
    lemma_latency(p);
    let d = p.divider();
    let cycles = clk_cycles(src_hz, baud_hz, p);
    let tenths = 10 * src_hz / d / baud_hz;
    assert(cycles == (tenths + 5) / 10 - (scl_latency(p) + 2));
    assert(tenths <= 1224);
    lemma_ratio_bounds(src_hz, baud_hz, d);
    lemma_phases_fit(cycles, scl_latency(p), 13 * src_hz / baud_hz / d);
}

// The bus clear.

/// A bus clear that succeeds has seen SDA high at its very end.
pub proof fn a_cleared_bus_has_sda_high(before: Seq<LineEvent>, after: Seq<LineEvent>)
    requires
        clear_ran(before, after, Ok(())),
    ensures
        after.len() > 0,
        after.last() == LineEvent::Sda(true),
{
    let released = before.push(LineEvent::ReleaseScl).push(LineEvent::ReleaseSda);
    let free = choose|free: Seq<LineEvent>| #[trigger]
        scl_waited(released, free, true) && clear_ran_on(free, after, Ok(()));
    if after != free.push(LineEvent::Sda(true)) {
        let done = choose|done: Seq<LineEvent>|
            {
                &&& #[trigger] clocking_ran(free.push(LineEvent::Sda(false)), done, true)
                &&& {
                    ||| after == done.push(LineEvent::Sda(false)) && Ok::<(), BusClearError>(()) == Err::<
                        (),
                        BusClearError,
                    >(BusClearError::SdaHeldLow)
                    ||| stop_ran(done.push(LineEvent::Sda(true)), after, Ok(()))
                }
            };
        assert(stop_ran(done.push(LineEvent::Sda(true)), after, Ok(())));
    }
}

} // verus!
