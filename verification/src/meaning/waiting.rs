//! What a controller waits for and for how long, and why a transfer failed, told
//! by ticks and flags.

use vstd::arithmetic::power2::pow2;
use vstd::prelude::*;

use crate::controller::asynch::{
    due, out_of_time, turn_failed, wait_error, Limit, StartOp, StopOp, Wait, STOP_BACKOFF_MICROS, STOP_YIELDS,
};
use crate::controller::dma::{dma_failed, rx_dma_polled, tx_dma_polled, DmaVerdict};
use crate::controller::dma_txn::{DmaReadStage, DmaReadTxn, DmaWriteStage, DmaWriteTxn};
use crate::controller::stream::Sending;
use crate::controller::txn::{chunk_end, ReadTxn};
use crate::controller::{io_error, IOError};
use crate::controller_registers::status_error;
use crate::lpi2c_regs::{Access, Direction};
use crate::meaning::flags::{a_fault_goes_by_its_own_name, clean, the_command_fifo_has_a_power_of_two_entries};
use crate::session::{idle_check_ran, tick_read, IDLE_WINDOW};
use crate::ticks::{deadline, TICK_HZ};
use crate::trace::{commands, entry, received};
use crate::transfer::{
    data_at, empty_at, failed, fault_seen, full_at, is_look, pending_at, room_at,
};
use crate::wait::WaitOutcome;
use crate::words::{Mier, Mtdr};

verus! {

broadcast use crate::trace::group_trace;

// How long is waited.

/// A tick is a microsecond; an idle engine is watched for half a millisecond,
/// and a STOP for 64 turns before the pauses of a tenth of a millisecond begin.
pub proof fn spans_in_microseconds()
    ensures
        TICK_HZ == 1_000_000,
        IDLE_WINDOW * 2_000 == TICK_HZ,
        STOP_BACKOFF_MICROS * 10_000 == TICK_HZ,
        STOP_YIELDS == 64,
{
}

/// A wait that ran out is a timeout, one whose cell was closed is what that
/// means to the operation, and every other goes on.
pub proof fn a_failed_wait_has_its_error(closed: IOError)
    ensures
        wait_error(Some(WaitOutcome::TimedOut), closed) == Some(IOError::Timeout),
        wait_error(Some(WaitOutcome::Closed), closed) == Some(closed),
        wait_error(Some(WaitOutcome::Woken), closed) is None,
        wait_error(None, closed) is None,
{
}

/// A START waits for room for the whole budget, and then for its settling for
/// what is left of its time.
pub proof fn a_start_waits_for_its_time(
    op: StartOp,
    wait: Wait,
    before: Seq<Access>,
    log: Seq<Access>,
    timeout: u64,
)
    requires
        op.waits_for(wait, before, log, timeout),
    ensures
        match op.end() {
            None => wait == Wait::TxRoom(timeout),
            Some(end) => {
                &&& log.last() matches Access::Now(now) && now < end
                &&& wait matches Wait::TxSettle(ticks) && log.last()->Now_0 + ticks == end
            },
        },
{
}

/// A STOP waits for room and for its way out of the FIFO for the whole budget,
/// and then only in pauses that do not reach past its time.
pub proof fn a_stop_waits_for_its_time(op: StopOp, wait: Wait, before: Seq<Access>, log: Seq<Access>, timeout: u64)
    requires
        op.waits_for(wait, before, log, timeout),
    ensures
        match op {
            StopOp::Unqueued(_) => wait == Wait::TxRoom(timeout),
            StopOp::Pulling(_, _) => wait == Wait::TxSettle(timeout),
            StopOp::Completing(_, end, _) => {
                &&& log.last() matches Access::Now(now) && now <= end
                &&& wait is Yield || (wait matches Wait::Sleep(ticks) && 0 < ticks <= 100 && log.last()->Now_0 + ticks
                    <= end)
            },
        },
{
}

/// A byte waits for room, and to leave the FIFO, for the whole budget; so does
/// a read for its data, and a DMA transfer for a millisecond more for each of
/// its bytes.
pub proof fn data_waits_for_the_whole_budget(
    sending: Sending,
    read: ReadTxn,
    dma_read: DmaReadTxn,
    dma_write: DmaWriteTxn,
    wait: Wait,
    before: Seq<Access>,
    log: Seq<Access>,
    timeout: u64,
)
    ensures
        sending.waits_for(wait, before, log, timeout) ==> wait == if sending.queued {
            Wait::TxSettle(timeout)
        } else {
            Wait::TxRoom(timeout)
        },
        read.waits_for(wait, before, log, timeout) && (read.stage is Chained || read.stage is Chunk) ==> wait
            == Wait::Rx(timeout),
        dma_read.waits_for(wait, before, log, timeout) ==> match dma_read.stage {
            DmaReadStage::Chained(op) | DmaReadStage::Chunk(op) => {
                op.from <= op.to && timeout + 1_000 * (op.to - op.from) <= u64::MAX ==> (wait matches Wait::RxDma(ticks)
                    && ticks == timeout + 1_000 * (op.to - op.from))
            },
            _ => true,
        },
        dma_write.waits_for(wait, before, log, timeout) ==> match dma_write.stage {
            DmaWriteStage::Pouring(op) => {
                op.from <= op.to && timeout + 1_000 * (op.to - op.from) <= u64::MAX ==> (wait matches Wait::TxDma(ticks)
                    && ticks == timeout + 1_000 * (op.to - op.from))
            },
            _ => true,
        },
{
}

/// An engine counts as stuck once it was seen idle with commands queued for
/// more than half a millisecond. Any other look starts the count anew.
pub proof fn an_idle_engine_is_watched_for_half_a_millisecond(
    before: Seq<Access>,
    after: Seq<Access>,
    since: Option<u64>,
    r: (bool, Option<u64>),
)
    requires
        idle_check_ran(before, after, since, r),
    ensures
        entry(before, after, 0) is ReadMsr,
        ({
            let busy = (entry(before, after, 0)->ReadMsr_0).mbf;
            let queued = (entry(before, after, 1)->ReadMfsr_0).txcount;
            let now = entry(before, after, 2)->Now_0;
            &&& busy || queued == 0 ==> !r.0 && r.1 is None
            &&& !busy && queued > 0 ==> entry(before, after, 2) is Now
            &&& !busy && queued > 0 && since is None ==> !r.0 && r.1 == Some(now)
            &&& !busy && queued > 0 && since is Some ==> r.1 == since && (r.0 <==> now - since->Some_0 > 500)
        }),
{
}

/// A turn times out only with a tick that its deadline does not lie behind: the
/// one it was given, or one of its own that began with an earlier tick of the
/// turn.
pub proof fn a_turn_times_out_past_its_deadline(
    before: Seq<Access>,
    log: Seq<Access>,
    limit: Limit,
    all: Seq<Mtdr>,
)
    requires
        turn_failed(before, log, limit, all, IOError::Timeout),
    ensures
        log.last() is Now,
        match limit {
            Limit::Untimed => false,
            Limit::Until(end) => log.last()->Now_0 >= end,
            Limit::Within(budget) => exists|i: int|
                {
                    &&& before.len() <= i < log.len()
                    &&& #[trigger] log[i] is Now
                    &&& log[i]->Now_0 + budget <= u64::MAX ==> log.last()->Now_0 >= log[i]->Now_0 + budget
                },
        },
{
    if let Limit::Within(budget) = limit {
        let end = choose|end: u64| #[trigger]
            due(before, log, budget, end) && out_of_time(log, end);
        let start = choose|start: u64| #[trigger]
            tick_read(before, log, start) && end == deadline(start, budget);
        let i = choose|i: int| before.len() <= i < log.len() && #[trigger] log[i] == Access::Now(start);
        assert(log[i] is Now);
    }
}

/// A chunk of a read ends 256 bytes behind its beginning, or with the buffer.
pub proof fn a_chunk_holds_256_bytes(len: int, place: int)
    requires
        0 <= place < len,
    ensures
        place < chunk_end(len, place) <= len,
        chunk_end(len, place) - place <= 256,
        chunk_end(len, place) < len ==> chunk_end(len, place) - place == 256,
{
}

// What a look found, and why a transfer failed.

/// A look moves nothing: it queues nothing, pops nothing, and clears no fault
/// but a lost arbitration alone.
pub proof fn a_look_moves_nothing(log: Seq<Access>, a: Access)
    requires
        is_look(a),
    ensures
        commands(log.push(a)) == commands(log),
        received(log.push(a)) == received(log),
        !(a is ResolveHalt) && !(a is TerminatePinLow) && !(a is ResetEngine) && !(a is ApplySetup) && !(a is WriteMcr)
            && !(a is RecoveryBegin),
        a matches Access::WriteMsr(word) ==> clean(word) || (word.alf && !word.ndf && !word.fef && !word.pltf
            && !word.epf && !word.sdf),
{
    if let Access::WriteMsr(word) = a {
        a_fault_goes_by_its_own_name(word);
    }
}

/// What the looks of a transfer found, by their levels and flags.
pub proof fn looks_found_what_they_say(log: Seq<Access>, n: int)
    ensures
        room_at(log, n) ==> {
            &&& log[n - 3] matches Access::ReadMsr(status) && clean(status)
            &&& log[n - 2] matches Access::ReadMfsr(fifo) && log[n - 1] matches Access::ReadParam(param)
                && fifo.txcount < pow2((param.mtxfifo % 16) as nat)
        },
        full_at(log, n) ==> {
            &&& log[n - 3] matches Access::ReadMsr(status) && clean(status)
            &&& log[n - 2] matches Access::ReadMfsr(fifo) && log[n - 1] matches Access::ReadParam(param)
                && fifo.txcount >= pow2((param.mtxfifo % 16) as nat)
        },
        data_at(log, n) ==> (log[n - 1] matches Access::ReadMfsr(fifo) && fifo.rxcount > 0),
        empty_at(log, n) ==> {
            &&& log[n - 3] matches Access::ReadMfsr(fifo) && fifo.rxcount == 0
            &&& log[n - 2] matches Access::ReadMsr(status) && clean(status)
            &&& log[n - 1] matches Access::ReadMsr(end) && !(end.epf && !end.mbf)
        },
        pending_at(log, n) ==> {
            &&& log[n - 2] matches Access::ReadMsr(status) && clean(status)
            &&& log[n - 1] matches Access::ReadMfsr(fifo) && (fifo.txcount > 0 || (log[n - 2]->ReadMsr_0).mbf)
        },
{
    if 3 <= n <= log.len() {
        a_fault_goes_by_its_own_name(log[n - 3]->ReadMsr_0);
        the_command_fifo_has_a_power_of_two_entries(log[n - 1]->ReadParam_0);
    }
    if 2 <= n <= log.len() {
        a_fault_goes_by_its_own_name(log[n - 2]->ReadMsr_0);
    }
}

/// A transfer that failed names its reason: a fault that the last status shows,
/// a packet that ended without data, or a FIFO that was full for its first
/// command.
pub proof fn a_failed_transfer_names_its_reason(
    before: Seq<Access>,
    log: Seq<Access>,
    timeout: u64,
    all: Seq<Mtdr>,
    error: IOError,
)
    requires
        failed(before, log, timeout, all, error),
    ensures
        fault_seen(log, error) ==> {
            let status = log.last()->ReadMsr_0;
            &&& log.last() is ReadMsr
            &&& error == IOError::AddressNack <==> status.ndf
            &&& error == IOError::ArbitrationLoss <==> !status.ndf && status.alf
            &&& error == IOError::FifoError <==> !status.ndf && !status.alf && status.fef
            &&& error == IOError::PinLowTimeout <==> !status.ndf && !status.alf && !status.fef && status.pltf
        },
        error == IOError::UnexpectedStop ==> {
            let n = log.len() as int;
            &&& n >= 3
            &&& log[n - 3] matches Access::ReadMfsr(fifo) && fifo.rxcount == 0
            &&& log[n - 2] matches Access::ReadMsr(status) && clean(status)
            &&& log[n - 1] matches Access::ReadMsr(end) && end.epf && !end.mbf
        },
        error == IOError::Other ==> {
            let n = log.len() as int;
            &&& n >= 2
            &&& log[n - 2] matches Access::ReadMfsr(fifo) && log[n - 1] matches Access::ReadParam(param)
                && fifo.txcount >= pow2((param.mtxfifo % 16) as nat)
        },
        error == IOError::Timeout ==> log.last() is Now,
        !(error is AddressOutOfRange) && error != IOError::ChunkingRequired && error != IOError::ReadFail && error
            != IOError::WriteFail && error != IOError::InvalidReadBufferLength && error
            != IOError::InvalidWriteBufferLength,
{
    let n = log.len() as int;
    if n > 0 {
        a_fault_goes_by_its_own_name(log.last()->ReadMsr_0);
        the_command_fifo_has_a_power_of_two_entries(log.last()->ReadParam_0);
    }
    if n > 1 {
        a_fault_goes_by_its_own_name(log[n - 2]->ReadMsr_0);
    }
}

/// A look at a DMA transfer tells whether it is done, and otherwise a fault by
/// the status, and for a receive transfer whether the packet ended.
pub proof fn a_look_at_a_transfer_tells_what_it_saw(
    before: Seq<Access>,
    after: Seq<Access>,
    r: Option<DmaVerdict>,
)
    ensures
        rx_dma_polled(before, after, r) ==> {
            let status = entry(before, after, 2)->ReadMsr_0;
            let end = entry(before, after, 3)->ReadMsr_0;
            &&& entry(before, after, 0) matches Access::DmaIsDone(way, done) && way == Direction::Rx && (done <==> r
                == Some(DmaVerdict::Complete))
            &&& r != Some(DmaVerdict::Complete) ==> entry(before, after, 1) == Access::WriteMier(Mier::errors())
            &&& r != Some(DmaVerdict::Complete) ==> (r is Some && r->Some_0 is Fault <==> !clean(status))
            &&& r == Some(DmaVerdict::UnexpectedStop) ==> end.epf && !end.mbf
            &&& r is None ==> clean(status) && !(end.epf && !end.mbf)
        },
        tx_dma_polled(before, after, r) ==> {
            let status = entry(before, after, 2)->ReadMsr_0;
            &&& entry(before, after, 0) matches Access::DmaIsDone(way, done) && way == Direction::Tx && (done <==> r
                == Some(DmaVerdict::Complete))
            &&& r != Some(DmaVerdict::Complete) ==> entry(before, after, 1) == Access::WriteMier(Mier::errors())
            &&& r != Some(DmaVerdict::Complete) ==> (r is Some <==> !clean(status))
            &&& r is Some && r != Some(DmaVerdict::Complete) ==> r == Some(
                DmaVerdict::Fault(status_error(status)->Some_0),
            )
        },
{
    a_fault_goes_by_its_own_name(entry(before, after, 2)->ReadMsr_0);
}

/// A DMA transfer that failed names its reason.
pub proof fn a_failed_dma_transfer_names_its_reason(
    before: Seq<Access>,
    quiet: Seq<Access>,
    log: Seq<Access>,
    direction: Direction,
    length: usize,
    moved: usize,
    verdict: Option<DmaVerdict>,
    error: IOError,
)
    requires
        dma_failed(before, quiet, log, direction, length, moved, verdict, error),
    ensures
        verdict is None <==> error == IOError::Timeout,
        verdict == Some(DmaVerdict::UnexpectedStop) <==> error == IOError::UnexpectedStop,
        verdict matches Some(DmaVerdict::Fault(fault)) ==> error == io_error(fault),
{
}

} // verus!
