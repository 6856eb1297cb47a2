//! What the status flags, the interrupt sources and the FIFO levels of a
//! controller come to, and what a port is given.

use vstd::arithmetic::power2::{lemma2_to64, pow2};
use vstd::prelude::*;

use crate::answers::{ends_completed, ends_settled};
use crate::controller::{error_kind, io_error, ErrorKind, IOError};
use crate::controller_registers::{
    active_fault_ran, arbitration_scrub, controller_dma_armed, controller_dma_finished, enqueue_ran, fault_retained,
    fifo_entries, final_status_ran, halt_resolved, recovery_close_ran, recovery_fault, recovery_settled_ran,
    rx_ready_ran, rx_step_ran, slate_cleaned, start_drain_ran, status_error, stop_poll_ran, tx_room_step_ran,
    tx_settled_ran, CommandStep, ControllerStatusError, HaltResolution, HaltStep, RecoveryClose, RetainedFault, RxStep,
    StartDrainStep, StopVerdict, TxStep,
};
use crate::controller::dma::commands_of;
use crate::lpi2c_regs::{
    layout_agrees, Access, ControllerPort, Direction, DmaPort, LpI2cRegisters, MappedAddresses, TargetPort,
};
use crate::session::{close_of, fault_shape, Abort, SessionPhase};
use crate::trace::entry;
use crate::transfer::retryable;
use crate::unwired::Unwired;
use crate::words::{ControllerCommand, Mcfgr1, Mfsr, Mier, Msr, Mtdr, Param, Ssr};

verus! {

// Status.

/// A status without a fault.
pub open spec fn clean(msr: Msr) -> bool {
    !msr.ndf && !msr.alf && !msr.fef && !msr.pltf
}

/// Every fault goes to the caller by its own name; of several, a NACK before a
/// lost arbitration, that before a FIFO error, and a line held low last.
pub proof fn a_fault_goes_by_its_own_name(msr: Msr)
    ensures
        clean(msr) <==> status_error(msr) is None,
        msr.ndf ==> io_error(status_error(msr)->Some_0) == IOError::AddressNack,
        !msr.ndf && msr.alf ==> io_error(status_error(msr)->Some_0) == IOError::ArbitrationLoss,
        !msr.ndf && !msr.alf && msr.fef ==> io_error(status_error(msr)->Some_0) == IOError::FifoError,
        !msr.ndf && !msr.alf && !msr.fef && msr.pltf ==> io_error(status_error(msr)->Some_0)
            == IOError::PinLowTimeout,
        status_error(msr) == Some(ControllerStatusError::AddressNack) <==> msr.ndf,
        status_error(msr) == Some(ControllerStatusError::ArbitrationLoss) <==> !msr.ndf && msr.alf,
        status_error(msr) == Some(ControllerStatusError::Fifo) <==> !msr.ndf && !msr.alf && msr.fef,
{
}

/// Portable drivers are told of a lost arbitration and of a NACK, and of
/// nothing else.
pub proof fn portable_errors_are_a_nack_or_a_lost_arbitration(error: IOError)
    ensures
        error_kind(error) == ErrorKind::NoAcknowledgeAddress <==> error == IOError::AddressNack,
        error_kind(error) == ErrorKind::ArbitrationLoss <==> error == IOError::ArbitrationLoss,
{
}

/// A recovery acts on what a transfer would report, but never on a lost
/// arbitration: a NACK and a FIFO error are halts under their own names, a line
/// held low shuts the controller down.
pub proof fn a_recovery_acts_on_the_fault_that_was_reported(msr: Msr, error: ControllerStatusError)
    ensures
        !msr.alf ==> recovery_fault(msr) == (match status_error(msr) {
            Some(error) => fault_retained(error),
            None => None,
        }),
        recovery_fault(msr) == recovery_fault(Msr { alf: false, ..msr }),
        fault_retained(error) is None <==> error == ControllerStatusError::ArbitrationLoss,
        fault_retained(error) == Some(RetainedFault::PinLowTimeout) <==> error == ControllerStatusError::PinLowTimeout,
        fault_retained(error) matches Some(RetainedFault::Halted(halt)) ==> halt.error == error,
{
}

/// How a halt is resolved: a line held low shuts the controller down; an idle
/// engine has closed the transaction; one that is late, or that neither closes
/// by itself nor has a command left, has to be closed; otherwise it is waited
/// for.
pub proof fn a_halt_is_resolved_by_what_was_seen(status: Msr, config: Mcfgr1, fifo: Mfsr, late: bool)
    ensures
        ({
            let r = halt_resolved(status, config, fifo, late);
            let stuck = late || !config.autostop && fifo.txcount == 0;
            &&& r == HaltStep::Terminate <==> status.pltf
            &&& r == HaltStep::Discard(HaltResolution::Settled) <==> !status.pltf && !status.mbf
            &&& r == HaltStep::Discard(HaltResolution::NeedsManualClose) <==> !status.pltf && status.mbf && stuck
            &&& r == HaltStep::Wait <==> !status.pltf && status.mbf && !stuck
        }),
{
}

/// The words that clear flags clear those that they are for, and no others: all
/// of them, an arbitration loss alone, or the events of a target.
pub proof fn clearing_words_clear_what_they_are_for(saw: Ssr)
    ensures
        ({
            let all = Msr::all_flags();
            &&& all.epf && all.sdf && all.ndf && all.alf && all.fef && all.pltf && all.dmf && all.stf
            &&& !all.mbf && all.rest == 0
        }),
        ({
            let scrub = arbitration_scrub();
            &&& scrub.alf
            &&& !scrub.epf && !scrub.sdf && !scrub.ndf && !scrub.fef && !scrub.pltf && !scrub.dmf && !scrub.stf
            &&& !scrub.mbf && scrub.rest == 0
        }),
        ({
            let all = Ssr::all_events();
            &&& all.rsf && all.sdf && all.bef && all.fef
            &&& !all.tdf && !all.rdf && !all.avf && !all.taf && !all.gcf && !all.sarf
            &&& all.rest == 0
        }),
        ({
            let seen = saw.observed_events();
            &&& seen.rsf == saw.rsf && seen.sdf == saw.sdf && seen.bef == saw.bef && seen.fef == saw.fef
            &&& !seen.tdf && !seen.rdf && !seen.avf && !seen.taf && !seen.gcf && !seen.sarf
            &&& seen.rest == 0
        }),
{
}

/// The interrupt sources of each wait of a controller, one by one.
pub proof fn controller_waits_arm_their_sources()
    ensures
        Mier::none() == (Mier {
            tdie: false,
            rdie: false,
            ndie: false,
            alie: false,
            feie: false,
            pltie: false,
            rest: 0,
        }),
        forall|armed: Mier|
            armed == Mier::receive() || armed == Mier::transmit() || armed == Mier::errors() ==> {
                &&& (#[trigger] armed.ndie) && armed.alie && armed.feie && armed.pltie
                &&& armed.rest == 0
                &&& armed.rdie <==> armed == Mier::receive()
                &&& armed.tdie <==> armed == Mier::transmit()
            },
{
    assert(Mier::receive().rdie && !Mier::transmit().rdie && !Mier::errors().rdie);
    assert(Mier::transmit().tdie && !Mier::receive().tdie && !Mier::errors().tdie);
}

// FIFOs.

/// The command FIFO has two to the power of its parameter entries.
pub proof fn the_command_fifo_has_a_power_of_two_entries(param: Param)
    ensures
        fifo_entries(param) == pow2((param.mtxfifo % 16) as nat),
{
    let exponent = param.mtxfifo;
    lemma2_to64();
    assert(exponent & 0x0f == exponent % 16) by (bit_vector);
    let e = (exponent & 0x0f) as u32;
    assert(e < 16 ==> {
        &&& (e == 0 ==> 1u32 << e == 1)
        &&& (e == 1 ==> 1u32 << e == 2)
        &&& (e == 2 ==> 1u32 << e == 4)
        &&& (e == 3 ==> 1u32 << e == 8)
        &&& (e == 4 ==> 1u32 << e == 16)
        &&& (e == 5 ==> 1u32 << e == 32)
        &&& (e == 6 ==> 1u32 << e == 64)
        &&& (e == 7 ==> 1u32 << e == 128)
        &&& (e == 8 ==> 1u32 << e == 256)
        &&& (e == 9 ==> 1u32 << e == 512)
        &&& (e == 10 ==> 1u32 << e == 1024)
        &&& (e == 11 ==> 1u32 << e == 2048)
        &&& (e == 12 ==> 1u32 << e == 4096)
        &&& (e == 13 ==> 1u32 << e == 8192)
        &&& (e == 14 ==> 1u32 << e == 16384)
        &&& (e == 15 ==> 1u32 << e == 32768)
    }) by (bit_vector);
}

/// A command goes in exactly where the status is clean and the FIFO has an
/// entry left, and then unchanged.
pub proof fn a_command_goes_in_where_there_is_room(before: Seq<Access>, after: Seq<Access>, word: Mtdr, r: CommandStep)
    requires
        enqueue_ran(before, after, word, r),
    ensures
        entry(before, after, 0) is ReadMsr,
        ({
            let status = entry(before, after, 0)->ReadMsr_0;
            let queued = (entry(before, after, 1)->ReadMfsr_0).txcount;
            let entries = pow2(((entry(before, after, 2)->ReadParam_0).mtxfifo % 16) as nat);
            &&& !clean(status) ==> r is Fault && after.len() == before.len() + 1
            &&& clean(status) && queued < entries ==> r == CommandStep::Queued && after.len() == before.len() + 4
                && after.last() == Access::WriteMtdr(word)
            &&& clean(status) && queued >= entries ==> r == CommandStep::Full && after.len() == before.len() + 3
        }),
{
    a_fault_goes_by_its_own_name(entry(before, after, 0)->ReadMsr_0);
    the_command_fifo_has_a_power_of_two_entries(entry(before, after, 2)->ReadParam_0);
}

/// A wait for room ends where the FIFO has an entry left, or with a fault.
pub proof fn room_is_an_entry_left(before: Seq<Access>, after: Seq<Access>, r: Option<TxStep>)
    requires
        tx_room_step_ran(before, after, r),
    ensures
        ({
            let status = entry(before, after, 0)->ReadMsr_0;
            let queued = (entry(before, after, 1)->ReadMfsr_0).txcount;
            let entries = pow2(((entry(before, after, 2)->ReadParam_0).mtxfifo % 16) as nat);
            &&& !clean(status) ==> r is Some && r->Some_0 is Fault
            &&& clean(status) ==> (r == Some(TxStep::Room) <==> queued < entries)
            &&& clean(status) && queued >= entries ==> r is None
        }),
{
    a_fault_goes_by_its_own_name(entry(before, after, 0)->ReadMsr_0);
    the_command_fifo_has_a_power_of_two_entries(entry(before, after, 2)->ReadParam_0);
}

/// A look for received data hands out the byte that it popped, whatever else
/// there is; without data it tells a fault, and without either whether the
/// engine has ended its packet and gone idle.
pub proof fn a_look_for_data_tells_what_it_saw(
    before: Seq<Access>,
    after: Seq<Access>,
    r: Option<RxStep>,
)
    requires
        rx_step_ran(before, after, r),
    ensures
        entry(before, after, 0) is ReadMfsr,
        ({
            let level = (entry(before, after, 0)->ReadMfsr_0).rxcount;
            let status = entry(before, after, 1)->ReadMsr_0;
            let end = entry(before, after, 2)->ReadMsr_0;
            &&& level > 0 ==> after.len() == before.len() + 2 && entry(before, after, 1) is ReadMrdr && r == Some(
                RxStep::Byte((entry(before, after, 1)->ReadMrdr_0).data),
            )
            &&& level == 0 ==> entry(before, after, 1) is ReadMsr
            &&& level == 0 && !clean(status) ==> after.len() == before.len() + 2 && r == Some(
                RxStep::Fault(status_error(status)->Some_0),
            )
            &&& level == 0 && clean(status) ==> entry(before, after, 2) is ReadMsr && after.len() == before.len() + 3
            &&& level == 0 && clean(status) && end.epf && !end.mbf ==> r == Some(RxStep::Ended)
            &&& level == 0 && clean(status) && !(end.epf && !end.mbf) ==> r is None
        }),
{
    a_fault_goes_by_its_own_name(entry(before, after, 1)->ReadMsr_0);
}

/// A receive wait and a transmit wait end on their own.
pub proof fn controller_waits_end_for_what_they_wait_for(
    before: Seq<Access>,
    after: Seq<Access>,
    received: bool,
    settled: bool,
)
    ensures
        rx_ready_ran(before, after, received) ==> ({
            let level = (entry(before, after, 0)->ReadMfsr_0).rxcount;
            let end = entry(before, after, 2)->ReadMsr_0;
            received <==> level > 0 || !clean(entry(before, after, 1)->ReadMsr_0) || end.epf && !end.mbf
        }),
        tx_settled_ran(before, after, settled) ==> ({
            let queued = (entry(before, after, 0)->ReadMfsr_0).txcount;
            settled <==> queued == 0 || !clean(entry(before, after, 1)->ReadMsr_0)
        }),
{
    a_fault_goes_by_its_own_name(entry(before, after, 1)->ReadMsr_0);
}

// How commands and recoveries end.

/// A START has run once the command FIFO is empty; a STOP once the engine is
/// idle as well. A fault is told first.
pub proof fn commands_have_run_when_the_fifo_is_empty(
    before: Seq<Access>,
    after: Seq<Access>,
    start: StartDrainStep,
    stop: StopVerdict,
)
    ensures
        ({
            let status = entry(before, after, 0)->ReadMsr_0;
            let queued = (entry(before, after, 1)->ReadMfsr_0).txcount;
            &&& start_drain_ran(before, after, start) ==> {
                &&& start is Fault <==> !clean(status)
                &&& clean(status) ==> (start is Drained <==> queued == 0)
            }
            &&& stop_poll_ran(before, after, stop) ==> {
                &&& stop is Fault <==> !clean(status)
                &&& clean(status) ==> (stop is Completed <==> queued == 0 && !status.mbf)
            }
        }),
{
    a_fault_goes_by_its_own_name(entry(before, after, 0)->ReadMsr_0);
}

/// A START that settled left the command FIFO empty and the status clean, and
/// the flags that were seen last were cleared; behind a STOP that completed
/// the engine was idle too.
pub proof fn what_settled_left_the_fifo_empty(log: Seq<Access>)
    requires
        ends_settled(log) || ends_completed(log),
    ensures
        ({
            let n = log.len() as int;
            &&& n >= 4
            &&& log[n - 4] matches Access::ReadMsr(status) && clean(status) && (ends_completed(log) ==> !status.mbf)
            &&& log[n - 3] matches Access::ReadMfsr(fifo) && fifo.txcount == 0
            &&& log[n - 2] matches Access::ReadMsr(status) && clean(status)
            &&& log[n - 1] == Access::WriteMsr(log[n - 2]->ReadMsr_0)
        }),
{
    let n = log.len() as int;
    let shorter = log.drop_last();
    assert(shorter[n - 4] == log[n - 4]);
    assert(shorter[n - 3] == log[n - 3]);
    assert(shorter[n - 2] == log[n - 2]);
}

/// A final status is cleared as it was seen where it is clean, and left alone
/// where it is not. A look for a fault clears a lost arbitration and nothing
/// else.
pub proof fn a_fault_stays_latched(
    before: Seq<Access>,
    after: Seq<Access>,
    r: Option<ControllerStatusError>,
)
    ensures
        final_status_ran(before, after, r) ==> ({
            let status = entry(before, after, 0)->ReadMsr_0;
            &&& r is None <==> clean(status)
            &&& r is None ==> after.len() == before.len() + 2 && after.last() == Access::WriteMsr(status)
            &&& r is Some ==> after.len() == before.len() + 1
        }),
        active_fault_ran(before, after, r) ==> ({
            let status = entry(before, after, 0)->ReadMsr_0;
            &&& r is None <==> clean(status)
            &&& after.len() == before.len() + 2 <==> !status.ndf && status.alf
            &&& after.len() == before.len() + 2 ==> (after.last() matches Access::WriteMsr(word) && word.alf
                && !word.ndf && !word.fef && !word.pltf)
        }),
{
    a_fault_goes_by_its_own_name(entry(before, after, 0)->ReadMsr_0);
}

/// The close of a recovery goes in whole or not at all: a STOP, and before it
/// one byte clocked in where a target was left driving the bus.
pub proof fn a_close_goes_in_whole(before: Seq<Access>, after: Seq<Access>, abort: Abort, r: bool)
    requires
        recovery_close_ran(before, after, close_of(abort), r),
    ensures
        ({
            let queued = (entry(before, after, 0)->ReadMfsr_0).txcount;
            let entries = pow2(((entry(before, after, 1)->ReadParam_0).mtxfifo % 16) as nat);
            let n = after.len() as int;
            let clocked = abort == Abort::ReadAddressed;
            &&& r <==> queued + (if clocked {
                2int
            } else {
                1int
            }) <= entries
            &&& !r ==> n == before.len() + 2
            &&& r && clocked ==> n == before.len() + 4 && (after[n - 2] matches Access::WriteMtdr(word) && word.cmd
                == ControllerCommand::Receive && word.data == 0)
            &&& r && !clocked ==> n == before.len() + 3
            &&& r ==> (after[n - 1] matches Access::WriteMtdr(word) && word.cmd == ControllerCommand::Stop)
        }),
{
    the_command_fifo_has_a_power_of_two_entries(entry(before, after, 1)->ReadParam_0);
}

/// A recovery has settled once its commands have run and the engine is idle.
pub proof fn a_settled_recovery_left_the_engine_idle(before: Seq<Access>, after: Seq<Access>, r: bool)
    requires
        recovery_settled_ran(before, after, r),
    ensures
        r <==> (entry(before, after, 0)->ReadMfsr_0).txcount == 0 && !(entry(before, after, 1)->ReadMsr_0).mbf,
{
}

/// A clean slate has both FIFOs reset, every other control bit as it was read,
/// and every flag cleared.
pub proof fn a_clean_slate_has_no_data_and_no_flag(before: Seq<Access>, after: Seq<Access>)
    requires
        slate_cleaned(before, after),
    ensures
        after.len() == before.len() + 3,
        entry(before, after, 0) is ReadMcr,
        entry(before, after, 1) matches Access::WriteMcr(word) && word.rtf && word.rrf && word.rest == (entry(
            before,
            after,
            0,
        )->ReadMcr_0).rest,
        entry(before, after, 2) matches Access::WriteMsr(word) && word.epf && word.sdf && word.ndf && word.alf
            && word.fef && word.pltf && word.dmf && word.stf,
{
}

/// What each phase of a transaction is recovered for: a read that was addressed
/// and never asked leaves its target driving the bus, and nothing else does.
pub proof fn only_an_unasked_read_leaves_the_bus_driven(abort: Abort, error: ControllerStatusError)
    ensures
        SessionPhase::start_shape(true) == Abort::ReadAddressed,
        SessionPhase::start_shape(false) == Abort::General,
        SessionPhase::Stable(abort).cancel_shape() == abort,
        SessionPhase::Stable(abort).halt_shape() == abort,
        SessionPhase::StopFinalized.cancel_shape() == Abort::General,
        SessionPhase::StopFinalized.halt_shape() == Abort::General,
        SessionPhase::FirstReceivePending.streamed() == SessionPhase::Stable(Abort::ReadStreaming),
        close_of(abort) == RecoveryClose::ReleaseAddressedRead <==> abort == Abort::ReadAddressed,
        fault_shape(error, abort) == Abort::ReadAddressed ==> error != ControllerStatusError::AddressNack,
{
}

/// Only data that failed to come is asked for again.
pub proof fn only_missing_data_is_asked_for_again(error: IOError)
    ensures
        retryable(error) <==> error == IOError::UnexpectedStop || error == IOError::Timeout,
{
}

/// A read takes as many RECEIVE commands as hold its bytes at 256 each, and not
/// one more.
pub proof fn a_read_takes_as_few_commands_as_can_be(len: int)
    requires
        0 <= len,
    ensures
        len <= 256 * commands_of(len),
        256 * (commands_of(len) - 1) < len,
{
}

// DMA channels.

/// Arming a channel of the controller enables the request of its own direction,
/// behind the setup and before the channel, and only for a transfer that the
/// engine took.
pub proof fn an_armed_channel_has_its_request(
    before: Seq<Access>,
    after: Seq<Access>,
    direction: Direction,
    port: usize,
    offset: usize,
    length: usize,
    max_transfer: usize,
    r: bool,
)
    requires
        controller_dma_armed(before, after, direction, port, offset, length, max_transfer, r),
    ensures
        r ==> 0 < length <= max_transfer,
        r ==> entry(before, after, 4) == Access::DmaSetup(direction, port, offset, length, true),
        r ==> after.last() == Access::DmaEnableRequest(direction),
        r ==> after[after.len() - 2] is WriteMder && ({
            let on = after[after.len() - 2]->WriteMder_0;
            let was = after[after.len() - 3]->ReadMder_0;
            &&& direction == Direction::Rx ==> on.rdde && on.tdde == was.tdde
            &&& direction == Direction::Tx ==> on.tdde && on.rdde == was.rdde
            &&& on.rest == was.rest
        }),
        !r ==> forall|i: int|
            before.len() <= i < after.len() ==> !(#[trigger] after[i] is WriteMder) && !(after[i] is DmaEnableRequest),
{
}

/// Shutting a channel of the controller down disables the request of its own
/// direction before the channel is waited for, and reports what the channel
/// moved.
pub proof fn a_finished_channel_has_no_request(
    before: Seq<Access>,
    after: Seq<Access>,
    direction: Direction,
    total: usize,
    moved: usize,
)
    requires
        controller_dma_finished(before, after, direction, total, moved),
    ensures
        entry(before, after, 2) matches Access::WriteMder(off) && (direction == Direction::Rx ==> !off.rdde) && (
        direction == Direction::Tx ==> !off.tdde),
        entry(before, after, 3) matches Access::DmaQuiesce(way, complete) && way == direction && (complete ==> moved
            == total) && (!complete ==> after.last() == Access::DmaTransferredBytes(direction, moved)),
{
}

// The register map.

/// The target half of the block lies right above the controller half, register
/// by register, and each half begins with its control register, followed by
/// status, interrupts and DMA.
pub proof fn the_halves_of_the_block_are_alike(base: usize, pac: MappedAddresses)
    requires
        layout_agrees(base, pac),
    ensures
        pac.scr == pac.mcr + 0x100,
        pac.ssr == pac.msr + 0x100,
        pac.sier == pac.mier + 0x100,
        pac.sder == pac.mder + 0x100,
        pac.stdr == pac.mtdr + 0x100,
        pac.srdr == pac.mrdr + 0x100,
        pac.msr == pac.mcr + 4,
        pac.mier == pac.msr + 4,
        pac.mder == pac.mier + 4,
        pac.mcfgr1 == pac.mder + 8,
        pac.mtdr == pac.mfsr + 4,
        pac.mrdr == pac.mtdr + 0x10,
        pac.sasr == pac.stdr - 0x10,
        pac.mcr == pac.param + 0xc,
        pac.param == base + 4,
        pac.mfsr == base + 0x5c,
{
}

// Ports.

/// The entries of a history that reach the port: all but the clock and the
/// marks of a recovery.
pub open spec fn reaching(log: Seq<Access>) -> Seq<Access> {
    log.filter(|a: Access| !(a is Now) && !(a is RecoveryBegin))
}

/// A register block hands every access on as it stands in the history, and the
/// history holds what came back: a port that keeps a record of its own ends up
/// with the same one.
pub proof fn a_port_is_given_what_the_history_says(
    before: LpI2cRegisters<Unwired>,
    a: Access,
    after: LpI2cRegisters<Unwired>,
)
    requires
        after.log() == before.log().push(a),
        !(a is Now) && !(a is RecoveryBegin),
        <Unwired as ControllerPort>::controller_ran(&before.port(), a, &after.port())
            || <Unwired as TargetPort>::target_ran(&before.port(), a, &after.port())
            || <Unwired as DmaPort>::dma_ran(&before.port(), a, &after.port()),
        before.port().seen() == reaching(before.log()),
    ensures
        after.port().seen() == reaching(after.log()),
{
    reveal(Seq::filter);
    assert(after.log().drop_last() =~= before.log());
}

/// Neither the clock nor the mark of a recovery reaches the port.
pub proof fn a_port_is_given_nothing_else(before: LpI2cRegisters<Unwired>, a: Access, after: LpI2cRegisters<Unwired>)
    requires
        after.log() == before.log().push(a),
        a is Now || a is RecoveryBegin,
        after.port() == before.port(),
        before.port().seen() == reaching(before.log()),
    ensures
        after.port().seen() == reaching(after.log()),
{
    reveal(Seq::filter);
    assert(after.log().drop_last() =~= before.log());
}

} // verus!
