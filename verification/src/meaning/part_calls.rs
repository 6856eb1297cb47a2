//! What the small parts of the driver answer: conversions, interrupt handlers,
//! single looks at the registers, and the steps of a transaction. See
//! [`crate::meaning::calls`].

use vstd::arithmetic::power2::pow2;
use vstd::prelude::*;

use crate::controller::{IOError, InterruptHandler, Speed};
use crate::controller_registers::{ControllerRegisters, ControllerStatusError};
use crate::lpi2c_regs::{Access, ControllerPort, Direction, DmaPort, TargetPort};
use crate::meaning::flags::{clean, the_command_fifo_has_a_power_of_two_entries};
use crate::meaning::target::sound;
use crate::session::{recovery_abort_for, Abort, PendingRecovery, SessionPhase};
use crate::target::{I2c, InterruptHandler as TargetInterruptHandler, IOError as TargetError, Status};
use crate::target_registers::{dma_buffer_fits, TargetFault, TargetRegisters};
use crate::trace::entry;
use crate::words::Mier;

verus! {

// Conversions.

/// A feature is on where it is enabled.
pub proof fn an_enabled_feature_is_on(status: Status, r: bool)
    requires
        call_ensures(<bool as From<Status>>::from, (status,), r),
    ensures
        r ==> status is Enabled,
        !r ==> status is Disabled,
{
}

/// Speeds convert to their rates in bits a second, faster ones to higher rates.
pub proof fn a_speed_converts_to_its_rate(speed: Speed, r: u32)
    requires
        call_ensures(<u32 as From<Speed>>::from, (speed,), r),
    ensures
        speed is Standard <==> r == 100_000,
        speed is Fast <==> r == 400_000,
        speed is FastPlus <==> r == 1_000_000,
        speed is UltraFast <==> r == 3_400_000,
{
}

/// The faults of either side convert to errors of their own names.
pub proof fn faults_convert_to_their_errors(
    fault: ControllerStatusError,
    error: IOError,
    target_fault: TargetFault,
    target_error: TargetError,
)
    requires
        call_ensures(<IOError as From<ControllerStatusError>>::from, (fault,), error),
        call_ensures(<TargetError as From<TargetFault>>::from, (target_fault,), target_error),
    ensures
        fault is AddressNack <==> error is AddressNack,
        fault is ArbitrationLoss <==> error is ArbitrationLoss,
        fault is Fifo <==> error is FifoError,
        fault is PinLowTimeout <==> error is PinLowTimeout,
        target_fault is Bit <==> target_error is BitError,
        target_fault is Fifo <==> target_error is FifoError,
{
}

// Interrupts.

/// No source of the controller is enabled.
pub open spec fn all_off(mask: Mier) -> bool {
    &&& !mask.tdie && !mask.rdie && !mask.ndie && !mask.alie && !mask.feie && !mask.pltie
    &&& mask.rest == 0
}

/// An interrupt of the controller wakes its task where a source was enabled, and
/// then leaves none enabled, so that it does not come again.
pub proof fn an_interrupt_wakes_once<H: ControllerPort>(registers: &mut ControllerRegisters<H>, r: bool)
    requires
        call_ensures(InterruptHandler::<H>::on_interrupt, (registers,), r),
    ensures
        entry(old(registers).log(), final(registers).log(), 0) is ReadMier,
        !r <==> all_off(entry(old(registers).log(), final(registers).log(), 0)->ReadMier_0),
        r ==> (final(registers).log().last() matches Access::WriteMier(mask) && all_off(mask)),
        !r ==> final(registers).log().len() == old(registers).log().len() + 1,
{
}

/// An interrupt of the target does the same.
pub proof fn a_target_interrupt_wakes_once<H: TargetPort>(registers: &mut TargetRegisters<H>, r: bool)
    requires
        call_ensures(TargetInterruptHandler::<H>::on_interrupt, (registers,), r),
    ensures
        entry(old(registers).log(), final(registers).log(), 0) is ReadSier,
        r ==> (final(registers).log().last() matches Access::WriteSier(mask) && !mask.tdie && !mask.rdie && !mask.avie
            && !mask.rsie && !mask.sdie && !mask.beie && !mask.feie && !mask.gcie && !mask.sarie),
        ({
            let mask = entry(old(registers).log(), final(registers).log(), 0)->ReadSier_0;
            mask.tdie || mask.rdie || mask.avie || mask.rsie || mask.sdie || mask.beie || mask.feie || mask.gcie
                || mask.sarie || mask.am0ie || mask.am1ie || mask.rest != 0 <==> r
        }),
        !r ==> final(registers).log().len() == old(registers).log().len() + 1,
{
}

// Looks.

/// Single looks at the controller tell what the register held.
pub proof fn a_look_tells_what_the_register_held<H: ControllerPort>(
    registers: &mut ControllerRegisters<H>,
    busy: bool,
    queued: u8,
    entries: usize,
    ended: bool,
)
    ensures
        call_ensures(ControllerRegisters::<H>::master_busy, (registers,), busy) ==> (final(registers).log().last()
            matches Access::ReadMsr(saw) && busy == saw.mbf),
        call_ensures(ControllerRegisters::<H>::tx_pending, (registers,), queued) ==> (final(registers).log().last()
            matches Access::ReadMfsr(saw) && queued == saw.txcount),
        call_ensures(ControllerRegisters::<H>::tx_fifo_capacity, (registers,), entries) ==> {
            final(registers).log().last() matches Access::ReadParam(saw) && entries == pow2((saw.mtxfifo % 16) as nat)
        },
        call_ensures(ControllerRegisters::<H>::transfer_ended, (registers,), ended) ==> (final(registers).log().last()
            matches Access::ReadMsr(saw) && (ended <==> saw.epf && !saw.mbf)),
{
    the_command_fifo_has_a_power_of_two_entries(final(registers).log().last()->ReadParam_0);
}

/// A transaction that was not acknowledged has to be stopped by hand only where
/// the engine does not stop by itself and has no command left.
pub proof fn a_nack_is_stopped_by_hand_where_nothing_else_does<H: ControllerPort>(
    registers: &mut ControllerRegisters<H>,
    r: bool,
)
    requires
        call_ensures(ControllerRegisters::<H>::needs_manual_stop_after_nack, (registers,), r),
    ensures
        ({
            let before = old(registers).log();
            let after = final(registers).log();
            &&& entry(before, after, 0) is ReadMcfgr1
            &&& r ==> !(entry(before, after, 0)->ReadMcfgr1_0).autostop && entry(before, after, 1) is ReadMfsr && (
            entry(before, after, 1)->ReadMfsr_0).txcount == 0
            &&& !r ==> (entry(before, after, 0)->ReadMcfgr1_0).autostop || (entry(
                before,
                after,
                1,
            )->ReadMfsr_0).txcount > 0
        }),
{
}

/// A wait for an error arms the errors, and ends at once for one that is there.
pub proof fn a_wait_for_an_error_looks_at_once<H: ControllerPort>(
    registers: &mut ControllerRegisters<H>,
    r: Option<ControllerStatusError>,
)
    requires
        call_ensures(ControllerRegisters::<H>::error_wake, (registers,), r),
    ensures
        ({
            let before = old(registers).log();
            let after = final(registers).log();
            &&& entry(before, after, 0) matches Access::WriteMier(armed) && armed.ndie && armed.alie && armed.feie
                && armed.pltie && !armed.tdie && !armed.rdie
            &&& entry(before, after, 1) matches Access::ReadMsr(saw) && (r is None <==> clean(saw)) && (saw.ndf ==> r
                == Some(ControllerStatusError::AddressNack))
        }),
{
}

/// The flags that were seen are cleared as they were seen.
pub proof fn flags_are_cleared_as_they_were_seen<H: ControllerPort>(registers: &mut ControllerRegisters<H>)
    requires
        call_ensures(ControllerRegisters::<H>::clear_current_status, (registers,), ()),
    ensures
        final(registers).log().len() == old(registers).log().len() + 2,
        entry(old(registers).log(), final(registers).log(), 0) matches Access::ReadMsr(saw)
            && final(registers).log().last() == Access::WriteMsr(saw),
{
}

/// Each direction has its own DMA request, and enabling or disabling one leaves
/// the other as it was.
pub proof fn requests_are_set_one_by_one<H: ControllerPort>(registers: &mut ControllerRegisters<H>, enable: bool)
    ensures
        ({
            let before = old(registers).log();
            let after = final(registers).log();
            let was = entry(before, after, 0)->ReadMder_0;
            &&& call_ensures(ControllerRegisters::<H>::set_rx_dma, (registers, enable), ()) ==> (after.last() matches
                Access::WriteMder(word) && word.rdde == enable && word.tdde == was.tdde)
            &&& call_ensures(ControllerRegisters::<H>::set_tx_dma, (registers, enable), ()) ==> (after.last() matches
                Access::WriteMder(word) && word.tdde == enable && word.rdde == was.rdde)
        }),
{
}

/// The channels of the controller are pointed at its data registers, which lie
/// four words apart.
pub proof fn data_registers_have_their_places<H>(registers: &ControllerRegisters<H>, rx: usize, tx: usize)
    requires
        call_ensures(ControllerRegisters::<H>::rx_data_ptr, (registers,), rx),
        call_ensures(ControllerRegisters::<H>::tx_data_ptr, (registers,), tx),
    ensures
        rx == registers.block() + 0x70,
        tx == rx - 16,
{
}

/// A wait of the target arms its own source besides the endings, looks once
/// behind that, and ends where the look found one of them.
pub proof fn a_target_wait_looks_behind_its_arming<H: TargetPort>(i2c: &mut I2c<H>, r: bool)
    ensures
        ({
            let before = old(i2c).log();
            let after = final(i2c).log();
            let saw = entry(before, after, 1)->ReadSsr_0;
            let over = !sound(saw) || saw.sdf || saw.rsf;
            &&& call_ensures(I2c::<H>::tx_wake, (i2c,), r) ==> (entry(before, after, 0) matches Access::WriteSier(
                armed,
            ) && armed.tdie && !armed.rdie && armed.sdie && armed.rsie && armed.beie && armed.feie && (r <==> over
                || saw.tdf))
            &&& call_ensures(I2c::<H>::rx_wake, (i2c,), r) ==> (entry(before, after, 0) matches Access::WriteSier(
                armed,
            ) && armed.rdie && !armed.tdie && armed.sdie && armed.rsie && armed.beie && armed.feie && (r <==> over
                || saw.rdf))
        }),
{
}

/// A wait for a channel of the target ends where the controller ended the
/// transfer or a fault came, and otherwise where its own channel is done.
pub proof fn a_target_waits_for_its_own_channel<H: TargetPort + DmaPort>(
    i2c: &mut I2c<H>,
    direction: Direction,
    r: bool,
)
    requires
        call_ensures(I2c::<H>::dma_wake, (i2c, direction), r),
    ensures
        ({
            let before = old(i2c).log();
            let after = final(i2c).log();
            let saw = entry(before, after, 1)->ReadSsr_0;
            let over = !sound(saw) || saw.sdf || saw.rsf;
            &&& entry(before, after, 0) matches Access::WriteSier(armed) && !armed.rdie && !armed.tdie && armed.sdie
                && armed.rsie && armed.beie && armed.feie
            &&& over ==> r && after.len() == before.len() + 2
            &&& !over ==> after.last() == Access::DmaIsDone(direction, r)
        }),
{
}

/// A buffer fits where it holds a byte and no more than a transfer moves.
pub proof fn a_buffer_fits_in_one_transfer(length: usize, max_transfer: usize, r: bool)
    requires
        call_ensures(dma_buffer_fits, (length, max_transfer), r),
    ensures
        r <==> length >= 1 && length <= max_transfer,
{
}

// The steps of a transaction.

/// The steps that a transaction goes through. A START is queued behind a settled
/// command and leads, once it settled, to a transaction of its direction; only
/// an addressed read takes a first question; and a STOP closes a write or a read
/// that was heard.
pub proof fn a_transaction_goes_step_by_step(
    phase: SessionPhase,
    read: bool,
    queued: bool,
    started: Option<SessionPhase>,
    settled: Option<SessionPhase>,
    asked: Option<SessionPhase>,
    stopped: Option<SessionPhase>,
    transmits: bool,
)
    requires
        call_ensures(SessionPhase::after_start_enqueue, (phase, read, queued), started),
        call_ensures(SessionPhase::after_start_settled, (phase,), settled),
        call_ensures(SessionPhase::after_first_receive_enqueue, (phase, queued), asked),
        call_ensures(SessionPhase::after_stop_enqueue, (phase, queued), stopped),
        call_ensures(SessionPhase::permits_transmit, (phase,), transmits),
    ensures
        started is Some <==> phase is Stable,
        started is Some && queued ==> started == Some(
            SessionPhase::StartPending {
                before: phase->Stable_0,
                after: if read {
                    Abort::ReadAddressed
                } else {
                    Abort::General
                },
            },
        ),
        started is Some && !queued ==> started == Some(phase),
        settled is Some <==> phase is StartPending,
        settled is Some ==> settled == Some(SessionPhase::Stable(phase->StartPending_after)),
        asked is Some <==> phase == SessionPhase::Stable(Abort::ReadAddressed),
        asked is Some ==> asked == Some(
            if queued {
                SessionPhase::FirstReceivePending
            } else {
                phase
            },
        ),
        stopped is Some <==> phase is Stable && phase->Stable_0 != Abort::ReadAddressed,
        stopped is Some ==> stopped == Some(
            if queued {
                SessionPhase::StopPending { before: phase->Stable_0 }
            } else {
                phase
            },
        ),
        transmits <==> phase is Stable && phase->Stable_0 == Abort::General,
{
}

/// A transaction that is cancelled is recovered for what its queued commands
/// will have done, and one that was halted for what ran before them; where its
/// address was not acknowledged there is nothing to release.
pub proof fn queued_commands_count_unless_halted(
    phase: SessionPhase,
    cancelled: Abort,
    halted: Abort,
    error: ControllerStatusError,
    shape: Abort,
)
    requires
        call_ensures(SessionPhase::abort_for_cancellation, (phase,), cancelled),
        call_ensures(SessionPhase::abort_for_halted_fault, (phase,), halted),
        call_ensures(recovery_abort_for, (error, halted), shape),
    ensures
        phase is Stable ==> cancelled == phase->Stable_0 && halted == phase->Stable_0,
        phase is StartPending ==> cancelled == phase->after && halted == phase->StartPending_before,
        phase is FirstReceivePending ==> cancelled == Abort::ReadStreaming && halted == Abort::ReadAddressed,
        phase is StopPending ==> cancelled == phase->StopPending_before && halted == phase->StopPending_before,
        phase is StopFinalized ==> cancelled == Abort::General && halted == Abort::General,
        error is AddressNack ==> shape == Abort::General,
        !(error is AddressNack) ==> shape == halted,
{
}

/// A recovery that carries the phase on is for the same.
pub proof fn a_carried_phase_is_recovered_alike(phase: SessionPhase, a: Abort, b: Abort, c: Abort, d: Abort)
    requires
        call_ensures(SessionPhase::abort_for_cancellation, (phase,), a),
        call_ensures(PendingRecovery::abort_for_cancellation, (PendingRecovery(phase),), b),
        call_ensures(SessionPhase::abort_for_halted_fault, (phase,), c),
        call_ensures(PendingRecovery::abort_for_halted_fault, (PendingRecovery(phase),), d),
    ensures
        a == b,
        c == d,
{
}

} // verus!
