//! Controller transaction ownership and phase transitions.
//!
//! This module owns the transaction state machine, its recovery and the
//! permits that the register facade consumes. The driver can orchestrate
//! opaque sessions but cannot construct or mutate their phase.

use vstd::prelude::*;

use crate::answers::{lemma_owed_push, lemma_stays_idle, owed};
use crate::controller::{io_error, IOError};
use crate::controller_registers::{
    active_fault_ran, arbitration_scrub, channel_quiet, close_words, fault_retained, fifo_entries, receive_word,
    recovery_close_ran, recovery_fault, recovery_fault_ran, recovery_settled_ran, rx_discarded, rx_step_ran,
    slate_cleaned, status_error, stop_word, ControllerRegisters, ControllerStatusError, FacadeSeal, FaultSlot,
    HaltResolution, HaltedFault, RecoveryClose, RetainedFault, RxProgress, RxStep, StartAction,
};
use crate::instance_info::Info;
use crate::lpi2c_regs::{Access, ControllerPort};
use crate::ticks::{deadline, deadline_after, ticks_from_micros};
use crate::trace::{commands, entry, extends, lemma_wire_grows, recoveries, wire};
use crate::wait::POLL_LIMIT;
use crate::words::{ControllerCommand, Mcr, Msr, Mtdr};

verus! {

broadcast use crate::trace::group_trace;

/// What kind of wire state a recovery is unwinding. The choice of closing
/// sequence depends on it, and it is not observable from the registers.
#[derive(Clone, Copy, Debug, PartialEq, Eq, Structural)]
pub enum Abort {
    /// Writes, STARTs that never reached the wire, STOP failures,
    /// fault-halted engines: a bare STOP always forms.
    General,
    /// A read aborted between its START going out and its first data
    /// command: clock one byte so the automatic NACK makes the target
    /// release SDA, then STOP.
    ReadAddressed,
    /// A read aborted with data commands issued: bare STOP behind the
    /// in-flight command's own automatic NACK.
    ReadStreaming,
}

/// Selects the recovery shape for a transfer fault. An address NACK has no
/// ACKing target, so its manual close is always the general form; every
/// other class retains the caller's known wire direction.
pub open spec fn fault_shape(error: ControllerStatusError, abort: Abort) -> Abort {
    if error == ControllerStatusError::AddressNack {
        Abort::General
    } else {
        abort
    }
}

/// Computes [`fault_shape`].
pub fn recovery_abort_for(error: ControllerStatusError, abort: Abort) -> (r: Abort)
    ensures
        r == fault_shape(error, abort),
{
    match error {
        ControllerStatusError::AddressNack => Abort::General,
        ControllerStatusError::ArbitrationLoss | ControllerStatusError::Fifo => abort,
        // A pin-low timeout is retained as a terminal proof and never reaches
        // this selector; keeping the caller's shape is the conservative side.
        ControllerStatusError::PinLowTimeout => abort,
    }
}

/// The live transaction phase, including commands that entered the FIFO but
/// whose execution cannot yet be inferred. Cancellation and a captured
/// halted fault deliberately choose different conservative recovery sides.
#[derive(Clone, Copy, Debug, PartialEq, Eq, Structural)]
pub enum SessionPhase {
    Stable(Abort),
    StartPending { before: Abort, after: Abort },
    FirstReceivePending,
    /// A normal trailing STOP entered the FIFO.
    StopPending { before: Abort },
    /// Terminal status was cleanly classified after the physical STOP.
    StopFinalized,
}

impl SessionPhase {
    /// Ordinary transmit data is valid only after a write START fully
    /// settled.
    pub open spec fn writable(self) -> bool {
        self == SessionPhase::Stable(Abort::General)
    }

    /// A first RECEIVE is valid only on an addressed read.
    pub open spec fn addressed(self) -> bool {
        self == SessionPhase::Stable(Abort::ReadAddressed)
    }

    /// A first RECEIVE was queued.
    pub open spec fn reading(self) -> bool {
        self == SessionPhase::FirstReceivePending || self == SessionPhase::Stable(Abort::ReadStreaming)
    }

    /// A normal STOP is valid after a write START settled or after a read
    /// command made the stream self-releasing.
    pub open spec fn closable(self) -> bool {
        self == SessionPhase::Stable(Abort::General) || self == SessionPhase::Stable(Abort::ReadStreaming)
    }

    /// The phase once received data proved that the first RECEIVE ran.
    pub open spec fn streamed(self) -> SessionPhase {
        if self == SessionPhase::FirstReceivePending {
            SessionPhase::Stable(Abort::ReadStreaming)
        } else {
            self
        }
    }

    /// The wire state that a START of the given direction leads to.
    pub open spec fn start_shape(read: bool) -> Abort {
        if read {
            Abort::ReadAddressed
        } else {
            Abort::General
        }
    }

    /// The recovery shape when queued commands will still run.
    pub open spec fn cancel_shape(self) -> Abort {
        match self {
            SessionPhase::Stable(abort) => abort,
            SessionPhase::StartPending { before, after } => after,
            SessionPhase::FirstReceivePending => Abort::ReadStreaming,
            SessionPhase::StopPending { before } => before,
            SessionPhase::StopFinalized => Abort::General,
        }
    }

    /// The recovery shape when queued commands are frozen and discarded.
    pub open spec fn halt_shape(self) -> Abort {
        match self {
            SessionPhase::Stable(abort) => abort,
            SessionPhase::StartPending { before, after } => before,
            SessionPhase::FirstReceivePending => Abort::ReadAddressed,
            SessionPhase::StopPending { before } => before,
            SessionPhase::StopFinalized => Abort::General,
        }
    }

    /// A recovery from this phase may have to clock a byte in.
    pub open spec fn clocks(self) -> bool {
        self.cancel_shape() == Abort::ReadAddressed || self.halt_shape() == Abort::ReadAddressed
    }

    pub fn permits_transmit(self) -> (r: bool)
        ensures
            r == self.writable(),
    {
        match self {
            SessionPhase::Stable(Abort::General) => true,
            _ => false,
        }
    }

    /// Retains first-RECEIVE execution evidence. The evidence is branded by
    /// the register block that minted it, so a phase cannot be advanced with
    /// evidence from a different controller.
    pub fn after_read_progress(self, progress: RxProgress, owner: usize) -> (r: Self)
        requires
            progress.owner() == owner,
        ensures
            r == self.streamed(),
    {
        progress.consume_for(owner);
        self.after_read_progress_inner()
    }

    /// Receive DMA owns a stronger proof: it has disabled the request and
    /// quiesced the channel before preserving this same phase transition.
    pub fn after_dma_read_progress(self) -> (r: Self)
        ensures
            r == self.streamed(),
    {
        self.after_read_progress_inner()
    }

    pub fn after_read_progress_inner(self) -> (r: Self)
        ensures
            r == self.streamed(),
    {
        match self {
            SessionPhase::FirstReceivePending => SessionPhase::Stable(Abort::ReadStreaming),
            _ => self,
        }
    }

    /// Commits the first RECEIVE gate outcome. Only the addressed-read state
    /// has one.
    pub fn after_first_receive_enqueue(self, queued: bool) -> (r: Option<Self>)
        ensures
            r == (if !self.addressed() {
                None
            } else if queued {
                Some(SessionPhase::FirstReceivePending)
            } else {
                Some(self)
            }),
    {
        match self {
            SessionPhase::Stable(Abort::ReadAddressed) => {
                if queued {
                    Some(SessionPhase::FirstReceivePending)
                } else {
                    Some(SessionPhase::Stable(Abort::ReadAddressed))
                }
            },
            _ => None,
        }
    }

    /// Commits a START gate outcome. The predecessor is preserved on a full
    /// FIFO or a fault; once queued, both the predecessor and the requested
    /// successor remain explicit until status settles or a halted fault
    /// discards the FIFO suffix.
    pub fn after_start_enqueue(self, read: bool, queued: bool) -> (r: Option<Self>)
        ensures
            r == (match self {
                SessionPhase::Stable(before) => if queued {
                    Some(SessionPhase::StartPending { before, after: SessionPhase::start_shape(read) })
                } else {
                    Some(self)
                },
                _ => None,
            }),
    {
        match self {
            SessionPhase::Stable(before) => {
                if queued {
                    Some(
                        SessionPhase::StartPending {
                            before,
                            after: if read {
                                Abort::ReadAddressed
                            } else {
                                Abort::General
                            },
                        },
                    )
                } else {
                    Some(SessionPhase::Stable(before))
                }
            },
            _ => None,
        }
    }

    /// Commits the terminal clean-status proof of a queued START.
    pub fn after_start_settled(self) -> (r: Option<Self>)
        ensures
            r == (match self {
                SessionPhase::StartPending { before, after } => Some(SessionPhase::Stable(after)),
                _ => None,
            }),
    {
        match self {
            SessionPhase::StartPending { before: _, after } => Some(SessionPhase::Stable(after)),
            _ => None,
        }
    }

    /// Commits a normal trailing STOP gate outcome. A full FIFO or a fault
    /// leaves the exact predecessor recovery shape intact.
    pub fn after_stop_enqueue(self, queued: bool) -> (r: Option<Self>)
        ensures
            r == (if !self.closable() {
                None
            } else if queued {
                Some(SessionPhase::StopPending { before: self->Stable_0 })
            } else {
                Some(self)
            }),
    {
        match self {
            SessionPhase::Stable(before) => {
                if before == Abort::ReadAddressed {
                    None
                } else if queued {
                    Some(SessionPhase::StopPending { before })
                } else {
                    Some(SessionPhase::Stable(before))
                }
            },
            _ => None,
        }
    }

    /// On cancellation, queued commands remain ordered ahead of recovery: a
    /// pending repeated START may reach the bus before the close, and a
    /// pending first RECEIVE will release the target before the STOP.
    pub fn abort_for_cancellation(self) -> (r: Abort)
        ensures
            r == self.cancel_shape(),
    {
        match self {
            SessionPhase::Stable(abort) => abort,
            SessionPhase::StartPending { before: _, after } => after,
            SessionPhase::FirstReceivePending => Abort::ReadStreaming,
            SessionPhase::StopPending { before } => before,
            SessionPhase::StopFinalized => Abort::General,
        }
    }

    /// A halting fault freezes and later discards the queued suffix, so its
    /// pending command cannot be relied on to release the bus.
    pub fn abort_for_halted_fault(self) -> (r: Abort)
        ensures
            r == self.halt_shape(),
    {
        match self {
            SessionPhase::StartPending { before, after: _ } => before,
            SessionPhase::FirstReceivePending => Abort::ReadAddressed,
            SessionPhase::Stable(abort) => abort,
            SessionPhase::StopPending { before } => before,
            SessionPhase::StopFinalized => Abort::General,
        }
    }
}

/// A snapshot of the phase that must survive a session until recovery has
/// classified any late halt.
#[derive(Clone, Copy, Debug, PartialEq, Eq, Structural)]
pub struct PendingRecovery(pub SessionPhase);

impl PendingRecovery {
    pub fn abort_for_cancellation(self) -> (r: Abort)
        ensures
            r == self.0.cancel_shape(),
    {
        self.0.abort_for_cancellation()
    }

    pub fn abort_for_halted_fault(self) -> (r: Abort)
        ensures
            r == self.0.halt_shape(),
    {
        self.0.abort_for_halted_fault()
    }
}

/// Authority to submit one ordinary command through the facade. Minted only
/// from a live [`Session`] on a stable write transaction.
#[must_use]
pub struct CommandPermit<'a> {
    pub owner: usize,
    pub phase: &'a mut SessionPhase,
}

impl<'a> CommandPermit<'a> {
    /// The phase that this permit guards, as it stands.
    pub open spec fn current(&self) -> SessionPhase {
        *self.phase
    }

    pub fn owner(&self) -> (r: usize)
        ensures
            r == self.owner,
    {
        self.owner
    }
}

/// Capability consumed by a START action. It carries the phase that must
/// become pending exactly when the facade accepted that START.
#[must_use]
pub struct StartTransitionPermit<'a> {
    pub owner: usize,
    pub phase: &'a mut SessionPhase,
}

impl<'a> StartTransitionPermit<'a> {
    /// The phase that this permit guards, as it stands.
    pub open spec fn current(&self) -> SessionPhase {
        *self.phase
    }

    /// A START is valid only in a stable transaction phase.
    pub fn new(owner: usize, phase: &'a mut SessionPhase) -> (r: Self)
        requires
            *old(phase) is Stable,
        ensures
            r.owner == owner,
            r.current() == *old(phase),
            *final(phase) == *final(r.phase),
    {
        StartTransitionPermit { owner, phase }
    }

    pub fn owner(&self) -> (r: usize)
        ensures
            r == self.owner,
    {
        self.owner
    }

    /// Consumes this permit with the single gate outcome.
    pub fn finish_enqueue(self, action: StartAction, queued: bool, _seal: FacadeSeal)
        requires
            self.current() is Stable,
        ensures
            *final(self.phase) == (if queued {
                SessionPhase::StartPending {
                    before: self.current()->Stable_0,
                    after: SessionPhase::start_shape(action.reads()),
                }
            } else {
                self.current()
            }),
    {
        if let Some(next) = (*self.phase).after_start_enqueue(action.is_read(), queued) {
            *self.phase = next;
        }
    }
}

/// Capability consumed by the drain and status sequence of a queued START.
#[must_use]
pub struct StartStatusPermit<'a> {
    pub owner: usize,
    pub phase: &'a mut SessionPhase,
}

impl<'a> StartStatusPermit<'a> {
    /// The phase that this permit guards, as it stands.
    pub open spec fn current(&self) -> SessionPhase {
        *self.phase
    }

    pub fn owner(&self) -> (r: usize)
        ensures
            r == self.owner,
    {
        self.owner
    }

    /// Commits the settled phase.
    pub fn commit_settled(self, _seal: FacadeSeal)
        requires
            self.current() is StartPending,
        ensures
            *final(self.phase) == SessionPhase::Stable(self.current()->StartPending_after),
    {
        if let Some(next) = (*self.phase).after_start_settled() {
            *self.phase = next;
        }
    }
}

/// Capability consumed by a normal trailing STOP. It records the exact
/// recovery predecessor when the FIFO accepts the STOP, so neither an
/// addressed-only read nor an already pending command can be closed through
/// the regular terminal path.
#[must_use]
pub struct StopTransitionPermit<'a> {
    pub owner: usize,
    pub phase: &'a mut SessionPhase,
}

impl<'a> StopTransitionPermit<'a> {
    /// The phase that this permit guards, as it stands.
    pub open spec fn current(&self) -> SessionPhase {
        *self.phase
    }

    /// A normal STOP is valid only in a settled transaction phase.
    pub fn new(owner: usize, phase: &'a mut SessionPhase) -> (r: Self)
        requires
            (*old(phase)).closable(),
        ensures
            r.owner == owner,
            r.current() == *old(phase),
            *final(phase) == *final(r.phase),
    {
        StopTransitionPermit { owner, phase }
    }

    pub fn owner(&self) -> (r: usize)
        ensures
            r == self.owner,
    {
        self.owner
    }

    /// Consumes this permit with the single gate outcome.
    pub fn finish_enqueue(self, queued: bool, _seal: FacadeSeal)
        requires
            self.current().closable(),
        ensures
            *final(self.phase) == (if queued {
                SessionPhase::StopPending { before: self.current()->Stable_0 }
            } else {
                self.current()
            }),
    {
        if let Some(next) = (*self.phase).after_stop_enqueue(queued) {
            *self.phase = next;
        }
    }
}

/// Authority to use recovery's deliberate bypass of the fault check.
#[must_use]
pub struct RecoveryPermit {
    pub owner: usize,
}

impl RecoveryPermit {
    pub fn for_registers<H>(regs: &ControllerRegisters<H>) -> (r: Self)
        ensures
            r.owner == regs.block(),
    {
        RecoveryPermit { owner: regs.identity() }
    }

    pub fn owner(&self) -> (r: usize)
        ensures
            r == self.owner,
    {
        self.owner
    }
}

/// Capability consumed by the first RECEIVE after a read START.
#[must_use]
pub struct FirstReceivePermit<'a> {
    pub owner: usize,
    pub phase: &'a mut SessionPhase,
}

impl<'a> FirstReceivePermit<'a> {
    /// The phase that this permit guards, as it stands.
    pub open spec fn current(&self) -> SessionPhase {
        *self.phase
    }

    /// A first RECEIVE is valid only in the addressed-read phase.
    pub fn new(owner: usize, phase: &'a mut SessionPhase) -> (r: Self)
        requires
            (*old(phase)).addressed(),
        ensures
            r.owner == owner,
            r.current() == *old(phase),
            *final(phase) == *final(r.phase),
    {
        FirstReceivePermit { owner, phase }
    }

    pub fn owner(&self) -> (r: usize)
        ensures
            r == self.owner,
    {
        self.owner
    }

    /// Consumes this permit with the single gate outcome. Both success and
    /// failure assign through the same transition table, so an addressed
    /// state is preserved on a full FIFO or a fault.
    pub fn finish_enqueue(self, queued: bool, _seal: FacadeSeal)
        requires
            self.current().addressed(),
        ensures
            *final(self.phase) == (if queued {
                SessionPhase::FirstReceivePending
            } else {
                self.current()
            }),
    {
        if let Some(next) = (*self.phase).after_first_receive_enqueue(queued) {
            *self.phase = next;
        }
    }
}

/// Capability for follow-on RECEIVE commands after the first command entered
/// the FIFO. It remains valid while that command is pending and after a
/// received byte proves it ran.
#[must_use]
pub struct ReadReceivePermit<'a> {
    pub owner: usize,
    pub phase: &'a SessionPhase,
}

impl<'a> ReadReceivePermit<'a> {
    /// The phase that this permit guards.
    pub open spec fn current(&self) -> SessionPhase {
        *self.phase
    }

    pub fn owner(&self) -> (r: usize)
        ensures
            r == self.owner,
    {
        self.owner
    }
}

/// The phase after a look at the receive FIFO that found data or not.
pub open spec fn phase_noted(phase: SessionPhase, data: bool) -> SessionPhase {
    if data {
        phase.streamed()
    } else {
        phase
    }
}

/// [`phase_noted`] on the phase that a recovery still carries, if any.
pub open spec fn pending_noted(pending: Option<PendingRecovery>, data: bool) -> Option<PendingRecovery> {
    match pending {
        Some(p) => Some(PendingRecovery(phase_noted(p.0, data))),
        None => None,
    }
}

/// What [`retain_recovery_rx_progress`] did and returned: with no phase to
/// recover it looks at nothing.
pub open spec fn rx_progress_retained(
    before: Seq<Access>,
    after: Seq<Access>,
    phase: Option<PendingRecovery>,
    r: Option<PendingRecovery>,
) -> bool {
    let fifo = entry(before, after, 0)->ReadMfsr_0;
    if phase is Some {
        &&& after == before.push(Access::ReadMfsr(fifo))
        &&& r == pending_noted(phase, fifo.rxcount != 0)
    } else {
        &&& after == before
        &&& r is None
    }
}

/// Preserves first-RECEIVE evidence observed during recovery.
pub fn retain_recovery_rx_progress<H: ControllerPort>(
    phase: Option<PendingRecovery>,
    regs: &mut ControllerRegisters<H>,
) -> (r: Option<PendingRecovery>)
    ensures
        rx_progress_retained(old(regs).log(), final(regs).log(), phase, r),
        final(regs).block() == old(regs).block(),
{
    match phase {
        Some(pending) => match regs.observe_rx_progress() {
            Some(progress) => {
                Some(PendingRecovery(pending.0.after_read_progress(progress, regs.identity())))
            },
            None => Some(pending),
        },
        None => None,
    }
}

/// The discarded byte is intentionally not delivered, but it still proves
/// that a pending first RECEIVE ran. Recovery without a live session must
/// still drain the FIFO to release SCL flow control.
pub fn retain_recovery_discarded_rx_progress<H: ControllerPort>(
    phase: Option<PendingRecovery>,
    regs: &mut ControllerRegisters<H>,
) -> (r: Option<PendingRecovery>)
    ensures
        ({
            let any = (entry(old(regs).log(), final(regs).log(), 0)->ReadMfsr_0).rxcount != 0;
            &&& rx_discarded(old(regs).log(), final(regs).log(), any)
            &&& r == pending_noted(phase, any)
        }),
        commands(final(regs).log()) == commands(old(regs).log()),
        recoveries(final(regs).log()) == recoveries(old(regs).log()),
        final(regs).block() == old(regs).block(),
{
    let progress = regs.discard_rx();
    match progress {
        Some(progress) => match phase {
            Some(pending) => {
                Some(PendingRecovery(pending.0.after_read_progress(progress, regs.identity())))
            },
            None => {
                progress.consume_for(regs.identity());
                None
            },
        },
        None => phase,
    }
}

/// The contents of a [`Session`].
pub struct SessionView {
    /// The register block whose transaction this is.
    pub owner: usize,
    /// The budget of the recovery, in ticks.
    pub timeout: u64,
    pub phase: SessionPhase,
    /// A fault that the cleanup has to resolve.
    pub fault: Option<RetainedFault>,
}

/// A session once a fault was bound to it: data in the receive FIFO proves
/// that a first RECEIVE ran; a retained fault is kept for the cleanup; a
/// halting one collapses the phase to its recovery shape.
pub open spec fn bound(session: SessionView, data: bool, fault: ControllerStatusError) -> SessionView {
    let phase = phase_noted(session.phase, data);
    let kept = if fault_retained(fault) is Some {
        fault_retained(fault)
    } else {
        session.fault
    };
    SessionView {
        phase: if kept matches Some(RetainedFault::Halted(_)) {
            SessionPhase::Stable(fault_shape(fault, phase.halt_shape()))
        } else {
            phase
        },
        fault: kept,
        ..session
    }
}

/// A fault was bound to a session: the receive FIFO was looked at once, and
/// the error that goes to the caller is that of the fault.
pub open spec fn fault_bound(
    before: Seq<Access>,
    after: Seq<Access>,
    session: SessionView,
    next: SessionView,
    fault: ControllerStatusError,
    error: IOError,
) -> bool {
    let fifo = entry(before, after, 0)->ReadMfsr_0;
    &&& after == before.push(Access::ReadMfsr(fifo))
    &&& next == bound(session, fifo.rxcount != 0, fault)
    &&& error == io_error(fault)
}

/// Receive progress after a [`Session`] has used the first-RECEIVE evidence.
#[derive(Clone, Copy, Debug, PartialEq, Eq, Structural)]
#[must_use]
pub enum SessionRxStep {
    Byte(u8),
    Ended,
}

/// What [`Session::rx_step`] did and returned.
pub open spec fn session_rx_ran(
    before: Seq<Access>,
    after: Seq<Access>,
    session: SessionView,
    next: SessionView,
    r: Result<Option<SessionRxStep>, IOError>,
) -> bool {
    match r {
        Ok(Some(SessionRxStep::Byte(byte))) => {
            &&& rx_step_ran(before, after, Some(RxStep::Byte(byte)))
            &&& next == SessionView { phase: session.phase.streamed(), ..session }
        },
        Ok(Some(SessionRxStep::Ended)) => {
            &&& rx_step_ran(before, after, Some(RxStep::Ended))
            &&& next == session
        },
        Ok(None) => {
            &&& rx_step_ran(before, after, None)
            &&& next == session
        },
        Err(error) => exists|fault: ControllerStatusError|
            {
                &&& #[trigger] rx_step_ran(before, after.drop_last(), Some(RxStep::Fault(fault)))
                &&& fault_bound(after.drop_last(), after, session, next, fault, error)
            },
    }
}

/// An open bus transaction.
///
/// Produced only by a START, and consumed by a completed STOP or by
/// [`Session::abandon`], which recovers the bus. There is no `Clone`: one
/// wire transaction has one recovery owner.
#[must_use]
pub struct Session {
    owner: usize,
    timeout: u64,
    phase: SessionPhase,
    fault: FaultSlot,
}

impl View for Session {
    type V = SessionView;

    closed spec fn view(&self) -> SessionView {
        SessionView { owner: self.owner, timeout: self.timeout, phase: self.phase, fault: self.fault@ }
    }
}

impl Session {
    /// Mints the only capability that may emit a first read-data command.
    pub fn first_receive_permit(&mut self) -> (r: FirstReceivePermit<'_>)
        requires
            old(self)@.phase.addressed(),
        ensures
            r.owner == old(self)@.owner,
            r.current() == old(self)@.phase,
            final(self)@ == (SessionView { phase: *final(r.phase), ..old(self)@ }),
    {
        FirstReceivePermit::new(self.owner, &mut self.phase)
    }

    /// Mints the permit for an ordinary TRANSMIT.
    pub fn command_permit(&mut self) -> (r: CommandPermit<'_>)
        requires
            old(self)@.fault is None,
            old(self)@.phase.writable(),
        ensures
            r.owner == old(self)@.owner,
            r.current() == old(self)@.phase,
            final(self)@ == (SessionView { phase: *final(r.phase), ..old(self)@ }),
    {
        CommandPermit { owner: self.owner, phase: &mut self.phase }
    }

    /// Mints a capability for a later RECEIVE.
    pub fn read_receive_permit(&self) -> (r: ReadReceivePermit<'_>)
        requires
            self@.phase.reading(),
        ensures
            r.owner == self@.owner,
            r.current() == self@.phase,
    {
        ReadReceivePermit { owner: self.owner, phase: &self.phase }
    }

    /// Mints the only capability that may enqueue a START for this session.
    pub fn start_transition_permit(&mut self) -> (r: StartTransitionPermit<'_>)
        requires
            old(self)@.fault is None,
            old(self)@.phase is Stable,
        ensures
            r.owner == old(self)@.owner,
            r.current() == old(self)@.phase,
            final(self)@ == (SessionView { phase: *final(r.phase), ..old(self)@ }),
    {
        StartTransitionPermit::new(self.owner, &mut self.phase)
    }

    /// Mints the only capability that may observe a queued START's drain and
    /// status sequence.
    pub fn start_status_permit(&mut self) -> (r: StartStatusPermit<'_>)
        requires
            old(self)@.fault is None,
            old(self)@.phase is StartPending,
        ensures
            r.owner == old(self)@.owner,
            r.current() == old(self)@.phase,
            final(self)@ == (SessionView { phase: *final(r.phase), ..old(self)@ }),
    {
        StartStatusPermit { owner: self.owner, phase: &mut self.phase }
    }

    /// Mints the only capability that may enqueue a normal trailing STOP.
    pub fn stop_transition_permit(&mut self) -> (r: StopTransitionPermit<'_>)
        requires
            old(self)@.fault is None,
            old(self)@.phase.closable(),
        ensures
            r.owner == old(self)@.owner,
            r.current() == old(self)@.phase,
            final(self)@ == (SessionView { phase: *final(r.phase), ..old(self)@ }),
    {
        StopTransitionPermit::new(self.owner, &mut self.phase)
    }

    /// Receive DMA may be armed once a first RECEIVE was queued.
    pub fn permits_rx_dma(&self) -> (r: bool)
        ensures
            r == (self@.fault is None && self@.phase.reading()),
    {
        self.fault.is_empty() && (self.phase == SessionPhase::FirstReceivePending || self.phase
            == SessionPhase::Stable(Abort::ReadStreaming))
    }

    /// Transmit DMA may be armed once a write START has settled.
    pub fn permits_tx_dma(&self) -> (r: bool)
        ensures
            r == (self@.fault is None && self@.phase.writable()),
    {
        self.fault.is_empty() && self.phase.permits_transmit()
    }

    /// A received byte proves that the first queued RECEIVE ran.
    fn note_read_progress(&mut self, progress: RxProgress)
        requires
            progress.owner() == old(self)@.owner,
        ensures
            final(self)@ == (SessionView { phase: old(self)@.phase.streamed(), ..old(self)@ }),
    {
        self.phase = self.phase.after_read_progress(progress, self.owner);
    }

    /// Receive DMA establishes the same fact once its channel is quiesced.
    fn note_dma_read_progress(&mut self)
        ensures
            final(self)@ == (SessionView { phase: old(self)@.phase.streamed(), ..old(self)@ }),
    {
        self.phase = self.phase.after_dma_read_progress();
    }

    /// Takes what a quiesced receive channel proves: bytes that it moved, or
    /// bytes that still rest in the FIFO, show that the first RECEIVE ran.
    pub fn settle_dma_read<H: ControllerPort>(&mut self, regs: &mut ControllerRegisters<H>, transferred: usize)
        requires
            old(self)@.owner == old(regs).block(),
            channel_quiet(old(regs).log()),
        ensures
            ({
                let fifo = entry(old(regs).log(), final(regs).log(), 0)->ReadMfsr_0;
                if transferred != 0 {
                    &&& final(regs).log() == old(regs).log()
                    &&& final(self)@ == (SessionView { phase: old(self)@.phase.streamed(), ..old(self)@ })
                } else {
                    &&& final(regs).log() == old(regs).log().push(Access::ReadMfsr(fifo))
                    &&& final(self)@ == (SessionView {
                        phase: phase_noted(old(self)@.phase, fifo.rxcount != 0),
                        ..old(self)@
                    })
                }
            }),
            final(regs).block() == old(regs).block(),
    {
        if transferred != 0 {
            self.note_dma_read_progress();
        } else if let Some(progress) = regs.observe_rx_progress() {
            self.note_read_progress(progress);
        }
    }

    /// Pops and classifies one receive-side event. The evidence that goes
    /// with a popped byte is used here, so transfer loops cannot forget the
    /// matching phase transition.
    pub fn rx_step<H: ControllerPort>(&mut self, regs: &mut ControllerRegisters<H>) -> (r: Result<
        Option<SessionRxStep>,
        IOError,
    >)
        requires
            old(self)@.owner == old(regs).block(),
        ensures
            session_rx_ran(old(regs).log(), final(regs).log(), old(self)@, final(self)@, r),
            final(regs).block() == old(regs).block(),
    {
        let step = regs.rx_step();
        match step {
            None => Ok(None),
            Some(RxStep::Byte(byte)) => {
                let progress = regs.rx_progress();
                self.note_read_progress(progress);
                Ok(Some(SessionRxStep::Byte(byte)))
            },
            Some(RxStep::Ended) => Ok(Some(SessionRxStep::Ended)),
            Some(RxStep::Fault(fault)) => {
                let ghost seen = regs.log();
                let error = self.bind_fault(regs, fault);
                assert(regs.log().drop_last() =~= seen);
                Err(error)
            },
        }
    }

    /// Moves the STOP-pending session into the owner that is threaded through
    /// every terminal poll.
    pub fn into_stop_wait(self) -> (r: StopWait)
        requires
            self@.phase is StopPending,
        ensures
            r@ == self@,
    {
        StopWait { session: self }
    }

    /// Converts a classified fault to the public error after a retained
    /// observation has been made this session's cleanup proof.
    pub fn bind_fault<H: ControllerPort>(
        &mut self,
        regs: &mut ControllerRegisters<H>,
        fault: ControllerStatusError,
    ) -> (r: IOError)
        requires
            old(self)@.owner == old(regs).block(),
        ensures
            fault_bound(old(regs).log(), final(regs).log(), old(self)@, final(self)@, fault, r),
            final(regs).block() == old(regs).block(),
    {
        // The fault may be observed before the data consumer gets its next
        // turn. Data already in the FIFO proves that the first RECEIVE ran,
        // so look before choosing the halted-fault recovery side.
        if let Some(progress) = regs.observe_rx_progress() {
            self.note_read_progress(progress);
        }
        let error = self.fault.capture(fault);
        if self.fault.has_halted_fault() {
            self.phase = SessionPhase::Stable(recovery_abort_for(error, self.phase.abort_for_halted_fault()));
        }
        IOError::from_status(error)
    }
}

/// Owns a STOP-pending session through all completion polls.
#[must_use]
pub struct StopWait {
    session: Session,
}

impl View for StopWait {
    type V = SessionView;

    closed spec fn view(&self) -> SessionView {
        self.session@
    }
}

impl StopWait {
    pub fn owner(&self) -> (r: usize)
        ensures
            r == self@.owner,
    {
        self.session.owner
    }

    pub fn into_completed(self, _seal: FacadeSeal) -> (r: StopCompleted)
        ensures
            r@ == self@,
    {
        StopCompleted { stop: self }
    }

    /// Gives the session up without a completed STOP.
    pub fn into_session(self) -> (r: Session)
        ensures
            r@ == self@,
    {
        self.session
    }
}

/// A fault observed while a STOP wait was live. It keeps the session attached
/// until the fault is bound and the bus recovered.
#[must_use]
pub struct StopFault {
    stop: StopWait,
    fault: ControllerStatusError,
}

impl StopFault {
    pub closed spec fn session(&self) -> SessionView {
        self.stop@
    }

    pub closed spec fn fault(&self) -> ControllerStatusError {
        self.fault
    }

    pub fn new(stop: StopWait, fault: ControllerStatusError, _seal: FacadeSeal) -> (r: Self)
        ensures
            r.session() == stop@,
            r.fault() == fault,
    {
        StopFault { stop, fault }
    }

    /// Binds the fault to its session and hands both back.
    pub fn into_error<H: ControllerPort>(self, regs: &mut ControllerRegisters<H>) -> (r: (Session, IOError))
        requires
            self.session().owner == old(regs).block(),
        ensures
            fault_bound(old(regs).log(), final(regs).log(), self.session(), r.0@, self.fault(), r.1),
            final(regs).block() == old(regs).block(),
    {
        let mut session = self.stop.session;
        let error = session.bind_fault(regs, self.fault);
        (session, error)
    }
}

/// Proof that the normal STOP this session queued has physically completed.
#[must_use]
pub struct StopCompleted {
    stop: StopWait,
}

impl View for StopCompleted {
    type V = SessionView;

    closed spec fn view(&self) -> SessionView {
        self.stop@
    }
}

impl StopCompleted {
    pub fn owner(&self) -> (r: usize)
        ensures
            r == self@.owner,
    {
        self.stop.owner()
    }

    pub fn into_wait(self) -> (r: StopWait)
        ensures
            r@ == self@,
    {
        self.stop
    }

    pub fn commit_finalized(self, _seal: FacadeSeal) -> (r: StopFinalized)
        ensures
            r.follows(self@),
    {
        let mut session = self.stop.session;
        session.phase = SessionPhase::StopFinalized;
        StopFinalized { session }
    }
}

/// A clean terminal-status proof carrying the completed session.
#[must_use]
pub struct StopFinalized {
    session: Session,
}

impl StopFinalized {
    /// This is the end of the given session.
    pub closed spec fn follows(&self, session: SessionView) -> bool {
        self.session@ == SessionView { phase: SessionPhase::StopFinalized, ..session }
    }

    /// Consumes the completed session without recovery.
    pub fn defuse(self, info: &mut Info)
        ensures
            !final(info).open(),
    {
        info.release_session();
    }
}

/// A fault in the final snapshot after physical STOP completion.
#[must_use]
pub struct StopFinalizeFault {
    stop: StopWait,
    fault: ControllerStatusError,
}

impl StopFinalizeFault {
    pub closed spec fn session(&self) -> SessionView {
        self.stop@
    }

    pub closed spec fn fault(&self) -> ControllerStatusError {
        self.fault
    }

    pub fn new(stop: StopWait, fault: ControllerStatusError, _seal: FacadeSeal) -> (r: Self)
        ensures
            r.session() == stop@,
            r.fault() == fault,
    {
        StopFinalizeFault { stop, fault }
    }

    /// Binds the fault to its session and hands both back.
    pub fn into_error<H: ControllerPort>(self, regs: &mut ControllerRegisters<H>) -> (r: (Session, IOError))
        requires
            self.session().owner == old(regs).block(),
        ensures
            fault_bound(old(regs).log(), final(regs).log(), self.session(), r.0@, self.fault(), r.1),
            final(regs).block() == old(regs).block(),
    {
        let mut session = self.stop.session;
        let error = session.bind_fault(regs, self.fault);
        (session, error)
    }
}

/// How long an engine must stay idle with a close still queued before that
/// close is taken to be pointless, in ticks.
pub const IDLE_WINDOW: u64 = 500;

/// What [`idle_with_close_pending`] did and returned. The window opens at the
/// first look that finds the engine idle with commands queued, and closes as
/// soon as either is no longer so.
pub open spec fn idle_check_ran(
    before: Seq<Access>,
    after: Seq<Access>,
    since: Option<u64>,
    r: (bool, Option<u64>),
) -> bool {
    let status = entry(before, after, 0)->ReadMsr_0;
    let fifo = entry(before, after, 1)->ReadMfsr_0;
    let now = entry(before, after, 2)->Now_0;
    if status.mbf {
        &&& after == before.push(Access::ReadMsr(status))
        &&& r == (false, None::<u64>)
    } else if fifo.txcount == 0 {
        &&& after == before.push(Access::ReadMsr(status)).push(Access::ReadMfsr(fifo))
        &&& r == (false, None::<u64>)
    } else {
        let first = match since {
            Some(t) => t,
            None => now,
        };
        &&& after == before.push(Access::ReadMsr(status)).push(Access::ReadMfsr(fifo)).push(Access::Now(now))
        &&& r == (now - first > IDLE_WINDOW, Some(first))
    }
}

/// Looks for an engine that stays idle with the close still pending. Such an
/// engine was never going to run the close: the transaction already closed
/// itself. The window rides out the fetch gap between queueing a command and
/// the engine becoming busy.
fn idle_with_close_pending<H: ControllerPort>(regs: &mut ControllerRegisters<H>, since: Option<u64>) -> (r: (
    bool,
    Option<u64>,
))
    ensures
        idle_check_ran(old(regs).log(), final(regs).log(), since, r),
        final(regs).block() == old(regs).block(),
{
    if !regs.master_busy() && regs.tx_pending() > 0 {
        let now: u64 = regs.now();
        let first: u64 = match since {
            Some(t) => t,
            None => now,
        };
        (now.saturating_sub(first) > ticks_from_micros(500), Some(first))
    } else {
        (false, None)
    }
}

/// Where a recovery stands after it acted on a fault.
#[derive(Clone, Copy, Debug, PartialEq, Eq, Structural)]
pub enum FaultVerdict {
    /// The transaction still has to be closed.
    Unresolved,
    /// The engine closed the transaction itself.
    Settled,
    /// The controller was shut down.
    Terminated,
}

/// The shape and the phase that a recovery goes on with.
#[derive(Clone, Copy, Debug, PartialEq, Eq, Structural)]
pub struct Unwinding {
    pub abort: Abort,
    pub late: Option<PendingRecovery>,
}

impl Unwinding {
    /// A byte may be clocked in before the transaction is closed.
    pub open spec fn may_clock(self) -> bool {
        ||| self.abort == Abort::ReadAddressed
        ||| (self.late matches Some(pending) && pending.0.halt_shape() == Abort::ReadAddressed)
    }
}

/// What [`act_on_fault`] did and returned. A halt freezes the engine, so the
/// FIFO look that follows it is the proof of whether a pending first RECEIVE
/// ran, and decides the shape of the close.
pub open spec fn fault_action_ran(
    before: Seq<Access>,
    after: Seq<Access>,
    fault: RetainedFault,
    unwinding: Unwinding,
    timeout: u64,
    deadline: u64,
    r: (FaultVerdict, Unwinding),
) -> bool {
    match fault {
        RetainedFault::PinLowTimeout => {
            &&& after == before.push(Access::TerminatePinLow)
            &&& r == (FaultVerdict::Terminated, unwinding)
        },
        RetainedFault::Halted(halt) => {
            let fifo = entry(before, after, 0)->ReadMfsr_0;
            let looked = if unwinding.late is Some {
                before.push(Access::ReadMfsr(fifo))
            } else {
                before
            };
            let late = pending_noted(unwinding.late, fifo.rxcount != 0);
            let abort = match late {
                Some(p) => fault_shape(halt.error, p.0.halt_shape()),
                None => unwinding.abort,
            };
            let resolution = after.last()->ResolveHalt_3;
            &&& after == looked.push(Access::ResolveHalt(halt.error, timeout, deadline, resolution))
            &&& r == (
                match resolution {
                    HaltResolution::Settled => FaultVerdict::Settled,
                    HaltResolution::NeedsManualClose => FaultVerdict::Unresolved,
                    HaltResolution::PinLowTerminated => FaultVerdict::Terminated,
                },
                Unwinding { abort, late },
            )
        },
    }
}

/// Acts on a fault that a recovery observed.
fn act_on_fault<H: ControllerPort>(
    regs: &mut ControllerRegisters<H>,
    fault: RetainedFault,
    unwinding: Unwinding,
    timeout: u64,
    deadline: u64,
) -> (r: (FaultVerdict, Unwinding))
    ensures
        fault_action_ran(old(regs).log(), final(regs).log(), fault, unwinding, timeout, deadline, r),
        final(regs).block() == old(regs).block(),
{
    match fault {
        RetainedFault::PinLowTimeout => {
            regs.terminate_pin_low_timeout();
            (FaultVerdict::Terminated, unwinding)
        },
        RetainedFault::Halted(halt) => {
            let late = retain_recovery_rx_progress(unwinding.late, regs);
            let abort = match late {
                Some(phase) => recovery_abort_for(halt.error(), phase.abort_for_halted_fault()),
                None => unwinding.abort,
            };
            let verdict = match regs.resolve_halted_fault(halt, timeout, deadline) {
                HaltResolution::Settled => FaultVerdict::Settled,
                HaltResolution::NeedsManualClose => FaultVerdict::Unresolved,
                HaltResolution::PinLowTerminated => FaultVerdict::Terminated,
            };
            (verdict, Unwinding { abort, late })
        },
    }
}

/// A sequence of complete closes: STOPs, each of them alone or right behind
/// a RECEIVE of one byte.
pub open spec fn closes(words: Seq<Mtdr>) -> bool
    decreases words.len(),
{
    if words.len() == 0 {
        true
    } else if words.len() >= 2 && words[words.len() - 2] == receive_word(1) {
        words.last() == stop_word() && closes(words.drop_last().drop_last())
    } else {
        words.last() == stop_word() && closes(words.drop_last())
    }
}

/// No byte is clocked in.
pub open spec fn only_stops(words: Seq<Mtdr>) -> bool {
    forall|i: int| 0 <= i < words.len() ==> #[trigger] words[i] == stop_word()
}

proof fn lemma_closes_push(words: Seq<Mtdr>, close: RecoveryClose)
    requires
        closes(words),
    ensures
        closes(words + close_words(close)),
{
    let all = words + close_words(close);
    match close {
        RecoveryClose::Stop => {
            assert(all.drop_last() =~= words);
            if words.len() > 0 {
                assert(words.last() == stop_word());
            }
        },
        RecoveryClose::ReleaseAddressedRead => {
            assert(all.drop_last().drop_last() =~= words);
        },
    }
}

/// The commands that `after` holds beyond `before`.
pub open spec fn command_tail(before: Seq<Access>, after: Seq<Access>) -> Seq<Mtdr> {
    commands(after).skip(commands(before).len() as int)
}

/// The last looks found the engine idle with commands still queued.
pub open spec fn idle_with_commands(log: Seq<Access>) -> bool {
    let n = log.len();
    &&& n >= 3
    &&& log[n - 3] is ReadMsr && !(log[n - 3]->ReadMsr_0).mbf
    &&& log[n - 2] is ReadMfsr && (log[n - 2]->ReadMfsr_0).txcount > 0
    &&& log[n - 1] is Now
}

/// The engine has let go of the bus: it was seen idle, it closed the
/// transaction itself, it never ran the close, or it was hard-reset.
pub open spec fn let_go(log: Seq<Access>) -> bool {
    ||| seen_idle(log)
    ||| halt_settled(log)
    ||| idle_with_commands(log)
    ||| log.len() > 0 && log.last() is ResetEngine
}

/// A recovery ends with the controller shut down, or with a clean slate
/// behind an engine that has let go of the bus.
pub open spec fn recovery_ended(log: Seq<Access>) -> bool {
    ||| shut_down(log)
    ||| log.len() >= 3 && slate_cleaned(log.take(log.len() - 3), log) && let_go(log.take(log.len() - 3))
}

/// The commands that a recovery queued: nothing but complete closes, and a
/// byte is clocked in only where `may_clock` says so.
pub open spec fn closes_queued(before: Seq<Access>, after: Seq<Access>, may_clock: bool) -> bool {
    &&& extends(before, after)
    &&& commands(after) == commands(before) + command_tail(before, after)
    &&& closes(command_tail(before, after))
    &&& (!may_clock ==> only_stops(command_tail(before, after)))
    &&& recoveries(after) == recoveries(before)
}

/// What a recovery did, whatever the bus answered: it queued nothing but
/// complete closes, and it ended with the controller shut down or with a
/// clean slate.
pub open spec fn recovery_ran(before: Seq<Access>, after: Seq<Access>, may_clock: bool) -> bool {
    &&& closes_queued(before, after, may_clock)
    &&& recovery_ended(after)
}

/// The tick `t` was read behind `before`.
pub open spec fn tick_read(before: Seq<Access>, log: Seq<Access>, t: u64) -> bool {
    exists|i: int| before.len() <= i < log.len() && #[trigger] log[i] == Access::Now(t)
}

/// The engine stood idle with commands queued for longer than the window.
pub open spec fn stayed_idle(before: Seq<Access>, log: Seq<Access>) -> bool {
    let now = log.last()->Now_0;
    &&& log.len() >= before.len() + 3
    &&& idle_with_commands(log)
    &&& exists|first: u64| #[trigger] tick_read(before, log, first) && now - first > IDLE_WINDOW
}

/// The wait for the engine ran out, and the engine was hard-reset.
pub open spec fn reset_when_late(before: Seq<Access>, log: Seq<Access>, deadline: u64) -> bool {
    let n = log.len();
    &&& n >= before.len() + 2
    &&& log[n - 1] is ResetEngine
    &&& log[n - 2] is Now
    &&& (log[n - 2]->Now_0 > deadline || n - before.len() >= POLL_LIMIT)
}

/// The engine resolved a halt and closed the transaction itself.
pub open spec fn halt_settled(log: Seq<Access>) -> bool {
    &&& log.len() > 0
    &&& log.last() is ResolveHalt
    &&& log.last()->ResolveHalt_3 == HaltResolution::Settled
}

/// The last look at the engine found it idle.
pub open spec fn seen_idle(log: Seq<Access>) -> bool {
    log.len() > 0 && log.last() is ReadMsr && !(log.last()->ReadMsr_0).mbf
}

/// How the drain of a recovery came to its end, where the controller was not
/// shut down: its close was queued and ran out, the engine closed the
/// transaction itself or never ran the close, or it was hard-reset.
pub open spec fn drain_over(before: Seq<Access>, log: Seq<Access>, deadline: u64) -> bool {
    ||| seen_idle(log) && command_tail(before, log).len() > 0
    ||| halt_settled(log)
    ||| stayed_idle(before, log)
    ||| reset_when_late(before, log, deadline)
}

/// The engine let go of the bus before the slate was cleaned. A recovery
/// that found the engine busy at its first look has queued a close wherever
/// it went by an idle engine.
pub open spec fn released(before: Seq<Access>, log: Seq<Access>, timeout: u64, carried: bool) -> bool {
    let busy = (log[first_look(before, carried)]->ReadMsr_0).mbf;
    let end = deadline(entry(before, log, 0)->Now_0, timeout);
    ||| seen_idle(log) && (busy ==> command_tail(before, log).len() > 0)
    ||| halt_settled(log)
    ||| stayed_idle(before, log)
    ||| reset_when_late(before, log, end)
}

/// The controller was shut down because a line was held low.
pub open spec fn shut_down(log: Seq<Access>) -> bool {
    ||| log.len() > 0 && log.last() is TerminatePinLow
    ||| log.len() > 0 && log.last() is ResolveHalt && log.last()->ResolveHalt_3 == HaltResolution::PinLowTerminated
}

/// The transaction stands right behind a START that opens a read: its target
/// drives SDA and waits for a clock.
pub open spec fn opens_read(words: Seq<Mtdr>) -> bool {
    words.len() > 0 && words.last().cmd == ControllerCommand::Start && words.last().data % 2 == 1
}

/// The phase says what the commands of the open transaction have led to.
pub open spec fn mirrors(words: Seq<Mtdr>, phase: SessionPhase) -> bool {
    match phase {
        SessionPhase::Stable(abort) => abort == Abort::ReadAddressed <==> opens_read(words),
        SessionPhase::StartPending { before, after } => {
            &&& words.len() > 0
            &&& words.last().cmd == ControllerCommand::Start
            &&& (after == Abort::ReadAddressed <==> opens_read(words))
            &&& (before == Abort::ReadAddressed <==> opens_read(words.drop_last()))
        },
        SessionPhase::FirstReceivePending => words.len() > 0 && words.last().cmd == ControllerCommand::Receive,
        SessionPhase::StopPending { before } => {
            &&& words.len() > 0
            &&& words.last() == stop_word()
            &&& before != Abort::ReadAddressed
        },
        SessionPhase::StopFinalized => !opens_read(words),
    }
}

/// What a session recovers for fits the commands of the open transaction. A
/// halt that is bound to it has collapsed its phase.
pub open spec fn session_mirrors(words: Seq<Mtdr>, session: SessionView) -> bool {
    match session.fault {
        Some(RetainedFault::Halted(halt)) => exists|phase: SessionPhase|
            {
                &&& #[trigger] mirrors(words, phase)
                &&& session.phase == SessionPhase::Stable(fault_shape(halt.error, phase.halt_shape()))
            },
        _ => mirrors(words, session.phase),
    }
}

/// The entry is a status snapshot that reports this fault.
pub open spec fn reports(a: Access, fault: RetainedFault) -> bool {
    &&& a is ReadMsr
    &&& status_error(a->ReadMsr_0) matches Some(error) && fault_retained(error) == Some(fault)
}

/// A fault that is kept for the cleanup was seen in a status snapshot.
pub open spec fn fault_known(log: Seq<Access>, fault: Option<RetainedFault>) -> bool {
    fault matches Some(kept) ==> exists|i: int| 0 <= i < log.len() && #[trigger] reports(log[i], kept)
}

/// What a session recovers for fits the history: the commands of the open
/// transaction, and a snapshot that reports the fault it holds.
pub open spec fn session_fits(log: Seq<Access>, session: SessionView) -> bool {
    &&& session_mirrors(wire(log), session)
    &&& fault_known(log, session.fault)
}

/// A fault that was seen and is bound is known.
pub proof fn lemma_fault_known(seen: Seq<Access>, after: Seq<Access>, fault: ControllerStatusError)
    requires
        seen.len() > 0,
        seen.last() is ReadMsr,
        status_error(seen.last()->ReadMsr_0) == Some(fault),
        extends(seen, after),
    ensures
        fault_known(after, fault_retained(fault)),
{
    if let Some(kept) = fault_retained(fault) {
        assert(reports(after[seen.len() - 1], kept));
    }
}

/// A known fault stays known.
pub proof fn lemma_known_later(before: Seq<Access>, after: Seq<Access>, fault: Option<RetainedFault>)
    requires
        fault_known(before, fault),
        extends(before, after),
    ensures
        fault_known(after, fault),
{
    if let Some(kept) = fault {
        let i = choose|i: int| 0 <= i < before.len() && #[trigger] reports(before[i], kept);
        assert(reports(after[i], kept));
    }
}

/// Binding a fault keeps a session that fits its transaction fitting.
pub proof fn lemma_bound_mirrors(words: Seq<Mtdr>, session: SessionView, data: bool, fault: ControllerStatusError)
    requires
        session.fault is None,
        mirrors(words, session.phase),
    ensures
        session_mirrors(words, bound(session, data, fault)),
{
    assert(mirrors(words, phase_noted(session.phase, data)));
}

/// Where the recovery behind `before` took ownership of the bus.
pub open spec fn taken_over(before: Seq<Access>, after: Seq<Access>) -> Seq<Access> {
    before.push(Access::RecoveryBegin(entry(before, after, 0)->RecoveryBegin_0))
}

/// One recovery took ownership of the bus behind `before` and ran to its end.
/// It gave a session up that fits the open transaction, or it came before
/// there was one.
pub open spec fn recovered(before: Seq<Access>, after: Seq<Access>, may_clock: bool) -> bool {
    &&& recovery_ran(taken_over(before, after), after, may_clock)
    &&& given_up(before, after) || cleared_before_session(before, after)
}

/// A session that fits the open transaction was given up.
pub open spec fn given_up(before: Seq<Access>, after: Seq<Access>) -> bool {
    exists|session: SessionView| #[trigger] session_fits(before, session) && abandoned(before, after, session)
}

/// The last entry is a status snapshot that reports this fault.
pub open spec fn last_reports(log: Seq<Access>, fault: ControllerStatusError) -> bool {
    &&& log.len() > 0
    &&& log.last() is ReadMsr
    &&& status_error(log.last()->ReadMsr_0) == Some(fault)
}

/// The bus was cleared before a transaction was opened.
pub open spec fn cleared_before_session(before: Seq<Access>, after: Seq<Access>) -> bool {
    &&& !opens_read(wire(before))
    &&& {
        ||| exists|timeout: u64, fault: ControllerStatusError|
            {
                &&& #[trigger] fault_cleared_before_session(before, after, timeout, fault)
                &&& last_reports(before, fault)
            }
        ||| exists|timeout: u64| #[trigger] cancelled_before_session(before, after, timeout)
    }
}

proof fn lemma_closes_words(words: Seq<Mtdr>)
    requires
        closes(words),
    ensures
        forall|i: int| 0 <= i < words.len() ==> #[trigger] words[i].cmd != ControllerCommand::Start,
    decreases words.len(),
{
    if words.len() >= 2 && words[words.len() - 2] == receive_word(1) {
        let rest = words.drop_last().drop_last();
        lemma_closes_words(rest);
        assert forall|i: int| 0 <= i < words.len() implies #[trigger] words[i].cmd != ControllerCommand::Start by {
            if i < rest.len() {
                assert(words[i] == rest[i]);
            }
        }
    } else if words.len() > 0 {
        let rest = words.drop_last();
        lemma_closes_words(rest);
        assert forall|i: int| 0 <= i < words.len() implies #[trigger] words[i].cmd != ControllerCommand::Start by {
            if i < rest.len() {
                assert(words[i] == rest[i]);
            }
        }
    }
}

/// A recovery queues no START.
pub proof fn lemma_closing_words(before: Seq<Access>, after: Seq<Access>, may_clock: bool)
    requires
        recovered(before, after, may_clock),
    ensures
        extends(taken_over(before, after), after),
        forall|i: int|
            commands(taken_over(before, after)).len() <= i < commands(after).len() ==> #[trigger] commands(
                after,
            )[i].cmd != ControllerCommand::Start,
{
    let begun = taken_over(before, after);
    let tail = command_tail(begun, after);
    lemma_closes_words(tail);
    assert forall|i: int| commands(begun).len() <= i < commands(after).len() implies #[trigger] commands(
        after,
    )[i].cmd != ControllerCommand::Start by {
        assert(commands(after)[i] == tail[i - commands(begun).len()]);
    }
}

/// A recovery leaves no read addressed and nothing owed.
pub broadcast proof fn lemma_recovered_wire(before: Seq<Access>, after: Seq<Access>, may_clock: bool)
    ensures
        #[trigger] recovered(before, after, may_clock) ==> !opens_read(wire(after)) && owed(after) is Idle,
{
    if recovered(before, after, may_clock) {
        lemma_recovered_owes_nothing(before, after, may_clock);
        let begun = taken_over(before, after);
        let tail = command_tail(begun, after);
        lemma_wire_grows(begun, after);
        assert(wire(after) =~= tail);
    }
}

proof fn lemma_recovered_owes_nothing(before: Seq<Access>, after: Seq<Access>, may_clock: bool)
    requires
        recovered(before, after, may_clock),
    ensures
        owed(after) is Idle,
{
    let begun = taken_over(before, after);
    lemma_closing_words(before, after, may_clock);
    lemma_owed_push(before, begun.last());
    lemma_stays_idle(begun, after);
}

/// Behind `start`, data proved that a pending first RECEIVE ran: the entry
/// look of the recovery found some, a byte was popped, or the look right
/// before a halt was resolved found some.
pub open spec fn data_proved(start: int, log: Seq<Access>) -> bool
    decreases log.len(),
{
    if log.len() <= start || log.len() == 0 {
        false
    } else {
        ||| data_proved(start, log.drop_last())
        ||| proves_data(start, log.drop_last(), log.last())
    }
}

/// The entry `a` behind `log` is a proof of [`data_proved`].
pub open spec fn proves_data(start: int, log: Seq<Access>, a: Access) -> bool {
    match a {
        Access::ReadMrdr(_) => true,
        Access::ReadMfsr(fifo) => log.len() == start + 1 && fifo.rxcount != 0,
        Access::ResolveHalt(_, _, _, _) => log.len() > start && log.last() is ReadMfsr && (
        log.last()->ReadMfsr_0).rxcount != 0,
        _ => false,
    }
}

/// The shape that the close of a recovery has to have. It starts out as that
/// of the cancelled transaction. A halt freezes the pipeline, so from then on
/// the close is for what the transaction did before its pending commands.
pub open spec fn shape_in_force(start: int, log: Seq<Access>, origin: Unwinding) -> Abort
    decreases log.len(),
{
    if log.len() <= start || log.len() == 0 {
        origin.abort
    } else {
        match log.last() {
            Access::ResolveHalt(error, _, _, _) => match origin.late {
                Some(pending) => fault_shape(error, phase_noted(pending.0, data_proved(start, log)).halt_shape()),
                None => origin.abort,
            },
            _ => shape_in_force(start, log.drop_last(), origin),
        }
    }
}

/// The close that a shape asks for. A target that drives SDA lets go of it
/// only behind a clocked byte.
pub open spec fn close_of(abort: Abort) -> RecoveryClose {
    if abort == Abort::ReadAddressed {
        RecoveryClose::ReleaseAddressedRead
    } else {
        RecoveryClose::Stop
    }
}

/// The commands of a recovery that began at `start`: for each STOP the whole
/// close of the shape in force.
pub open spec fn shaped_closes(start: int, log: Seq<Access>, origin: Unwinding) -> Seq<Mtdr>
    decreases log.len(),
{
    if log.len() <= start || log.len() == 0 {
        Seq::empty()
    } else if log.last() == Access::WriteMtdr(stop_word()) {
        shaped_closes(start, log.drop_last(), origin) + close_words(
            close_of(shape_in_force(start, log.drop_last(), origin)),
        )
    } else {
        shaped_closes(start, log.drop_last(), origin)
    }
}

/// A close was queued behind `start`, and no halt that the engine left open
/// has discarded it since.
pub open spec fn close_pending(start: int, log: Seq<Access>) -> bool
    decreases log.len(),
{
    if log.len() <= start || log.len() == 0 {
        false
    } else {
        match log.last() {
            Access::WriteMtdr(word) => word == stop_word() || close_pending(start, log.drop_last()),
            Access::ResolveHalt(_, _, _, resolution) => resolution != HaltResolution::NeedsManualClose
                && close_pending(start, log.drop_last()),
            _ => close_pending(start, log.drop_last()),
        }
    }
}

/// No close was queued behind `start` while another was pending.
pub open spec fn closes_once(start: int, log: Seq<Access>) -> bool
    decreases log.len(),
{
    if log.len() <= start || log.len() == 0 {
        true
    } else {
        &&& closes_once(start, log.drop_last())
        &&& (log.last() == Access::WriteMtdr(stop_word()) ==> !close_pending(start, log.drop_last()))
    }
}

pub broadcast proof fn lemma_proved_push(start: int, log: Seq<Access>, a: Access)
    requires
        start <= log.len(),
    ensures
        #[trigger] data_proved(start, log.push(a)) == (data_proved(start, log) || proves_data(start, log, a)),
{
    assert(log.push(a).drop_last() =~= log);
}

pub broadcast proof fn lemma_shape_push(start: int, log: Seq<Access>, a: Access, origin: Unwinding)
    requires
        start <= log.len(),
    ensures
        #[trigger] shape_in_force(start, log.push(a), origin) == (match a {
            Access::ResolveHalt(error, _, _, _) => match origin.late {
                Some(pending) => fault_shape(
                    error,
                    phase_noted(pending.0, data_proved(start, log.push(a))).halt_shape(),
                ),
                None => origin.abort,
            },
            _ => shape_in_force(start, log, origin),
        }),
{
    assert(log.push(a).drop_last() =~= log);
}

pub broadcast proof fn lemma_shaped_push(start: int, log: Seq<Access>, a: Access, origin: Unwinding)
    requires
        start <= log.len(),
    ensures
        #[trigger] shaped_closes(start, log.push(a), origin) == (if a == Access::WriteMtdr(stop_word()) {
            shaped_closes(start, log, origin) + close_words(close_of(shape_in_force(start, log, origin)))
        } else {
            shaped_closes(start, log, origin)
        }),
{
    assert(log.push(a).drop_last() =~= log);
}

pub broadcast proof fn lemma_pending_push(start: int, log: Seq<Access>, a: Access)
    requires
        start <= log.len(),
    ensures
        #[trigger] close_pending(start, log.push(a)) == (match a {
            Access::WriteMtdr(word) => word == stop_word() || close_pending(start, log),
            Access::ResolveHalt(_, _, _, resolution) => resolution != HaltResolution::NeedsManualClose
                && close_pending(start, log),
            _ => close_pending(start, log),
        }),
{
    assert(log.push(a).drop_last() =~= log);
}

pub broadcast proof fn lemma_once_push(start: int, log: Seq<Access>, a: Access)
    requires
        start <= log.len(),
    ensures
        #[trigger] closes_once(start, log.push(a)) == (closes_once(start, log) && (a == Access::WriteMtdr(stop_word())
            ==> !close_pending(start, log))),
{
    assert(log.push(a).drop_last() =~= log);
}

pub broadcast group group_unwinding {
    lemma_proved_push,
    lemma_shape_push,
    lemma_shaped_push,
    lemma_pending_push,
    lemma_once_push,
    lemma_steps_push,
}

/// The last look of a recovery at the faults found this halt. The look at the
/// receive FIFO that a halt asks for may stand behind it.
pub open spec fn halt_observed(start: int, log: Seq<Access>, error: ControllerStatusError) -> bool {
    let halt = Some(RetainedFault::Halted(HaltedFault { error }));
    let n = log.len();
    ||| n > start && log[n - 1] is ReadMsr && recovery_fault(log[n - 1]->ReadMsr_0) == halt
    ||| n > start + 1 && log[n - 1] is ReadMfsr && log[n - 2] is ReadMsr && recovery_fault(log[n - 2]->ReadMsr_0)
        == halt
}

/// What a recovery that began at `start` may do behind `log`, before it
/// leaves its clean slate: look, pop and queue; hand a halt that it observed,
/// or that was handed to it, to the engine; shut the controller down right
/// behind a look that found a line held low and nothing worse; reset the
/// engine once its time is up; and drop the FIFOs right behind a look that
/// found the engine idle. Of the status it clears an arbitration loss that it
/// saw alone, and all flags only with the FIFOs.
pub open spec fn recovery_step(
    start: int,
    log: Seq<Access>,
    a: Access,
    timeout: u64,
    end: u64,
    known: Option<HaltedFault>,
) -> bool {
    let n = log.len();
    match a {
        Access::Now(_)
        | Access::ReadMsr(_)
        | Access::ReadMfsr(_)
        | Access::ReadParam(_)
        | Access::ReadMcr(_)
        | Access::ReadMrdr(_)
        | Access::WriteMtdr(_) => true,
        Access::ResolveHalt(error, budget, until, _) => {
            &&& budget == timeout
            &&& until == end
            &&& {
                ||| known == Some(HaltedFault { error }) && n == start + 2
                ||| halt_observed(start, log, error)
            }
        },
        Access::TerminatePinLow => {
            &&& n > start
            &&& log[n - 1] is ReadMsr
            &&& recovery_fault(log[n - 1]->ReadMsr_0) == Some(RetainedFault::PinLowTimeout)
        },
        Access::ResetEngine => {
            &&& n > start
            &&& log[n - 1] is Now
            &&& log[n - 1]->Now_0 > end || n - start >= POLL_LIMIT
        },
        Access::WriteMcr(word) => {
            &&& n > start + 1
            &&& log[n - 1] is ReadMcr
            &&& word == (Mcr { rtf: true, rrf: true, ..log[n - 1]->ReadMcr_0 })
            &&& log[n - 2] is ReadMsr
            &&& !(log[n - 2]->ReadMsr_0).mbf
        },
        Access::WriteMsr(word) => {
            &&& n > start
            &&& {
                ||| {
                    &&& word == arbitration_scrub()
                    &&& log[n - 1] is ReadMsr
                    &&& (log[n - 1]->ReadMsr_0).alf
                    &&& recovery_fault(log[n - 1]->ReadMsr_0) is None
                }
                ||| word == Msr::all_flags() && log[n - 1] is WriteMcr
            }
        },
        _ => false,
    }
}

/// Every entry behind `start` is a step that a recovery may do there.
pub open spec fn recovery_steps(
    start: int,
    log: Seq<Access>,
    timeout: u64,
    end: u64,
    known: Option<HaltedFault>,
) -> bool
    decreases log.len(),
{
    if log.len() <= start || log.len() == 0 {
        true
    } else {
        &&& recovery_steps(start, log.drop_last(), timeout, end, known)
        &&& recovery_step(start, log.drop_last(), log.last(), timeout, end, known)
    }
}

pub broadcast proof fn lemma_steps_push(
    start: int,
    log: Seq<Access>,
    a: Access,
    timeout: u64,
    end: u64,
    known: Option<HaltedFault>,
)
    requires
        start <= log.len(),
    ensures
        #[trigger] recovery_steps(start, log.push(a), timeout, end, known) == (recovery_steps(
            start,
            log,
            timeout,
            end,
            known,
        ) && recovery_step(start, log, a, timeout, end, known)),
{
    assert(log.push(a).drop_last() =~= log);
}

/// Popping bytes is a step of a recovery.
proof fn lemma_popped_steps(
    start: int,
    mid: Seq<Access>,
    log: Seq<Access>,
    timeout: u64,
    end: u64,
    known: Option<HaltedFault>,
)
    requires
        start <= mid.len(),
        extends(mid, log),
        forall|i: int| mid.len() <= i < log.len() ==> (#[trigger] log[i] is ReadMrdr),
        recovery_steps(start, mid, timeout, end, known),
    ensures
        recovery_steps(start, log, timeout, end, known),
    decreases log.len(),
{
    if log.len() == mid.len() {
        assert(log =~= mid);
    } else {
        lemma_popped_steps(start, mid, log.drop_last(), timeout, end, known);
        assert(log.last() is ReadMrdr);
    }
}

/// Where a recovery that began at `start` stands: the shape it goes on with
/// is the one in force, the phase it carries has taken up every proof, and
/// its commands behind those of `before` are the closes asked for so far.
spec fn on_course(before: Seq<Access>, log: Seq<Access>, origin: Unwinding, unwinding: Unwinding) -> bool {
    let start = before.len() as int;
    &&& start + 2 <= log.len()
    &&& unwinding.abort == shape_in_force(start, log, origin)
    &&& unwinding.late == pending_noted(origin.late, data_proved(start, log))
    &&& closes_fit(before, log, origin)
}

/// A recovery that began behind `before` queued the closes that the shape in
/// force asked for, and none while another was pending.
pub open spec fn closes_fit(before: Seq<Access>, log: Seq<Access>, origin: Unwinding) -> bool {
    let start = before.len() as int;
    &&& commands(log) == commands(before) + shaped_closes(start, log, origin)
    &&& closes_once(start, log)
}

/// A recovery that carries no phase keeps its shape.
proof fn lemma_shape_fixed(start: int, log: Seq<Access>, origin: Unwinding)
    requires
        origin.late is None,
    ensures
        shape_in_force(start, log, origin) == origin.abort,
    decreases log.len(),
{
    if log.len() > start && log.len() > 0 {
        lemma_shape_fixed(start, log.drop_last(), origin);
    }
}

/// Popping bytes proves data, and changes nothing else of a recovery.
proof fn lemma_popped(start: int, mid: Seq<Access>, log: Seq<Access>, origin: Unwinding)
    requires
        start <= mid.len(),
        extends(mid, log),
        forall|i: int| mid.len() <= i < log.len() ==> (#[trigger] log[i] is ReadMrdr),
    ensures
        data_proved(start, log) == (data_proved(start, mid) || log.len() > mid.len()),
        shape_in_force(start, log, origin) == shape_in_force(start, mid, origin),
        shaped_closes(start, log, origin) == shaped_closes(start, mid, origin),
        close_pending(start, log) == close_pending(start, mid),
        closes_once(start, log) == closes_once(start, mid),
    decreases log.len(),
{
    if log.len() == mid.len() {
        assert(log =~= mid);
    } else {
        lemma_popped(start, mid, log.drop_last(), origin);
        assert(log.last() is ReadMrdr);
    }
}

/// The progress of the drain of a recovery.
#[derive(Clone, Copy)]
pub struct Drain {
    pub unwinding: Unwinding,
    /// A close is in the command FIFO or has run.
    pub queued: bool,
    /// Since when the engine has been idle with commands queued.
    pub idle_since: Option<u64>,
}

/// How one round of the drain ended.
#[derive(PartialEq, Eq, Structural, Clone, Copy)]
pub enum DrainStep {
    /// The engine is still at work.
    Again,
    /// The engine has let go of the bus.
    Done,
    /// The controller was shut down.
    Terminated,
}

/// What a round of the drain made of the faults: a halt is resolved and a
/// pin-low timeout shuts the controller down; without either the receive FIFO
/// is emptied. A halt that is left to be closed has discarded the close with
/// the pipeline.
pub open spec fn drain_faults_ran(
    before: Seq<Access>,
    after: Seq<Access>,
    drain: Drain,
    next: Drain,
    timeout: u64,
    deadline: u64,
    r: DrainStep,
) -> bool {
    exists|observed: Seq<Access>, fault: Option<RetainedFault>|
        {
            &&& #[trigger] recovery_fault_ran(before, observed, fault)
            &&& match fault {
                Some(fault) => drain_fault_ran(observed, after, fault, drain, next, timeout, deadline, r),
                None => {
                    let any = (entry(observed, after, 0)->ReadMfsr_0).rxcount != 0;
                    let late = pending_noted(drain.unwinding.late, any);
                    &&& rx_discarded(observed, after, any)
                    &&& next == Drain { unwinding: Unwinding { late, ..drain.unwinding }, ..drain }
                    &&& r == DrainStep::Again
                },
            }
        }
}

/// What a round of the drain did about a fault.
pub open spec fn drain_fault_ran(
    before: Seq<Access>,
    after: Seq<Access>,
    fault: RetainedFault,
    drain: Drain,
    next: Drain,
    timeout: u64,
    deadline: u64,
    r: DrainStep,
) -> bool {
    exists|verdict: FaultVerdict, unwinding: Unwinding|
        {
            &&& #[trigger] fault_action_ran(
                before,
                after,
                fault,
                drain.unwinding,
                timeout,
                deadline,
                (verdict, unwinding),
            )
            &&& match verdict {
                FaultVerdict::Settled => r == DrainStep::Done && next == Drain { unwinding, ..drain },
                FaultVerdict::Terminated => r == DrainStep::Terminated && next == Drain { unwinding, ..drain },
                FaultVerdict::Unresolved => {
                    &&& r == DrainStep::Again
                    &&& next == Drain { unwinding, queued: false, idle_since: None }
                },
            }
        }
}

/// A round of the drain up to the close: the idle check, and then the faults.
#[verifier::opaque]
pub open spec fn drain_check_ran(
    before: Seq<Access>,
    after: Seq<Access>,
    drain: Drain,
    next: Drain,
    timeout: u64,
    deadline: u64,
    r: DrainStep,
) -> bool {
    exists|checked: Seq<Access>, stuck: bool, since: Option<u64>|
        {
            let noted = Drain { idle_since: since, ..drain };
            &&& #[trigger] idle_check_ran(before, checked, drain.idle_since, (stuck, since))
            &&& if stuck {
                after == checked && next == noted && r == DrainStep::Done
            } else {
                drain_faults_ran(checked, after, noted, next, timeout, deadline, r)
            }
        }
}

/// The close is tried wherever none is pending, with the shape in force.
pub open spec fn close_tried(before: Seq<Access>, after: Seq<Access>, drain: Drain, next: Drain) -> bool {
    if drain.queued {
        after == before && next == drain
    } else {
        exists|asked: bool|
            {
                &&& #[trigger] recovery_close_ran(before, after, close_of(drain.unwinding.abort), asked)
                &&& next == Drain { queued: asked, ..drain }
            }
    }
}

/// Whether the close has run out is looked at only where one is pending.
pub open spec fn settled_looked(before: Seq<Access>, after: Seq<Access>, queued: bool, r: bool) -> bool {
    if queued {
        recovery_settled_ran(before, after, r)
    } else {
        after == before && !r
    }
}

/// A round of the drain from the close on. `from` is where the drain began:
/// its time is up past `deadline`, or once it was polled to its limit.
pub open spec fn drain_close_ran(
    before: Seq<Access>,
    after: Seq<Access>,
    drain: Drain,
    next: Drain,
    deadline: u64,
    from: int,
    r: DrainStep,
) -> bool {
    exists|tried: Seq<Access>, looked: Seq<Access>, settled: bool|
        {
            let now = entry(looked, after, 0)->Now_0;
            &&& #[trigger] close_tried(before, tried, drain, next)
            &&& #[trigger] settled_looked(tried, looked, next.queued, settled)
            &&& if settled {
                after == looked && r == DrainStep::Done
            } else if r == DrainStep::Again {
                after == looked.push(Access::Now(now)) && now <= deadline
            } else {
                &&& r == DrainStep::Done
                &&& after == looked.push(Access::Now(now)).push(Access::ResetEngine)
                &&& now > deadline || after.len() - from >= POLL_LIMIT
            }
        }
}

/// One round of the drain.
#[verifier::opaque]
pub open spec fn drain_round_ran(
    before: Seq<Access>,
    after: Seq<Access>,
    drain: Drain,
    next: Drain,
    timeout: u64,
    deadline: u64,
    from: int,
    r: DrainStep,
) -> bool {
    exists|checked: Seq<Access>, noted: Drain, step: DrainStep|
        {
            &&& #[trigger] drain_check_ran(before, checked, drain, noted, timeout, deadline, step)
            &&& if step == DrainStep::Again {
                drain_close_ran(checked, after, noted, next, deadline, from, r)
            } else {
                after == checked && next == noted && r == step
            }
        }
}

/// `count` rounds of the drain that each left the engine at work.
pub open spec fn drain_rounds(
    before: Seq<Access>,
    after: Seq<Access>,
    first: Drain,
    drain: Drain,
    timeout: u64,
    deadline: u64,
    count: nat,
) -> bool
    decreases count,
{
    if count == 0 {
        after == before && drain == first
    } else {
        exists|mid: Seq<Access>, last: Drain|
            {
                &&& drain_rounds(before, mid, first, last, timeout, deadline, (count - 1) as nat)
                &&& #[trigger] drain_round_ran(
                    mid,
                    after,
                    last,
                    drain,
                    timeout,
                    deadline,
                    before.len() as int,
                    DrainStep::Again,
                )
            }
    }
}

/// The drain of a recovery: rounds that left the engine at work, and one that
/// did not.
#[verifier::opaque]
pub open spec fn drain_ran(
    before: Seq<Access>,
    after: Seq<Access>,
    unwinding: Unwinding,
    timeout: u64,
    deadline: u64,
    terminated: bool,
) -> bool {
    let first = Drain { unwinding, queued: false, idle_since: None };
    exists|mid: Seq<Access>, drain: Drain, last: Drain, count: nat|
        {
            &&& #[trigger] drain_rounds(before, mid, first, drain, timeout, deadline, count)
            &&& #[trigger] drain_round_ran(
                mid,
                after,
                drain,
                last,
                timeout,
                deadline,
                before.len() as int,
                drain_end(terminated),
            )
        }
}

/// How the last round of a drain ends.
pub open spec fn drain_end(terminated: bool) -> DrainStep {
    if terminated {
        DrainStep::Terminated
    } else {
        DrainStep::Done
    }
}

/// A round that a check ended is the last one.
proof fn lemma_checked_out(
    before: Seq<Access>,
    mid: Seq<Access>,
    after: Seq<Access>,
    first: Drain,
    drain: Drain,
    next: Drain,
    timeout: u64,
    deadline: u64,
    count: nat,
    terminated: bool,
)
    requires
        first == (Drain { unwinding: first.unwinding, queued: false, idle_since: None }),
        drain_rounds(before, mid, first, drain, timeout, deadline, count),
        drain_check_ran(mid, after, drain, next, timeout, deadline, drain_end(terminated)),
    ensures
        drain_ran(before, after, first.unwinding, timeout, deadline, terminated),
{
    reveal(drain_round_ran);
    reveal(drain_ran);
    let from = before.len() as int;
    assert(drain_round_ran(mid, after, drain, next, timeout, deadline, from, drain_end(terminated)));
}

/// A round that ran past its check is one more of the chain, or the last one.
proof fn lemma_round(
    before: Seq<Access>,
    mid: Seq<Access>,
    checked: Seq<Access>,
    after: Seq<Access>,
    first: Drain,
    drain: Drain,
    noted: Drain,
    next: Drain,
    timeout: u64,
    deadline: u64,
    count: nat,
    r: DrainStep,
)
    requires
        first == (Drain { unwinding: first.unwinding, queued: false, idle_since: None }),
        drain_rounds(before, mid, first, drain, timeout, deadline, count),
        drain_check_ran(mid, checked, drain, noted, timeout, deadline, DrainStep::Again),
        drain_close_ran(checked, after, noted, next, deadline, before.len() as int, r),
    ensures
        r == DrainStep::Again ==> drain_rounds(before, after, first, next, timeout, deadline, count + 1),
        r == DrainStep::Done ==> drain_ran(before, after, first.unwinding, timeout, deadline, false),
{
    reveal(drain_round_ran);
    reveal(drain_ran);
    let from = before.len() as int;
    assert(drain_round_ran(mid, after, drain, next, timeout, deadline, from, r));
    if r == DrainStep::Done {
        assert(drain_round_ran(mid, after, drain, next, timeout, deadline, from, drain_end(false)));
    }
}

/// The command FIFO had no room for the close of this shape at the attempt
/// that precedes the last reading of the clock.
pub open spec fn no_room(log: Seq<Access>, abort: Abort) -> bool {
    let n = log.len();
    &&& n >= 4
    &&& log[n - 4] is ReadMfsr
    &&& log[n - 3] is ReadParam
    &&& log[n - 2] is Now
    &&& (log[n - 4]->ReadMfsr_0).txcount + close_words(close_of(abort)).len() > fifo_entries(log[n - 3]->ReadParam_0)
}

/// A recovery that began behind `before` reset the engine only with a close
/// pending, or where there was no room for one.
pub open spec fn reset_fits(before: Seq<Access>, log: Seq<Access>, origin: Unwinding) -> bool {
    let start = before.len() as int;
    log.len() > start && log.last() is ResetEngine ==> close_pending(start, log) || no_room(
        log,
        shape_in_force(start, log, origin),
    )
}

spec fn quiet(before: Seq<Access>, after: Seq<Access>) -> bool {
    &&& extends(before, after)
    &&& commands(after) == commands(before)
    &&& recoveries(after) == recoveries(before)
}

/// One round of the drain up to the close: the idle check and the fault.
fn drain_check<H: ControllerPort>(
    regs: &mut ControllerRegisters<H>,
    drain: &mut Drain,
    timeout: u64,
    deadline: u64,
    Ghost(begun): Ghost<Seq<Access>>,
    Ghost(origin): Ghost<Unwinding>,
    Ghost(known): Ghost<Option<HaltedFault>>,
) -> (r: DrainStep)
    requires
        on_course(begun, old(regs).log(), origin, old(drain).unwinding),
        old(drain).queued == close_pending(begun.len() as int, old(regs).log()),
        recovery_steps(begun.len() as int, old(regs).log(), timeout, deadline, known),
    ensures
        recovery_steps(begun.len() as int, final(regs).log(), timeout, deadline, known),
        on_course(begun, final(regs).log(), origin, final(drain).unwinding),
        r == DrainStep::Again ==> final(drain).queued == close_pending(begun.len() as int, final(regs).log()),
        quiet(old(regs).log(), final(regs).log()),
        final(regs).log().len() > old(regs).log().len(),
        drain_check_ran(old(regs).log(), final(regs).log(), *old(drain), *final(drain), timeout, deadline, r),
        r == DrainStep::Terminated ==> shut_down(final(regs).log()),
        r == DrainStep::Done ==> halt_settled(final(regs).log()) || (idle_check_ran(
            old(regs).log(),
            final(regs).log(),
            old(drain).idle_since,
            (true, final(drain).idle_since),
        )),
        final(drain).idle_since matches Some(t) ==> old(drain).idle_since == Some(t) || tick_read(
            old(regs).log(),
            final(regs).log(),
            t,
        ),
        final(drain).queued ==> old(drain).queued,
        final(drain).unwinding.may_clock() ==> old(drain).unwinding.may_clock(),
        final(regs).block() == old(regs).block(),
{
    broadcast use group_unwinding;

    let ghost entered = regs.log();
    let (stuck, since) = idle_with_close_pending(regs, drain.idle_since);
    assert(quiet(entered, regs.log()));
    let ghost noted = Drain { idle_since: since, ..*drain };
    proof {
        if since is Some && since != drain.idle_since {
            assert(entry(entered, regs.log(), 2) == Access::Now(since->Some_0));
            assert(tick_read(entered, regs.log(), since->Some_0));
        }
    }
    drain.idle_since = since;
    if stuck {
        assert(drain_check_ran(entered, regs.log(), *old(drain), *drain, timeout, deadline, DrainStep::Done)) by {
            reveal(drain_check_ran);
        }
        return DrainStep::Done;
    }
    // The engine halts on a latched fault and consumes no further commands
    // until it is resolved. The fault is observed before this round's close
    // is chosen: once the halt is seen, the FIFO look is stable.
    let ghost checked = regs.log();
    let fault = regs.observe_recovery_fault();
    assert(quiet(checked, regs.log()));
    let ghost observed = regs.log();
    match fault {
        Some(fault) => {
            let (verdict, unwinding) = act_on_fault(regs, fault, drain.unwinding, timeout, deadline);
            assert(quiet(observed, regs.log()));
            proof {
                if origin.late is None {
                    lemma_shape_fixed(begun.len() as int, observed, origin);
                }
            }
            proof {
                if since is Some && since != old(drain).idle_since {
                    lemma_tick_read(entered, checked, regs.log(), since->Some_0);
                }
            }
            drain.unwinding = unwinding;
            let step = match verdict {
                FaultVerdict::Settled => DrainStep::Done,
                FaultVerdict::Terminated => DrainStep::Terminated,
                FaultVerdict::Unresolved => {
                    // The frozen pipeline was discarded, the queued close
                    // with it: queue it again.
                    drain.queued = false;
                    drain.idle_since = None;
                    DrainStep::Again
                },
            };
            proof {
                assert(drain_fault_ran(observed, regs.log(), fault, noted, *drain, timeout, deadline, step));
                assert(drain_faults_ran(checked, regs.log(), noted, *drain, timeout, deadline, step));
                reveal(drain_check_ran);
            }
            step
        },
        None => {
            let late = retain_recovery_discarded_rx_progress(drain.unwinding.late, regs);
            drain.unwinding = Unwinding { abort: drain.unwinding.abort, late };
            proof {
                let level = entry(observed, regs.log(), 0);
                lemma_popped(begun.len() as int, observed.push(level), regs.log(), origin);
                lemma_popped_steps(
                    begun.len() as int,
                    observed.push(level),
                    regs.log(),
                    timeout,
                    deadline,
                    known,
                );
                if since is Some && since != old(drain).idle_since {
                    lemma_tick_read(entered, checked, regs.log(), since->Some_0);
                }
                assert(drain_faults_ran(checked, regs.log(), noted, *drain, timeout, deadline, DrainStep::Again));
                reveal(drain_check_ran);
            }
            DrainStep::Again
        },
    }
}

proof fn lemma_tail(before: Seq<Access>, after: Seq<Access>, tail: Seq<Mtdr>)
    requires
        commands(after) == commands(before) + tail,
    ensures
        command_tail(before, after) == tail,
{
    assert((commands(before) + tail).skip(commands(before).len() as int) =~= tail);
}

pub proof fn lemma_tick_read(before: Seq<Access>, mid: Seq<Access>, after: Seq<Access>, t: u64)
    requires
        extends(before, mid),
        extends(mid, after),
        tick_read(before, mid, t) || tick_read(mid, after, t),
    ensures
        tick_read(before, after, t),
{
    if tick_read(before, mid, t) {
        let i = choose|i: int| before.len() <= i < mid.len() && #[trigger] mid[i] == Access::Now(t);
        assert(after[i] == Access::Now(t));
    } else {
        let i = choose|i: int| mid.len() <= i < after.len() && #[trigger] after[i] == Access::Now(t);
        assert(after[i] == Access::Now(t));
    }
}

/// One round of the drain from the close on: queues the close where none is
/// pending, and looks whether it has run out. `last` is a round past which
/// the drain is not polled.
#[verifier::rlimit(100)]
fn drain_close<H: ControllerPort>(
    regs: &mut ControllerRegisters<H>,
    drain: &mut Drain,
    deadline: u64,
    last: bool,
    Ghost(timeout): Ghost<u64>,
    Ghost(begun): Ghost<Seq<Access>>,
    Ghost(origin): Ghost<Unwinding>,
    Ghost(known): Ghost<Option<HaltedFault>>,
    Ghost(from): Ghost<int>,
) -> (r: DrainStep)
    requires
        on_course(begun, old(regs).log(), origin, old(drain).unwinding),
        old(drain).queued == close_pending(begun.len() as int, old(regs).log()),
        recovery_steps(begun.len() as int, old(regs).log(), timeout, deadline, known),
        begun.len() <= from,
        last ==> old(regs).log().len() - from >= POLL_LIMIT,
    ensures
        drain_close_ran(old(regs).log(), final(regs).log(), *old(drain), *final(drain), deadline, from, r),
        recovery_steps(begun.len() as int, final(regs).log(), timeout, deadline, known),
        on_course(begun, final(regs).log(), origin, final(drain).unwinding),
        final(drain).queued == close_pending(begun.len() as int, final(regs).log()),
        *final(drain) == (Drain { queued: final(drain).queued, ..*old(drain) }),
        old(drain).queued ==> final(drain).queued,
        reset_fits(begun, final(regs).log(), origin),
        extends(old(regs).log(), final(regs).log()),
        final(regs).log().len() > old(regs).log().len(),
        recoveries(final(regs).log()) == recoveries(old(regs).log()),
        commands(final(regs).log()) == commands(old(regs).log()) + (if final(drain).queued && !old(drain).queued {
            close_words(close_of(old(drain).unwinding.abort))
        } else {
            Seq::empty()
        }),
        r == DrainStep::Done ==> {
            ||| seen_idle(final(regs).log()) && final(drain).queued
            ||| {
                let n = final(regs).log().len();
                let log = final(regs).log();
                &&& n >= old(regs).log().len() + 2
                &&& log[n - 1] is ResetEngine
                &&& log[n - 2] is Now
                &&& log[n - 2]->Now_0 > deadline || n - from >= POLL_LIMIT
            }
        },
        r == DrainStep::Done || r == DrainStep::Again && !last,
        final(regs).block() == old(regs).block(),
{
    broadcast use group_unwinding;

    let ghost entered = regs.log();
    let ghost given = *drain;
    let close = if drain.unwinding.abort == Abort::ReadAddressed {
        RecoveryClose::ReleaseAddressedRead
    } else {
        RecoveryClose::Stop
    };
    proof {
        assert(commands(entered) =~= commands(entered) + Seq::<Mtdr>::empty());
    }
    if !drain.queued {
        let permit = RecoveryPermit::for_registers(regs);
        if regs.try_enqueue_recovery_close(permit, close) {
            drain.queued = true;
            proof {
                assert(commands(regs.log()) =~= commands(entered) + close_words(close));
                let asked = shaped_closes(begun.len() as int, entered, origin);
                assert((commands(begun) + asked) + close_words(close) =~= commands(begun) + (asked
                    + close_words(close)));
            }
        }
    }
    let ghost tried = regs.log();
    assert(close_tried(entered, tried, given, *drain));
    assert(on_course(begun, tried, origin, drain.unwinding));
    assert(drain.queued == close_pending(begun.len() as int, tried));
    assert(recovery_steps(begun.len() as int, tried, timeout, deadline, known));
    // Settled only counts once the close is in: the engine idles between
    // the aborted pipeline and the close.
    if drain.queued && regs.recovery_settled() {
        assert(settled_looked(tried, regs.log(), drain.queued, true));
        return DrainStep::Done;
    }
    assert(settled_looked(tried, regs.log(), drain.queued, false));
    // A target holding SCL low satisfies no exit condition, so the wait is
    // bounded, and on expiry the engine is hard-reset.
    let now: u64 = regs.now();
    if now > deadline || last {
        regs.reset_after_recovery_timeout();
        return DrainStep::Done;
    }
    DrainStep::Again
}

/// Queues the close behind whatever the abort left pending and waits for the
/// engine to run it out. Returns whether the controller was shut down.
#[verifier::rlimit(100)]
fn drain_recovery<H: ControllerPort>(
    regs: &mut ControllerRegisters<H>,
    unwinding: Unwinding,
    timeout: u64,
    deadline: u64,
    Ghost(begun): Ghost<Seq<Access>>,
    Ghost(origin): Ghost<Unwinding>,
    Ghost(known): Ghost<Option<HaltedFault>>,
) -> (terminated: bool)
    requires
        on_course(begun, old(regs).log(), origin, unwinding),
        !close_pending(begun.len() as int, old(regs).log()),
        recovery_steps(begun.len() as int, old(regs).log(), timeout, deadline, known),
    ensures
        recovery_steps(begun.len() as int, final(regs).log(), timeout, deadline, known),
        closes_fit(begun, final(regs).log(), origin),
        begun.len() <= final(regs).log().len(),
        closes_queued(old(regs).log(), final(regs).log(), unwinding.may_clock()),
        terminated ==> shut_down(final(regs).log()),
        !terminated ==> drain_over(old(regs).log(), final(regs).log(), deadline),
        drain_ran(old(regs).log(), final(regs).log(), unwinding, timeout, deadline, terminated),
        reset_fits(begun, final(regs).log(), origin),
        final(regs).block() == old(regs).block(),
{
    broadcast use group_unwinding;

    let ghost entered = regs.log();
    let ghost mut tail: Seq<Mtdr> = Seq::empty();
    let mut drain = Drain { unwinding, queued: false, idle_since: None };
    let mut polls: u64 = POLL_LIMIT;
    let mut terminated = false;
    let ghost first = drain;
    let ghost mut count: nat = 0;
    proof {
        assert(commands(entered) =~= commands(entered) + tail);
    }
    loop
        invariant_except_break
            !terminated,
            drain.unwinding.may_clock() ==> unwinding.may_clock(),
            drain.queued ==> tail.len() > 0,
            on_course(begun, regs.log(), origin, drain.unwinding),
            drain.queued == close_pending(begun.len() as int, regs.log()),
            drain_rounds(entered, regs.log(), first, drain, timeout, deadline, count),
            drain.idle_since matches Some(t) ==> tick_read(entered, regs.log(), t),
            regs.log().len() - entered.len() >= POLL_LIMIT - polls,
        invariant
            begun.len() + 2 <= regs.log().len(),
            begun.len() + 2 <= entered.len(),
            recovery_steps(begun.len() as int, regs.log(), timeout, deadline, known),
            closes_fit(begun, regs.log(), origin),
            extends(entered, regs.log()),
            commands(regs.log()) == commands(entered) + tail,
            closes(tail),
            !unwinding.may_clock() ==> only_stops(tail),
            recoveries(regs.log()) == recoveries(entered),
            regs.block() == old(regs).block(),
            first == (Drain { unwinding, queued: false, idle_since: None }),
        ensures
            drain_ran(entered, regs.log(), unwinding, timeout, deadline, terminated),
            reset_fits(begun, regs.log(), origin),
            terminated ==> shut_down(regs.log()),
            !terminated ==> ({
                ||| seen_idle(regs.log()) && tail.len() > 0
                ||| halt_settled(regs.log())
                ||| stayed_idle(entered, regs.log())
                ||| reset_when_late(entered, regs.log(), deadline)
            }),
        decreases polls,
    {
        broadcast use group_unwinding;

        let ghost round = regs.log();
        let ghost given = drain;
        let ghost from = entered.len() as int;
        let step = drain_check(
            regs,
            &mut drain,
            timeout,
            deadline,
            Ghost(begun),
            Ghost(origin),
            Ghost(known),
        );
        proof {
            if let Some(t) = drain.idle_since {
                lemma_tick_read(entered, round, regs.log(), t);
            }
        }
        let ghost checked = regs.log();
        let ghost noted = drain;
        proof {
            if step != DrainStep::Again {
                let terminated = step == DrainStep::Terminated;
                lemma_checked_out(
                    entered,
                    round,
                    checked,
                    first,
                    given,
                    drain,
                    timeout,
                    deadline,
                    count,
                    terminated,
                );
            }
        }
        if step == DrainStep::Terminated {
            terminated = true;
            break;
        }
        if step == DrainStep::Done {
            break;
        }
        let end = drain_close(
            regs,
            &mut drain,
            deadline,
            polls == 0,
            Ghost(timeout),
            Ghost(begun),
            Ghost(origin),
            Ghost(known),
            Ghost(from),
        );
        proof {
            lemma_round(
                entered,
                round,
                checked,
                regs.log(),
                first,
                given,
                noted,
                drain,
                timeout,
                deadline,
                count,
                end,
            );
            if drain.queued && !noted.queued {
                let close = close_of(noted.unwinding.abort);
                lemma_closes_push(tail, close);
                assert((commands(entered) + tail) + close_words(close) =~= commands(entered) + (tail + close_words(
                    close,
                )));
                tail = tail + close_words(close);
            }
            if let Some(t) = drain.idle_since {
                lemma_tick_read(entered, checked, regs.log(), t);
            }
        }
        if end != DrainStep::Again {
            break;
        }
        polls = polls - 1;
        proof {
            count = count + 1;
        }
    }
    proof {
        lemma_tail(entered, regs.log(), tail);
    }
    terminated
}

proof fn lemma_closes_then(before: Seq<Access>, mid: Seq<Access>, after: Seq<Access>, may_clock: bool)
    requires
        extends(before, mid),
        commands(mid) == commands(before),
        recoveries(mid) == recoveries(before),
        closes_queued(mid, after, may_clock),
    ensures
        closes_queued(before, after, may_clock),
{
}

proof fn lemma_drain_over(before: Seq<Access>, mid: Seq<Access>, log: Seq<Access>, deadline: u64)
    requires
        extends(before, mid),
        extends(mid, log),
        commands(mid) == commands(before),
        drain_over(mid, log, deadline),
    ensures
        drain_over(before, log, deadline),
{
    if stayed_idle(mid, log) {
        let first = choose|first: u64|
            #[trigger] tick_read(mid, log, first) && log.last()->Now_0 - first > IDLE_WINDOW;
        let i = choose|i: int| mid.len() <= i < log.len() && #[trigger] log[i] == Access::Now(first);
        assert(log[i] == Access::Now(first));
        assert(tick_read(before, log, first));
    }
}

/// The idle path of a recovery: the looks at the engine at the entry of the
/// recovery and behind its clean-up found nothing running, and no fault was
/// handed in.
pub open spec fn idle_throughout(before: Seq<Access>, after: Seq<Access>, known: bool, carried: bool) -> bool {
    let first = first_look(before, carried);
    &&& !known
    &&& !(after[first]->ReadMsr_0).mbf
    &&& !(after[first + 4]->ReadMsr_0).mbf
}

/// All that a recovery does where the engine is idle throughout: it reads the
/// clock, looks at the receive FIFO where a phase is carried, drops what the
/// idle engine was left with, looks again, and leaves a clean slate.
pub open spec fn idle_path(before: Seq<Access>, after: Seq<Access>, carried: bool) -> bool {
    let first = first_look(before, carried);
    &&& after.len() == first + 8
    &&& entry(before, after, 0) is Now
    &&& (carried ==> entry(before, after, 1) is ReadMfsr)
    &&& after[first] is ReadMsr
    &&& slate_cleaned(after.take(first + 1), after.take(first + 4))
    &&& after[first + 4] is ReadMsr
    &&& slate_cleaned(after.take(first + 5), after)
}

/// The history of a recovery up to the clean slate that it left, if it left
/// one.
pub open spec fn unslated(after: Seq<Access>) -> Seq<Access> {
    if shut_down(after) {
        after
    } else {
        after.take(after.len() - 3)
    }
}

/// How the resolution of a halt leaves a recovery.
pub open spec fn verdict_of(resolution: HaltResolution) -> FaultVerdict {
    match resolution {
        HaltResolution::Settled => FaultVerdict::Settled,
        HaltResolution::NeedsManualClose => FaultVerdict::Unresolved,
        HaltResolution::PinLowTerminated => FaultVerdict::Terminated,
    }
}

/// What a recovery does behind its first look at the engine: a halt that it
/// was handed is resolved; an idle engine is relieved of what it was left
/// with; and a busy one is looked at for a fault, which is acted on.
pub open spec fn entry_handled(
    before: Seq<Access>,
    after: Seq<Access>,
    busy: bool,
    unwinding: Unwinding,
    next: Unwinding,
    known: Option<HaltedFault>,
    timeout: u64,
    deadline: u64,
    verdict: FaultVerdict,
) -> bool {
    match known {
        Some(halt) => {
            let resolution = entry(before, after, 0)->ResolveHalt_3;
            &&& after == before.push(Access::ResolveHalt(halt.error, timeout, deadline, resolution))
            &&& next == unwinding
            &&& verdict == verdict_of(resolution)
        },
        None => if busy {
            exists|observed: Seq<Access>, fault: Option<RetainedFault>|
                {
                    &&& #[trigger] recovery_fault_ran(before, observed, fault)
                    &&& match fault {
                        Some(fault) => fault_action_ran(
                            observed,
                            after,
                            fault,
                            unwinding,
                            timeout,
                            deadline,
                            (verdict, next),
                        ),
                        None => after == observed && next == unwinding && verdict == FaultVerdict::Unresolved,
                    }
                }
        } else {
            &&& slate_cleaned(before, after)
            &&& next == unwinding
            &&& verdict == FaultVerdict::Unresolved
        },
    }
}

/// The drain ran, and left a clean slate unless it shut the controller down.
pub open spec fn drained_clean(
    before: Seq<Access>,
    after: Seq<Access>,
    unwinding: Unwinding,
    timeout: u64,
    deadline: u64,
) -> bool {
    ||| drain_ran(before, after, unwinding, timeout, deadline, true)
    ||| exists|drained: Seq<Access>|
        {
            &&& #[trigger] drain_ran(before, drained, unwinding, timeout, deadline, false)
            &&& slate_cleaned(drained, after)
        }
}

/// What a recovery does about a transaction that is still to be closed: it
/// drains a busy engine, and looks once more at one that was idle.
pub open spec fn closed_from(
    before: Seq<Access>,
    after: Seq<Access>,
    busy: bool,
    unwinding: Unwinding,
    timeout: u64,
    deadline: u64,
) -> bool {
    let again = entry(before, after, 0)->ReadMsr_0;
    let looked = before.push(Access::ReadMsr(again));
    if busy {
        drained_clean(before, after, unwinding, timeout, deadline)
    } else if again.mbf {
        extends(looked, after) && drained_clean(looked, after, unwinding, timeout, deadline)
    } else {
        slate_cleaned(looked, after)
    }
}

/// What a recovery does from its first look at the engine on.
pub open spec fn unwound_from(
    before: Seq<Access>,
    after: Seq<Access>,
    unwinding: Unwinding,
    known: Option<HaltedFault>,
    timeout: u64,
    deadline: u64,
) -> bool {
    let status = entry(before, after, 0)->ReadMsr_0;
    let looked = before.push(Access::ReadMsr(status));
    &&& extends(looked, after)
    &&& exists|handled: Seq<Access>, next: Unwinding, verdict: FaultVerdict|
        {
            &&& #[trigger] entry_handled(
                looked,
                handled,
                status.mbf,
                unwinding,
                next,
                known,
                timeout,
                deadline,
                verdict,
            )
            &&& match verdict {
                FaultVerdict::Terminated => after == handled,
                FaultVerdict::Settled => slate_cleaned(handled, after),
                FaultVerdict::Unresolved => closed_from(handled, after, status.mbf, next, timeout, deadline),
            }
        }
}

/// Every step of a recovery, in order: it reads the clock, takes up what the
/// receive FIFO proves where a phase is carried, and goes on as
/// [`unwound_from`] says.
#[verifier::opaque]
pub open spec fn unwound(
    before: Seq<Access>,
    after: Seq<Access>,
    timeout: u64,
    origin: Unwinding,
    known: Option<HaltedFault>,
) -> bool {
    let start = entry(before, after, 0)->Now_0;
    let end = deadline(start, timeout);
    exists|noted: Seq<Access>, late: Option<PendingRecovery>|
        {
            &&& #[trigger] rx_progress_retained(before.push(Access::Now(start)), noted, origin.late, late)
            &&& unwound_from(noted, after, Unwinding { late, ..origin }, known, timeout, end)
        }
}

proof fn lemma_unwound(
    before: Seq<Access>,
    noted: Seq<Access>,
    after: Seq<Access>,
    timeout: u64,
    origin: Unwinding,
    late: Option<PendingRecovery>,
    known: Option<HaltedFault>,
)
    requires
        ({
            let start = entry(before, after, 0)->Now_0;
            let unwinding = Unwinding { late, ..origin };
            &&& rx_progress_retained(before.push(Access::Now(start)), noted, origin.late, late)
            &&& unwound_from(noted, after, unwinding, known, timeout, deadline(start, timeout))
        }),
    ensures
        unwound(before, after, timeout, origin, known),
{
    reveal(unwound);
}

/// Where the first look of a recovery at the engine stands.
pub open spec fn first_look(before: Seq<Access>, carried: bool) -> int {
    before.len() + if carried {
        2int
    } else {
        1int
    }
}

/// What the recovery of a transaction did, whatever the bus answered. `known`
/// is a halt that was observed before; it is handed to the engine first.
pub open spec fn unwinding_ran(
    before: Seq<Access>,
    after: Seq<Access>,
    timeout: u64,
    origin: Unwinding,
    known: Option<HaltedFault>,
) -> bool {
    let start = entry(before, after, 0)->Now_0;
    let first = first_look(before, origin.late is Some);
    &&& recovery_ran(before, after, origin.may_clock())
    &&& unwound(before, after, timeout, origin, known)
    &&& first < after.len()
    &&& after[first] is ReadMsr
    &&& closes_fit(before, after, origin)
    &&& reset_fits(before, unslated(after), origin)
    &&& recovery_steps(before.len() as int, unslated(after), timeout, deadline(start, timeout), known)
    &&& (idle_throughout(before, after, known is Some, origin.late is Some) ==> {
        &&& commands(after) == commands(before)
        &&& idle_path(before, after, origin.late is Some)
    })
    &&& (!shut_down(after) ==> released(before, after.take(after.len() - 3), timeout, origin.late is Some))
    &&& (known matches Some(halt) ==> {
        let handed = entry(before, after, 2);
        &&& after.len() > before.len() + 2
        &&& handed is ResolveHalt
        &&& handed == Access::ResolveHalt(halt.error, timeout, deadline(start, timeout), handed->ResolveHalt_3)
    })
}

/// What a recovery does behind its first look at the engine.
fn handle_entry<H: ControllerPort>(
    regs: &mut ControllerRegisters<H>,
    unwinding: Unwinding,
    busy: bool,
    known_halt: Option<HaltedFault>,
    timeout: u64,
    deadline: u64,
    Ghost(begun): Ghost<Seq<Access>>,
    Ghost(origin): Ghost<Unwinding>,
) -> (r: (FaultVerdict, Unwinding))
    requires
        on_course(begun, old(regs).log(), origin, unwinding),
        !close_pending(begun.len() as int, old(regs).log()),
        recovery_steps(begun.len() as int, old(regs).log(), timeout, deadline, known_halt),
        old(regs).log().last() is ReadMsr,
        (old(regs).log().last()->ReadMsr_0).mbf == busy,
        known_halt is Some ==> origin.late is None && old(regs).log().len() == begun.len() + 2,
    ensures
        entry_handled(
            old(regs).log(),
            final(regs).log(),
            busy,
            unwinding,
            r.1,
            known_halt,
            timeout,
            deadline,
            r.0,
        ),
        quiet(old(regs).log(), final(regs).log()),
        on_course(begun, final(regs).log(), origin, r.1),
        !close_pending(begun.len() as int, final(regs).log()),
        recovery_steps(begun.len() as int, final(regs).log(), timeout, deadline, known_halt),
        r.0 == FaultVerdict::Settled ==> halt_settled(final(regs).log()),
        r.0 == FaultVerdict::Terminated ==> shut_down(final(regs).log()),
        r.1.may_clock() ==> unwinding.may_clock(),
        final(regs).block() == old(regs).block(),
{
    broadcast use group_unwinding;

    if let Some(halt) = known_halt {
        proof {
            lemma_shape_fixed(begun.len() as int, regs.log(), origin);
        }
        // The owner observed this halt before it returned its error.
        let verdict = match regs.resolve_halted_fault(halt, timeout, deadline) {
            HaltResolution::Settled => FaultVerdict::Settled,
            HaltResolution::NeedsManualClose => FaultVerdict::Unresolved,
            HaltResolution::PinLowTerminated => FaultVerdict::Terminated,
        };
        return (verdict, unwinding);
    }
    if !busy {
        // Nothing is running: dropping the stale pipeline is safe.
        regs.discard_idle_recovery_state();
        return (FaultVerdict::Unresolved, unwinding);
    }
    let fault = regs.observe_recovery_fault();
    let ghost observed = regs.log();
    match fault {
        Some(fault) => {
            let (verdict, next) = act_on_fault(regs, fault, unwinding, timeout, deadline);
            proof {
                if origin.late is None {
                    lemma_shape_fixed(begun.len() as int, observed, origin);
                }
            }
            (verdict, next)
        },
        None => (FaultVerdict::Unresolved, unwinding),
    }
}

/// Recovers the bus. Self-contained: it never re-enters the fault-aware
/// transfer paths that lead here.
///
/// A FIFO reset while the engine runs a command corrupts the engine's
/// bookkeeping, so the entry reset happens only on an idle engine; a latched
/// fault is no proof of a halted engine. A close is meaningful only while a
/// transfer is open on the wire: an engine that is idle throughout gets none.
#[verifier::rlimit(100)]
fn remediate_inner<H: ControllerPort>(
    regs: &mut ControllerRegisters<H>,
    timeout: u64,
    abort: Abort,
    known_halt: Option<HaltedFault>,
    late_halt_phase: Option<PendingRecovery>,
)
    requires
        known_halt is None || late_halt_phase is None,
    ensures
        unwinding_ran(
            old(regs).log(),
            final(regs).log(),
            timeout,
            Unwinding { abort, late: late_halt_phase },
            known_halt,
        ),
        final(regs).block() == old(regs).block(),
{
    broadcast use group_unwinding;

    let ghost entered = regs.log();
    let ghost origin = Unwinding { abort, late: late_halt_phase };
    let ghost clocks = (Unwinding { abort, late: late_halt_phase }).may_clock();
    let start: u64 = regs.now();
    let deadline: u64 = deadline_after(start, timeout);
    // A queued first RECEIVE may have run before recovery began. Retain that
    // proof even if a halting status is only observed later.
    let late = retain_recovery_rx_progress(late_halt_phase, regs);
    let unwinding = Unwinding { abort, late };
    let ghost noted = regs.log();
    let ghost began = unwinding;
    let busy = regs.master_busy();
    let ghost looked = regs.log();
    assert(quiet(entered, regs.log()));
    assert(rx_progress_retained(entered.push(Access::Now(start)), noted, late_halt_phase, late));
    let (verdict, unwinding) = handle_entry(
        regs,
        unwinding,
        busy,
        known_halt,
        timeout,
        deadline,
        Ghost(entered),
        Ghost(origin),
    );
    let ghost handled = regs.log();
    let ghost mut tail: Seq<Mtdr> = Seq::empty();
    proof {
        assert(commands(entered) =~= commands(entered) + tail);
    }
    if verdict == FaultVerdict::Terminated {
        proof {
            lemma_tail(entered, regs.log(), tail);
            lemma_unwound(entered, noted, regs.log(), timeout, origin, late, known_halt);
        }
        return ;
    }
    let resolved = verdict == FaultVerdict::Settled;
    // Looked at again: the engine fetches queued commands by itself, so the
    // first look can go stale between it and the reset above.
    if !resolved && (busy || regs.master_busy()) {
        let ghost open = regs.log();
        let terminated = drain_recovery(
            regs,
            unwinding,
            timeout,
            deadline,
            Ghost(entered),
            Ghost(origin),
            Ghost(known_halt),
        );
        proof {
            lemma_closes_then(entered, open, regs.log(), unwinding.may_clock());
            tail = command_tail(entered, regs.log());
            if !terminated {
                lemma_drain_over(entered, open, regs.log(), deadline);
            } else {
                assert(drained_clean(open, regs.log(), unwinding, timeout, deadline));
                assert(closed_from(handled, regs.log(), busy, unwinding, timeout, deadline));
                lemma_unwound(entered, noted, regs.log(), timeout, origin, late, known_halt);
            }
        }
        if terminated {
            return ;
        }
    }
    let ghost drained = regs.log();
    regs.finish_recovery();
    proof {
        assert(unwound(entered, regs.log(), timeout, origin, known_halt)) by {
            if !resolved {
                assert(closed_from(handled, regs.log(), busy, unwinding, timeout, deadline));
            }
            assert(unwound_from(noted, regs.log(), began, known_halt, timeout, deadline));
            lemma_unwound(entered, noted, regs.log(), timeout, origin, late, known_halt);
        }
        if idle_throughout(entered, regs.log(), known_halt is Some, late_halt_phase is Some) {
            let first = first_look(entered, late_halt_phase is Some);
            assert(regs.log().take(first + 5) =~= drained);
            assert(regs.log().take(first + 4) =~= handled);
            assert(regs.log().take(first + 1) =~= looked);
        }
        assert(regs.log().take(regs.log().len() - 3) =~= drained);
        lemma_tail(entered, regs.log(), tail);
    }
}

/// Recovers with the given close, with nothing retained.
fn remediate<H: ControllerPort>(regs: &mut ControllerRegisters<H>, timeout: u64, abort: Abort)
    ensures
        unwinding_ran(old(regs).log(), final(regs).log(), timeout, Unwinding { abort, late: None }, None),
        final(regs).block() == old(regs).block(),
{
    remediate_inner(regs, timeout, abort, None, None);
}

/// Recovers a session that may still describe a command accepted into the
/// FIFO but not yet known to have run. A late halt must select the
/// frozen-pipeline policy from that phase.
fn remediate_pending<H: ControllerPort>(regs: &mut ControllerRegisters<H>, timeout: u64, pending: PendingRecovery)
    ensures
        unwinding_ran(
            old(regs).log(),
            final(regs).log(),
            timeout,
            Unwinding { abort: pending.0.cancel_shape(), late: Some(pending) },
            None,
        ),
        final(regs).block() == old(regs).block(),
{
    remediate_inner(regs, timeout, pending.abort_for_cancellation(), None, Some(pending));
}

/// Recovers using a halt proof retained by the transaction that observed it.
fn remediate_halted<H: ControllerPort>(
    regs: &mut ControllerRegisters<H>,
    timeout: u64,
    abort: Abort,
    halt: HaltedFault,
)
    ensures
        unwinding_ran(old(regs).log(), final(regs).log(), timeout, Unwinding { abort, late: None }, Some(halt)),
        final(regs).block() == old(regs).block(),
{
    remediate_inner(regs, timeout, abort, Some(halt), None);
}

/// The clean-up that a fault asks for before any session exists. Nothing was
/// clocked yet, so the close is the general one.
pub open spec fn fault_cleared_before_session(
    before: Seq<Access>,
    after: Seq<Access>,
    timeout: u64,
    fault: ControllerStatusError,
) -> bool {
    let begun = before.push(Access::RecoveryBegin(timeout));
    let origin = Unwinding { abort: Abort::General, late: None };
    match fault_retained(fault) {
        Some(RetainedFault::PinLowTimeout) => after == begun.push(Access::TerminatePinLow),
        Some(RetainedFault::Halted(halt)) => unwinding_ran(begun, after, timeout, origin, Some(halt)),
        None => unwinding_ran(begun, after, timeout, origin, None),
    }
}

/// The clean-up of a start that was cancelled before any session exists.
pub open spec fn cancelled_before_session(before: Seq<Access>, after: Seq<Access>, timeout: u64) -> bool {
    let origin = Unwinding { abort: Abort::General, late: None };
    unwinding_ran(before.push(Access::RecoveryBegin(timeout)), after, timeout, origin, None)
}

/// A last look for a fault before a session is given up. One that it already
/// holds is kept, and nothing is looked at.
pub open spec fn fault_captured(
    before: Seq<Access>,
    after: Seq<Access>,
    session: SessionView,
    next: SessionView,
) -> bool {
    let status = entry(before, after, 0)->ReadMsr_0;
    if session.fault is Some {
        &&& after == before
        &&& next == session
    } else {
        match status_error(status) {
            None => {
                &&& after == before.push(Access::ReadMsr(status))
                &&& next == session
            },
            Some(fault) => {
                &&& active_fault_ran(before, after.drop_last(), Some(fault))
                &&& fault_bound(after.drop_last(), after, session, next, fault, io_error(fault))
            },
        }
    }
}

/// What giving a session up does, from its last look for a fault on: a
/// pin-low timeout shuts the controller down, a retained halt is resolved
/// with the shape it left, and everything else is cancelled, with the phase
/// kept for a halt that comes late.
pub open spec fn session_unwound(before: Seq<Access>, after: Seq<Access>, session: SessionView) -> bool {
    let abort = session.phase.cancel_shape();
    match session.fault {
        Some(RetainedFault::PinLowTimeout) => after == before.push(Access::TerminatePinLow),
        Some(RetainedFault::Halted(halt)) => unwinding_ran(
            before,
            after,
            session.timeout,
            Unwinding { abort, late: None },
            Some(halt),
        ),
        None => unwinding_ran(
            before,
            after,
            session.timeout,
            Unwinding { abort, late: Some(PendingRecovery(session.phase)) },
            None,
        ),
    }
}

/// A session was given up.
pub open spec fn abandoned(before: Seq<Access>, after: Seq<Access>, session: SessionView) -> bool {
    exists|log: Seq<Access>, next: SessionView|
        {
            &&& #[trigger] fault_captured(before.push(Access::RecoveryBegin(session.timeout)), log, session, next)
            &&& session_unwound(log, after, next)
        }
}

/// Resolves a classified fault before a live session exists, and hands on
/// its error. Nothing was clocked yet, so only STOPs are queued.
pub fn recover_before_session_fault<H: ControllerPort>(
    regs: &mut ControllerRegisters<H>,
    timeout: u64,
    fault: ControllerStatusError,
) -> (r: IOError)
    requires
        !opens_read(wire(old(regs).log())),
        last_reports(old(regs).log(), fault),
    ensures
        recovered(old(regs).log(), final(regs).log(), false),
        recoveries(final(regs).log()) == recoveries(old(regs).log()).push(timeout),
        fault_cleared_before_session(old(regs).log(), final(regs).log(), timeout, fault),
        r == io_error(fault),
        final(regs).block() == old(regs).block(),
{
    regs.begin_recovery(Ghost(timeout));
    let ghost begun = regs.log();
    let mut retained = FaultSlot::empty();
    let error = retained.capture(fault);
    match retained.take() {
        Some(RetainedFault::Halted(halt)) => {
            remediate_halted(regs, timeout, recovery_abort_for(halt.error(), Abort::General), halt);
        },
        Some(RetainedFault::PinLowTimeout) => {
            regs.terminate_pin_low_timeout();
            proof {
                assert(commands(regs.log()) =~= commands(begun) + Seq::<Mtdr>::empty());
                lemma_tail(begun, regs.log(), Seq::empty());
            }
        },
        None => {
            remediate(regs, timeout, recovery_abort_for(error, Abort::General));
        },
    }
    assert(fault_cleared_before_session(old(regs).log(), regs.log(), timeout, fault));
    IOError::from_status(error)
}

/// Recovers before a session exists.
pub fn remediate_before_session<H: ControllerPort>(regs: &mut ControllerRegisters<H>, timeout: u64)
    requires
        !opens_read(wire(old(regs).log())),
    ensures
        recovered(old(regs).log(), final(regs).log(), false),
        recoveries(final(regs).log()) == recoveries(old(regs).log()).push(timeout),
        cancelled_before_session(old(regs).log(), final(regs).log(), timeout),
        final(regs).block() == old(regs).block(),
{
    regs.begin_recovery(Ghost(timeout));
    remediate(regs, timeout, Abort::General);
    assert(cancelled_before_session(old(regs).log(), regs.log(), timeout));
}

impl Session {
    /// Gives the transaction up: recovers the bus and releases the session
    /// slot. This is the single recovery of every path that does not reach a
    /// completed STOP.
    pub fn abandon<H: ControllerPort>(self, regs: &mut ControllerRegisters<H>, info: &mut Info)
        requires
            self@.owner == old(regs).block(),
            session_fits(old(regs).log(), self@),
        ensures
            recovered(old(regs).log(), final(regs).log(), self@.phase.clocks()),
            recoveries(final(regs).log()) == recoveries(old(regs).log()).push(self@.timeout),
            abandoned(old(regs).log(), final(regs).log(), self@),
            !final(info).open(),
            final(regs).block() == old(regs).block(),
    {
        let mut session = self;
        regs.begin_recovery(Ghost(self@.timeout));
        let ghost begun = regs.log();
        let ghost mut seen = begun;
        // Capture a fault that arrived after the caller's last step before
        // the close policy of a pending command is selected.
        if session.fault.is_empty() {
            if let Some(fault) = regs.take_active_fault() {
                proof {
                    seen = regs.log();
                }
                let _ = session.bind_fault(regs, fault);
            }
        }
        let ghost captured = regs.log();
        assert(quiet(begun, captured));
        let ghost left = session@;
        assert(fault_captured(begun, captured, self@, left)) by {
            if self@.fault is None && status_error(entry(begun, captured, 0)->ReadMsr_0) is Some {
                assert(captured.drop_last() =~= seen);
            }
        }
        let pending = PendingRecovery(session.phase);
        match session.fault.take() {
            Some(RetainedFault::Halted(halt)) => {
                let abort = pending.abort_for_cancellation();
                remediate_halted(regs, session.timeout, abort, halt);
            },
            Some(RetainedFault::PinLowTimeout) => {
                regs.terminate_pin_low_timeout();
                proof {
                    assert(commands(regs.log()) =~= commands(captured) + Seq::<Mtdr>::empty());
                    lemma_tail(captured, regs.log(), Seq::empty());
                }
            },
            None => {
                remediate_pending(regs, session.timeout, pending);
            },
        }
        proof {
            lemma_closes_then(begun, captured, regs.log(), self@.phase.clocks());
        }
        info.release_session();
    }

    /// Keeps the owner's identity opaque to the driver.
    pub fn belongs_to<H>(&self, regs: &ControllerRegisters<H>) -> (r: bool)
        ensures
            r == (self@.owner == regs.block()),
    {
        self.owner == regs.identity()
    }
}

/// Reservation made before a fresh START is accepted. It either becomes a
/// [`Session`] or is released.
#[must_use]
pub struct StartReservation {
    owner: usize,
    phase: SessionPhase,
}

impl StartReservation {
    /// The register block that is reserved.
    pub closed spec fn owner(&self) -> usize {
        self.owner
    }

    pub closed spec fn phase(&self) -> SessionPhase {
        self.phase
    }

    /// Reserves the single-session slot.
    pub fn acquire<H>(regs: &ControllerRegisters<H>, info: &mut Info) -> (r: Self)
        requires
            !old(info).open(),
        ensures
            final(info).open(),
            r.owner() == regs.block(),
            r.phase() == SessionPhase::Stable(Abort::General),
    {
        info.reserve_session();
        StartReservation { owner: regs.identity(), phase: SessionPhase::Stable(Abort::General) }
    }

    pub fn start_transition_permit(&mut self) -> (r: StartTransitionPermit<'_>)
        requires
            old(self).phase() is Stable,
        ensures
            r.owner == old(self).owner(),
            r.current() == old(self).phase(),
            final(self).owner() == old(self).owner(),
            final(self).phase() == *final(r.phase),
    {
        StartTransitionPermit::new(self.owner, &mut self.phase)
    }

    /// Becomes the session of the START that was queued.
    pub fn into_pending_session(self, timeout: u64) -> (r: Session)
        requires
            self.phase() is StartPending,
        ensures
            r@ == (SessionView { owner: self.owner(), timeout, phase: self.phase(), fault: None }),
    {
        Session { owner: self.owner, timeout, phase: self.phase, fault: FaultSlot::empty() }
    }

    /// Gives the slot back on a path that queued no START.
    pub fn release(self, info: &mut Info)
        ensures
            !final(info).open(),
    {
        info.release_session();
    }
}

} // verus!
