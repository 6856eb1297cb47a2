//! Safe controller-side operations over the LPI2C register block.
//!
//! The API is a deliberately closed vocabulary: there is no bare "FIFO
//! empty" predicate to wait on. Every wait primitive couples data or space
//! readiness with the error flags, so a driver loop that spins forever on a
//! halted transfer cannot be expressed against this interface.

use vstd::prelude::*;

use crate::controller::ControllerSetup;
use crate::critical::{in_critical_section, CriticalSequence, ResetFifos};
use crate::dma::InvalidParameters;
use crate::lpi2c_regs::{Access, ControllerPort, Direction, DmaPort, LpI2cRegisters};
use crate::session::{
    CommandPermit, FirstReceivePermit, ReadReceivePermit, RecoveryPermit, SessionPhase, StartStatusPermit,
    StartTransitionPermit, StopCompleted, StopFault, StopFinalizeFault, StopFinalized, StopTransitionPermit, StopWait,
};
use crate::trace::{commands, entry, extends, recoveries};
use crate::words::{ControllerCommand, Mcfgr1, Mcr, Mder, Mfsr, Mier, Msr, Mtdr, Param};

verus! {

broadcast use crate::trace::group_trace;

/// Controller errors represented by the hardware status register.
#[derive(Clone, Copy, Debug, PartialEq, Eq, Structural)]
pub enum ControllerStatusError {
    AddressNack,
    ArbitrationLoss,
    Fifo,
    PinLowTimeout,
}

/// How the engine's resolution of a halting fault ended.
#[derive(Clone, Copy, Debug, PartialEq, Eq, Structural)]
pub enum HaltResolution {
    /// The automatic STOP was waited out and the frozen pipeline discarded.
    Settled,
    /// No automatic STOP is coming: the transaction is still to be closed.
    NeedsManualClose,
    /// A pin-low timeout shut the controller down.
    PinLowTerminated,
}

/// What the resolution of a halting fault does behind a status snapshot.
#[derive(Clone, Copy, Debug, PartialEq, Eq, Structural)]
pub enum HaltStep {
    /// Look again.
    Wait,
    /// Drop the frozen pipeline, and then the flags that freeze it.
    Discard(HaltResolution),
    /// Shut the controller down.
    Terminate,
}

/// What the resolution of a halting fault does behind these looks.
pub open spec fn halt_resolved(status: Msr, config: Mcfgr1, fifo: Mfsr, late: bool) -> HaltStep {
    if status.pltf {
        HaltStep::Terminate
    } else if !status.mbf {
        HaltStep::Discard(HaltResolution::Settled)
    } else if late || (!config.autostop && fifo.txcount == 0) {
        HaltStep::Discard(HaltResolution::NeedsManualClose)
    } else {
        HaltStep::Wait
    }
}

/// The engine ends a halted transaction with a STOP of its own where it can.
/// It is waited for until it is `late`; a pin-low timeout ends the wait. Where
/// it is not to generate one and nothing is queued that would end the
/// transaction, none is coming.
pub fn halt_step(status: Msr, config: Mcfgr1, fifo: Mfsr, late: bool) -> (r: HaltStep)
    ensures
        r == halt_resolved(status, config, fifo, late),
{
    if status.pltf {
        return HaltStep::Terminate;
    }
    if !status.mbf {
        return HaltStep::Discard(HaltResolution::Settled);
    }
    if late || (!config.autostop && fifo.txcount == 0) {
        return HaltStep::Discard(HaltResolution::NeedsManualClose);
    }
    HaltStep::Wait
}

/// The error that a status snapshot reports. An address NACK explains
/// everything after it, arbitration loss comes next, a FIFO error and a
/// pin-low timeout last.
pub open spec fn status_error(msr: Msr) -> Option<ControllerStatusError> {
    if msr.ndf {
        Some(ControllerStatusError::AddressNack)
    } else if msr.alf {
        Some(ControllerStatusError::ArbitrationLoss)
    } else if msr.fef {
        Some(ControllerStatusError::Fifo)
    } else if msr.pltf {
        Some(ControllerStatusError::PinLowTimeout)
    } else {
        None
    }
}

/// A snapshot in which this controller ended its packet and went idle.
pub open spec fn packet_over(msr: Msr) -> bool {
    msr.epf && !msr.mbf
}

/// Entries of the command FIFO, by the parameter register. The exponent is a
/// four-bit field.
pub open spec fn fifo_entries(param: Param) -> usize {
    (1u32 << ((param.mtxfifo & 0x0f) as u32)) as usize
}

/// A typed snapshot of the controller error flags relevant to transfers.
#[derive(Clone, Copy, Debug, PartialEq, Eq, Structural)]
pub struct ControllerStatus {
    error: Option<ControllerStatusError>,
}

impl ControllerStatus {
    /// The error this snapshot reports.
    pub closed spec fn classified(self) -> Option<ControllerStatusError> {
        self.error
    }

    pub fn from_snapshot(msr: &Msr) -> (r: Self)
        ensures
            r.classified() == status_error(*msr),
    {
        let error = if msr.ndf {
            Some(ControllerStatusError::AddressNack)
        } else if msr.alf {
            Some(ControllerStatusError::ArbitrationLoss)
        } else if msr.fef {
            Some(ControllerStatusError::Fifo)
        } else if msr.pltf {
            // The interrupt masks enable the pin-low source, so it must be
            // part of the fault set: a wake without an error would loop the
            // waiter forever.
            Some(ControllerStatusError::PinLowTimeout)
        } else {
            None
        };
        ControllerStatus { error }
    }

    pub fn error(self) -> (r: Option<ControllerStatusError>)
        ensures
            r == self.classified(),
    {
        self.error
    }
}

/// One step of receive progress. Data drains before faults surface: bytes
/// that arrived before an error are valid and must not be lost.
#[derive(Clone, Copy, Debug, PartialEq, Eq, Structural)]
#[must_use]
pub enum RxStep {
    Byte(u8),
    Fault(ControllerStatusError),
    /// The transfer terminated with no data pending and no fault flagged.
    Ended,
}

/// One step of transmit-space progress. Faults surface before space: pushing
/// more commands into a halted transfer would never complete.
#[derive(Clone, Copy, Debug, PartialEq, Eq, Structural)]
#[must_use]
pub enum TxStep {
    Room,
    Fault(ControllerStatusError),
}

/// What [`ControllerRegisters::rx_step`] did and returned: data first, then a
/// fault, then the end of the packet.
pub open spec fn rx_step_ran(before: Seq<Access>, after: Seq<Access>, r: Option<RxStep>) -> bool {
    let fifo = entry(before, after, 0)->ReadMfsr_0;
    let byte = entry(before, after, 1)->ReadMrdr_0;
    let status = entry(before, after, 1)->ReadMsr_0;
    let end = entry(before, after, 2)->ReadMsr_0;
    if fifo.rxcount != 0 {
        &&& after == before.push(Access::ReadMfsr(fifo)).push(Access::ReadMrdr(byte))
        &&& r == Some(RxStep::Byte(byte.data))
    } else if status_error(status) is Some {
        &&& after == before.push(Access::ReadMfsr(fifo)).push(Access::ReadMsr(status))
        &&& r == Some(RxStep::Fault(status_error(status)->Some_0))
    } else {
        &&& after == before.push(Access::ReadMfsr(fifo)).push(Access::ReadMsr(status)).push(Access::ReadMsr(end))
        &&& r == (if packet_over(end) {
            Some(RxStep::Ended)
        } else {
            None
        })
    }
}

/// What [`ControllerRegisters::rx_ready`] did and returned. It reads what
/// [`ControllerRegisters::rx_step`] reads, but pops nothing.
pub open spec fn rx_ready_ran(before: Seq<Access>, after: Seq<Access>, r: bool) -> bool {
    let fifo = entry(before, after, 0)->ReadMfsr_0;
    let status = entry(before, after, 1)->ReadMsr_0;
    let end = entry(before, after, 2)->ReadMsr_0;
    if fifo.rxcount != 0 {
        &&& after == before.push(Access::ReadMfsr(fifo))
        &&& r
    } else if status_error(status) is Some {
        &&& after == before.push(Access::ReadMfsr(fifo)).push(Access::ReadMsr(status))
        &&& r
    } else {
        &&& after == before.push(Access::ReadMfsr(fifo)).push(Access::ReadMsr(status)).push(Access::ReadMsr(end))
        &&& r == packet_over(end)
    }
}

/// What [`ControllerRegisters::tx_settled`] did and returned.
pub open spec fn tx_settled_ran(before: Seq<Access>, after: Seq<Access>, r: bool) -> bool {
    let fifo = entry(before, after, 0)->ReadMfsr_0;
    let status = entry(before, after, 1)->ReadMsr_0;
    if fifo.txcount == 0 {
        &&& after == before.push(Access::ReadMfsr(fifo))
        &&& r
    } else {
        &&& after == before.push(Access::ReadMfsr(fifo)).push(Access::ReadMsr(status))
        &&& r == (status_error(status) is Some)
    }
}

/// What [`ControllerRegisters::tx_room_step`] did and returned: a fault
/// first, then room.
pub open spec fn tx_room_step_ran(before: Seq<Access>, after: Seq<Access>, r: Option<TxStep>) -> bool {
    let status = entry(before, after, 0)->ReadMsr_0;
    let fifo = entry(before, after, 1)->ReadMfsr_0;
    let param = entry(before, after, 2)->ReadParam_0;
    if status_error(status) is Some {
        &&& after == before.push(Access::ReadMsr(status))
        &&& r == Some(TxStep::Fault(status_error(status)->Some_0))
    } else {
        &&& after == before.push(Access::ReadMsr(status)).push(Access::ReadMfsr(fifo)).push(Access::ReadParam(param))
        &&& r == (if fifo.txcount < fifo_entries(param) {
            Some(TxStep::Room)
        } else {
            None
        })
    }
}

/// The FIFO reset of [`ControllerRegisters::reset_fifos`]: both reset bits
/// set, every other bit of the control word kept.
pub open spec fn fifos_reset(before: Seq<Access>, after: Seq<Access>) -> bool {
    let word = entry(before, after, 0)->ReadMcr_0;
    after == before.push(Access::ReadMcr(word)).push(Access::WriteMcr(Mcr { rtf: true, rrf: true, ..word }))
}

/// A halting fault (address NACK or FIFO error) that froze the command
/// pipeline and must be resolved by whoever retains it.
#[derive(Clone, Copy, Debug, PartialEq, Eq, Structural)]
pub struct HaltedFault {
    pub error: ControllerStatusError,
}

impl HaltedFault {
    pub fn error(&self) -> (r: ControllerStatusError)
        ensures
            r == self.error,
    {
        self.error
    }
}

/// A fault whose cleanup must be owned until it is done.
#[derive(Clone, Copy, Debug, PartialEq, Eq, Structural)]
pub enum RetainedFault {
    /// The pipeline is frozen until the halt is resolved.
    Halted(HaltedFault),
    /// The controller has to be shut down.
    PinLowTimeout,
}

/// Which faults are retained. Arbitration loss is not: it may be spurious on
/// this silicon, on a transfer that is still running.
pub open spec fn fault_retained(fault: ControllerStatusError) -> Option<RetainedFault> {
    match fault {
        ControllerStatusError::AddressNack => Some(RetainedFault::Halted(HaltedFault { error: fault })),
        ControllerStatusError::Fifo => Some(RetainedFault::Halted(HaltedFault { error: fault })),
        ControllerStatusError::PinLowTimeout => Some(RetainedFault::PinLowTimeout),
        ControllerStatusError::ArbitrationLoss => None,
    }
}

/// The fault that a session's cleanup has to resolve, if any.
#[derive(Clone, Copy, Debug, PartialEq, Eq, Structural)]
pub struct FaultSlot {
    slot: Option<RetainedFault>,
}

impl View for FaultSlot {
    type V = Option<RetainedFault>;

    closed spec fn view(&self) -> Option<RetainedFault> {
        self.slot
    }
}

impl FaultSlot {
    pub fn empty() -> (r: Self)
        ensures
            r@ is None,
    {
        FaultSlot { slot: None }
    }

    pub fn is_empty(&self) -> (r: bool)
        ensures
            r == (self@ is None),
    {
        self.slot.is_none()
    }

    pub fn has_halted_fault(&self) -> (r: bool)
        ensures
            r == (self@ matches Some(RetainedFault::Halted(_))),
    {
        match self.slot {
            Some(RetainedFault::Halted(_)) => true,
            _ => false,
        }
    }

    /// Keeps a fault that is retained and hands its class on.
    pub fn capture(&mut self, fault: ControllerStatusError) -> (r: ControllerStatusError)
        ensures
            r == fault,
            final(self)@ == (if fault_retained(fault) is Some {
                fault_retained(fault)
            } else {
                old(self)@
            }),
    {
        match fault {
            ControllerStatusError::AddressNack | ControllerStatusError::Fifo => {
                self.slot = Some(RetainedFault::Halted(HaltedFault { error: fault }));
            },
            ControllerStatusError::PinLowTimeout => {
                self.slot = Some(RetainedFault::PinLowTimeout);
            },
            ControllerStatusError::ArbitrationLoss => {},
        }
        fault
    }

    /// Moves the retained fault out.
    pub fn take(&mut self) -> (r: Option<RetainedFault>)
        ensures
            r == old(self)@,
            final(self)@ is None,
    {
        let r = self.slot;
        self.slot = None;
        r
    }
}

/// How a recovery closes the transaction it unwinds.
#[derive(Clone, Copy, Debug, PartialEq, Eq, Structural)]
pub enum RecoveryClose {
    /// A bare STOP.
    Stop,
    /// Clock one byte so that the target releases SDA, then STOP.
    ReleaseAddressedRead,
}

/// Evidence that the first RECEIVE of a read ran, branded by the register
/// block on which it was observed.
pub struct RxProgress {
    owner: usize,
}

impl RxProgress {
    /// The register block that the evidence is about.
    pub closed spec fn owner(&self) -> usize {
        self.owner
    }

    /// Uses the evidence up for the register block it is about.
    pub fn consume_for(self, owner: usize)
        requires
            self.owner() == owner,
    {
    }
}

/// Proof that a permit is being consumed by the register facade.
pub struct FacadeSeal {
    sealed: (),
}

/// The address byte of a START.
pub open spec fn start_word(address: u8, read: bool) -> Mtdr {
    Mtdr {
        data: (address * 2 + if read {
            1int
        } else {
            0int
        }) as u8,
        cmd: ControllerCommand::Start,
    }
}

/// A RECEIVE of `bytes` bytes.
pub open spec fn receive_word(bytes: nat) -> Mtdr {
    Mtdr { data: (bytes - 1) as u8, cmd: ControllerCommand::Receive }
}

/// A STOP.
pub open spec fn stop_word() -> Mtdr {
    Mtdr { data: 0, cmd: ControllerCommand::Stop }
}

/// A TRANSMIT of one byte.
pub open spec fn transmit_word(byte: u8) -> Mtdr {
    Mtdr { data: byte, cmd: ControllerCommand::Transmit }
}

/// A START towards one seven-bit address.
#[derive(Clone, Copy)]
pub struct StartAction {
    address: u8,
    read: bool,
}

impl StartAction {
    #[verifier::type_invariant]
    spec fn seven_bit(self) -> bool {
        self.address < 0x80
    }

    /// The seven-bit address.
    pub closed spec fn target(self) -> u8 {
        self.address
    }

    /// Whether the START opens a read.
    pub closed spec fn reads(self) -> bool {
        self.read
    }

    /// Forms a START, if the address has seven bits.
    pub fn new(address: u8, read: bool) -> (r: Option<Self>)
        ensures
            r is Some <==> address < 0x80,
            r matches Some(action) ==> action.target() == address && action.reads() == read,
    {
        if address < 0x80 {
            Some(StartAction { address, read })
        } else {
            None
        }
    }

    pub fn is_read(self) -> (r: bool)
        ensures
            r == self.reads(),
    {
        self.read
    }

    fn word(self) -> (r: Mtdr)
        ensures
            r == start_word(self.target(), self.reads()),
    {
        proof {
            use_type_invariant(&self);
        }
        let direction: u8 = if self.read {
            1
        } else {
            0
        };
        Mtdr { data: self.address * 2 + direction, cmd: ControllerCommand::Start }
    }
}

/// A normal trailing STOP.
#[derive(Clone, Copy)]
pub struct StopAction {
    sealed: (),
}

impl StopAction {
    pub fn new() -> (r: Self) {
        StopAction { sealed: () }
    }
}

/// An ordinary command on a live write transaction.
#[derive(Clone, Copy)]
pub struct ControllerAction {
    byte: u8,
}

impl ControllerAction {
    /// The byte to transmit.
    pub closed spec fn byte(self) -> u8 {
        self.byte
    }

    /// Transmit one byte.
    pub fn transmit(byte: u8) -> (r: Self)
        ensures
            r.byte() == byte,
    {
        ControllerAction { byte }
    }
}

/// Outcome of one attempt to push a command into the FIFO.
#[derive(Clone, Copy, Debug, PartialEq, Eq, Structural)]
#[must_use]
pub enum CommandStep {
    Queued,
    Full,
    Fault(ControllerStatusError),
}

/// What one attempt to push `word` did and returned: a fault first, then the
/// space check, and the push only where there is room.
pub open spec fn enqueue_ran(before: Seq<Access>, after: Seq<Access>, word: Mtdr, r: CommandStep) -> bool {
    let status = entry(before, after, 0)->ReadMsr_0;
    let fifo = entry(before, after, 1)->ReadMfsr_0;
    let param = entry(before, after, 2)->ReadParam_0;
    let checked = before.push(Access::ReadMsr(status)).push(Access::ReadMfsr(fifo)).push(Access::ReadParam(param));
    if status_error(status) is Some {
        &&& after == before.push(Access::ReadMsr(status))
        &&& r == CommandStep::Fault(status_error(status)->Some_0)
    } else if fifo.txcount < fifo_entries(param) {
        &&& after == checked.push(Access::WriteMtdr(word))
        &&& r == CommandStep::Queued
    } else {
        &&& after == checked
        &&& r == CommandStep::Full
    }
}

/// One poll of a queued START.
#[derive(Clone, Copy, Debug, PartialEq, Eq, Structural)]
#[must_use]
pub enum StartDrainStep {
    Pending,
    Drained,
    Fault(ControllerStatusError),
}

/// What one poll of a queued START did and returned: a fault first, then
/// whether the command FIFO is empty.
pub open spec fn start_drain_ran(before: Seq<Access>, after: Seq<Access>, r: StartDrainStep) -> bool {
    let status = entry(before, after, 0)->ReadMsr_0;
    let fifo = entry(before, after, 1)->ReadMfsr_0;
    if status_error(status) is Some {
        &&& after == before.push(Access::ReadMsr(status))
        &&& r == StartDrainStep::Fault(status_error(status)->Some_0)
    } else {
        &&& after == before.push(Access::ReadMsr(status)).push(Access::ReadMfsr(fifo))
        &&& r == (if fifo.txcount == 0 {
            StartDrainStep::Drained
        } else {
            StartDrainStep::Pending
        })
    }
}

/// What the final status check of a START or STOP did: one snapshot, written
/// back only where it reports no fault, so that a halting flag stays latched.
pub open spec fn final_status_ran(
    before: Seq<Access>,
    after: Seq<Access>,
    r: Option<ControllerStatusError>,
) -> bool {
    let status = entry(before, after, 0)->ReadMsr_0;
    &&& r == status_error(status)
    &&& after == if r is Some {
        before.push(Access::ReadMsr(status))
    } else {
        before.push(Access::ReadMsr(status)).push(Access::WriteMsr(status))
    }
}

/// One poll of a queued STOP. Every outcome owns the session.
#[must_use]
pub enum StopStep {
    Pending(StopWait),
    Completed(StopCompleted),
    Fault(StopFault),
}

/// The verdict of one poll of a queued STOP.
#[derive(Clone, Copy, Debug, PartialEq, Eq, Structural)]
pub enum StopVerdict {
    Pending,
    Completed,
    Fault(ControllerStatusError),
}

/// What one poll of a queued STOP did and found: a fault first; the STOP has
/// physically completed when the command FIFO is empty and the engine idle.
pub open spec fn stop_poll_ran(before: Seq<Access>, after: Seq<Access>, r: StopVerdict) -> bool {
    let status = entry(before, after, 0)->ReadMsr_0;
    let fifo = entry(before, after, 1)->ReadMfsr_0;
    if status_error(status) is Some {
        &&& after == before.push(Access::ReadMsr(status))
        &&& r == StopVerdict::Fault(status_error(status)->Some_0)
    } else {
        &&& after == before.push(Access::ReadMsr(status)).push(Access::ReadMfsr(fifo))
        &&& r == (if fifo.txcount == 0 && !status.mbf {
            StopVerdict::Completed
        } else {
            StopVerdict::Pending
        })
    }
}

/// The word that clears an arbitration loss and nothing else.
pub open spec fn arbitration_scrub() -> Msr {
    Msr { alf: true, ..Msr::clear() }
}

/// What [`ControllerRegisters::take_active_fault`] did and returned: one
/// snapshot, of which only an arbitration loss is cleared.
pub open spec fn active_fault_ran(
    before: Seq<Access>,
    after: Seq<Access>,
    r: Option<ControllerStatusError>,
) -> bool {
    let status = entry(before, after, 0)->ReadMsr_0;
    &&& r == status_error(status)
    &&& after == if r == Some(ControllerStatusError::ArbitrationLoss) {
        before.push(Access::ReadMsr(status)).push(Access::WriteMsr(arbitration_scrub()))
    } else {
        before.push(Access::ReadMsr(status))
    }
}

/// The fault that a recovery has to act on: the halting classes first, then
/// a pin-low timeout.
pub open spec fn recovery_fault(msr: Msr) -> Option<RetainedFault> {
    if msr.ndf {
        Some(RetainedFault::Halted(HaltedFault { error: ControllerStatusError::AddressNack }))
    } else if msr.fef {
        Some(RetainedFault::Halted(HaltedFault { error: ControllerStatusError::Fifo }))
    } else if msr.pltf {
        Some(RetainedFault::PinLowTimeout)
    } else {
        None
    }
}

/// What [`ControllerRegisters::observe_recovery_fault`] did and returned: one
/// snapshot; an arbitration loss is cleared only where nothing else is
/// latched that a recovery has to act on.
pub open spec fn recovery_fault_ran(before: Seq<Access>, after: Seq<Access>, r: Option<RetainedFault>) -> bool {
    let status = entry(before, after, 0)->ReadMsr_0;
    &&& r == recovery_fault(status)
    &&& after == if r is None && status.alf {
        before.push(Access::ReadMsr(status)).push(Access::WriteMsr(arbitration_scrub()))
    } else {
        before.push(Access::ReadMsr(status))
    }
}

/// The commands of a recovery's close.
pub open spec fn close_words(close: RecoveryClose) -> Seq<Mtdr> {
    match close {
        RecoveryClose::Stop => seq![stop_word()],
        RecoveryClose::ReleaseAddressedRead => seq![receive_word(1), stop_word()],
    }
}

/// What [`ControllerRegisters::try_enqueue_recovery_close`] did and returned:
/// the whole close is pushed where all of it fits, and nothing otherwise.
pub open spec fn recovery_close_ran(before: Seq<Access>, after: Seq<Access>, close: RecoveryClose, r: bool) -> bool {
    let fifo = entry(before, after, 0)->ReadMfsr_0;
    let param = entry(before, after, 1)->ReadParam_0;
    let checked = before.push(Access::ReadMfsr(fifo)).push(Access::ReadParam(param));
    &&& r == (fifo.txcount + close_words(close).len() <= fifo_entries(param))
    &&& after == if !r {
        checked
    } else if close == RecoveryClose::Stop {
        checked.push(Access::WriteMtdr(stop_word()))
    } else {
        checked.push(Access::WriteMtdr(receive_word(1))).push(Access::WriteMtdr(stop_word()))
    }
}

/// What [`ControllerRegisters::recovery_settled`] did and returned: the close
/// has run when the command FIFO is empty and the engine idle.
pub open spec fn recovery_settled_ran(before: Seq<Access>, after: Seq<Access>, r: bool) -> bool {
    let fifo = entry(before, after, 0)->ReadMfsr_0;
    let status = entry(before, after, 1)->ReadMsr_0;
    if fifo.txcount != 0 {
        &&& after == before.push(Access::ReadMfsr(fifo))
        &&& !r
    } else {
        &&& after == before.push(Access::ReadMfsr(fifo)).push(Access::ReadMsr(status))
        &&& r == !status.mbf
    }
}

/// A clean slate: both FIFOs dropped, then every status flag cleared.
pub open spec fn slate_cleaned(before: Seq<Access>, after: Seq<Access>) -> bool {
    let word = entry(before, after, 0)->ReadMcr_0;
    after == before.push(Access::ReadMcr(word)).push(Access::WriteMcr(Mcr { rtf: true, rrf: true, ..word })).push(
        Access::WriteMsr(Msr::all_flags()),
    )
}

/// What [`ControllerRegisters::discard_rx`] did: it read the FIFO level once
/// and popped exactly that many bytes.
pub open spec fn rx_discarded(before: Seq<Access>, after: Seq<Access>, any: bool) -> bool {
    let fifo = entry(before, after, 0)->ReadMfsr_0;
    &&& any == (fifo.rxcount != 0)
    &&& extends(before.push(Access::ReadMfsr(fifo)), after)
    &&& after.len() == before.len() + 1 + fifo.rxcount
    &&& forall|i: int| before.len() < i < after.len() ==> (#[trigger] after[i] is ReadMrdr)
}

impl<H: ControllerPort> CriticalSequence<ResetFifos> for ControllerRegisters<H> {
    open spec fn sequence(before: Self, args: ResetFifos, after: Self) -> bool {
        &&& fifos_reset(before.log(), after.log())
        &&& after.block() == before.block()
    }

    fn run(&mut self, args: ResetFifos) {
        let set = |w: Mcr| -> (r: Mcr)
            ensures
                r == (Mcr { rtf: true, rrf: true, ..w }),
        {
            Mcr { rtf: true, rrf: true, rest: w.rest }
        };
        self.modify_mcr(set);
    }
}

/// What arming a DMA channel did and returned. A rejected arm touches
/// nothing; the peripheral request and the channel are enabled last, in that
/// order, and only where the engine accepted the transfer.
pub open spec fn controller_dma_armed(
    before: Seq<Access>,
    after: Seq<Access>,
    direction: Direction,
    port: usize,
    offset: usize,
    length: usize,
    max_transfer: usize,
    r: bool,
) -> bool {
    let prepared = before.push(Access::DmaDisableRequest(direction)).push(Access::DmaClearDone(direction)).push(
        Access::DmaClearInterrupt(direction),
    ).push(Access::DmaSetRequestSource(direction)).push(
        Access::DmaSetup(direction, port, offset, length, r),
    );
    if !(0 < length <= max_transfer) {
        &&& !r
        &&& after == before
    } else if !r {
        after == prepared
    } else {
        let word = entry(before, after, 6)->ReadMder_0;
        let on = if direction == Direction::Rx {
            Mder { rdde: true, ..word }
        } else {
            Mder { tdde: true, ..word }
        };
        after == prepared.push(Access::DmaBarrier).push(Access::ReadMder(word)).push(Access::WriteMder(on)).push(
            Access::DmaEnableRequest(direction),
        )
    }
}

/// The last thing that was done is that a DMA channel was shut down.
pub open spec fn channel_quiet(log: Seq<Access>) -> bool {
    let n = log.len();
    ||| n > 1 && log[n - 1] is DmaBarrier && log[n - 2] is DmaQuiesce
    ||| n > 2 && log[n - 1] is DmaTransferredBytes && log[n - 2] is DmaBarrier && log[n - 3] is DmaQuiesce
}

/// What shutting a DMA channel down did and returned: the peripheral request
/// is disabled before the channel is waited for, and only then is its count
/// taken.
pub open spec fn controller_dma_finished(
    before: Seq<Access>,
    after: Seq<Access>,
    direction: Direction,
    total: usize,
    moved: usize,
) -> bool {
    let word = entry(before, after, 1)->ReadMder_0;
    let off = if direction == Direction::Rx {
        Mder { rdde: false, ..word }
    } else {
        Mder { tdde: false, ..word }
    };
    let complete = entry(before, after, 3)->DmaQuiesce_1;
    let quiesced = before.push(Access::DmaBarrier).push(Access::ReadMder(word)).push(Access::WriteMder(off)).push(
        Access::DmaQuiesce(direction, complete),
    ).push(Access::DmaBarrier);
    if complete {
        &&& after == quiesced
        &&& moved == total
    } else {
        after == quiesced.push(Access::DmaTransferredBytes(direction, moved))
    }
}

/// Safe controller-specific operations over the LPI2C register block.
pub struct ControllerRegisters<H> {
    regs: LpI2cRegisters<H>,
    base: usize,
}

impl<H> ControllerRegisters<H> {
    /// The history of the register block.
    pub closed spec fn log(&self) -> Seq<Access> {
        self.regs.log()
    }

    /// The address of the register block, which identifies it.
    pub closed spec fn block(&self) -> usize {
        self.base
    }

    /// Takes over the register block at `base`.
    pub fn new(hw: H, base: usize) -> (r: Self)
        ensures
            r.log() == Seq::<Access>::empty(),
            r.block() == base,
    {
        ControllerRegisters { regs: LpI2cRegisters::new(hw), base }
    }

    /// Stable identity used to bind sessions, permits and DMA channels to
    /// this exact register block.
    pub fn identity(&self) -> (r: usize)
        ensures
            r == self.block(),
    {
        self.base
    }

    /// Address of the receive FIFO port, for the DMA engine to read.
    pub fn rx_data_ptr(&self) -> (r: usize)
        requires
            self.block() <= usize::MAX - 0x070,
        ensures
            r == self.block() + 0x070,
    {
        self.base + 0x070
    }

    /// Address of the transmit FIFO port, for the DMA engine to write.
    pub fn tx_data_ptr(&self) -> (r: usize)
        requires
            self.block() <= usize::MAX - 0x060,
        ensures
            r == self.block() + 0x060,
    {
        self.base + 0x060
    }

    /// The current tick.
    pub fn now(&mut self) -> (t: u64)
        ensures
            final(self).log() == old(self).log().push(Access::Now(t)),
            final(self).block() == old(self).block(),
    {
        self.regs.now()
    }

    /// Notes that a recovery with this budget takes ownership of the bus here.
    pub fn begin_recovery(&mut self, budget: Ghost<u64>)
        ensures
            final(self).log() == old(self).log().push(Access::RecoveryBegin(budget@)),
            final(self).block() == old(self).block(),
    {
        self.regs.begin_recovery(budget)
    }
}

impl<H: ControllerPort> ControllerRegisters<H> {
    pub fn msr(&mut self) -> (v: Msr)
        ensures
            final(self).log() == old(self).log().push(Access::ReadMsr(v)),
            final(self).block() == old(self).block(),
    {
        self.regs.read_msr()
    }

    pub fn mfsr(&mut self) -> (v: Mfsr)
        ensures
            final(self).log() == old(self).log().push(Access::ReadMfsr(v)),
            final(self).block() == old(self).block(),
    {
        self.regs.read_mfsr()
    }

    pub fn write_msr(&mut self, v: Msr)
        ensures
            final(self).log() == old(self).log().push(Access::WriteMsr(v)),
            final(self).block() == old(self).block(),
    {
        self.regs.write_msr(v);
    }

    pub fn write_mier(&mut self, v: Mier)
        ensures
            final(self).log() == old(self).log().push(Access::WriteMier(v)),
            final(self).block() == old(self).block(),
    {
        self.regs.write_mier(v);
    }

    /// Reads the control word and writes back what `f` makes of it.
    pub fn modify_mcr<F: FnOnce(Mcr) -> Mcr>(&mut self, f: F)
        requires
            forall|w: Mcr| f.requires((w,)),
        ensures
            ({
                let read = entry(old(self).log(), final(self).log(), 0)->ReadMcr_0;
                let written = entry(old(self).log(), final(self).log(), 1)->WriteMcr_0;
                &&& final(self).log() == old(self).log().push(Access::ReadMcr(read)).push(Access::WriteMcr(written))
                &&& f.ensures((read,), written)
            }),
            final(self).block() == old(self).block(),
    {
        let word = self.regs.read_mcr();
        let v = f(word);
        self.regs.write_mcr(v);
    }

    /// Reads the DMA enables and writes back what `f` makes of them.
    pub fn modify_mder<F: FnOnce(Mder) -> Mder>(&mut self, f: F)
        requires
            forall|w: Mder| f.requires((w,)),
        ensures
            ({
                let read = entry(old(self).log(), final(self).log(), 0)->ReadMder_0;
                let written = entry(old(self).log(), final(self).log(), 1)->WriteMder_0;
                &&& final(self).log() == old(self).log().push(Access::ReadMder(read)).push(Access::WriteMder(written))
                &&& f.ensures((read,), written)
            }),
            final(self).block() == old(self).block(),
    {
        let word = self.regs.read_mder();
        let v = f(word);
        self.regs.write_mder(v);
    }

    /// Disables the controller interrupt mask if any source is enabled.
    ///
    /// Returns whether the driver should wake its waiter.
    pub fn disable_interrupts_if_enabled(&mut self) -> (r: bool)
        ensures
            ({
                let mask = entry(old(self).log(), final(self).log(), 0)->ReadMier_0;
                &&& r == (mask != Mier::none())
                &&& final(self).log() == if r {
                    old(self).log().push(Access::ReadMier(mask)).push(Access::WriteMier(Mier::none()))
                } else {
                    old(self).log().push(Access::ReadMier(mask))
                }
            }),
            final(self).block() == old(self).block(),
    {
        let mask = self.regs.read_mier();
        if mask == Mier::disabled() {
            return false;
        }
        self.regs.write_mier(Mier::disabled());
        true
    }

    /// Enables only the error interrupt sources (NACK, arbitration loss,
    /// FIFO error, pin-low timeout). Used while DMA moves the data, where an
    /// error still needs to wake the waiting task.
    ///
    /// End-of-packet and STOP sources stay disabled: both latch spuriously on
    /// this silicon, so arming them storms the waker.
    pub fn enable_error_interrupts(&mut self)
        ensures
            final(self).log() == old(self).log().push(Access::WriteMier(Mier::errors())),
            final(self).block() == old(self).block(),
    {
        self.write_mier(
            Mier { tdie: false, rdie: false, ndie: true, alie: true, feie: true, pltie: true, rest: 0 },
        );
    }

    pub fn enable_receive_interrupts(&mut self)
        ensures
            final(self).log() == old(self).log().push(Access::WriteMier(Mier::receive())),
            final(self).block() == old(self).block(),
    {
        self.write_mier(
            Mier { tdie: false, rdie: true, ndie: true, alie: true, feie: true, pltie: true, rest: 0 },
        );
    }

    pub fn enable_transmit_interrupts(&mut self)
        ensures
            final(self).log() == old(self).log().push(Access::WriteMier(Mier::transmit())),
            final(self).block() == old(self).block(),
    {
        self.write_mier(
            Mier { tdie: true, rdie: false, ndie: true, alie: true, feie: true, pltie: true, rest: 0 },
        );
    }

    /// Arms the transmit-path interrupt set and evaluates its wake condition,
    /// as one operation: the armed set and the predicate are defined together
    /// so they cannot drift apart.
    pub fn tx_settle_wake(&mut self) -> (r: bool)
        ensures
            tx_settled_ran(old(self).log().push(Access::WriteMier(Mier::transmit())), final(self).log(), r),
            final(self).block() == old(self).block(),
    {
        self.enable_transmit_interrupts();
        self.tx_settled()
    }

    /// Arms the receive-path interrupt set and evaluates its wake condition,
    /// as one operation.
    pub fn rx_wake(&mut self) -> (r: bool)
        ensures
            rx_ready_ran(old(self).log().push(Access::WriteMier(Mier::receive())), final(self).log(), r),
            final(self).block() == old(self).block(),
    {
        self.enable_receive_interrupts();
        self.rx_ready()
    }

    /// Arms the error interrupt set and reports any latched error, as one
    /// operation.
    pub fn error_wake(&mut self) -> (r: Option<ControllerStatusError>)
        ensures
            ({
                let status = entry(old(self).log(), final(self).log(), 1)->ReadMsr_0;
                &&& final(self).log() == old(self).log().push(Access::WriteMier(Mier::errors())).push(
                    Access::ReadMsr(status),
                )
                &&& r == status_error(status)
            }),
            final(self).block() == old(self).block(),
    {
        self.enable_error_interrupts();
        self.read_status().error()
    }

    /// Drops the contents of both FIFOs.
    pub fn reset_fifos(&mut self)
        ensures
            fifos_reset(old(self).log(), final(self).log()),
            final(self).block() == old(self).block(),
    {
        in_critical_section(self, ResetFifos);
    }

    /// Clears every status flag.
    pub fn clear_all_status(&mut self)
        ensures
            final(self).log() == old(self).log().push(Access::WriteMsr(Msr::all_flags())),
            final(self).block() == old(self).block(),
    {
        self.write_msr(
            Msr {
                epf: true,
                sdf: true,
                ndf: true,
                alf: true,
                fef: true,
                pltf: true,
                dmf: true,
                stf: true,
                mbf: false,
                rest: 0,
            },
        );
    }

    /// Reads and clears one coherent status snapshot.
    ///
    /// Flags are cleared by writing one. Writing the sampled snapshot back
    /// clears only flags observed by this read, so a flag that arrives after
    /// the snapshot is not lost.
    pub fn take_status(&mut self) -> (r: ControllerStatus)
        ensures
            ({
                let status = entry(old(self).log(), final(self).log(), 0)->ReadMsr_0;
                &&& final(self).log() == old(self).log().push(Access::ReadMsr(status)).push(Access::WriteMsr(status))
                &&& r.classified() == status_error(status)
            }),
            final(self).block() == old(self).block(),
    {
        let msr = self.msr();
        self.write_msr(msr);
        ControllerStatus::from_snapshot(&msr)
    }

    pub fn read_status(&mut self) -> (r: ControllerStatus)
        ensures
            ({
                let status = entry(old(self).log(), final(self).log(), 0)->ReadMsr_0;
                &&& final(self).log() == old(self).log().push(Access::ReadMsr(status))
                &&& r.classified() == status_error(status)
            }),
            final(self).block() == old(self).block(),
    {
        let msr = self.msr();
        ControllerStatus::from_snapshot(&msr)
    }

    /// Clears the flags of one status snapshot.
    pub fn clear_current_status(&mut self)
        ensures
            ({
                let status = entry(old(self).log(), final(self).log(), 0)->ReadMsr_0;
                final(self).log() == old(self).log().push(Access::ReadMsr(status)).push(Access::WriteMsr(status))
            }),
            final(self).block() == old(self).block(),
    {
        let msr = self.msr();
        self.write_msr(msr);
    }

    /// After an address NACK, a STOP must be sent by software when automatic
    /// STOP generation is disabled and nothing else is queued that would
    /// terminate the transfer.
    pub fn needs_manual_stop_after_nack(&mut self) -> (r: bool)
        ensures
            ({
                let config = entry(old(self).log(), final(self).log(), 0)->ReadMcfgr1_0;
                let fifo = entry(old(self).log(), final(self).log(), 1)->ReadMfsr_0;
                if config.autostop {
                    &&& final(self).log() == old(self).log().push(Access::ReadMcfgr1(config))
                    &&& !r
                } else {
                    &&& final(self).log() == old(self).log().push(Access::ReadMcfgr1(config)).push(
                        Access::ReadMfsr(fifo),
                    )
                    &&& r == (fifo.txcount == 0)
                }
            }),
            final(self).block() == old(self).block(),
    {
        if self.regs.read_mcfgr1().autostop {
            return false;
        }
        self.mfsr().txcount == 0
    }

    /// One step of receive progress: a received byte (popped from the receive
    /// FIFO), a fault that means no more data will arrive, an early
    /// termination, or `None` to keep waiting. There is deliberately no
    /// data-only variant of this wait.
    pub fn rx_step(&mut self) -> (r: Option<RxStep>)
        ensures
            rx_step_ran(old(self).log(), final(self).log(), r),
            final(self).block() == old(self).block(),
    {
        if self.mfsr().rxcount != 0 {
            return Some(RxStep::Byte(self.regs.read_mrdr().data));
        }
        if let Some(e) = self.read_status().error() {
            return Some(RxStep::Fault(e));
        }
        if self.transfer_ended() {
            return Some(RxStep::Ended);
        }
        None
    }

    /// Non-consuming readiness check for [`Self::rx_step`], for use in wake
    /// conditions.
    pub fn rx_ready(&mut self) -> (r: bool)
        ensures
            rx_ready_ran(old(self).log(), final(self).log(), r),
            final(self).block() == old(self).block(),
    {
        if self.mfsr().rxcount != 0 {
            return true;
        }
        if self.read_status().error().is_some() {
            return true;
        }
        self.transfer_ended()
    }

    /// Whether this controller has ended the packet and gone idle, so that
    /// the transfer terminated for real.
    ///
    /// Deliberately not based on STOP detection, which latches spuriously
    /// while a transfer continues. The busy guard rejects transient states.
    pub fn transfer_ended(&mut self) -> (r: bool)
        ensures
            ({
                let status = entry(old(self).log(), final(self).log(), 0)->ReadMsr_0;
                &&& final(self).log() == old(self).log().push(Access::ReadMsr(status))
                &&& r == packet_over(status)
            }),
            final(self).block() == old(self).block(),
    {
        let msr = self.msr();
        msr.epf && !msr.mbf
    }

    /// Capacity of the shared command/transmit FIFO, in entries.
    pub fn tx_fifo_capacity(&mut self) -> (r: usize)
        ensures
            ({
                let param = entry(old(self).log(), final(self).log(), 0)->ReadParam_0;
                &&& final(self).log() == old(self).log().push(Access::ReadParam(param))
                &&& r == fifo_entries(param)
                &&& 1 <= r <= 0x8000
            }),
            final(self).block() == old(self).block(),
    {
        let param = self.regs.read_param();
        let exponent: u8 = param.mtxfifo & 0x0f;
        proof {
            let field = param.mtxfifo;
            assert(field & 0x0f <= 15) by (bit_vector);
            let e = exponent as u32;
            assert(1u32 <= (1u32 << e) <= 0x8000) by (bit_vector)
                requires
                    e <= 15,
            ;
        }
        (1u32 << (exponent as u32)) as usize
    }

    /// Whether the command FIFO has fully drained or a fault is pending: the
    /// wait for a queued command is over, one way or the other.
    pub fn tx_settled(&mut self) -> (r: bool)
        ensures
            tx_settled_ran(old(self).log(), final(self).log(), r),
            final(self).block() == old(self).block(),
    {
        if self.mfsr().txcount == 0 {
            return true;
        }
        self.read_status().error().is_some()
    }

    /// One step of transmit-space progress: room in the command FIFO, a fault
    /// that means the transfer is dead, or `None` to keep waiting.
    pub fn tx_room_step(&mut self) -> (r: Option<TxStep>)
        ensures
            tx_room_step_ran(old(self).log(), final(self).log(), r),
            final(self).block() == old(self).block(),
    {
        if let Some(e) = self.read_status().error() {
            return Some(TxStep::Fault(e));
        }
        let pending: u8 = self.mfsr().txcount;
        if (pending as usize) < self.tx_fifo_capacity() {
            return Some(TxStep::Room);
        }
        None
    }

    /// Pushes a typed controller command into the transmit FIFO.
    pub fn write_command(&mut self, command: ControllerCommand, data: u8)
        ensures
            final(self).log() == old(self).log().push(Access::WriteMtdr(Mtdr { data, cmd: command })),
            final(self).block() == old(self).block(),
    {
        self.regs.write_mtdr(Mtdr { data, cmd: command });
    }

    /// Enables or disables the receive DMA request.
    pub fn set_rx_dma(&mut self, enable: bool)
        ensures
            ({
                let word = entry(old(self).log(), final(self).log(), 0)->ReadMder_0;
                final(self).log() == old(self).log().push(Access::ReadMder(word)).push(
                    Access::WriteMder(Mder { rdde: enable, ..word }),
                )
            }),
            final(self).block() == old(self).block(),
    {
        let set = |w: Mder| -> (r: Mder)
            ensures
                r == (Mder { rdde: enable, ..w }),
        {
            Mder { rdde: enable, tdde: w.tdde, rest: w.rest }
        };
        self.modify_mder(set);
    }

    /// Enables or disables the transmit DMA request.
    pub fn set_tx_dma(&mut self, enable: bool)
        ensures
            ({
                let word = entry(old(self).log(), final(self).log(), 0)->ReadMder_0;
                final(self).log() == old(self).log().push(Access::ReadMder(word)).push(
                    Access::WriteMder(Mder { tdde: enable, ..word }),
                )
            }),
            final(self).block() == old(self).block(),
    {
        let set = |w: Mder| -> (r: Mder)
            ensures
                r == (Mder { tdde: enable, ..w }),
        {
            Mder { tdde: enable, rdde: w.rdde, rest: w.rest }
        };
        self.modify_mder(set);
    }

    /// Whether the engine is running a transaction.
    pub fn master_busy(&mut self) -> (r: bool)
        ensures
            ({
                let status = entry(old(self).log(), final(self).log(), 0)->ReadMsr_0;
                &&& final(self).log() == old(self).log().push(Access::ReadMsr(status))
                &&& r == status.mbf
            }),
            final(self).block() == old(self).block(),
    {
        self.msr().mbf
    }

    /// How many commands wait in the FIFO.
    pub fn tx_pending(&mut self) -> (r: u8)
        ensures
            ({
                let fifo = entry(old(self).log(), final(self).log(), 0)->ReadMfsr_0;
                &&& final(self).log() == old(self).log().push(Access::ReadMfsr(fifo))
                &&& r == fifo.txcount
            }),
            final(self).block() == old(self).block(),
    {
        self.mfsr().txcount
    }

    /// Arms the transmit-path interrupt set and reports whether an attempt to
    /// push a command would now be decided, as one operation.
    pub fn tx_room_wake(&mut self) -> (r: bool)
        ensures
            ({
                let armed = old(self).log().push(Access::WriteMier(Mier::transmit()));
                ||| r && exists|step: TxStep| #[trigger] tx_room_step_ran(armed, final(self).log(), Some(step))
                ||| !r && tx_room_step_ran(armed, final(self).log(), None)
            }),
            final(self).block() == old(self).block(),
    {
        self.enable_transmit_interrupts();
        let step = self.tx_room_step();
        match step {
            Some(found) => {
                assert(tx_room_step_ran(
                    old(self).log().push(Access::WriteMier(Mier::transmit())),
                    self.log(),
                    Some(found),
                ));
                true
            },
            None => false,
        }
    }

    fn gate(&mut self, word: Mtdr) -> (r: CommandStep)
        ensures
            enqueue_ran(old(self).log(), final(self).log(), word, r),
            final(self).block() == old(self).block(),
    {
        match self.tx_room_step() {
            Some(TxStep::Fault(e)) => CommandStep::Fault(e),
            None => CommandStep::Full,
            Some(TxStep::Room) => {
                self.write_command(word.cmd, word.data);
                CommandStep::Queued
            },
        }
    }

    /// Attempts one ordinary command on a live write transaction.
    pub fn try_enqueue_active(&mut self, permit: CommandPermit<'_>, action: ControllerAction) -> (r: CommandStep)
        requires
            permit.owner == old(self).block(),
            permit.current().writable(),
        ensures
            enqueue_ran(old(self).log(), final(self).log(), transmit_word(action.byte()), r),
            *final(permit.phase) == permit.current(),
            final(self).block() == old(self).block(),
    {
        self.gate(Mtdr { data: action.byte, cmd: ControllerCommand::Transmit })
    }

    /// Attempts a START, and commits the pending phase exactly when the FIFO
    /// took it.
    pub fn try_enqueue_start(&mut self, permit: StartTransitionPermit<'_>, action: StartAction) -> (r: CommandStep)
        requires
            permit.owner == old(self).block(),
            permit.current() is Stable,
        ensures
            enqueue_ran(old(self).log(), final(self).log(), start_word(action.target(), action.reads()), r),
            *final(permit.phase) == (if r == CommandStep::Queued {
                SessionPhase::StartPending {
                    before: permit.current()->Stable_0,
                    after: SessionPhase::start_shape(action.reads()),
                }
            } else {
                permit.current()
            }),
            final(self).block() == old(self).block(),
    {
        let step = self.gate(action.word());
        permit.finish_enqueue(action, step == CommandStep::Queued, FacadeSeal { sealed: () });
        step
    }

    /// Attempts a normal trailing STOP, and commits the pending phase exactly
    /// when the FIFO took it.
    pub fn try_enqueue_stop(&mut self, permit: StopTransitionPermit<'_>, action: StopAction) -> (r: CommandStep)
        requires
            permit.owner == old(self).block(),
            permit.current().closable(),
        ensures
            enqueue_ran(old(self).log(), final(self).log(), stop_word(), r),
            *final(permit.phase) == (if r == CommandStep::Queued {
                SessionPhase::StopPending { before: permit.current()->Stable_0 }
            } else {
                permit.current()
            }),
            final(self).block() == old(self).block(),
    {
        let step = self.gate(Mtdr { data: 0, cmd: ControllerCommand::Stop });
        permit.finish_enqueue(step == CommandStep::Queued, FacadeSeal { sealed: () });
        step
    }

    /// Attempts the first RECEIVE of a read, and commits the pending phase
    /// exactly when the FIFO took it.
    pub fn try_enqueue_first_receive(&mut self, permit: FirstReceivePermit<'_>, bytes: usize) -> (r: CommandStep)
        requires
            permit.owner == old(self).block(),
            permit.current().addressed(),
            1 <= bytes <= 256,
        ensures
            enqueue_ran(old(self).log(), final(self).log(), receive_word(bytes as nat), r),
            *final(permit.phase) == (if r == CommandStep::Queued {
                SessionPhase::FirstReceivePending
            } else {
                permit.current()
            }),
            final(self).block() == old(self).block(),
    {
        let step = self.gate(Mtdr { data: (bytes - 1) as u8, cmd: ControllerCommand::Receive });
        permit.finish_enqueue(step == CommandStep::Queued, FacadeSeal { sealed: () });
        step
    }

    /// Attempts a later RECEIVE of a read.
    pub fn try_enqueue_read_receive(&mut self, permit: ReadReceivePermit<'_>, bytes: usize) -> (r: CommandStep)
        requires
            permit.owner == old(self).block(),
            permit.current().reading(),
            1 <= bytes <= 256,
        ensures
            enqueue_ran(old(self).log(), final(self).log(), receive_word(bytes as nat), r),
            final(self).block() == old(self).block(),
    {
        self.gate(Mtdr { data: (bytes - 1) as u8, cmd: ControllerCommand::Receive })
    }

    /// Polls a queued START once.
    pub fn poll_start_drain(&mut self, permit: &StartStatusPermit<'_>) -> (r: StartDrainStep)
        requires
            permit.owner == old(self).block(),
            permit.current() is StartPending,
        ensures
            start_drain_ran(old(self).log(), final(self).log(), r),
            final(self).block() == old(self).block(),
    {
        if let Some(e) = self.read_status().error() {
            return StartDrainStep::Fault(e);
        }
        if self.mfsr().txcount == 0 {
            StartDrainStep::Drained
        } else {
            StartDrainStep::Pending
        }
    }

    fn final_status(&mut self) -> (r: Option<ControllerStatusError>)
        ensures
            final_status_ran(old(self).log(), final(self).log(), r),
            final(self).block() == old(self).block(),
    {
        let msr = self.msr();
        let error = ControllerStatus::from_snapshot(&msr).error();
        if error.is_none() {
            self.write_msr(msr);
        }
        error
    }

    /// Takes the final status of a drained START, and commits the settled
    /// phase where that status is clean.
    pub fn finish_start_status(&mut self, permit: StartStatusPermit<'_>) -> (r: Result<(), ControllerStatusError>)
        requires
            permit.owner == old(self).block(),
            permit.current() is StartPending,
        ensures
            final_status_ran(
                old(self).log(),
                final(self).log(),
                match r {
                    Ok(_) => None,
                    Err(e) => Some(e),
                },
            ),
            *final(permit.phase) == (if r is Ok {
                SessionPhase::Stable(permit.current()->StartPending_after)
            } else {
                permit.current()
            }),
            final(self).block() == old(self).block(),
    {
        match self.final_status() {
            Some(e) => Err(e),
            None => {
                permit.commit_settled(FacadeSeal { sealed: () });
                Ok(())
            },
        }
    }

    /// Polls a queued STOP once.
    pub fn stop_step(&mut self, stop: StopWait) -> (r: StopStep)
        requires
            stop@.owner == old(self).block(),
        ensures
            match r {
                StopStep::Pending(next) => {
                    &&& next@ == stop@
                    &&& stop_poll_ran(old(self).log(), final(self).log(), StopVerdict::Pending)
                },
                StopStep::Completed(done) => {
                    &&& done@ == stop@
                    &&& stop_poll_ran(old(self).log(), final(self).log(), StopVerdict::Completed)
                },
                StopStep::Fault(fault) => {
                    &&& fault.session() == stop@
                    &&& stop_poll_ran(old(self).log(), final(self).log(), StopVerdict::Fault(fault.fault()))
                },
            },
            final(self).block() == old(self).block(),
    {
        let msr = self.msr();
        if let Some(e) = ControllerStatus::from_snapshot(&msr).error() {
            return StopStep::Fault(StopFault::new(stop, e, FacadeSeal { sealed: () }));
        }
        if self.mfsr().txcount == 0 && !msr.mbf {
            StopStep::Completed(stop.into_completed(FacadeSeal { sealed: () }))
        } else {
            StopStep::Pending(stop)
        }
    }

    /// Takes the final status of a completed STOP.
    pub fn finish_stop(&mut self, completed: StopCompleted) -> (r: Result<StopFinalized, StopFinalizeFault>)
        requires
            completed@.owner == old(self).block(),
        ensures
            match r {
                Ok(done) => {
                    &&& done.follows(completed@)
                    &&& final_status_ran(old(self).log(), final(self).log(), None)
                },
                Err(fault) => {
                    &&& fault.session() == completed@
                    &&& final_status_ran(old(self).log(), final(self).log(), Some(fault.fault()))
                },
            },
            final(self).block() == old(self).block(),
    {
        match self.final_status() {
            Some(e) => Err(StopFinalizeFault::new(completed.into_wait(), e, FacadeSeal { sealed: () })),
            None => Ok(completed.commit_finalized(FacadeSeal { sealed: () })),
        }
    }

    fn scrub_arbitration_loss(&mut self)
        ensures
            final(self).log() == old(self).log().push(Access::WriteMsr(arbitration_scrub())),
            final(self).block() == old(self).block(),
    {
        self.write_msr(
            Msr {
                epf: false,
                sdf: false,
                ndf: false,
                alf: true,
                fef: false,
                pltf: false,
                dmf: false,
                stf: false,
                mbf: false,
                rest: 0,
            },
        );
    }

    /// Classifies one status snapshot, halt-preserving: a latched halting
    /// flag is what holds a halted engine off its stale pipeline, so only an
    /// arbitration loss is cleared.
    pub fn take_active_fault(&mut self) -> (r: Option<ControllerStatusError>)
        ensures
            active_fault_ran(old(self).log(), final(self).log(), r),
            final(self).block() == old(self).block(),
    {
        let error = self.read_status().error();
        if let Some(ControllerStatusError::ArbitrationLoss) = error {
            self.scrub_arbitration_loss();
        }
        error
    }

    /// Classifies one status snapshot for a recovery: the halting classes are
    /// recognized first, then a pin-low timeout. An arbitration loss may be
    /// spurious, so it is scrubbed and the recovery goes on.
    pub fn observe_recovery_fault(&mut self) -> (r: Option<RetainedFault>)
        ensures
            recovery_fault_ran(old(self).log(), final(self).log(), r),
            final(self).block() == old(self).block(),
    {
        let msr = self.msr();
        if msr.ndf {
            return Some(RetainedFault::Halted(HaltedFault { error: ControllerStatusError::AddressNack }));
        }
        if msr.fef {
            return Some(RetainedFault::Halted(HaltedFault { error: ControllerStatusError::Fifo }));
        }
        if msr.pltf {
            return Some(RetainedFault::PinLowTimeout);
        }
        if msr.alf {
            self.scrub_arbitration_loss();
        }
        None
    }

    /// Mints the evidence that goes with a byte just received.
    pub fn rx_progress(&self) -> (r: RxProgress)
        requires
            self.log().len() > 0,
            self.log().last() is ReadMrdr,
        ensures
            r.owner() == self.block(),
    {
        RxProgress { owner: self.base }
    }

    /// Evidence of a received byte that still rests in the FIFO.
    pub fn observe_rx_progress(&mut self) -> (r: Option<RxProgress>)
        ensures
            ({
                let fifo = entry(old(self).log(), final(self).log(), 0)->ReadMfsr_0;
                &&& final(self).log() == old(self).log().push(Access::ReadMfsr(fifo))
                &&& r is Some <==> fifo.rxcount != 0
            }),
            r matches Some(progress) ==> progress.owner() == old(self).block(),
            final(self).block() == old(self).block(),
    {
        if self.mfsr().rxcount != 0 {
            Some(RxProgress { owner: self.base })
        } else {
            None
        }
    }

    /// Pops and drops what the receive FIFO holds. An un-popped FIFO that
    /// fills stalls the engine in flow control without any fault.
    pub fn discard_rx(&mut self) -> (r: Option<RxProgress>)
        ensures
            rx_discarded(old(self).log(), final(self).log(), r is Some),
            r matches Some(progress) ==> progress.owner() == old(self).block(),
            commands(final(self).log()) == commands(old(self).log()),
            recoveries(final(self).log()) == recoveries(old(self).log()),
            final(self).block() == old(self).block(),
    {
        let count: u8 = self.mfsr().rxcount;
        let ghost start = self.log();
        let mut popped: u8 = 0;
        while popped < count
            invariant
                popped <= count,
                extends(start, self.log()),
                self.log().len() == start.len() + popped,
                forall|i: int| start.len() <= i < self.log().len() ==> (#[trigger] self.log()[i] is ReadMrdr),
                commands(self.log()) == commands(start),
                recoveries(self.log()) == recoveries(start),
                self.block() == old(self).block(),
            decreases count - popped,
        {
            let _ = self.regs.read_mrdr();
            popped = popped + 1;
        }
        if count != 0 {
            Some(RxProgress { owner: self.base })
        } else {
            None
        }
    }

    /// Pushes a recovery's close where all of it fits. Deliberately bypasses
    /// the fault check of the ordinary commands.
    pub fn try_enqueue_recovery_close(&mut self, permit: RecoveryPermit, close: RecoveryClose) -> (r: bool)
        requires
            permit.owner == old(self).block(),
        ensures
            recovery_close_ran(old(self).log(), final(self).log(), close, r),
            final(self).block() == old(self).block(),
    {
        let pending: u8 = self.mfsr().txcount;
        let capacity: usize = self.tx_fifo_capacity();
        let needed: usize = if close == RecoveryClose::Stop {
            1
        } else {
            2
        };
        if pending as usize + needed > capacity {
            return false;
        }
        if close == RecoveryClose::ReleaseAddressedRead {
            self.write_command(ControllerCommand::Receive, 0);
        }
        self.write_command(ControllerCommand::Stop, 0);
        true
    }

    /// Whether the close has run out and the engine is idle.
    pub fn recovery_settled(&mut self) -> (r: bool)
        ensures
            recovery_settled_ran(old(self).log(), final(self).log(), r),
            final(self).block() == old(self).block(),
    {
        if self.mfsr().txcount != 0 {
            return false;
        }
        !self.msr().mbf
    }

    /// Drops the stale pipeline and all flags of an idle engine.
    pub fn discard_idle_recovery_state(&mut self)
        ensures
            slate_cleaned(old(self).log(), final(self).log()),
            final(self).block() == old(self).block(),
    {
        self.reset_fifos();
        self.clear_all_status();
    }

    /// Leaves a clean slate for the next transaction.
    pub fn finish_recovery(&mut self)
        ensures
            slate_cleaned(old(self).log(), final(self).log()),
            final(self).block() == old(self).block(),
    {
        self.reset_fifos();
        self.clear_all_status();
    }

    /// Hands a halting fault to the engine for resolution.
    pub fn resolve_halted_fault(&mut self, halt: HaltedFault, timeout: u64, deadline: u64) -> (r: HaltResolution)
        ensures
            final(self).log() == old(self).log().push(Access::ResolveHalt(halt.error, timeout, deadline, r)),
            final(self).block() == old(self).block(),
    {
        self.regs.resolve_halt(halt.error, timeout, deadline)
    }

    /// Shuts the controller down after a pin-low timeout.
    pub fn terminate_pin_low_timeout(&mut self)
        ensures
            final(self).log() == old(self).log().push(Access::TerminatePinLow),
            final(self).block() == old(self).block(),
    {
        self.regs.terminate_pin_low();
    }

    /// Hard-resets an engine whose recovery did not settle in time.
    pub fn reset_after_recovery_timeout(&mut self)
        ensures
            final(self).log() == old(self).log().push(Access::ResetEngine),
            final(self).block() == old(self).block(),
    {
        self.regs.reset_engine();
    }

    /// Programs the controller with one prepared setup.
    pub fn configure(&mut self, setup: ControllerSetup)
        ensures
            final(self).log() == old(self).log().push(Access::ApplySetup(setup)),
            final(self).block() == old(self).block(),
    {
        self.regs.apply_setup(setup);
    }
}

impl<H: ControllerPort + DmaPort> ControllerRegisters<H> {
    /// Configures and arms one DMA transfer between memory and a FIFO port.
    pub fn arm_dma(&mut self, direction: Direction, offset: usize, length: usize, max_transfer: usize) -> (r: Result<
        (),
        InvalidParameters,
    >)
        requires
            old(self).block() <= usize::MAX - 0x070,
        ensures
            controller_dma_armed(
                old(self).log(),
                final(self).log(),
                direction,
                (old(self).block() + if direction == Direction::Rx {
                    0x070int
                } else {
                    0x060int
                }) as usize,
                offset,
                length,
                max_transfer,
                r is Ok,
            ),
            final(self).block() == old(self).block(),
    {
        if length == 0 || length > max_transfer {
            return Err(InvalidParameters);
        }
        let port: usize = match direction {
            Direction::Rx => self.rx_data_ptr(),
            Direction::Tx => self.tx_data_ptr(),
        };
        self.regs.dma_disable_request(direction);
        self.regs.dma_clear_done(direction);
        self.regs.dma_clear_interrupt(direction);
        self.regs.dma_set_request_source(direction);
        if !self.regs.dma_setup(direction, port, offset, length) {
            return Err(InvalidParameters);
        }
        self.regs.dma_barrier();
        match direction {
            Direction::Rx => self.set_rx_dma(true),
            Direction::Tx => self.set_tx_dma(true),
        }
        self.regs.dma_enable_request(direction);
        Ok(())
    }

    /// Whether the channel's transfer has completed.
    pub fn dma_done(&mut self, direction: Direction) -> (r: bool)
        ensures
            final(self).log() == old(self).log().push(Access::DmaIsDone(direction, r)),
            final(self).block() == old(self).block(),
    {
        self.regs.dma_is_done(direction)
    }

    /// Ends a DMA transfer: disables the request, waits until the channel is
    /// inactive and returns a stable count.
    pub fn finish_dma(&mut self, direction: Direction, total: usize) -> (moved: usize)
        ensures
            controller_dma_finished(old(self).log(), final(self).log(), direction, total, moved),
            final(self).block() == old(self).block(),
    {
        self.regs.dma_barrier();
        match direction {
            Direction::Rx => self.set_rx_dma(false),
            Direction::Tx => self.set_tx_dma(false),
        }
        let complete = self.regs.dma_quiesce(direction);
        self.regs.dma_barrier();
        if complete {
            total
        } else {
            self.regs.dma_transferred_bytes(direction)
        }
    }
}

} // verus!
