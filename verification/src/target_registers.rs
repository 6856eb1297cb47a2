//! Safe target-side operations over the LPI2C register block.
//!
//! The flag-priority decisions live here, in exactly one place each:
//!
//! - [`TargetRegisters::rx_event`]: pending data drains before faults and
//!   before STOP or repeated START are honored. Firmware entering late must
//!   not drop bytes that arrived before the controller terminated.
//! - [`TargetRegisters::tx_step`]: faults and termination win over space.
//! - [`TargetRegisters::listen_wake`]: faults are part of the wake condition,
//!   because their interrupts are armed.

use vstd::prelude::*;

use crate::critical::{in_critical_section, CriticalSequence, ResetFifos};
use crate::dma::InvalidParameters;
use crate::lpi2c_regs::{
    check_layout, layout_agrees, Access, Direction, DmaPort, LpI2cRegisters, MappedAddresses, TargetPort,
};
use crate::target::{SetupError, ValidatedAddress};
use crate::trace::{entry, extends, sent, taken};
use crate::words::{Addrcfg, Samr, Scfgr1, Scfgr2, Scr, Sder, Sier, Ssr, Stdr};

verus! {

broadcast use crate::trace::group_trace;

/// Hardware faults the target status register can report mid-transfer.
#[derive(Clone, Copy, Debug, PartialEq, Eq, Structural)]
pub enum TargetFault {
    /// The target saw a bus level conflicting with what it was driving.
    Bit,
    /// FIFO error (receive overflow or transmit underflow).
    Fifo,
}

/// The fault that a snapshot reports: a bit error before a FIFO error.
pub open spec fn fault_of(ssr: Ssr) -> Option<TargetFault> {
    if ssr.bef {
        Some(TargetFault::Bit)
    } else if ssr.fef {
        Some(TargetFault::Fifo)
    } else {
        None
    }
}

/// One step of target receive progress.
#[derive(Clone, Copy, Debug, PartialEq, Eq, Structural)]
#[must_use]
pub enum TargetRxEvent {
    /// A byte the controller wrote, popped from the receive FIFO.
    Byte(u8),
    /// A fault; bytes already drained are valid, nothing further is.
    Fault(TargetFault),
    /// The controller issued a STOP (no data left pending).
    Stopped,
    /// The controller issued a repeated START (no data left pending).
    Restarted,
}

/// One step of target transmit progress.
#[derive(Clone, Copy, Debug, PartialEq, Eq, Structural)]
#[must_use]
pub enum TargetTxStep {
    /// The transmit register has room for the next byte.
    Room,
    /// A fault; the transfer is compromised, push nothing more.
    Fault(TargetFault),
    /// The transfer ended (STOP or repeated START); push nothing more.
    Ended,
}

/// One classified listen event.
#[derive(Clone, Copy, Debug, PartialEq, Eq, Structural)]
#[must_use]
pub enum ListenEvent {
    /// A fault surfaced while listening.
    Fault(TargetFault),
    /// Address match for one of the configured addresses.
    AddressValid(u16),
    /// General-call address match.
    GeneralCall,
    /// SMBus-alert address match.
    SmbusAlert,
    /// Transmit-ACK request.
    TransmitAck,
    /// Repeated START observed (address from the last match).
    RepeatedStart(u16),
    /// STOP observed (address from the last match).
    Stop(u16),
    /// Nothing classifiable was latched.
    Nothing,
}

/// Terminal classification of a receive DMA chunk.
#[derive(Clone, Copy, Debug, PartialEq, Eq, Structural)]
#[must_use]
pub enum RxChunkEnd {
    /// A fault; the transfer is compromised.
    Fault(TargetFault),
    /// Data is still pending with no room left in the chunk: defer. A latched
    /// termination stays latched for the follow-up.
    ResiduePending,
    /// The controller issued a STOP.
    Stopped,
    /// The controller issued a repeated START.
    Restarted,
    /// No fault or termination latched.
    Continue,
}

/// Terminal classification of a transmit DMA chunk.
#[derive(Clone, Copy, Debug, PartialEq, Eq, Structural)]
#[must_use]
pub enum ChunkEnd {
    /// A fault; the transfer is compromised.
    Fault(TargetFault),
    /// The controller issued a STOP.
    Stopped,
    /// The controller issued a repeated START.
    Restarted,
    /// No fault or termination latched.
    Continue,
}

/// What [`TargetRegisters::rx_event`] did and returned.
pub open spec fn rx_event_ran(before: Seq<Access>, after: Seq<Access>, r: Option<TargetRxEvent>) -> bool {
    let ssr = entry(before, after, 0)->ReadSsr_0;
    let byte = entry(before, after, 1)->ReadSrdr_0;
    if ssr.rdf {
        &&& after == before.push(Access::ReadSsr(ssr)).push(Access::ReadSrdr(byte))
        &&& r == Some(TargetRxEvent::Byte(byte.data))
    } else {
        &&& after == before.push(Access::ReadSsr(ssr))
        &&& r == (if fault_of(ssr) is Some {
            Some(TargetRxEvent::Fault(fault_of(ssr)->Some_0))
        } else if ssr.sdf {
            Some(TargetRxEvent::Stopped)
        } else if ssr.rsf {
            Some(TargetRxEvent::Restarted)
        } else {
            None
        })
    }
}

/// What a transmit step makes of one snapshot.
pub open spec fn tx_step_of(ssr: Ssr) -> Option<TargetTxStep> {
    if fault_of(ssr) is Some {
        Some(TargetTxStep::Fault(fault_of(ssr)->Some_0))
    } else if ssr.sdf || ssr.rsf {
        Some(TargetTxStep::Ended)
    } else if ssr.tdf {
        Some(TargetTxStep::Room)
    } else {
        None
    }
}

/// A snapshot that ends a wait for received data.
pub open spec fn rx_wakes(ssr: Ssr) -> bool {
    ssr.rdf || ssr.sdf || ssr.rsf || ssr.bef || ssr.fef
}

/// A snapshot that ends a wait for transmit space.
pub open spec fn tx_wakes(ssr: Ssr) -> bool {
    ssr.tdf || ssr.sdf || ssr.rsf || ssr.bef || ssr.fef
}

/// A snapshot that ends a wait for a new transaction: an address match or its
/// classifications, a STOP, or a fault.
pub open spec fn listen_wakes(ssr: Ssr) -> bool {
    ssr.avf || ssr.sarf || ssr.gcf || ssr.sdf || ssr.bef || ssr.fef
}

/// A snapshot that ends a wait for a DMA-driven transfer.
pub open spec fn dma_wakes(ssr: Ssr) -> bool {
    ssr.fef || ssr.bef || ssr.sdf || ssr.rsf
}

/// What [`TargetRegisters::take_listen_event`] did and returned: one
/// snapshot, the observed flags cleared, and the address register consumed
/// for every event that has an address.
pub open spec fn listen_event_ran(before: Seq<Access>, after: Seq<Access>, r: ListenEvent) -> bool {
    let ssr = entry(before, after, 0)->ReadSsr_0;
    let address = entry(before, after, 2)->ReadSasr_0;
    let cleared = before.push(Access::ReadSsr(ssr)).push(Access::WriteSsr(ssr.observed_events()));
    if fault_of(ssr) is Some {
        &&& after == cleared
        &&& r == ListenEvent::Fault(fault_of(ssr)->Some_0)
    } else if ssr.avf || ssr.gcf || ssr.sarf {
        &&& after == cleared.push(Access::ReadSasr(address))
        &&& r == (if ssr.gcf {
            ListenEvent::GeneralCall
        } else if ssr.sarf {
            ListenEvent::SmbusAlert
        } else {
            ListenEvent::AddressValid(address.raddr)
        })
    } else if ssr.taf {
        &&& after == cleared
        &&& r == ListenEvent::TransmitAck
    } else if ssr.rsf {
        &&& after == cleared.push(Access::ReadSasr(address))
        &&& r == ListenEvent::RepeatedStart(address.raddr)
    } else if ssr.sdf {
        &&& after == cleared.push(Access::ReadSasr(address))
        &&& r == ListenEvent::Stop(address.raddr)
    } else {
        &&& after == cleared
        &&& r == ListenEvent::Nothing
    }
}

/// How a receive DMA chunk ended, by one snapshot: faults, then data that the
/// chunk has no room for, then termination.
pub open spec fn rx_chunk_end_of(ssr: Ssr, chunk_full: bool) -> RxChunkEnd {
    if fault_of(ssr) is Some {
        RxChunkEnd::Fault(fault_of(ssr)->Some_0)
    } else if ssr.rdf && chunk_full {
        RxChunkEnd::ResiduePending
    } else if ssr.sdf {
        RxChunkEnd::Stopped
    } else if ssr.rsf {
        RxChunkEnd::Restarted
    } else {
        RxChunkEnd::Continue
    }
}

/// How a transmit DMA chunk ended, by one snapshot.
pub open spec fn chunk_end_of(ssr: Ssr) -> ChunkEnd {
    if fault_of(ssr) is Some {
        ChunkEnd::Fault(fault_of(ssr)->Some_0)
    } else if ssr.sdf {
        ChunkEnd::Stopped
    } else if ssr.rsf {
        ChunkEnd::Restarted
    } else {
        ChunkEnd::Continue
    }
}

/// The FIFO reset of [`TargetRegisters::reset_fifos`].
pub open spec fn target_fifos_reset(before: Seq<Access>, after: Seq<Access>) -> bool {
    let word = entry(before, after, 0)->ReadScr_0;
    after == before.push(Access::ReadScr(word)).push(Access::WriteScr(Scr { rtf: true, rrf: true, ..word }))
}

/// The addresses that a plan matches.
pub open spec fn match_word(address: ValidatedAddress) -> Samr {
    match address {
        ValidatedAddress::Single7(a) => Samr { addr0: a, addr1: 0 },
        ValidatedAddress::Single10(a) => Samr { addr0: a, addr1: 0 },
        ValidatedAddress::Dual7(a, b) => Samr { addr0: a, addr1: b },
        ValidatedAddress::Dual10(a, b) => Samr { addr0: a, addr1: b },
        ValidatedAddress::Range7 { start, last } => Samr { addr0: start, addr1: last },
        ValidatedAddress::Range10 { start, last } => Samr { addr0: start, addr1: last },
    }
}

/// How a plan matches them.
pub open spec fn match_mode(address: ValidatedAddress) -> Addrcfg {
    match address {
        ValidatedAddress::Single7(_) => Addrcfg::AddressMatch07Bit,
        ValidatedAddress::Single10(_) => Addrcfg::AddressMatch010Bit,
        ValidatedAddress::Dual7(_, _) => Addrcfg::AddressMatch07BitOrAddressMatch17Bit,
        ValidatedAddress::Dual10(_, _) => Addrcfg::AddressMatch010BitOrAddressMatch110Bit,
        ValidatedAddress::Range7 { start, last } => Addrcfg::FromAddressMatch07BitToAddressMatch17Bit,
        ValidatedAddress::Range10 { start, last } => Addrcfg::FromAddressMatch010BitToAddressMatch110Bit,
    }
}

/// One complete target setup.
#[derive(Clone, Copy)]
pub struct TargetPlan {
    pub address: ValidatedAddress,
    pub general_call: bool,
    pub smbus_alert: bool,
    pub datavd: u8,
}

/// The control word was read once and written back changed by `f`.
pub open spec fn scr_modified(before: Seq<Access>, after: Seq<Access>, f: spec_fn(Scr) -> Scr) -> bool {
    let word = entry(before, after, 0)->ReadScr_0;
    after == before.push(Access::ReadScr(word)).push(Access::WriteScr(f(word)))
}

/// The target is disabled, its FIFOs and its logic reset, and its filters
/// switched off.
pub open spec fn quieted(before: Seq<Access>, after: Seq<Access>) -> bool {
    let disabled = after.take(before.len() as int + 2);
    let emptied = after.take(before.len() as int + 4);
    let reset = after.take(before.len() as int + 6);
    let running = after.take(before.len() as int + 8);
    &&& scr_modified(before, disabled, |w: Scr| Scr { sen: false, ..w })
    &&& target_fifos_reset(disabled, emptied)
    &&& scr_modified(emptied, reset, |w: Scr| Scr { rst: true, ..w })
    &&& scr_modified(reset, running, |w: Scr| Scr { rst: false, ..w })
    &&& scr_modified(running, after, |w: Scr| Scr { filtdz: true, filten: false, ..w })
}

/// Clock stretching, the optional addresses, the data-valid delay and the
/// address match are programmed.
pub open spec fn planned(before: Seq<Access>, after: Seq<Access>, plan: TargetPlan) -> bool {
    let a = entry(before, after, 0)->ReadScfgr1_0;
    let b = entry(before, after, 2)->ReadScfgr2_0;
    let c = entry(before, after, 5)->ReadScfgr1_0;
    let stalls = Scfgr1 {
        rxstall: true,
        txdstall: true,
        adrstall: true,
        gcen: plan.general_call,
        saen: plan.smbus_alert,
        ..a
    };
    after == before.push(Access::ReadScfgr1(a)).push(Access::WriteScfgr1(stalls)).push(Access::ReadScfgr2(b)).push(
        Access::WriteScfgr2(Scfgr2 { datavd: plan.datavd, ..b }),
    ).push(Access::WriteSamr(match_word(plan.address))).push(Access::ReadScfgr1(c)).push(
        Access::WriteScfgr1(Scfgr1 { addrcfg: match_mode(plan.address), ..c }),
    )
}

/// The target is enabled and stale events are cleared.
pub open spec fn enabled(before: Seq<Access>, after: Seq<Access>) -> bool {
    let a = entry(before, after, 0)->ReadScr_0;
    after == before.push(Access::ReadScr(a)).push(Access::WriteScr(Scr { sen: true, ..a })).push(
        Access::WriteSsr(Ssr::all_events()),
    )
}

/// The complete, ordered target setup sequence.
pub open spec fn configured(before: Seq<Access>, after: Seq<Access>, plan: TargetPlan) -> bool {
    let quiet = after.take(before.len() as int + 10);
    let ready = after.take(before.len() as int + 17);
    &&& quieted(before, quiet)
    &&& planned(quiet, ready, plan)
    &&& enabled(ready, after)
}

impl<H: TargetPort> CriticalSequence<ResetFifos> for TargetRegisters<H> {
    open spec fn sequence(before: Self, args: ResetFifos, after: Self) -> bool {
        &&& target_fifos_reset(before.log(), after.log())
        &&& after.same_block(before)
    }

    fn run(&mut self, args: ResetFifos) {
        let set = |w: Scr| -> (r: Scr)
            ensures
                r == (Scr { rtf: true, rrf: true, ..w }),
        {
            Scr {
                rtf: true,
                rrf: true,
                sen: w.sen,
                rst: w.rst,
                filten: w.filten,
                filtdz: w.filtdz,
                rest: w.rest,
            }
        };
        self.modify_scr(set);
    }
}

proof fn lemma_data_look(before: Seq<Access>, round: Seq<Access>, log: Seq<Access>, count: int)
    requires
        0 <= count,
        data_looks(before, round, count, false),
        log.len() == round.len() + 2,
        extends(round, log),
        log[round.len() as int] is ReadSsr,
        (log[round.len() as int]->ReadSsr_0).rdf,
        log[round.len() as int + 1] is ReadSrdr,
    ensures
        data_looks(before, log, count + 1, false),
{
    assert forall|i: int| 0 <= i < count + 1 implies {
        &&& #[trigger] entry(before, log, 2 * i) is ReadSsr
        &&& (entry(before, log, 2 * i)->ReadSsr_0).rdf
        &&& entry(before, log, 2 * i + 1) is ReadSrdr
    } by {
        if i < count {
            assert(entry(before, round, 2 * i) == entry(before, log, 2 * i));
            assert(entry(before, round, 2 * i + 1) == entry(before, log, 2 * i + 1));
        }
    }
}

proof fn lemma_last_look(before: Seq<Access>, round: Seq<Access>, log: Seq<Access>, count: int)
    requires
        0 <= count,
        data_looks(before, round, count, false),
        log.len() == round.len() + 1,
        extends(round, log),
        log.last() is ReadSsr,
        !(log.last()->ReadSsr_0).rdf,
    ensures
        data_looks(before, log, count, true),
{
    assert forall|i: int| 0 <= i < count implies {
        &&& #[trigger] entry(before, log, 2 * i) is ReadSsr
        &&& (entry(before, log, 2 * i)->ReadSsr_0).rdf
        &&& entry(before, log, 2 * i + 1) is ReadSrdr
    } by {
        assert(entry(before, round, 2 * i) == entry(before, log, 2 * i));
        assert(entry(before, round, 2 * i + 1) == entry(before, log, 2 * i + 1));
    }
}

impl<H: TargetPort> CriticalSequence<TargetPlan> for TargetRegisters<H> {
    open spec fn sequence(before: Self, args: TargetPlan, after: Self) -> bool {
        &&& configured(before.log(), after.log(), args)
        &&& after.same_block(before)
    }

    fn run(&mut self, args: TargetPlan) {
        let ghost entered = self.log();
        self.quiet();
        let ghost quiet = self.log();
        self.program(args);
        let ghost ready = self.log();
        self.enable();
        proof {
            assert(self.log().take(entered.len() as int + 10) =~= quiet);
            assert(self.log().take(entered.len() as int + 17) =~= ready);
        }
    }
}

/// Whether the DMA engine can move a buffer of this length: it is not empty
/// and not longer than one transfer.
pub fn dma_buffer_fits(length: usize, max_transfer: usize) -> (r: bool)
    ensures
        r == (0 < length <= max_transfer),
{
    length != 0 && length <= max_transfer
}

/// What arming a DMA channel did and returned. A rejected arm touches
/// nothing; the peripheral request and the channel are enabled last, in that
/// order, and only where the engine accepted the transfer.
pub open spec fn dma_armed(
    before: Seq<Access>,
    after: Seq<Access>,
    direction: Direction,
    port: usize,
    offset: usize,
    length: usize,
    max_transfer: usize,
    r: Result<(), InvalidParameters>,
) -> bool {
    let prepared = before.push(Access::DmaDisableRequest(direction)).push(Access::DmaClearDone(direction)).push(
        Access::DmaClearInterrupt(direction),
    ).push(Access::DmaSetRequestSource(direction)).push(
        Access::DmaSetup(direction, port, offset, length, r is Ok),
    );
    if !(0 < length <= max_transfer) {
        &&& r is Err
        &&& after == before
    } else if r is Err {
        after == prepared
    } else if direction == Direction::Rx {
        let word = entry(before, after, 5)->ReadSder_0;
        after == prepared.push(Access::ReadSder(word)).push(Access::WriteSder(Sder { rdde: true, ..word })).push(
            Access::DmaEnableRequest(direction),
        )
    } else {
        let word = entry(before, after, 6)->ReadSder_0;
        after == prepared.push(Access::DmaBarrier).push(Access::ReadSder(word)).push(
            Access::WriteSder(Sder { tdde: true, ..word }),
        ).push(Access::DmaEnableRequest(direction))
    }
}

/// What shutting a DMA channel down did and returned: the peripheral request
/// is disabled and the interrupt sources are masked before the channel is
/// waited for, and only then is its count taken.
pub open spec fn dma_finished(
    before: Seq<Access>,
    after: Seq<Access>,
    direction: Direction,
    total: usize,
    moved: usize,
) -> bool {
    let word = entry(before, after, 1)->ReadSder_0;
    let off = if direction == Direction::Rx {
        Sder { rdde: false, ..word }
    } else {
        Sder { tdde: false, ..word }
    };
    let stopped = before.push(Access::DmaBarrier).push(Access::ReadSder(word)).push(Access::WriteSder(off)).push(
        Access::WriteSier(Sier::none()),
    );
    let complete = entry(before, after, 4)->DmaQuiesce_1;
    let quiesced = if direction == Direction::Rx {
        stopped.push(Access::DmaQuiesce(direction, complete)).push(Access::DmaBarrier)
    } else {
        stopped.push(Access::DmaQuiesce(direction, complete))
    };
    if complete {
        &&& after == quiesced
        &&& moved == total
    } else {
        after == quiesced.push(Access::DmaTransferredBytes(direction, moved))
    }
}

/// `log` goes on behind `before` with `count` looks that found data, each with
/// the pop of its byte, and then, where `ended`, with one look that found
/// none. Nothing is written.
pub open spec fn data_looks(before: Seq<Access>, log: Seq<Access>, count: int, ended: bool) -> bool {
    &&& extends(before, log)
    &&& log.len() == before.len() + 2 * count + if ended {
        1int
    } else {
        0int
    }
    &&& forall|i: int|
        0 <= i < count ==> {
            &&& #[trigger] entry(before, log, 2 * i) is ReadSsr
            &&& (entry(before, log, 2 * i)->ReadSsr_0).rdf
            &&& entry(before, log, 2 * i + 1) is ReadSrdr
        }
    &&& (ended ==> log.last() is ReadSsr && !(log.last()->ReadSsr_0).rdf)
}

/// What [`TargetRegisters::drain_rx`] did and returned: the bytes behind
/// `from` up to `r` are the bytes that came in, nothing else of the buffer
/// changed, and the drain stopped at the end of the buffer or at a look that
/// found no data. An event that ended it stays latched.
pub open spec fn rx_drained(
    before: Seq<Access>,
    after: Seq<Access>,
    given: Seq<u8>,
    data: Seq<u8>,
    from: usize,
    r: usize,
) -> bool {
    &&& extends(before, after)
    &&& sent(after) == sent(before)
    &&& data.len() == given.len()
    &&& if from >= given.len() {
        &&& r == from
        &&& after == before
        &&& data == given
    } else {
        &&& from <= r <= given.len()
        &&& taken(after) == taken(before) + data.subrange(from as int, r as int)
        &&& data.take(from as int) == given.take(from as int)
        &&& data.skip(r as int) == given.skip(r as int)
        &&& data_looks(before, after, r - from, r < given.len())
    }
}

/// What abandoning a response did: interrupts and DMA requests off, the
/// target disabled, its FIFOs emptied, and the target enabled again with
/// stale events cleared.
pub open spec fn response_aborted(before: Seq<Access>, after: Seq<Access>) -> bool {
    let word = entry(before, after, 1)->ReadSder_0;
    let masked = after.take(before.len() as int + 3);
    let disabled = after.take(before.len() as int + 5);
    let emptied = after.take(before.len() as int + 7);
    &&& masked == before.push(Access::WriteSier(Sier::none())).push(Access::ReadSder(word)).push(
        Access::WriteSder(Sder { tdde: false, rdde: false, ..word }),
    )
    &&& scr_modified(masked, disabled, |w: Scr| Scr { sen: false, ..w })
    &&& target_fifos_reset(disabled, emptied)
    &&& enabled(emptied, after)
}

/// Safe target-specific operations over the LPI2C register block.
pub struct TargetRegisters<H> {
    regs: LpI2cRegisters<H>,
    base: usize,
    pac: MappedAddresses,
}

impl<H> TargetRegisters<H> {
    /// The history of the register block.
    pub closed spec fn log(&self) -> Seq<Access> {
        self.regs.log()
    }

    /// The address of the register block, which identifies it.
    pub closed spec fn block(&self) -> usize {
        self.base
    }

    /// Where the linked peripheral definitions place the registers.
    pub closed spec fn layout(&self) -> MappedAddresses {
        self.pac
    }

    /// The same register block with the same layout.
    pub open spec fn same_block(&self, other: Self) -> bool {
        self.block() == other.block() && self.layout() == other.layout()
    }

    /// Takes over the register block at `base`.
    pub fn from_pac(hw: H, base: usize, pac: MappedAddresses) -> (r: Self)
        ensures
            r.log() == Seq::<Access>::empty(),
            r.block() == base,
            r.layout() == pac,
    {
        TargetRegisters { regs: LpI2cRegisters::new(hw), base, pac }
    }

    /// Cross-checks the register map against the linked peripheral
    /// definitions before a target is configured.
    pub fn check_layout(&self) -> (r: bool)
        requires
            self.block() <= usize::MAX - 0x174,
        ensures
            r == layout_agrees(self.block(), self.layout()),
    {
        check_layout(self.base, &self.pac)
    }

    pub fn register_address(&self) -> (r: usize)
        ensures
            r == self.block(),
    {
        self.base
    }

    /// Stable identity used to bind a target's DMA channels to this exact
    /// register block.
    pub fn identity(&self) -> (r: usize)
        ensures
            r == self.block(),
    {
        self.register_address()
    }
}

impl<H: TargetPort> TargetRegisters<H> {
    /// Performs the complete, ordered target setup sequence in a critical
    /// section. The layout must agree with the peripheral definitions.
    ///
    /// SCL is stretched during each address ACK until firmware acknowledges
    /// it: address events do not queue. The data-valid delay keeps the target
    /// from releasing SDA while SCL is high, which a controller would read as
    /// a STOP.
    pub fn configure(
        &mut self,
        address: ValidatedAddress,
        general_call: bool,
        smbus_alert: bool,
        datavd: u8,
    ) -> (r: Result<(), SetupError>)
        requires
            layout_agrees(old(self).block(), old(self).layout()),
            address.planned(),
        ensures
            r is Ok,
            configured(
                old(self).log(),
                final(self).log(),
                (TargetPlan { address, general_call, smbus_alert, datavd }),
            ),
            final(self).same_block(*old(self)),
    {
        in_critical_section(self, TargetPlan { address, general_call, smbus_alert, datavd });
        Ok(())
    }

    fn quiet(&mut self)
        ensures
            quieted(old(self).log(), final(self).log()),
            final(self).same_block(*old(self)),
    {
        let ghost entered = self.log();
        self.disable();
        let ghost disabled = self.log();
        self.reset_fifos();
        let ghost emptied = self.log();
        self.assert_reset();
        let ghost reset = self.log();
        // No minimum delay is required before clearing the software reset.
        self.release_reset();
        let ghost running = self.log();
        self.unfilter();
        proof {
            assert(self.log().take(entered.len() as int + 2) =~= disabled);
            assert(self.log().take(entered.len() as int + 4) =~= emptied);
            assert(self.log().take(entered.len() as int + 6) =~= reset);
            assert(self.log().take(entered.len() as int + 8) =~= running);
        }
    }

    fn disable(&mut self)
        ensures
            scr_modified(old(self).log(), final(self).log(), |w: Scr| Scr { sen: false, ..w }),
            final(self).same_block(*old(self)),
    {
        let w = self.regs.read_scr();
        self.regs.write_scr(Scr {
            sen: false,
            rst: w.rst,
            filten: w.filten,
            filtdz: w.filtdz,
            rtf: w.rtf,
            rrf: w.rrf,
            rest: w.rest,
        });
    }

    fn assert_reset(&mut self)
        ensures
            scr_modified(old(self).log(), final(self).log(), |w: Scr| Scr { rst: true, ..w }),
            final(self).same_block(*old(self)),
    {
        let w = self.regs.read_scr();
        self.regs.write_scr(Scr {
            sen: w.sen,
            rst: true,
            filten: w.filten,
            filtdz: w.filtdz,
            rtf: w.rtf,
            rrf: w.rrf,
            rest: w.rest,
        });
    }

    fn release_reset(&mut self)
        ensures
            scr_modified(old(self).log(), final(self).log(), |w: Scr| Scr { rst: false, ..w }),
            final(self).same_block(*old(self)),
    {
        let w = self.regs.read_scr();
        self.regs.write_scr(Scr {
            sen: w.sen,
            rst: false,
            filten: w.filten,
            filtdz: w.filtdz,
            rtf: w.rtf,
            rrf: w.rrf,
            rest: w.rest,
        });
    }

    fn unfilter(&mut self)
        ensures
            scr_modified(old(self).log(), final(self).log(), |w: Scr| Scr { filtdz: true, filten: false, ..w }),
            final(self).same_block(*old(self)),
    {
        let w = self.regs.read_scr();
        self.regs.write_scr(Scr {
            sen: w.sen,
            rst: w.rst,
            filten: false,
            filtdz: true,
            rtf: w.rtf,
            rrf: w.rrf,
            rest: w.rest,
        });
    }

    fn program(&mut self, plan: TargetPlan)
        ensures
            planned(old(self).log(), final(self).log(), plan),
            final(self).same_block(*old(self)),
    {
        let w = self.regs.read_scfgr1();
        self.regs.write_scfgr1(
            Scfgr1 {
                rxstall: true,
                txdstall: true,
                adrstall: true,
                gcen: plan.general_call,
                saen: plan.smbus_alert,
                addrcfg: w.addrcfg,
                rest: w.rest,
            },
        );
        let w = self.regs.read_scfgr2();
        self.regs.write_scfgr2(Scfgr2 { datavd: plan.datavd, rest: w.rest });
        let (samr, mode) = match plan.address {
            ValidatedAddress::Single7(addr) => (Samr { addr0: addr, addr1: 0 }, Addrcfg::AddressMatch07Bit),
            ValidatedAddress::Single10(addr) => (Samr { addr0: addr, addr1: 0 }, Addrcfg::AddressMatch010Bit),
            ValidatedAddress::Dual7(addr0, addr1) => {
                (Samr { addr0, addr1 }, Addrcfg::AddressMatch07BitOrAddressMatch17Bit)
            },
            ValidatedAddress::Dual10(addr0, addr1) => {
                (Samr { addr0, addr1 }, Addrcfg::AddressMatch010BitOrAddressMatch110Bit)
            },
            ValidatedAddress::Range7 { start, last } => {
                (Samr { addr0: start, addr1: last }, Addrcfg::FromAddressMatch07BitToAddressMatch17Bit)
            },
            ValidatedAddress::Range10 { start, last } => {
                (Samr { addr0: start, addr1: last }, Addrcfg::FromAddressMatch010BitToAddressMatch110Bit)
            },
        };
        self.regs.write_samr(samr);
        let w = self.regs.read_scfgr1();
        self.regs.write_scfgr1(
            Scfgr1 {
                addrcfg: mode,
                rxstall: w.rxstall,
                txdstall: w.txdstall,
                adrstall: w.adrstall,
                gcen: w.gcen,
                saen: w.saen,
                rest: w.rest,
            },
        );
    }

    fn enable(&mut self)
        ensures
            enabled(old(self).log(), final(self).log()),
            final(self).same_block(*old(self)),
    {
        let w = self.regs.read_scr();
        self.regs.write_scr(
            Scr { sen: true, rst: w.rst, filten: w.filten, filtdz: w.filtdz, rtf: w.rtf, rrf: w.rrf, rest: w.rest },
        );
        self.clear_stale_events();
    }

    /// Masks target requests, releases a possible clock stretch, discards the
    /// unfinished transfer's residue, and re-arms the configured target.
    pub fn abort_active_response(&mut self)
        ensures
            response_aborted(old(self).log(), final(self).log()),
            final(self).same_block(*old(self)),
    {
        let ghost entered = self.log();
        self.write_sier(Sier::disabled());
        let w = self.regs.read_sder();
        self.regs.write_sder(Sder { tdde: false, rdde: false, rest: w.rest });
        let ghost masked = self.log();
        self.disable();
        let ghost disabled = self.log();
        self.reset_fifos();
        let ghost emptied = self.log();
        self.enable();
        proof {
            assert(self.log().take(entered.len() as int + 3) =~= masked);
            assert(self.log().take(entered.len() as int + 5) =~= disabled);
            assert(self.log().take(entered.len() as int + 7) =~= emptied);
        }
    }

    pub fn ssr(&mut self) -> (v: Ssr)
        ensures
            final(self).log() == old(self).log().push(Access::ReadSsr(v)),
            final(self).same_block(*old(self)),
    {
        self.regs.read_ssr()
    }

    pub fn write_sier(&mut self, v: Sier)
        ensures
            final(self).log() == old(self).log().push(Access::WriteSier(v)),
            final(self).same_block(*old(self)),
    {
        self.regs.write_sier(v);
    }

    /// Reads the DMA enables and writes back what `f` makes of them.
    pub fn modify_sder<F: FnOnce(Sder) -> Sder>(&mut self, f: F)
        requires
            forall|w: Sder| f.requires((w,)),
        ensures
            ({
                let read = entry(old(self).log(), final(self).log(), 0)->ReadSder_0;
                let written = entry(old(self).log(), final(self).log(), 1)->WriteSder_0;
                &&& final(self).log() == old(self).log().push(Access::ReadSder(read)).push(Access::WriteSder(written))
                &&& f.ensures((read,), written)
            }),
            final(self).same_block(*old(self)),
    {
        let word = self.regs.read_sder();
        let v = f(word);
        self.regs.write_sder(v);
    }

    /// Reads the control word and writes back what `f` makes of it.
    pub fn modify_scr<F: FnOnce(Scr) -> Scr>(&mut self, f: F)
        requires
            forall|w: Scr| f.requires((w,)),
        ensures
            ({
                let read = entry(old(self).log(), final(self).log(), 0)->ReadScr_0;
                let written = entry(old(self).log(), final(self).log(), 1)->WriteScr_0;
                &&& final(self).log() == old(self).log().push(Access::ReadScr(read)).push(Access::WriteScr(written))
                &&& f.ensures((read,), written)
            }),
            final(self).same_block(*old(self)),
    {
        let word = self.regs.read_scr();
        let v = f(word);
        self.regs.write_scr(v);
    }

    /// Disables the target interrupt mask if any source is enabled.
    ///
    /// Returns whether the driver should wake its waiter.
    pub fn disable_interrupts_if_enabled(&mut self) -> (r: bool)
        ensures
            ({
                let mask = entry(old(self).log(), final(self).log(), 0)->ReadSier_0;
                &&& r == (mask != Sier::none())
                &&& final(self).log() == if r {
                    old(self).log().push(Access::ReadSier(mask)).push(Access::WriteSier(Sier::none()))
                } else {
                    old(self).log().push(Access::ReadSier(mask))
                }
            }),
            final(self).same_block(*old(self)),
    {
        let mask = self.regs.read_sier();
        if mask == Sier::disabled() {
            return false;
        }
        self.regs.write_sier(Sier::disabled());
        true
    }

    /// Interrupts relevant while receiving data.
    pub fn enable_receive_interrupts(&mut self)
        ensures
            final(self).log() == old(self).log().push(Access::WriteSier(Sier::receive())),
            final(self).same_block(*old(self)),
    {
        let mut v = Sier::disabled();
        v.feie = true;
        v.beie = true;
        v.sdie = true;
        v.rsie = true;
        v.rdie = true;
        self.write_sier(v);
    }

    /// Interrupts relevant while transmitting data.
    pub fn enable_transmit_interrupts(&mut self)
        ensures
            final(self).log() == old(self).log().push(Access::WriteSier(Sier::transmit())),
            final(self).same_block(*old(self)),
    {
        let mut v = Sier::disabled();
        v.feie = true;
        v.beie = true;
        v.sdie = true;
        v.rsie = true;
        v.tdie = true;
        self.write_sier(v);
    }

    /// Arms the receive interrupt set and evaluates its wake condition, as
    /// one operation: an armed source outside the wake set would re-arm and
    /// interrupt forever.
    pub fn rx_wake(&mut self) -> (r: bool)
        ensures
            ({
                let ssr = entry(old(self).log(), final(self).log(), 1)->ReadSsr_0;
                &&& final(self).log() == old(self).log().push(Access::WriteSier(Sier::receive())).push(
                    Access::ReadSsr(ssr),
                )
                &&& r == rx_wakes(ssr)
            }),
            final(self).same_block(*old(self)),
    {
        self.enable_receive_interrupts();
        self.rx_ready()
    }

    /// Arms the transmit interrupt set and evaluates its wake condition, as
    /// one operation.
    pub fn tx_wake(&mut self) -> (r: bool)
        ensures
            ({
                let ssr = entry(old(self).log(), final(self).log(), 1)->ReadSsr_0;
                &&& final(self).log() == old(self).log().push(Access::WriteSier(Sier::transmit())).push(
                    Access::ReadSsr(ssr),
                )
                &&& r == tx_wakes(ssr)
            }),
            final(self).same_block(*old(self)),
    {
        self.enable_transmit_interrupts();
        self.tx_ready()
    }

    /// Enables or disables the receive DMA request path.
    pub fn set_rx_dma(&mut self, enable: bool)
        ensures
            ({
                let word = entry(old(self).log(), final(self).log(), 0)->ReadSder_0;
                final(self).log() == old(self).log().push(Access::ReadSder(word)).push(
                    Access::WriteSder(Sder { rdde: enable, ..word }),
                )
            }),
            final(self).same_block(*old(self)),
    {
        let set = |w: Sder| -> (r: Sder)
            ensures
                r == (Sder { rdde: enable, ..w }),
        {
            Sder { rdde: enable, tdde: w.tdde, rest: w.rest }
        };
        self.modify_sder(set);
    }

    /// Enables or disables the transmit DMA request path.
    pub fn set_tx_dma(&mut self, enable: bool)
        ensures
            ({
                let word = entry(old(self).log(), final(self).log(), 0)->ReadSder_0;
                final(self).log() == old(self).log().push(Access::ReadSder(word)).push(
                    Access::WriteSder(Sder { tdde: enable, ..word }),
                )
            }),
            final(self).same_block(*old(self)),
    {
        let set = |w: Sder| -> (r: Sder)
            ensures
                r == (Sder { tdde: enable, ..w }),
        {
            Sder { tdde: enable, rdde: w.rdde, rest: w.rest }
        };
        self.modify_sder(set);
    }

    /// Masks the DMA transfer interrupt sources before the matching channel
    /// is quiesced, so that a cancelled response cannot wake a future waiter.
    pub fn disarm_dma_transfer_interrupts(&mut self)
        ensures
            final(self).log() == old(self).log().push(Access::WriteSier(Sier::none())),
            final(self).same_block(*old(self)),
    {
        self.write_sier(Sier::disabled());
    }

    /// Arms the listening interrupt set and evaluates its matching readiness
    /// predicate as one operation.
    pub fn listen_wake(&mut self, general_call: bool, smbus_alert: bool) -> (r: bool)
        ensures
            ({
                let ssr = entry(old(self).log(), final(self).log(), 1)->ReadSsr_0;
                &&& final(self).log() == old(self).log().push(
                    Access::WriteSier(Sier::listen(general_call, smbus_alert)),
                ).push(Access::ReadSsr(ssr))
                &&& r == listen_wakes(ssr)
            }),
            final(self).same_block(*old(self)),
    {
        self.enable_listen_interrupts(general_call, smbus_alert);
        self.listen_ready()
    }

    /// Interrupts for listening for a new transaction. The armed set is the
    /// set that [`Self::listen_ready`] tests, or a source that fires without
    /// ending the wait would interrupt forever. Deliberately no repeated
    /// START: the address phase that follows it is what the classification
    /// keys on.
    pub fn enable_listen_interrupts(&mut self, general_call: bool, smbus_alert: bool)
        ensures
            final(self).log() == old(self).log().push(Access::WriteSier(Sier::listen(general_call, smbus_alert))),
            final(self).same_block(*old(self)),
    {
        let mut v = Sier::disabled();
        v.sarie = smbus_alert;
        v.gcie = general_call;
        v.feie = true;
        v.beie = true;
        v.sdie = true;
        v.avie = true;
        self.write_sier(v);
    }

    /// Unconditionally clears the clearable event flags. Only for the entry to
    /// a listen, where everything still latched is stale.
    pub fn clear_stale_events(&mut self)
        ensures
            final(self).log() == old(self).log().push(Access::WriteSsr(Ssr::all_events())),
            final(self).same_block(*old(self)),
    {
        self.regs.write_ssr(
            Ssr {
                tdf: false,
                rdf: false,
                avf: false,
                taf: false,
                rsf: true,
                sdf: true,
                bef: true,
                fef: true,
                gcf: false,
                sarf: false,
                rest: 0,
            },
        );
    }

    /// Takes one classified listen event: reads one status snapshot, clears
    /// only the flags that snapshot observed, and, for address-class events,
    /// consumes the address register, which releases an address stretch. The
    /// priority: faults, then the address family, then transmit ACK, repeated
    /// START, STOP.
    pub fn take_listen_event(&mut self) -> (r: ListenEvent)
        ensures
            listen_event_ran(old(self).log(), final(self).log(), r),
            final(self).same_block(*old(self)),
    {
        let ssr = self.ssr();
        self.regs.write_ssr(
            Ssr {
                tdf: false,
                rdf: false,
                avf: false,
                taf: false,
                rsf: ssr.rsf,
                sdf: ssr.sdf,
                bef: ssr.bef,
                fef: ssr.fef,
                gcf: false,
                sarf: false,
                rest: 0,
            },
        );
        if ssr.bef {
            ListenEvent::Fault(TargetFault::Bit)
        } else if ssr.fef {
            ListenEvent::Fault(TargetFault::Fifo)
        } else if ssr.avf || ssr.gcf || ssr.sarf {
            // Consume the address-valid state whichever tag triggered.
            let addr: u16 = self.regs.read_sasr().raddr;
            if ssr.gcf {
                ListenEvent::GeneralCall
            } else if ssr.sarf {
                ListenEvent::SmbusAlert
            } else {
                ListenEvent::AddressValid(addr)
            }
        } else if ssr.taf {
            ListenEvent::TransmitAck
        } else if ssr.rsf {
            ListenEvent::RepeatedStart(self.regs.read_sasr().raddr)
        } else if ssr.sdf {
            ListenEvent::Stop(self.regs.read_sasr().raddr)
        } else {
            ListenEvent::Nothing
        }
    }

    /// Drops the contents of both FIFOs.
    pub fn reset_fifos(&mut self)
        ensures
            target_fifos_reset(old(self).log(), final(self).log()),
            final(self).same_block(*old(self)),
    {
        in_critical_section(self, ResetFifos);
    }

    /// One step of receive progress, in the only correct order: pending data
    /// drains first, then faults, then termination flags. `None` means keep
    /// waiting. Only the data is consumed here.
    pub fn rx_event(&mut self) -> (r: Option<TargetRxEvent>)
        ensures
            rx_event_ran(old(self).log(), final(self).log(), r),
            final(self).same_block(*old(self)),
    {
        let ssr = self.ssr();
        if ssr.rdf {
            return Some(TargetRxEvent::Byte(self.regs.read_srdr().data));
        }
        if ssr.bef {
            return Some(TargetRxEvent::Fault(TargetFault::Bit));
        }
        if ssr.fef {
            return Some(TargetRxEvent::Fault(TargetFault::Fifo));
        }
        if ssr.sdf {
            return Some(TargetRxEvent::Stopped);
        }
        if ssr.rsf {
            return Some(TargetRxEvent::Restarted);
        }
        None
    }

    /// Non-consuming readiness check for [`Self::rx_event`].
    pub fn rx_ready(&mut self) -> (r: bool)
        ensures
            ({
                let ssr = entry(old(self).log(), final(self).log(), 0)->ReadSsr_0;
                &&& final(self).log() == old(self).log().push(Access::ReadSsr(ssr))
                &&& r == rx_wakes(ssr)
            }),
            final(self).same_block(*old(self)),
    {
        let ssr = self.ssr();
        ssr.rdf || ssr.sdf || ssr.rsf || ssr.bef || ssr.fef
    }

    /// One step of transmit progress: faults first, then termination, then
    /// room.
    pub fn tx_step(&mut self) -> (r: Option<TargetTxStep>)
        ensures
            ({
                let ssr = entry(old(self).log(), final(self).log(), 0)->ReadSsr_0;
                &&& final(self).log() == old(self).log().push(Access::ReadSsr(ssr))
                &&& r == tx_step_of(ssr)
            }),
            final(self).same_block(*old(self)),
    {
        let ssr = self.ssr();
        if ssr.bef {
            return Some(TargetTxStep::Fault(TargetFault::Bit));
        }
        if ssr.fef {
            return Some(TargetTxStep::Fault(TargetFault::Fifo));
        }
        if ssr.sdf || ssr.rsf {
            return Some(TargetTxStep::Ended);
        }
        if ssr.tdf {
            return Some(TargetTxStep::Room);
        }
        None
    }

    /// Non-consuming readiness check for [`Self::tx_step`].
    pub fn tx_ready(&mut self) -> (r: bool)
        ensures
            ({
                let ssr = entry(old(self).log(), final(self).log(), 0)->ReadSsr_0;
                &&& final(self).log() == old(self).log().push(Access::ReadSsr(ssr))
                &&& r == tx_wakes(ssr)
            }),
            final(self).same_block(*old(self)),
    {
        let ssr = self.ssr();
        ssr.tdf || ssr.sdf || ssr.rsf || ssr.bef || ssr.fef
    }

    /// Readiness for a listen: any event that ends the wait for a new
    /// transaction.
    pub fn listen_ready(&mut self) -> (r: bool)
        ensures
            ({
                let ssr = entry(old(self).log(), final(self).log(), 0)->ReadSsr_0;
                &&& final(self).log() == old(self).log().push(Access::ReadSsr(ssr))
                &&& r == listen_wakes(ssr)
            }),
            final(self).same_block(*old(self)),
    {
        let ssr = self.ssr();
        ssr.avf || ssr.sarf || ssr.gcf || ssr.sdf || ssr.bef || ssr.fef
    }

    /// Pushes one byte into the target transmit register.
    pub fn push_tx(&mut self, byte: u8)
        ensures
            final(self).log() == old(self).log().push(Access::WriteStdr(Stdr { data: byte })),
            final(self).same_block(*old(self)),
    {
        self.regs.write_stdr(Stdr { data: byte });
    }

    /// Arms the DMA-transfer interrupt set (fault and termination sources
    /// only) and evaluates its wake condition, as one operation.
    pub fn dma_transfer_wake(&mut self) -> (r: bool)
        ensures
            ({
                let ssr = entry(old(self).log(), final(self).log(), 1)->ReadSsr_0;
                &&& final(self).log() == old(self).log().push(Access::WriteSier(Sier::terminations())).push(
                    Access::ReadSsr(ssr),
                )
                &&& r == dma_wakes(ssr)
            }),
            final(self).same_block(*old(self)),
    {
        self.enable_dma_transfer_interrupts();
        self.dma_transfer_event()
    }

    /// Interrupts for a DMA-driven transfer.
    pub fn enable_dma_transfer_interrupts(&mut self)
        ensures
            final(self).log() == old(self).log().push(Access::WriteSier(Sier::terminations())),
            final(self).same_block(*old(self)),
    {
        let mut v = Sier::disabled();
        v.feie = true;
        v.beie = true;
        v.sdie = true;
        v.rsie = true;
        self.write_sier(v);
    }

    /// Wake condition paired with the arm set above.
    pub fn dma_transfer_event(&mut self) -> (r: bool)
        ensures
            ({
                let ssr = entry(old(self).log(), final(self).log(), 0)->ReadSsr_0;
                &&& final(self).log() == old(self).log().push(Access::ReadSsr(ssr))
                &&& r == dma_wakes(ssr)
            }),
            final(self).same_block(*old(self)),
    {
        let ssr = self.ssr();
        ssr.fef || ssr.bef || ssr.sdf || ssr.rsf
    }

    /// Drains receive residue into `data[from..]`, returning the new count.
    ///
    /// The drain ends at the end of the buffer or at the first look that
    /// finds no data; nothing but data is consumed.
    pub fn drain_rx(&mut self, data: &mut [u8], from: usize) -> (r: usize)
        ensures
            final(self).same_block(*old(self)),
            rx_drained(old(self).log(), final(self).log(), old(data)@, final(data)@, from, r),
    {
        let mut count: usize = from;
        let ghost entered = self.log();
        let ghost given = data@;
        let ghost mut stopped = false;
        if from >= data.len() {
            return from;
        }
        proof {
            assert(data@.subrange(from as int, from as int) =~= Seq::<u8>::empty());
            assert(taken(entered) =~= taken(entered) + data@.subrange(from as int, from as int));
        }
        while count < data.len()
            invariant_except_break
                data_looks(entered, self.log(), count - from, false),
            invariant
                self.same_block(*old(self)),
                extends(entered, self.log()),
                sent(self.log()) == sent(entered),
                data@.len() == given.len(),
                from <= count <= given.len(),
                taken(self.log()) == taken(entered) + data@.subrange(from as int, count as int),
                data@.take(from as int) == given.take(from as int),
                data@.skip(count as int) == given.skip(count as int),
            ensures
                data_looks(entered, self.log(), count - from, count < given.len()),
            decreases given.len() - count,
        {
            let ghost round = self.log();
            match self.rx_event() {
                Some(TargetRxEvent::Byte(b)) => {
                    let ghost before = data@;
                    proof {
                        lemma_data_look(entered, round, self.log(), count - from);
                    }
                    data[count] = b;
                    proof {
                        assert(data@.subrange(from as int, count + 1) =~= before.subrange(
                            from as int,
                            count as int,
                        ).push(b));
                        assert(taken(self.log()) =~= taken(entered) + data@.subrange(from as int, count + 1));
                        assert(data@.take(from as int) =~= before.take(from as int));
                        assert(data@.skip(count + 1) =~= before.skip(count as int).skip(1));
                        assert(given.skip(count + 1) =~= given.skip(count as int).skip(1));
                    }
                    count = count + 1;
                },
                _ => {
                    proof {
                        lemma_last_look(entered, round, self.log(), count - from);
                    }
                    break;
                },
            }
        }
        count
    }

    /// Terminal classification of a receive DMA chunk from one status
    /// snapshot: data with no room left outranks termination, or the residue
    /// would be marooned into the next transaction. Consumes nothing.
    pub fn rx_chunk_end(&mut self, chunk_full: bool) -> (r: RxChunkEnd)
        ensures
            ({
                let ssr = entry(old(self).log(), final(self).log(), 0)->ReadSsr_0;
                &&& final(self).log() == old(self).log().push(Access::ReadSsr(ssr))
                &&& r == rx_chunk_end_of(ssr, chunk_full)
            }),
            final(self).same_block(*old(self)),
    {
        let ssr = self.ssr();
        if ssr.bef {
            RxChunkEnd::Fault(TargetFault::Bit)
        } else if ssr.fef {
            RxChunkEnd::Fault(TargetFault::Fifo)
        } else if ssr.rdf && chunk_full {
            RxChunkEnd::ResiduePending
        } else if ssr.sdf {
            RxChunkEnd::Stopped
        } else if ssr.rsf {
            RxChunkEnd::Restarted
        } else {
            RxChunkEnd::Continue
        }
    }

    /// Terminal classification of a transmit DMA chunk: bit error before FIFO
    /// error, faults before termination. Consumes nothing.
    pub fn chunk_end(&mut self) -> (r: ChunkEnd)
        ensures
            ({
                let ssr = entry(old(self).log(), final(self).log(), 0)->ReadSsr_0;
                &&& final(self).log() == old(self).log().push(Access::ReadSsr(ssr))
                &&& r == chunk_end_of(ssr)
            }),
            final(self).same_block(*old(self)),
    {
        let ssr = self.ssr();
        if ssr.bef {
            ChunkEnd::Fault(TargetFault::Bit)
        } else if ssr.fef {
            ChunkEnd::Fault(TargetFault::Fifo)
        } else if ssr.sdf {
            ChunkEnd::Stopped
        } else if ssr.rsf {
            ChunkEnd::Restarted
        } else {
            ChunkEnd::Continue
        }
    }
}

impl<H: TargetPort + DmaPort> TargetRegisters<H> {
    /// Configures and arms one controller-to-target DMA transfer from the
    /// receive FIFO port.
    pub fn arm_rx_dma(&mut self, offset: usize, length: usize, max_transfer: usize) -> (r: Result<
        (),
        InvalidParameters,
    >)
        requires
            old(self).block() <= usize::MAX - 0x170,
        ensures
            dma_armed(
                old(self).log(),
                final(self).log(),
                Direction::Rx,
                (old(self).block() + 0x170) as usize,
                offset,
                length,
                max_transfer,
                r,
            ),
            final(self).same_block(*old(self)),
    {
        if !dma_buffer_fits(length, max_transfer) {
            return Err(InvalidParameters);
        }
        self.regs.dma_disable_request(Direction::Rx);
        self.regs.dma_clear_done(Direction::Rx);
        self.regs.dma_clear_interrupt(Direction::Rx);
        self.regs.dma_set_request_source(Direction::Rx);
        if !self.regs.dma_setup(Direction::Rx, self.base + 0x170, offset, length) {
            return Err(InvalidParameters);
        }
        self.set_rx_dma(true);
        self.regs.dma_enable_request(Direction::Rx);
        Ok(())
    }

    /// Configures and arms one target-to-controller DMA transfer to the
    /// transmit register port.
    pub fn arm_tx_dma(&mut self, offset: usize, length: usize, max_transfer: usize) -> (r: Result<
        (),
        InvalidParameters,
    >)
        requires
            old(self).block() <= usize::MAX - 0x170,
        ensures
            dma_armed(
                old(self).log(),
                final(self).log(),
                Direction::Tx,
                (old(self).block() + 0x160) as usize,
                offset,
                length,
                max_transfer,
                r,
            ),
            final(self).same_block(*old(self)),
    {
        if !dma_buffer_fits(length, max_transfer) {
            return Err(InvalidParameters);
        }
        self.regs.dma_disable_request(Direction::Tx);
        self.regs.dma_clear_done(Direction::Tx);
        self.regs.dma_clear_interrupt(Direction::Tx);
        self.regs.dma_set_request_source(Direction::Tx);
        if !self.regs.dma_setup(Direction::Tx, self.base + 0x160, offset, length) {
            return Err(InvalidParameters);
        }
        self.regs.dma_barrier();
        self.set_tx_dma(true);
        self.regs.dma_enable_request(Direction::Tx);
        Ok(())
    }

    /// Arms and checks the I2C interrupt set and the channel's completion
    /// together.
    pub fn dma_wake(&mut self, direction: Direction) -> (r: bool)
        ensures
            ({
                let ssr = entry(old(self).log(), final(self).log(), 1)->ReadSsr_0;
                let checked = old(self).log().push(Access::WriteSier(Sier::terminations())).push(
                    Access::ReadSsr(ssr),
                );
                if dma_wakes(ssr) {
                    &&& final(self).log() == checked
                    &&& r
                } else {
                    final(self).log() == checked.push(Access::DmaIsDone(direction, r))
                }
            }),
            final(self).same_block(*old(self)),
    {
        if self.dma_transfer_wake() {
            return true;
        }
        self.regs.dma_is_done(direction)
    }

    /// Ends a receive DMA transfer: disables the request, waits until the
    /// channel is inactive and returns a stable count.
    pub fn finish_rx_dma(&mut self, total: usize) -> (moved: usize)
        ensures
            dma_finished(old(self).log(), final(self).log(), Direction::Rx, total, moved),
            final(self).same_block(*old(self)),
    {
        self.regs.dma_barrier();
        self.set_rx_dma(false);
        self.disarm_dma_transfer_interrupts();
        let complete = self.regs.dma_quiesce(Direction::Rx);
        self.regs.dma_barrier();
        if complete {
            total
        } else {
            self.regs.dma_transferred_bytes(Direction::Rx)
        }
    }

    /// Ends a transmit DMA transfer. See [`Self::finish_rx_dma`].
    pub fn finish_tx_dma(&mut self, total: usize) -> (moved: usize)
        ensures
            dma_finished(old(self).log(), final(self).log(), Direction::Tx, total, moved),
            final(self).same_block(*old(self)),
    {
        self.regs.dma_barrier();
        self.set_tx_dma(false);
        self.disarm_dma_transfer_interrupts();
        let complete = self.regs.dma_quiesce(Direction::Tx);
        if complete {
            total
        } else {
            self.regs.dma_transferred_bytes(Direction::Tx)
        }
    }
}

} // verus!
