//! The LPI2C register block: who may read and who may write each register,
//! and the history of what was read and written.
//!
//! The port traits are the only way to the hardware. [`LpI2cRegisters`]
//! wraps one port and keeps, as ghost state, the complete history of the
//! block. Every contract of this crate that speaks of hardware speaks of
//! that history: which accesses a call made, in which order, what came back,
//! and what the call made of it.

use vstd::prelude::*;

use crate::controller::ControllerSetup;
use crate::controller_registers::{ControllerStatusError, HaltResolution};
use crate::ticks::now_ticks;
use crate::words::{
    Mcfgr1, Mcr, Mder, Mfsr, Mier, Mrdr, Msr, Mtdr, Param, Samr, Sasr, Scfgr1, Scfgr2, Scr, Sder, Sier, Srdr, Ssr, Stdr,
};

verus! {

/// The controller half of one LPI2C register block.
///
/// Nothing is promised of what a read returns: the bus decides. Which
/// methods exist decides who may read and who may write, so a wrong-direction
/// access of a FIFO port is not expressible.
pub trait ControllerPort {
    /// The access `a` took the port from `before` to `after`. What that means
    /// is the port's own affair, and nothing where it says nothing: it is a
    /// name for what one call was given and what it returned.
    open spec fn controller_ran(before: &Self, a: Access, after: &Self) -> bool {
        true
    }

    /// Reads the parameter register (FIFO sizes).
    fn read_param(&mut self) -> (r: Param)
        ensures
            Self::controller_ran(old(self), Access::ReadParam(r), final(self)),
    ;

    /// Reads the controller control register.
    fn read_mcr(&mut self) -> (r: Mcr)
        ensures
            Self::controller_ran(old(self), Access::ReadMcr(r), final(self)),
    ;

    /// Writes the controller control register.
    fn write_mcr(&mut self, value: Mcr)
        ensures
            Self::controller_ran(old(self), Access::WriteMcr(value), final(self)),
    ;

    /// Reads the controller status register.
    fn read_msr(&mut self) -> (r: Msr)
        ensures
            Self::controller_ran(old(self), Access::ReadMsr(r), final(self)),
    ;

    /// Writes the controller status register.
    fn write_msr(&mut self, value: Msr)
        ensures
            Self::controller_ran(old(self), Access::WriteMsr(value), final(self)),
    ;

    /// Reads the controller interrupt enable register.
    fn read_mier(&mut self) -> (r: Mier)
        ensures
            Self::controller_ran(old(self), Access::ReadMier(r), final(self)),
    ;

    /// Writes the controller interrupt enable register.
    fn write_mier(&mut self, value: Mier)
        ensures
            Self::controller_ran(old(self), Access::WriteMier(value), final(self)),
    ;

    /// Reads the controller DMA enable register.
    fn read_mder(&mut self) -> (r: Mder)
        ensures
            Self::controller_ran(old(self), Access::ReadMder(r), final(self)),
    ;

    /// Writes the controller DMA enable register.
    fn write_mder(&mut self, value: Mder)
        ensures
            Self::controller_ran(old(self), Access::WriteMder(value), final(self)),
    ;

    /// Reads the controller configuration register.
    fn read_mcfgr1(&mut self) -> (r: Mcfgr1)
        ensures
            Self::controller_ran(old(self), Access::ReadMcfgr1(r), final(self)),
    ;

    /// Reads the controller FIFO status register.
    fn read_mfsr(&mut self) -> (r: Mfsr)
        ensures
            Self::controller_ran(old(self), Access::ReadMfsr(r), final(self)),
    ;

    /// Writes the controller transmit data register.
    fn write_mtdr(&mut self, value: Mtdr)
        ensures
            Self::controller_ran(old(self), Access::WriteMtdr(value), final(self)),
    ;

    /// Reads the controller receive data register, popping its FIFO.
    fn read_mrdr(&mut self) -> (r: Mrdr)
        ensures
            Self::controller_ran(old(self), Access::ReadMrdr(r), final(self)),
    ;

    /// Runs the engine's own resolution of a halting fault until `deadline`
    /// and reports how it ended.
    fn resolve_halt(&mut self, error: ControllerStatusError, timeout: u64, deadline: u64) -> (r: HaltResolution)
        ensures
            Self::controller_ran(old(self), Access::ResolveHalt(error, timeout, deadline, r), final(self)),
    ;

    /// Disables the controller and drops its state after a pin-low timeout.
    fn terminate_pin_low(&mut self)
        ensures
            Self::controller_ran(old(self), Access::TerminatePinLow, final(self)),
    ;

    /// Hard-resets the controller engine, keeping its configuration.
    fn reset_engine(&mut self)
        ensures
            Self::controller_ran(old(self), Access::ResetEngine, final(self)),
    ;

    /// Programs the controller with one prepared setup.
    fn apply_setup(&mut self, setup: ControllerSetup)
        ensures
            Self::controller_ran(old(self), Access::ApplySetup(setup), final(self)),
    ;
}

/// The target half of one LPI2C register block. See [`ControllerPort`].
pub trait TargetPort {
    /// The access `a` took the port from `before` to `after`.
    open spec fn target_ran(before: &Self, a: Access, after: &Self) -> bool {
        true
    }

    /// Reads the target control register.
    fn read_scr(&mut self) -> (r: Scr)
        ensures
            Self::target_ran(old(self), Access::ReadScr(r), final(self)),
    ;

    /// Writes the target control register.
    fn write_scr(&mut self, value: Scr)
        ensures
            Self::target_ran(old(self), Access::WriteScr(value), final(self)),
    ;

    /// Reads the target status register.
    fn read_ssr(&mut self) -> (r: Ssr)
        ensures
            Self::target_ran(old(self), Access::ReadSsr(r), final(self)),
    ;

    /// Writes the target status register.
    fn write_ssr(&mut self, value: Ssr)
        ensures
            Self::target_ran(old(self), Access::WriteSsr(value), final(self)),
    ;

    /// Reads the target interrupt enable register.
    fn read_sier(&mut self) -> (r: Sier)
        ensures
            Self::target_ran(old(self), Access::ReadSier(r), final(self)),
    ;

    /// Writes the target interrupt enable register.
    fn write_sier(&mut self, value: Sier)
        ensures
            Self::target_ran(old(self), Access::WriteSier(value), final(self)),
    ;

    /// Reads the target DMA enable register.
    fn read_sder(&mut self) -> (r: Sder)
        ensures
            Self::target_ran(old(self), Access::ReadSder(r), final(self)),
    ;

    /// Writes the target DMA enable register.
    fn write_sder(&mut self, value: Sder)
        ensures
            Self::target_ran(old(self), Access::WriteSder(value), final(self)),
    ;

    /// Reads the first target configuration register.
    fn read_scfgr1(&mut self) -> (r: Scfgr1)
        ensures
            Self::target_ran(old(self), Access::ReadScfgr1(r), final(self)),
    ;

    /// Writes the first target configuration register.
    fn write_scfgr1(&mut self, value: Scfgr1)
        ensures
            Self::target_ran(old(self), Access::WriteScfgr1(value), final(self)),
    ;

    /// Reads the second target configuration register.
    fn read_scfgr2(&mut self) -> (r: Scfgr2)
        ensures
            Self::target_ran(old(self), Access::ReadScfgr2(r), final(self)),
    ;

    /// Writes the second target configuration register.
    fn write_scfgr2(&mut self, value: Scfgr2)
        ensures
            Self::target_ran(old(self), Access::WriteScfgr2(value), final(self)),
    ;

    /// Writes the target address match register.
    fn write_samr(&mut self, value: Samr)
        ensures
            Self::target_ran(old(self), Access::WriteSamr(value), final(self)),
    ;

    /// Reads the target address status register, consuming the address-valid state.
    fn read_sasr(&mut self) -> (r: Sasr)
        ensures
            Self::target_ran(old(self), Access::ReadSasr(r), final(self)),
    ;

    /// Writes the target transmit data register.
    fn write_stdr(&mut self, value: Stdr)
        ensures
            Self::target_ran(old(self), Access::WriteStdr(value), final(self)),
    ;

    /// Reads the target receive data register, popping its FIFO.
    fn read_srdr(&mut self) -> (r: Srdr)
        ensures
            Self::target_ran(old(self), Access::ReadSrdr(r), final(self)),
    ;
}

/// Which way a DMA channel moves data.
#[derive(Clone, Copy, Debug, PartialEq, Eq, Structural)]
pub enum Direction {
    /// From the receive FIFO to memory.
    Rx,
    /// From memory to the transmit FIFO.
    Tx,
}

/// The two DMA channels that are wired to one register block. Each is fixed
/// to its request source, so a receive transfer cannot be handed transmit
/// plumbing.
pub trait DmaPort {
    /// The access `a` took the port from `before` to `after`.
    open spec fn dma_ran(before: &Self, a: Access, after: &Self) -> bool {
        true
    }

    /// Stops the channel from taking requests.
    fn dma_disable_request(&mut self, direction: Direction)
        ensures
            Self::dma_ran(old(self), Access::DmaDisableRequest(direction), final(self)),
    ;

    /// Clears the channel's completion flag.
    fn dma_clear_done(&mut self, direction: Direction)
        ensures
            Self::dma_ran(old(self), Access::DmaClearDone(direction), final(self)),
    ;

    /// Clears the channel's interrupt flag.
    fn dma_clear_interrupt(&mut self, direction: Direction)
        ensures
            Self::dma_ran(old(self), Access::DmaClearInterrupt(direction), final(self)),
    ;

    /// Selects the channel's request source.
    fn dma_set_request_source(&mut self, direction: Direction)
        ensures
            Self::dma_ran(old(self), Access::DmaSetRequestSource(direction), final(self)),
    ;

    /// Programs a transfer of `length` bytes between the FIFO port at `port`
    /// and the place `offset` of the buffer that the caller lent. Returns
    /// whether the engine accepted it.
    fn dma_setup(&mut self, direction: Direction, port: usize, offset: usize, length: usize) -> (r: bool)
        ensures
            Self::dma_ran(old(self), Access::DmaSetup(direction, port, offset, length, r), final(self)),
    ;

    /// Lets the channel take requests.
    fn dma_enable_request(&mut self, direction: Direction)
        ensures
            Self::dma_ran(old(self), Access::DmaEnableRequest(direction), final(self)),
    ;

    /// Orders all memory accesses before those that follow.
    fn dma_barrier(&mut self)
        ensures
            Self::dma_ran(old(self), Access::DmaBarrier, final(self)),
    ;

    /// Waits until the channel is inactive. Returns whether its transfer had
    /// completed.
    fn dma_quiesce(&mut self, direction: Direction) -> (r: bool)
        ensures
            Self::dma_ran(old(self), Access::DmaQuiesce(direction, r), final(self)),
    ;

    /// How many bytes the channel has moved.
    fn dma_transferred_bytes(&mut self, direction: Direction) -> (r: usize)
        ensures
            Self::dma_ran(old(self), Access::DmaTransferredBytes(direction, r), final(self)),
    ;

    /// Whether the channel's transfer has completed.
    fn dma_is_done(&mut self, direction: Direction) -> (r: bool)
        ensures
            Self::dma_ran(old(self), Access::DmaIsDone(direction, r), final(self)),
    ;
}

/// One entry of the history of a register block.
pub enum Access {
    ReadParam(Param),
    ReadMcr(Mcr),
    WriteMcr(Mcr),
    ReadMsr(Msr),
    WriteMsr(Msr),
    ReadMier(Mier),
    WriteMier(Mier),
    ReadMder(Mder),
    WriteMder(Mder),
    ReadMcfgr1(Mcfgr1),
    ReadMfsr(Mfsr),
    WriteMtdr(Mtdr),
    ReadMrdr(Mrdr),
    ReadScr(Scr),
    WriteScr(Scr),
    ReadSsr(Ssr),
    WriteSsr(Ssr),
    ReadSier(Sier),
    WriteSier(Sier),
    ReadSder(Sder),
    WriteSder(Sder),
    ReadScfgr1(Scfgr1),
    WriteScfgr1(Scfgr1),
    ReadScfgr2(Scfgr2),
    WriteScfgr2(Scfgr2),
    WriteSamr(Samr),
    ReadSasr(Sasr),
    WriteStdr(Stdr),
    ReadSrdr(Srdr),
    /// The time driver was asked for the current tick.
    Now(u64),
    /// A halting fault was handed to the engine, with what came back.
    ResolveHalt(ControllerStatusError, u64, u64, HaltResolution),
    TerminatePinLow,
    ResetEngine,
    ApplySetup(ControllerSetup),
    DmaDisableRequest(Direction),
    DmaClearDone(Direction),
    DmaClearInterrupt(Direction),
    DmaSetRequestSource(Direction),
    DmaSetup(Direction, usize, usize, usize, bool),
    DmaEnableRequest(Direction),
    DmaBarrier,
    DmaQuiesce(Direction, bool),
    DmaTransferredBytes(Direction, usize),
    DmaIsDone(Direction, bool),
    /// A recovery with this budget, in ticks, took ownership of the bus. No
    /// register is touched.
    RecoveryBegin(u64),
}

/// One LPI2C register block and its history.
pub struct LpI2cRegisters<H> {
    hw: H,
    history: Ghost<Seq<Access>>,
}

impl<H> LpI2cRegisters<H> {
    /// Every access made through this block so far, oldest first.
    pub closed spec fn log(&self) -> Seq<Access> {
        self.history@
    }

    /// The port, as what was done through it left it.
    pub closed spec fn port(&self) -> H {
        self.hw
    }

    /// Takes over a register block whose history starts here.
    pub fn new(hw: H) -> (r: Self)
        ensures
            r.port() == hw,
            r.log() == Seq::<Access>::empty(),
    {
        LpI2cRegisters { hw, history: Ghost(Seq::empty()) }
    }

    /// Asks the time driver for the current tick.
    pub fn now(&mut self) -> (t: u64)
        ensures
            final(self).log() == old(self).log().push(Access::Now(t)),
            final(self).port() == old(self).port(),
    {
        let t: u64 = now_ticks();
        proof {
            self.history@ = self.history@.push(Access::Now(t));
        }
        t
    }

    /// Notes that a recovery with this budget takes ownership of the bus here.
    pub fn begin_recovery(&mut self, budget: Ghost<u64>)
        ensures
            final(self).log() == old(self).log().push(Access::RecoveryBegin(budget@)),
            final(self).port() == old(self).port(),
    {
        proof {
            self.history@ = self.history@.push(Access::RecoveryBegin(budget@));
        }
    }
}

impl<H: ControllerPort> LpI2cRegisters<H> {
    pub fn read_param(&mut self) -> (v: Param)
        ensures
            final(self).log() == old(self).log().push(Access::ReadParam(v)),
            H::controller_ran(&old(self).port(), Access::ReadParam(v), &final(self).port()),
    {
        let v = self.hw.read_param();
        proof {
            self.history@ = self.history@.push(Access::ReadParam(v));
        }
        v
    }

    pub fn read_mcr(&mut self) -> (v: Mcr)
        ensures
            final(self).log() == old(self).log().push(Access::ReadMcr(v)),
            H::controller_ran(&old(self).port(), Access::ReadMcr(v), &final(self).port()),
    {
        let v = self.hw.read_mcr();
        proof {
            self.history@ = self.history@.push(Access::ReadMcr(v));
        }
        v
    }

    pub fn write_mcr(&mut self, value: Mcr)
        ensures
            final(self).log() == old(self).log().push(Access::WriteMcr(value)),
            H::controller_ran(&old(self).port(), Access::WriteMcr(value), &final(self).port()),
    {
        self.hw.write_mcr(value);
        proof {
            self.history@ = self.history@.push(Access::WriteMcr(value));
        }
    }

    pub fn read_msr(&mut self) -> (v: Msr)
        ensures
            final(self).log() == old(self).log().push(Access::ReadMsr(v)),
            H::controller_ran(&old(self).port(), Access::ReadMsr(v), &final(self).port()),
    {
        let v = self.hw.read_msr();
        proof {
            self.history@ = self.history@.push(Access::ReadMsr(v));
        }
        v
    }

    pub fn write_msr(&mut self, value: Msr)
        ensures
            final(self).log() == old(self).log().push(Access::WriteMsr(value)),
            H::controller_ran(&old(self).port(), Access::WriteMsr(value), &final(self).port()),
    {
        self.hw.write_msr(value);
        proof {
            self.history@ = self.history@.push(Access::WriteMsr(value));
        }
    }

    pub fn read_mier(&mut self) -> (v: Mier)
        ensures
            final(self).log() == old(self).log().push(Access::ReadMier(v)),
            H::controller_ran(&old(self).port(), Access::ReadMier(v), &final(self).port()),
    {
        let v = self.hw.read_mier();
        proof {
            self.history@ = self.history@.push(Access::ReadMier(v));
        }
        v
    }

    pub fn write_mier(&mut self, value: Mier)
        ensures
            final(self).log() == old(self).log().push(Access::WriteMier(value)),
            H::controller_ran(&old(self).port(), Access::WriteMier(value), &final(self).port()),
    {
        self.hw.write_mier(value);
        proof {
            self.history@ = self.history@.push(Access::WriteMier(value));
        }
    }

    pub fn read_mder(&mut self) -> (v: Mder)
        ensures
            final(self).log() == old(self).log().push(Access::ReadMder(v)),
            H::controller_ran(&old(self).port(), Access::ReadMder(v), &final(self).port()),
    {
        let v = self.hw.read_mder();
        proof {
            self.history@ = self.history@.push(Access::ReadMder(v));
        }
        v
    }

    pub fn write_mder(&mut self, value: Mder)
        ensures
            final(self).log() == old(self).log().push(Access::WriteMder(value)),
            H::controller_ran(&old(self).port(), Access::WriteMder(value), &final(self).port()),
    {
        self.hw.write_mder(value);
        proof {
            self.history@ = self.history@.push(Access::WriteMder(value));
        }
    }

    pub fn read_mcfgr1(&mut self) -> (v: Mcfgr1)
        ensures
            final(self).log() == old(self).log().push(Access::ReadMcfgr1(v)),
            H::controller_ran(&old(self).port(), Access::ReadMcfgr1(v), &final(self).port()),
    {
        let v = self.hw.read_mcfgr1();
        proof {
            self.history@ = self.history@.push(Access::ReadMcfgr1(v));
        }
        v
    }

    pub fn read_mfsr(&mut self) -> (v: Mfsr)
        ensures
            final(self).log() == old(self).log().push(Access::ReadMfsr(v)),
            H::controller_ran(&old(self).port(), Access::ReadMfsr(v), &final(self).port()),
    {
        let v = self.hw.read_mfsr();
        proof {
            self.history@ = self.history@.push(Access::ReadMfsr(v));
        }
        v
    }

    pub fn write_mtdr(&mut self, value: Mtdr)
        ensures
            final(self).log() == old(self).log().push(Access::WriteMtdr(value)),
            H::controller_ran(&old(self).port(), Access::WriteMtdr(value), &final(self).port()),
    {
        self.hw.write_mtdr(value);
        proof {
            self.history@ = self.history@.push(Access::WriteMtdr(value));
        }
    }

    pub fn read_mrdr(&mut self) -> (v: Mrdr)
        ensures
            final(self).log() == old(self).log().push(Access::ReadMrdr(v)),
            H::controller_ran(&old(self).port(), Access::ReadMrdr(v), &final(self).port()),
    {
        let v = self.hw.read_mrdr();
        proof {
            self.history@ = self.history@.push(Access::ReadMrdr(v));
        }
        v
    }

    pub fn resolve_halt(&mut self, error: ControllerStatusError, timeout: u64, deadline: u64) -> (r: HaltResolution)
        ensures
            final(self).log() == old(self).log().push(Access::ResolveHalt(error, timeout, deadline, r)),
            H::controller_ran(&old(self).port(), Access::ResolveHalt(error, timeout, deadline, r), &final(self).port()),
    {
        let r = self.hw.resolve_halt(error, timeout, deadline);
        proof {
            self.history@ = self.history@.push(Access::ResolveHalt(error, timeout, deadline, r));
        }
        r
    }

    pub fn terminate_pin_low(&mut self)
        ensures
            final(self).log() == old(self).log().push(Access::TerminatePinLow),
            H::controller_ran(&old(self).port(), Access::TerminatePinLow, &final(self).port()),
    {
        self.hw.terminate_pin_low();
        proof {
            self.history@ = self.history@.push(Access::TerminatePinLow);
        }
    }

    pub fn reset_engine(&mut self)
        ensures
            final(self).log() == old(self).log().push(Access::ResetEngine),
            H::controller_ran(&old(self).port(), Access::ResetEngine, &final(self).port()),
    {
        self.hw.reset_engine();
        proof {
            self.history@ = self.history@.push(Access::ResetEngine);
        }
    }

    pub fn apply_setup(&mut self, setup: ControllerSetup)
        ensures
            final(self).log() == old(self).log().push(Access::ApplySetup(setup)),
            H::controller_ran(&old(self).port(), Access::ApplySetup(setup), &final(self).port()),
    {
        self.hw.apply_setup(setup);
        proof {
            self.history@ = self.history@.push(Access::ApplySetup(setup));
        }
    }

}

impl<H: TargetPort> LpI2cRegisters<H> {
    pub fn read_scr(&mut self) -> (v: Scr)
        ensures
            final(self).log() == old(self).log().push(Access::ReadScr(v)),
            H::target_ran(&old(self).port(), Access::ReadScr(v), &final(self).port()),
    {
        let v = self.hw.read_scr();
        proof {
            self.history@ = self.history@.push(Access::ReadScr(v));
        }
        v
    }

    pub fn write_scr(&mut self, value: Scr)
        ensures
            final(self).log() == old(self).log().push(Access::WriteScr(value)),
            H::target_ran(&old(self).port(), Access::WriteScr(value), &final(self).port()),
    {
        self.hw.write_scr(value);
        proof {
            self.history@ = self.history@.push(Access::WriteScr(value));
        }
    }

    pub fn read_ssr(&mut self) -> (v: Ssr)
        ensures
            final(self).log() == old(self).log().push(Access::ReadSsr(v)),
            H::target_ran(&old(self).port(), Access::ReadSsr(v), &final(self).port()),
    {
        let v = self.hw.read_ssr();
        proof {
            self.history@ = self.history@.push(Access::ReadSsr(v));
        }
        v
    }

    pub fn write_ssr(&mut self, value: Ssr)
        ensures
            final(self).log() == old(self).log().push(Access::WriteSsr(value)),
            H::target_ran(&old(self).port(), Access::WriteSsr(value), &final(self).port()),
    {
        self.hw.write_ssr(value);
        proof {
            self.history@ = self.history@.push(Access::WriteSsr(value));
        }
    }

    pub fn read_sier(&mut self) -> (v: Sier)
        ensures
            final(self).log() == old(self).log().push(Access::ReadSier(v)),
            H::target_ran(&old(self).port(), Access::ReadSier(v), &final(self).port()),
    {
        let v = self.hw.read_sier();
        proof {
            self.history@ = self.history@.push(Access::ReadSier(v));
        }
        v
    }

    pub fn write_sier(&mut self, value: Sier)
        ensures
            final(self).log() == old(self).log().push(Access::WriteSier(value)),
            H::target_ran(&old(self).port(), Access::WriteSier(value), &final(self).port()),
    {
        self.hw.write_sier(value);
        proof {
            self.history@ = self.history@.push(Access::WriteSier(value));
        }
    }

    pub fn read_sder(&mut self) -> (v: Sder)
        ensures
            final(self).log() == old(self).log().push(Access::ReadSder(v)),
            H::target_ran(&old(self).port(), Access::ReadSder(v), &final(self).port()),
    {
        let v = self.hw.read_sder();
        proof {
            self.history@ = self.history@.push(Access::ReadSder(v));
        }
        v
    }

    pub fn write_sder(&mut self, value: Sder)
        ensures
            final(self).log() == old(self).log().push(Access::WriteSder(value)),
            H::target_ran(&old(self).port(), Access::WriteSder(value), &final(self).port()),
    {
        self.hw.write_sder(value);
        proof {
            self.history@ = self.history@.push(Access::WriteSder(value));
        }
    }

    pub fn read_scfgr1(&mut self) -> (v: Scfgr1)
        ensures
            final(self).log() == old(self).log().push(Access::ReadScfgr1(v)),
            H::target_ran(&old(self).port(), Access::ReadScfgr1(v), &final(self).port()),
    {
        let v = self.hw.read_scfgr1();
        proof {
            self.history@ = self.history@.push(Access::ReadScfgr1(v));
        }
        v
    }

    pub fn write_scfgr1(&mut self, value: Scfgr1)
        ensures
            final(self).log() == old(self).log().push(Access::WriteScfgr1(value)),
            H::target_ran(&old(self).port(), Access::WriteScfgr1(value), &final(self).port()),
    {
        self.hw.write_scfgr1(value);
        proof {
            self.history@ = self.history@.push(Access::WriteScfgr1(value));
        }
    }

    pub fn read_scfgr2(&mut self) -> (v: Scfgr2)
        ensures
            final(self).log() == old(self).log().push(Access::ReadScfgr2(v)),
            H::target_ran(&old(self).port(), Access::ReadScfgr2(v), &final(self).port()),
    {
        let v = self.hw.read_scfgr2();
        proof {
            self.history@ = self.history@.push(Access::ReadScfgr2(v));
        }
        v
    }

    pub fn write_scfgr2(&mut self, value: Scfgr2)
        ensures
            final(self).log() == old(self).log().push(Access::WriteScfgr2(value)),
            H::target_ran(&old(self).port(), Access::WriteScfgr2(value), &final(self).port()),
    {
        self.hw.write_scfgr2(value);
        proof {
            self.history@ = self.history@.push(Access::WriteScfgr2(value));
        }
    }

    pub fn write_samr(&mut self, value: Samr)
        ensures
            final(self).log() == old(self).log().push(Access::WriteSamr(value)),
            H::target_ran(&old(self).port(), Access::WriteSamr(value), &final(self).port()),
    {
        self.hw.write_samr(value);
        proof {
            self.history@ = self.history@.push(Access::WriteSamr(value));
        }
    }

    pub fn read_sasr(&mut self) -> (v: Sasr)
        ensures
            final(self).log() == old(self).log().push(Access::ReadSasr(v)),
            H::target_ran(&old(self).port(), Access::ReadSasr(v), &final(self).port()),
    {
        let v = self.hw.read_sasr();
        proof {
            self.history@ = self.history@.push(Access::ReadSasr(v));
        }
        v
    }

    pub fn write_stdr(&mut self, value: Stdr)
        ensures
            final(self).log() == old(self).log().push(Access::WriteStdr(value)),
            H::target_ran(&old(self).port(), Access::WriteStdr(value), &final(self).port()),
    {
        self.hw.write_stdr(value);
        proof {
            self.history@ = self.history@.push(Access::WriteStdr(value));
        }
    }

    pub fn read_srdr(&mut self) -> (v: Srdr)
        ensures
            final(self).log() == old(self).log().push(Access::ReadSrdr(v)),
            H::target_ran(&old(self).port(), Access::ReadSrdr(v), &final(self).port()),
    {
        let v = self.hw.read_srdr();
        proof {
            self.history@ = self.history@.push(Access::ReadSrdr(v));
        }
        v
    }

}

impl<H: DmaPort> LpI2cRegisters<H> {
    pub fn dma_disable_request(&mut self, direction: Direction)
        ensures
            final(self).log() == old(self).log().push(Access::DmaDisableRequest(direction)),
            H::dma_ran(&old(self).port(), Access::DmaDisableRequest(direction), &final(self).port()),
    {
        self.hw.dma_disable_request(direction);
        proof {
            self.history@ = self.history@.push(Access::DmaDisableRequest(direction));
        }
    }

    pub fn dma_clear_done(&mut self, direction: Direction)
        ensures
            final(self).log() == old(self).log().push(Access::DmaClearDone(direction)),
            H::dma_ran(&old(self).port(), Access::DmaClearDone(direction), &final(self).port()),
    {
        self.hw.dma_clear_done(direction);
        proof {
            self.history@ = self.history@.push(Access::DmaClearDone(direction));
        }
    }

    pub fn dma_clear_interrupt(&mut self, direction: Direction)
        ensures
            final(self).log() == old(self).log().push(Access::DmaClearInterrupt(direction)),
            H::dma_ran(&old(self).port(), Access::DmaClearInterrupt(direction), &final(self).port()),
    {
        self.hw.dma_clear_interrupt(direction);
        proof {
            self.history@ = self.history@.push(Access::DmaClearInterrupt(direction));
        }
    }

    pub fn dma_set_request_source(&mut self, direction: Direction)
        ensures
            final(self).log() == old(self).log().push(Access::DmaSetRequestSource(direction)),
            H::dma_ran(&old(self).port(), Access::DmaSetRequestSource(direction), &final(self).port()),
    {
        self.hw.dma_set_request_source(direction);
        proof {
            self.history@ = self.history@.push(Access::DmaSetRequestSource(direction));
        }
    }

    pub fn dma_setup(&mut self, direction: Direction, port: usize, offset: usize, length: usize) -> (r: bool)
        ensures
            final(self).log() == old(self).log().push(Access::DmaSetup(direction, port, offset, length, r)),
            H::dma_ran(&old(self).port(), Access::DmaSetup(direction, port, offset, length, r), &final(self).port()),
    {
        let r = self.hw.dma_setup(direction, port, offset, length);
        proof {
            self.history@ = self.history@.push(Access::DmaSetup(direction, port, offset, length, r));
        }
        r
    }

    pub fn dma_enable_request(&mut self, direction: Direction)
        ensures
            final(self).log() == old(self).log().push(Access::DmaEnableRequest(direction)),
            H::dma_ran(&old(self).port(), Access::DmaEnableRequest(direction), &final(self).port()),
    {
        self.hw.dma_enable_request(direction);
        proof {
            self.history@ = self.history@.push(Access::DmaEnableRequest(direction));
        }
    }

    pub fn dma_barrier(&mut self)
        ensures
            final(self).log() == old(self).log().push(Access::DmaBarrier),
            H::dma_ran(&old(self).port(), Access::DmaBarrier, &final(self).port()),
    {
        self.hw.dma_barrier();
        proof {
            self.history@ = self.history@.push(Access::DmaBarrier);
        }
    }

    pub fn dma_quiesce(&mut self, direction: Direction) -> (r: bool)
        ensures
            final(self).log() == old(self).log().push(Access::DmaQuiesce(direction, r)),
            H::dma_ran(&old(self).port(), Access::DmaQuiesce(direction, r), &final(self).port()),
    {
        let r: bool = self.hw.dma_quiesce(direction);
        proof {
            self.history@ = self.history@.push(Access::DmaQuiesce(direction, r));
        }
        r
    }

    pub fn dma_transferred_bytes(&mut self, direction: Direction) -> (r: usize)
        ensures
            final(self).log() == old(self).log().push(Access::DmaTransferredBytes(direction, r)),
            H::dma_ran(&old(self).port(), Access::DmaTransferredBytes(direction, r), &final(self).port()),
    {
        let r: usize = self.hw.dma_transferred_bytes(direction);
        proof {
            self.history@ = self.history@.push(Access::DmaTransferredBytes(direction, r));
        }
        r
    }

    pub fn dma_is_done(&mut self, direction: Direction) -> (r: bool)
        ensures
            final(self).log() == old(self).log().push(Access::DmaIsDone(direction, r)),
            H::dma_ran(&old(self).port(), Access::DmaIsDone(direction, r), &final(self).port()),
    {
        let r: bool = self.hw.dma_is_done(direction);
        proof {
            self.history@ = self.history@.push(Access::DmaIsDone(direction, r));
        }
        r
    }
}

/// Where the linked peripheral definitions place each mapped register.
#[derive(Clone, Copy, Debug, PartialEq, Eq, Structural)]
pub struct MappedAddresses {
    pub param: usize,
    pub mcr: usize,
    pub msr: usize,
    pub mier: usize,
    pub mder: usize,
    pub mcfgr1: usize,
    pub mfsr: usize,
    pub mtdr: usize,
    pub mrdr: usize,
    pub scr: usize,
    pub ssr: usize,
    pub sier: usize,
    pub sder: usize,
    pub sasr: usize,
    pub stdr: usize,
    pub srdr: usize,
}

/// The peripheral definitions and the register map agree on every mapped
/// register of the block at `base`.
pub open spec fn layout_agrees(base: usize, pac: MappedAddresses) -> bool {
    &&& pac.param == base + 0x004
    &&& pac.mcr == base + 0x010
    &&& pac.msr == base + 0x014
    &&& pac.mier == base + 0x018
    &&& pac.mder == base + 0x01c
    &&& pac.mcfgr1 == base + 0x024
    &&& pac.mfsr == base + 0x05c
    &&& pac.mtdr == base + 0x060
    &&& pac.mrdr == base + 0x070
    &&& pac.scr == base + 0x110
    &&& pac.ssr == base + 0x114
    &&& pac.sier == base + 0x118
    &&& pac.sder == base + 0x11c
    &&& pac.sasr == base + 0x150
    &&& pac.stdr == base + 0x160
    &&& pac.srdr == base + 0x170
}

/// Compares the register map with the linked peripheral definitions, so that
/// drift between the two is found at construction rather than by corrupting
/// other registers.
pub fn check_layout(base: usize, pac: &MappedAddresses) -> (r: bool)
    requires
        base <= usize::MAX - 0x174,
    ensures
        r == layout_agrees(base, *pac),
{
    pac.param == base + 0x004
        && pac.mcr == base + 0x010
        && pac.msr == base + 0x014
        && pac.mier == base + 0x018
        && pac.mder == base + 0x01c
        && pac.mcfgr1 == base + 0x024
        && pac.mfsr == base + 0x05c
        && pac.mtdr == base + 0x060
        && pac.mrdr == base + 0x070
        && pac.scr == base + 0x110
        && pac.ssr == base + 0x114
        && pac.sier == base + 0x118
        && pac.sder == base + 0x11c
        && pac.sasr == base + 0x150
        && pac.stdr == base + 0x160
        && pac.srdr == base + 0x170
}

} // verus!
