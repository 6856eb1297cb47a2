//! A port with no peripheral behind it.

use vstd::prelude::*;

use crate::bus_clear::{BusLines, LineEvent};
use crate::controller::ControllerSetup;
use crate::controller_registers::{ControllerStatusError, HaltResolution};
use crate::lpi2c_regs::{Access, ControllerPort, Direction, DmaPort, TargetPort};
use crate::words::{
    Addrcfg, Mcfgr1, Mcr, Mder, Mfsr, Mier, Mrdr, Msr, Mtdr, Param, Samr, Sasr, Scfgr1, Scfgr2, Scr, Sder, Sier, Srdr,
    Ssr, Stdr,
};

verus! {

/// A register block, DMA channels and bus lines that nothing is wired to.
/// Every register reads as zero, no DMA transfer is taken, both lines are
/// high, and every access is remembered, as ghost state.
pub struct Unwired {
    seen: Ghost<Seq<Access>>,
    lines: Ghost<Seq<LineEvent>>,
}

impl Unwired {
    /// Every access to the registers and the DMA channels, oldest first.
    pub closed spec fn seen(&self) -> Seq<Access> {
        self.seen@
    }

    /// Everything done to the lines and read from them, oldest first.
    pub closed spec fn lines(&self) -> Seq<LineEvent> {
        self.lines@
    }

    /// A port that nothing was done to yet.
    pub fn new() -> (r: Self)
        ensures
            r.seen() == Seq::<Access>::empty(),
            r.lines() == Seq::<LineEvent>::empty(),
    {
        Unwired { seen: Ghost(Seq::empty()), lines: Ghost(Seq::empty()) }
    }
}

impl ControllerPort for Unwired {
    open spec fn controller_ran(before: &Self, a: Access, after: &Self) -> bool {
        after.seen() == before.seen().push(a) && after.lines() == before.lines()
    }

    fn read_param(&mut self) -> (r: Param) {
        let r = Param { mtxfifo: 0 };
        proof {
            self.seen@ = self.seen@.push(Access::ReadParam(r));
        }
        r
    }

    fn read_mcr(&mut self) -> (r: Mcr) {
        let r = Mcr { rtf: false, rrf: false, rest: 0 };
        proof {
            self.seen@ = self.seen@.push(Access::ReadMcr(r));
        }
        r
    }

    fn write_mcr(&mut self, value: Mcr) {
        proof {
            self.seen@ = self.seen@.push(Access::WriteMcr(value));
        }
    }

    fn read_msr(&mut self) -> (r: Msr) {
        let r = Msr {
            epf: false,
            sdf: false,
            ndf: false,
            alf: false,
            fef: false,
            pltf: false,
            dmf: false,
            stf: false,
            mbf: false,
            rest: 0,
        };
        proof {
            self.seen@ = self.seen@.push(Access::ReadMsr(r));
        }
        r
    }

    fn write_msr(&mut self, value: Msr) {
        proof {
            self.seen@ = self.seen@.push(Access::WriteMsr(value));
        }
    }

    fn read_mier(&mut self) -> (r: Mier) {
        let r = Mier::disabled();
        proof {
            self.seen@ = self.seen@.push(Access::ReadMier(r));
        }
        r
    }

    fn write_mier(&mut self, value: Mier) {
        proof {
            self.seen@ = self.seen@.push(Access::WriteMier(value));
        }
    }

    fn read_mder(&mut self) -> (r: Mder) {
        let r = Mder { tdde: false, rdde: false, rest: 0 };
        proof {
            self.seen@ = self.seen@.push(Access::ReadMder(r));
        }
        r
    }

    fn write_mder(&mut self, value: Mder) {
        proof {
            self.seen@ = self.seen@.push(Access::WriteMder(value));
        }
    }

    fn read_mcfgr1(&mut self) -> (r: Mcfgr1) {
        let r = Mcfgr1 { autostop: false, rest: 0 };
        proof {
            self.seen@ = self.seen@.push(Access::ReadMcfgr1(r));
        }
        r
    }

    fn read_mfsr(&mut self) -> (r: Mfsr) {
        let r = Mfsr { txcount: 0, rxcount: 0 };
        proof {
            self.seen@ = self.seen@.push(Access::ReadMfsr(r));
        }
        r
    }

    fn write_mtdr(&mut self, value: Mtdr) {
        proof {
            self.seen@ = self.seen@.push(Access::WriteMtdr(value));
        }
    }

    fn read_mrdr(&mut self) -> (r: Mrdr) {
        let r = Mrdr { data: 0 };
        proof {
            self.seen@ = self.seen@.push(Access::ReadMrdr(r));
        }
        r
    }

    fn resolve_halt(&mut self, error: ControllerStatusError, timeout: u64, deadline: u64) -> (r: HaltResolution) {
        let r = HaltResolution::Settled;
        proof {
            self.seen@ = self.seen@.push(Access::ResolveHalt(error, timeout, deadline, r));
        }
        r
    }

    fn terminate_pin_low(&mut self) {
        proof {
            self.seen@ = self.seen@.push(Access::TerminatePinLow);
        }
    }

    fn reset_engine(&mut self) {
        proof {
            self.seen@ = self.seen@.push(Access::ResetEngine);
        }
    }

    fn apply_setup(&mut self, setup: ControllerSetup) {
        proof {
            self.seen@ = self.seen@.push(Access::ApplySetup(setup));
        }
    }
}

impl TargetPort for Unwired {
    open spec fn target_ran(before: &Self, a: Access, after: &Self) -> bool {
        after.seen() == before.seen().push(a) && after.lines() == before.lines()
    }

    fn read_scr(&mut self) -> (r: Scr) {
        let r = Scr {
            sen: false,
            rst: false,
            filten: false,
            filtdz: false,
            rtf: false,
            rrf: false,
            rest: 0,
        };
        proof {
            self.seen@ = self.seen@.push(Access::ReadScr(r));
        }
        r
    }

    fn write_scr(&mut self, value: Scr) {
        proof {
            self.seen@ = self.seen@.push(Access::WriteScr(value));
        }
    }

    fn read_ssr(&mut self) -> (r: Ssr) {
        let r = Ssr {
            tdf: false,
            rdf: false,
            avf: false,
            taf: false,
            rsf: false,
            sdf: false,
            bef: false,
            fef: false,
            gcf: false,
            sarf: false,
            rest: 0,
        };
        proof {
            self.seen@ = self.seen@.push(Access::ReadSsr(r));
        }
        r
    }

    fn write_ssr(&mut self, value: Ssr) {
        proof {
            self.seen@ = self.seen@.push(Access::WriteSsr(value));
        }
    }

    fn read_sier(&mut self) -> (r: Sier) {
        let r = Sier::disabled();
        proof {
            self.seen@ = self.seen@.push(Access::ReadSier(r));
        }
        r
    }

    fn write_sier(&mut self, value: Sier) {
        proof {
            self.seen@ = self.seen@.push(Access::WriteSier(value));
        }
    }

    fn read_sder(&mut self) -> (r: Sder) {
        let r = Sder { tdde: false, rdde: false, rest: 0 };
        proof {
            self.seen@ = self.seen@.push(Access::ReadSder(r));
        }
        r
    }

    fn write_sder(&mut self, value: Sder) {
        proof {
            self.seen@ = self.seen@.push(Access::WriteSder(value));
        }
    }

    fn read_scfgr1(&mut self) -> (r: Scfgr1) {
        let r = Scfgr1 {
            rxstall: false,
            txdstall: false,
            adrstall: false,
            gcen: false,
            saen: false,
            addrcfg: Addrcfg::AddressMatch07Bit,
            rest: 0,
        };
        proof {
            self.seen@ = self.seen@.push(Access::ReadScfgr1(r));
        }
        r
    }

    fn write_scfgr1(&mut self, value: Scfgr1) {
        proof {
            self.seen@ = self.seen@.push(Access::WriteScfgr1(value));
        }
    }

    fn read_scfgr2(&mut self) -> (r: Scfgr2) {
        let r = Scfgr2 { datavd: 0, rest: 0 };
        proof {
            self.seen@ = self.seen@.push(Access::ReadScfgr2(r));
        }
        r
    }

    fn write_scfgr2(&mut self, value: Scfgr2) {
        proof {
            self.seen@ = self.seen@.push(Access::WriteScfgr2(value));
        }
    }

    fn write_samr(&mut self, value: Samr) {
        proof {
            self.seen@ = self.seen@.push(Access::WriteSamr(value));
        }
    }

    fn read_sasr(&mut self) -> (r: Sasr) {
        let r = Sasr { raddr: 0 };
        proof {
            self.seen@ = self.seen@.push(Access::ReadSasr(r));
        }
        r
    }

    fn write_stdr(&mut self, value: Stdr) {
        proof {
            self.seen@ = self.seen@.push(Access::WriteStdr(value));
        }
    }

    fn read_srdr(&mut self) -> (r: Srdr) {
        let r = Srdr { data: 0 };
        proof {
            self.seen@ = self.seen@.push(Access::ReadSrdr(r));
        }
        r
    }
}

impl DmaPort for Unwired {
    open spec fn dma_ran(before: &Self, a: Access, after: &Self) -> bool {
        after.seen() == before.seen().push(a) && after.lines() == before.lines()
    }

    fn dma_disable_request(&mut self, direction: Direction) {
        proof {
            self.seen@ = self.seen@.push(Access::DmaDisableRequest(direction));
        }
    }

    fn dma_clear_done(&mut self, direction: Direction) {
        proof {
            self.seen@ = self.seen@.push(Access::DmaClearDone(direction));
        }
    }

    fn dma_clear_interrupt(&mut self, direction: Direction) {
        proof {
            self.seen@ = self.seen@.push(Access::DmaClearInterrupt(direction));
        }
    }

    fn dma_set_request_source(&mut self, direction: Direction) {
        proof {
            self.seen@ = self.seen@.push(Access::DmaSetRequestSource(direction));
        }
    }

    fn dma_setup(&mut self, direction: Direction, port: usize, offset: usize, length: usize) -> (r: bool) {
        let r: bool = false;
        proof {
            self.seen@ = self.seen@.push(Access::DmaSetup(direction, port, offset, length, r));
        }
        r
    }

    fn dma_enable_request(&mut self, direction: Direction) {
        proof {
            self.seen@ = self.seen@.push(Access::DmaEnableRequest(direction));
        }
    }

    fn dma_barrier(&mut self) {
        proof {
            self.seen@ = self.seen@.push(Access::DmaBarrier);
        }
    }

    fn dma_quiesce(&mut self, direction: Direction) -> (r: bool) {
        let r: bool = false;
        proof {
            self.seen@ = self.seen@.push(Access::DmaQuiesce(direction, r));
        }
        r
    }

    fn dma_transferred_bytes(&mut self, direction: Direction) -> (r: usize) {
        let r: usize = 0;
        proof {
            self.seen@ = self.seen@.push(Access::DmaTransferredBytes(direction, r));
        }
        r
    }

    fn dma_is_done(&mut self, direction: Direction) -> (r: bool) {
        let r: bool = false;
        proof {
            self.seen@ = self.seen@.push(Access::DmaIsDone(direction, r));
        }
        r
    }
}

impl BusLines for Unwired {
    open spec fn lines_ran(before: &Self, event: LineEvent, after: &Self) -> bool {
        after.lines() == before.lines().push(event) && after.seen() == before.seen()
    }

    fn release_scl(&mut self) {
        proof {
            self.lines@ = self.lines@.push(LineEvent::ReleaseScl);
        }
    }

    fn drive_scl_low(&mut self) {
        proof {
            self.lines@ = self.lines@.push(LineEvent::LowScl);
        }
    }

    fn scl_is_high(&mut self) -> (r: bool) {
        let r: bool = true;
        proof {
            self.lines@ = self.lines@.push(LineEvent::Scl(r));
        }
        r
    }

    fn release_sda(&mut self) {
        proof {
            self.lines@ = self.lines@.push(LineEvent::ReleaseSda);
        }
    }

    fn drive_sda_low(&mut self) {
        proof {
            self.lines@ = self.lines@.push(LineEvent::LowSda);
        }
    }

    fn sda_is_high(&mut self) -> (r: bool) {
        let r: bool = true;
        proof {
            self.lines@ = self.lines@.push(LineEvent::Sda(r));
        }
        r
    }

    fn delay_us(&mut self, us: u32) {
        proof {
            self.lines@ = self.lines@.push(LineEvent::Delay(us));
        }
    }
}

} // verus!
