//! What a port is given and what comes back from it, call by call. See
//! [`crate::meaning::calls`].

use vstd::prelude::*;

use crate::bus_clear::{lines_led, BusClearError, BusLines, LineEvent, Lines};
use crate::controller::ControllerSetup;
use crate::controller_registers::{ControllerStatusError, HaltResolution};
use crate::lpi2c_regs::{Access, Direction, LpI2cRegisters};
use crate::laws::a_cleared_bus_has_sda_high;
use crate::meaning::lines::{a_bus_clear_clocks_nine_times_at_most, pulls, sda_is_given_nine_clocks};
use crate::unwired::Unwired;
use crate::words::{
    Mcfgr1, Mcr, Mder, Mfsr, Mier, Mrdr, Msr, Mtdr, Param, Samr, Sasr, Scfgr1, Scfgr2, Scr, Sder, Sier, Srdr, Ssr, Stdr,
};

verus! {

/// One access went through a register block: it reached the port as it stands in
/// the history, and nothing else did.
pub open spec fn passed(before: LpI2cRegisters<Unwired>, a: Access, after: LpI2cRegisters<Unwired>) -> bool {
    &&& after.log() == before.log().push(a)
    &&& after.port().seen() == before.port().seen().push(a)
}

/// Every access of a controller reaches the port with the value that it was
/// given, and returns the value that the port returned.
pub proof fn controller_accesses_pass(
    regs: &mut LpI2cRegisters<Unwired>,
    param: Param,
    mcr: Mcr,
    msr: Msr,
    mier: Mier,
    mder: Mder,
    mcfgr1: Mcfgr1,
    mfsr: Mfsr,
    mtdr: Mtdr,
    mrdr: Mrdr,
    error: ControllerStatusError,
    timeout: u64,
    deadline: u64,
    resolution: HaltResolution,
    setup: ControllerSetup,
)
    ensures
        call_ensures(LpI2cRegisters::<Unwired>::read_param, (regs,), param) ==> passed(
            *old(regs),
            Access::ReadParam(param),
            *final(regs),
        ),
        call_ensures(LpI2cRegisters::<Unwired>::read_mcr, (regs,), mcr) ==> passed(
            *old(regs),
            Access::ReadMcr(mcr),
            *final(regs),
        ),
        call_ensures(LpI2cRegisters::<Unwired>::write_mcr, (regs, mcr), ()) ==> passed(
            *old(regs),
            Access::WriteMcr(mcr),
            *final(regs),
        ),
        call_ensures(LpI2cRegisters::<Unwired>::read_msr, (regs,), msr) ==> passed(
            *old(regs),
            Access::ReadMsr(msr),
            *final(regs),
        ),
        call_ensures(LpI2cRegisters::<Unwired>::write_msr, (regs, msr), ()) ==> passed(
            *old(regs),
            Access::WriteMsr(msr),
            *final(regs),
        ),
        call_ensures(LpI2cRegisters::<Unwired>::read_mier, (regs,), mier) ==> passed(
            *old(regs),
            Access::ReadMier(mier),
            *final(regs),
        ),
        call_ensures(LpI2cRegisters::<Unwired>::write_mier, (regs, mier), ()) ==> passed(
            *old(regs),
            Access::WriteMier(mier),
            *final(regs),
        ),
        call_ensures(LpI2cRegisters::<Unwired>::read_mder, (regs,), mder) ==> passed(
            *old(regs),
            Access::ReadMder(mder),
            *final(regs),
        ),
        call_ensures(LpI2cRegisters::<Unwired>::write_mder, (regs, mder), ()) ==> passed(
            *old(regs),
            Access::WriteMder(mder),
            *final(regs),
        ),
        call_ensures(LpI2cRegisters::<Unwired>::read_mcfgr1, (regs,), mcfgr1) ==> passed(
            *old(regs),
            Access::ReadMcfgr1(mcfgr1),
            *final(regs),
        ),
        call_ensures(LpI2cRegisters::<Unwired>::read_mfsr, (regs,), mfsr) ==> passed(
            *old(regs),
            Access::ReadMfsr(mfsr),
            *final(regs),
        ),
        call_ensures(LpI2cRegisters::<Unwired>::write_mtdr, (regs, mtdr), ()) ==> passed(
            *old(regs),
            Access::WriteMtdr(mtdr),
            *final(regs),
        ),
        call_ensures(LpI2cRegisters::<Unwired>::read_mrdr, (regs,), mrdr) ==> passed(
            *old(regs),
            Access::ReadMrdr(mrdr),
            *final(regs),
        ),
        call_ensures(LpI2cRegisters::<Unwired>::resolve_halt, (regs, error, timeout, deadline), resolution) ==> passed(
            *old(regs),
            Access::ResolveHalt(error, timeout, deadline, resolution),
            *final(regs),
        ),
        call_ensures(LpI2cRegisters::<Unwired>::terminate_pin_low, (regs,), ()) ==> passed(
            *old(regs),
            Access::TerminatePinLow,
            *final(regs),
        ),
        call_ensures(LpI2cRegisters::<Unwired>::reset_engine, (regs,), ()) ==> passed(
            *old(regs),
            Access::ResetEngine,
            *final(regs),
        ),
        call_ensures(LpI2cRegisters::<Unwired>::apply_setup, (regs, setup), ()) ==> passed(
            *old(regs),
            Access::ApplySetup(setup),
            *final(regs),
        ),
{
}

/// So does every access of a target.
pub proof fn target_accesses_pass(
    regs: &mut LpI2cRegisters<Unwired>,
    scr: Scr,
    ssr: Ssr,
    sier: Sier,
    sder: Sder,
    scfgr1: Scfgr1,
    scfgr2: Scfgr2,
    samr: Samr,
    sasr: Sasr,
    stdr: Stdr,
    srdr: Srdr,
)
    ensures
        call_ensures(LpI2cRegisters::<Unwired>::read_scr, (regs,), scr) ==> passed(
            *old(regs),
            Access::ReadScr(scr),
            *final(regs),
        ),
        call_ensures(LpI2cRegisters::<Unwired>::write_scr, (regs, scr), ()) ==> passed(
            *old(regs),
            Access::WriteScr(scr),
            *final(regs),
        ),
        call_ensures(LpI2cRegisters::<Unwired>::read_ssr, (regs,), ssr) ==> passed(
            *old(regs),
            Access::ReadSsr(ssr),
            *final(regs),
        ),
        call_ensures(LpI2cRegisters::<Unwired>::write_ssr, (regs, ssr), ()) ==> passed(
            *old(regs),
            Access::WriteSsr(ssr),
            *final(regs),
        ),
        call_ensures(LpI2cRegisters::<Unwired>::read_sier, (regs,), sier) ==> passed(
            *old(regs),
            Access::ReadSier(sier),
            *final(regs),
        ),
        call_ensures(LpI2cRegisters::<Unwired>::write_sier, (regs, sier), ()) ==> passed(
            *old(regs),
            Access::WriteSier(sier),
            *final(regs),
        ),
        call_ensures(LpI2cRegisters::<Unwired>::read_sder, (regs,), sder) ==> passed(
            *old(regs),
            Access::ReadSder(sder),
            *final(regs),
        ),
        call_ensures(LpI2cRegisters::<Unwired>::write_sder, (regs, sder), ()) ==> passed(
            *old(regs),
            Access::WriteSder(sder),
            *final(regs),
        ),
        call_ensures(LpI2cRegisters::<Unwired>::read_scfgr1, (regs,), scfgr1) ==> passed(
            *old(regs),
            Access::ReadScfgr1(scfgr1),
            *final(regs),
        ),
        call_ensures(LpI2cRegisters::<Unwired>::write_scfgr1, (regs, scfgr1), ()) ==> passed(
            *old(regs),
            Access::WriteScfgr1(scfgr1),
            *final(regs),
        ),
        call_ensures(LpI2cRegisters::<Unwired>::read_scfgr2, (regs,), scfgr2) ==> passed(
            *old(regs),
            Access::ReadScfgr2(scfgr2),
            *final(regs),
        ),
        call_ensures(LpI2cRegisters::<Unwired>::write_scfgr2, (regs, scfgr2), ()) ==> passed(
            *old(regs),
            Access::WriteScfgr2(scfgr2),
            *final(regs),
        ),
        call_ensures(LpI2cRegisters::<Unwired>::write_samr, (regs, samr), ()) ==> passed(
            *old(regs),
            Access::WriteSamr(samr),
            *final(regs),
        ),
        call_ensures(LpI2cRegisters::<Unwired>::read_sasr, (regs,), sasr) ==> passed(
            *old(regs),
            Access::ReadSasr(sasr),
            *final(regs),
        ),
        call_ensures(LpI2cRegisters::<Unwired>::write_stdr, (regs, stdr), ()) ==> passed(
            *old(regs),
            Access::WriteStdr(stdr),
            *final(regs),
        ),
        call_ensures(LpI2cRegisters::<Unwired>::read_srdr, (regs,), srdr) ==> passed(
            *old(regs),
            Access::ReadSrdr(srdr),
            *final(regs),
        ),
{
}

/// And every one to a DMA channel.
pub proof fn dma_accesses_pass(
    regs: &mut LpI2cRegisters<Unwired>,
    direction: Direction,
    port: usize,
    offset: usize,
    length: usize,
    answer: bool,
    count: usize,
)
    ensures
        call_ensures(LpI2cRegisters::<Unwired>::dma_disable_request, (regs, direction), ()) ==> passed(
            *old(regs),
            Access::DmaDisableRequest(direction),
            *final(regs),
        ),
        call_ensures(LpI2cRegisters::<Unwired>::dma_clear_done, (regs, direction), ()) ==> passed(
            *old(regs),
            Access::DmaClearDone(direction),
            *final(regs),
        ),
        call_ensures(LpI2cRegisters::<Unwired>::dma_clear_interrupt, (regs, direction), ()) ==> passed(
            *old(regs),
            Access::DmaClearInterrupt(direction),
            *final(regs),
        ),
        call_ensures(LpI2cRegisters::<Unwired>::dma_set_request_source, (regs, direction), ()) ==> passed(
            *old(regs),
            Access::DmaSetRequestSource(direction),
            *final(regs),
        ),
        call_ensures(LpI2cRegisters::<Unwired>::dma_setup, (regs, direction, port, offset, length), answer) ==> passed(
            *old(regs),
            Access::DmaSetup(direction, port, offset, length, answer),
            *final(regs),
        ),
        call_ensures(LpI2cRegisters::<Unwired>::dma_enable_request, (regs, direction), ()) ==> passed(
            *old(regs),
            Access::DmaEnableRequest(direction),
            *final(regs),
        ),
        call_ensures(LpI2cRegisters::<Unwired>::dma_barrier, (regs,), ()) ==> passed(
            *old(regs),
            Access::DmaBarrier,
            *final(regs),
        ),
        call_ensures(LpI2cRegisters::<Unwired>::dma_quiesce, (regs, direction), answer) ==> passed(
            *old(regs),
            Access::DmaQuiesce(direction, answer),
            *final(regs),
        ),
        call_ensures(LpI2cRegisters::<Unwired>::dma_transferred_bytes, (regs, direction), count) ==> passed(
            *old(regs),
            Access::DmaTransferredBytes(direction, count),
            *final(regs),
        ),
        call_ensures(LpI2cRegisters::<Unwired>::dma_is_done, (regs, direction), answer) ==> passed(
            *old(regs),
            Access::DmaIsDone(direction, answer),
            *final(regs),
        ),
{
}

/// The clock and the mark of a recovery stand in the history and do not reach
/// the port.
pub proof fn marks_do_not_pass(regs: &mut LpI2cRegisters<Unwired>, tick: u64, budget: Ghost<u64>)
    ensures
        call_ensures(LpI2cRegisters::<Unwired>::now, (regs,), tick) ==> {
            &&& final(regs).log() == old(regs).log().push(Access::Now(tick))
            &&& final(regs).port() == old(regs).port()
        },
        call_ensures(LpI2cRegisters::<Unwired>::begin_recovery, (regs, budget), ()) ==> {
            &&& final(regs).log() == old(regs).log().push(Access::RecoveryBegin(budget@))
            &&& final(regs).port() == old(regs).port()
        },
{
}

proof fn lemma_led_by(before: Unwired, events: Seq<LineEvent>, after: Unwired)
    requires
        lines_led(before, events, after),
    ensures
        after.lines() == before.lines() + events,
    decreases events.len(),
{
    if events.len() == 0 {
        assert(before.lines() + events =~= before.lines());
    } else {
        let mid = choose|mid: Unwired|
            lines_led(before, events.drop_last(), mid) && #[trigger] <Unwired as BusLines>::lines_ran(
                &mid,
                events.last(),
                &after,
            );
        lemma_led_by(before, events.drop_last(), mid);
        assert((before.lines() + events.drop_last()).push(events.last()) =~= before.lines() + events);
    }
}

/// A bus clear does to the lines what its history says and nothing else. It
/// clocks them nine times at most, and once more for its STOP; it succeeds only
/// where SDA is high at its very end.
pub proof fn a_bus_clear_does_what_it_says(lines: &mut Lines<Unwired>, r: Result<(), BusClearError>)
    requires
        lines_led(old(lines).taken_over(), old(lines).log(), old(lines).held()),
        call_ensures(Lines::<Unwired>::clear, (lines,), r),
    ensures
        final(lines).held().lines() == old(lines).taken_over().lines() + final(lines).log(),
        pulls(old(lines).log()) <= pulls(final(lines).log()) <= pulls(old(lines).log()) + 10,
        r is Ok ==> final(lines).log().last() == LineEvent::Sda(true),
        r == Err::<(), BusClearError>(BusClearError::SdaHeldLow) ==> {
            let log = final(lines).log();
            let n = log.len() as int;
            ||| pulls(log) == pulls(old(lines).log()) + 9
            ||| n > 1 && log[n - 2] == LineEvent::Sda(true)
            ||| n > 2 && log[n - 3] is ReleaseSda
        },
{
    lemma_led_by(final(lines).taken_over(), final(lines).log(), final(lines).held());
    a_bus_clear_clocks_nine_times_at_most(old(lines).log(), final(lines).log(), r);
    if r is Ok {
        a_cleared_bus_has_sda_high(old(lines).log(), final(lines).log());
    }
    if r == Err::<(), BusClearError>(BusClearError::SdaHeldLow) {
        sda_is_given_nine_clocks(old(lines).log(), final(lines).log());
    }
}

} // verus!
