//! What the calls that set a controller up do, and the small ones that others
//! rest on. See [`crate::meaning::calls`].

use vstd::arithmetic::power2::pow2;
use vstd::prelude::*;

use crate::baud::{compute_baud_params, viable, Prescale};
use crate::clocks::{ClockError, Div4};
use crate::controller::{
    setup_prepared, Config, ControllerSetup, ErrorKind, IOError, I2c, PinLowTimeout, SetupError, Speed, SupportedSpeed,
};
use crate::controller_registers::{
    halt_step, ControllerStatus, ControllerStatusError, HaltResolution, HaltStep, StartAction,
};
use crate::dma::next_chunk;
use crate::lpi2c_regs::{check_layout, Access, ControllerPort, MappedAddresses};
use crate::meaning::flags::clean;
use crate::meaning::timing::{
    a_prescaler_divides_by_a_power_of_two, nearest, no_prescaler_comes_closer, programmed_period,
    set_up_and_hold_take_half_a_period, the_phases_share_the_period, the_programmed_period_is_the_nearest,
    the_watchdog_lasts_as_long_as_asked,
};
use crate::ticks::deadline_after;
use crate::words::{Mcfgr1, Mfsr, Msr};

verus! {

/// The nominal rates, in hertz.
pub open spec fn nominal_rate(speed: Speed) -> int {
    match speed {
        Speed::Standard => 100_000,
        Speed::Fast => 400_000,
        Speed::FastPlus => 1_000_000,
        Speed::UltraFast => 3_400_000,
    }
}

/// `supported` admits every speed but the high-speed one, at its nominal rate.
pub proof fn supported_speeds_have_their_rates(speed: Speed, r: Result<SupportedSpeed, SetupError>, hz: u32)
    requires
        call_ensures(Speed::supported, (speed,), r),
    ensures
        r is Ok <==> speed != Speed::UltraFast,
        r matches Ok(s) ==> call_ensures(SupportedSpeed::hertz, (s,), hz) ==> hz == nominal_rate(speed),
        r matches Err(e) ==> e == SetupError::UnsupportedSpeed,
{
}

/// `divide_by` divides by two to the power of the prescaler's encoding.
pub proof fn divide_by_divides_by_a_power_of_two(p: Prescale, r: u32)
    requires
        call_ensures(Prescale::divide_by, (p,), r),
    ensures
        r == pow2(p.exponent() as nat),
{
    a_prescaler_divides_by_a_power_of_two(p);
}

/// `compute_baud_params` finds a prescaler for every rate that one can serve,
/// and then a period that is the nearest to the wanted one, shared by the two
/// phases, with set-up, hold and data valid in their places.
pub proof fn compute_baud_params_meets_the_rate(
    input_hz: u32,
    rate: u32,
    r: (Prescale, u8, u8, u8, u8),
    exponent: nat,
    period: int,
)
    requires
        call_ensures(compute_baud_params, (input_hz, rate), r),
        0 < rate < u32::MAX,
        exponent < 8,
        nearest(input_hz as int, pow2(exponent) * rate, period),
        3 + 2int / (pow2(exponent) as int) <= period <= 122,
    ensures
        ({
            let d = pow2(r.0.exponent() as nat) as int;
            let programmed = r.1 + r.2 + 2 + 2int / d;
            let half = r.3 + 1;
            let quarter = r.4 + 1;
            let chosen = input_hz as int / d / programmed;
            let other = input_hz as int / (pow2(exponent) as int) / period;
            &&& nearest(input_hz as int, d * rate, programmed)
            &&& r.2 <= r.1
            &&& 2 * d * rate <= input_hz ==> 2 * half * (d * rate) <= input_hz
            &&& input_hz < 2 * (half + 1) * (d * rate)
            &&& 4 * d * rate <= input_hz ==> 4 * quarter * (d * rate) <= input_hz
            &&& input_hz < 4 * (quarter + 1) * (d * rate)
            &&& (if chosen >= rate {
                chosen - rate
            } else {
                rate - chosen
            }) <= (if other >= rate {
                other - rate
            } else {
                rate - other
            })
        }),
{
    let setup = ControllerSetup { prescale: r.0, clklo: r.1, clkhi: r.2, sethold: r.3, datavd: r.4, pinlow: 0 };
    let hz = input_hz as int;
    let baud = rate as int;
    let d = pow2(r.0.exponent() as nat) as int;
    a_prescaler_divides_by_a_power_of_two(r.0);
    no_prescaler_comes_closer(setup, hz, baud, exponent, period);
    the_programmed_period_is_the_nearest(setup, hz, baud);
    the_phases_share_the_period(setup, hz, baud);
    set_up_and_hold_take_half_a_period(setup, hz, baud);
    assert(2 * d * rate == 2 * (d * rate)) by (nonlinear_arith);
    assert(4 * d * rate == 4 * (d * rate)) by (nonlinear_arith);
}

/// `construction_setup` prepares the controller for the clock that the clock
/// tree reports: the period of the wanted speed, and a watchdog that lasts as
/// long as was asked for, or none.
pub proof fn construction_setup_meets_the_speed<H: ControllerPort>(
    config: Config,
    hz: u32,
    setup: ControllerSetup,
)
    requires
        call_ensures(
            I2c::<H>::construction_setup,
            (&config, Some(Ok::<u32, ClockError>(hz))),
            Ok::<ControllerSetup, SetupError>(setup),
        ),
    ensures
        config.speed != Speed::UltraFast,
        prepared_for(setup, hz, config.speed, config.pin_low_timeout),
{
    lemma_prepared_for(setup, hz, config.speed, config.pin_low_timeout);
}

/// The setup times the bus for a speed, wherever a prescaler can serve it, and
/// has the watchdog that was asked for.
pub open spec fn prepared_for(setup: ControllerSetup, hz: u32, speed: Speed, watchdog: PinLowTimeout) -> bool {
    let d = pow2(setup.prescale.exponent() as nat) as int;
    &&& viable(hz as int, nominal_rate(speed), setup.prescale) ==> nearest(
        hz as int,
        d * nominal_rate(speed),
        programmed_period(setup),
    )
    &&& watchdog is Disabled ==> setup.pinlow == 0
    &&& watchdog matches PinLowTimeout::Enabled(micros) ==> {
        &&& 1 <= setup.pinlow <= 0xfff
        &&& (setup.pinlow - 1) * (256 * d * 1_000_000) < micros * hz <= setup.pinlow * (256 * d * 1_000_000)
    }
}

proof fn lemma_prepared_for(setup: ControllerSetup, hz: u32, speed: Speed, watchdog: PinLowTimeout)
    requires
        setup_prepared(hz, speed, watchdog, Ok(setup)),
    ensures
        prepared_for(setup, hz, speed, watchdog),
{
    let rate = speed.bit_rate() as int;
    assert(rate == nominal_rate(speed));
    if viable(hz as int, rate, setup.prescale) {
        the_programmed_period_is_the_nearest(setup, hz as int, rate);
    }
    if let PinLowTimeout::Enabled(micros) = watchdog {
        the_watchdog_lasts_as_long_as_asked(hz, speed, micros, Ok(setup));
    }
}

/// `construction_setup` says why it fails: a speed that is not supported, or
/// what the clock tree said.
pub proof fn construction_setup_says_why_it_fails<H: ControllerPort>(
    config: Config,
    clock: Option<Result<u32, ClockError>>,
    r: Result<ControllerSetup, SetupError>,
)
    requires
        call_ensures(I2c::<H>::construction_setup, (&config, clock), r),
    ensures
        config.speed == Speed::UltraFast ==> r == Err::<ControllerSetup, SetupError>(SetupError::UnsupportedSpeed),
        config.speed != Speed::UltraFast && clock is None ==> r == Err::<ControllerSetup, SetupError>(
            SetupError::ClockSetup(ClockError::NeverInitialized),
        ),
        config.speed != Speed::UltraFast ==> (clock matches Some(Err(e)) ==> r == Err::<ControllerSetup, SetupError>(
            SetupError::ClockSetup(e),
        )),
        config.speed != Speed::UltraFast && config.pin_low_timeout is Disabled ==> (clock matches Some(Ok(_)) ==> r is
            Ok),
{
}

/// `new_inner` hands the prepared setup to the hardware as it is and keeps the
/// caller's choices.
pub proof fn new_inner_applies_the_setup<H: ControllerPort>(
    hw: H,
    base: usize,
    config: Config,
    setup: ControllerSetup,
    freq: u32,
    r: I2c<H>,
)
    requires
        call_ensures(I2c::<H>::new_inner, (hw, base, &config, setup, freq), r),
    ensures
        r.log().len() == 1,
        r.log()[0] == Access::ApplySetup(setup),
        r.allows_chunks() == config.allow_chunked_reads,
        r.budget() == config.transfer_timeout,
        r.clock_hz() == freq,
        r.block() == base,
        !r.session_open(),
{
}

/// `set_config` applies a setup for the new speed and takes the caller's choices
/// over, or changes nothing.
pub proof fn set_config_applies_all_or_nothing<H: ControllerPort>(
    i2c: &mut I2c<H>,
    config: Config,
    r: Result<(), SetupError>,
)
    requires
        call_ensures(I2c::<H>::set_config, (i2c, &config), r),
    ensures
        r is Ok ==> {
            let n = old(i2c).log().len() as int;
            let log = final(i2c).log();
            &&& config.speed != Speed::UltraFast
            &&& log.len() == n + 1
            &&& log[n] matches Access::ApplySetup(setup) && prepared_for(
                setup,
                old(i2c).clock_hz(),
                config.speed,
                config.pin_low_timeout,
            )
            &&& final(i2c).allows_chunks() == config.allow_chunked_reads
            &&& final(i2c).budget() == config.transfer_timeout
        },
        r is Err ==> {
            &&& final(i2c).log() == old(i2c).log()
            &&& final(i2c).allows_chunks() == old(i2c).allows_chunks()
            &&& final(i2c).budget() == old(i2c).budget()
        },
        final(i2c).clock_hz() == old(i2c).clock_hz(),
        config.speed == Speed::UltraFast ==> r == Err::<(), SetupError>(SetupError::UnsupportedSpeed),
{
    if r is Ok {
        let setup = final(i2c).log()[old(i2c).log().len() as int]->ApplySetup_0;
        lemma_prepared_for(setup, old(i2c).clock_hz(), config.speed, config.pin_low_timeout);
    }
}

/// A configuration that nobody chose is atomic, has no watchdog, waits a tenth
/// of a second and runs at standard speed.
pub proof fn the_default_configuration_is_cautious(r: Config)
    requires
        call_ensures(<Config as Default>::default, (), r),
    ensures
        r.speed == Speed::Standard,
        !r.allow_chunked_reads,
        r.pin_low_timeout is Disabled,
        r.transfer_timeout == 100_000,
        r.clock_config.div.divisor() == 1,
{
}

/// `deadline_after` grants the whole timeout, or all the time there is.
pub proof fn deadline_after_grants_the_timeout(start: u64, timeout: u64, r: u64)
    requires
        call_ensures(deadline_after, (start, timeout), r),
    ensures
        r == start + timeout || r == u64::MAX && start + timeout > u64::MAX,
{
}

/// `next_chunk` goes on by as much as the engine takes, and ends with the
/// buffer.
pub proof fn next_chunk_goes_on_to_the_end(total: usize, from: usize, max_transfer: usize, r: (usize, bool))
    requires
        call_ensures(next_chunk, (total, from, max_transfer), r),
        from <= total,
    ensures
        r.1 <==> r.0 == total,
        total - from <= max_transfer ==> r.0 == total,
        total - from > max_transfer ==> r.0 == from + max_transfer,
{
}

/// `halt_step` goes by what was seen.
pub proof fn halt_step_goes_by_what_was_seen(status: Msr, config: Mcfgr1, fifo: Mfsr, late: bool, r: HaltStep)
    requires
        call_ensures(halt_step, (status, config, fifo, late), r),
    ensures
        r == HaltStep::Terminate <==> status.pltf,
        r == HaltStep::Discard(HaltResolution::Settled) <==> !status.pltf && !status.mbf,
        r == HaltStep::Wait <==> !status.pltf && status.mbf && !late && (config.autostop || fifo.txcount > 0),
        r == HaltStep::Discard(HaltResolution::NeedsManualClose) <==> !status.pltf && status.mbf && (late
            || !config.autostop && fifo.txcount == 0),
{
}

/// Errors keep their names: from the status to the driver's error and on to its
/// portable class.
pub proof fn errors_keep_their_names(
    msr: Msr,
    status: ControllerStatus,
    fault: Option<ControllerStatusError>,
    error: IOError,
    kind: ErrorKind,
)
    requires
        call_ensures(ControllerStatus::from_snapshot, (&msr,), status),
        call_ensures(ControllerStatus::error, (status,), fault),
        fault matches Some(fault) ==> call_ensures(IOError::from_status, (fault,), error),
        call_ensures(IOError::kind, (&error,), kind),
    ensures
        fault is None <==> clean(msr),
        msr.ndf ==> error == IOError::AddressNack && kind == ErrorKind::NoAcknowledgeAddress,
        !msr.ndf && msr.alf ==> error == IOError::ArbitrationLoss && kind == ErrorKind::ArbitrationLoss,
        !msr.ndf && !msr.alf && msr.fef ==> error == IOError::FifoError && kind == ErrorKind::Other,
        !msr.ndf && !msr.alf && !msr.fef && msr.pltf ==> error == IOError::PinLowTimeout && kind == ErrorKind::Other,
{
}

/// A START is admitted for seven-bit addresses alone.
pub proof fn a_start_takes_seven_bits(address: u8, read: bool, r: Option<StartAction>)
    requires
        call_ensures(StartAction::new, (address, read), r),
    ensures
        r is Some <==> address <= 0x7f,
        r matches Some(action) ==> action.target() == address && action.reads() == read,
{
}

/// `check_layout` accepts a map whose halves are alike and begin where they
/// should, and no other.
pub proof fn check_layout_finds_drift(base: usize, pac: MappedAddresses, r: bool)
    requires
        call_ensures(check_layout, (base, &pac), r),
        base <= usize::MAX - 0x174,
    ensures
        r <==> {
            &&& pac.param == base + 4
            &&& pac.mcr == pac.param + 0xc
            &&& pac.msr == pac.mcr + 4
            &&& pac.mier == pac.msr + 4
            &&& pac.mder == pac.mier + 4
            &&& pac.mcfgr1 == pac.mder + 8
            &&& pac.mfsr == pac.mcfgr1 + 0x38
            &&& pac.mtdr == pac.mfsr + 4
            &&& pac.mrdr == pac.mtdr + 0x10
            &&& pac.scr == pac.mcr + 0x100
            &&& pac.ssr == pac.msr + 0x100
            &&& pac.sier == pac.mier + 0x100
            &&& pac.sder == pac.mder + 0x100
            &&& pac.sasr == pac.stdr - 0x10
            &&& pac.stdr == pac.mtdr + 0x100
            &&& pac.srdr == pac.mrdr + 0x100
        },
{
}

/// An undivided clock has a divider field of zero.
pub proof fn no_division_is_a_zero_field(d: Div4, r: u8)
    requires
        call_ensures(Div4::no_div, (), d),
        call_ensures(Div4::bits, (d,), r),
    ensures
        r == 0,
        d.divisor() == 1,
{
}

} // verus!
