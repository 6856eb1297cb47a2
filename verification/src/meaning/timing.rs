//! What the timing fields, the watchdog and the deadlines of a controller come
//! to in time.

use vstd::arithmetic::div_mod::{lemma_div_denominator, lemma_fundamental_div_mod};
use vstd::arithmetic::power2::{lemma2_to64, pow2};
use vstd::prelude::*;

use crate::baud::{
    at_least_zero, best_prescale, clk_cycles, high_cycles, prescale_of, rate_error, scl_latency, scl_period, timing,
    viable, Prescale,
};
use crate::controller::{
    pin_low_count, setup_prepared, setup_times, ControllerSetup, PinLowTimeout, SetupError, Speed,
};
use crate::controller::dma::dma_bound;
use crate::laws::a_viable_period_is_not_cut;
use crate::ticks::deadline;

verus! {

/// A prescaler divides by two to the power of its encoding, each by twice as
/// much as the one before it.
pub proof fn a_prescaler_divides_by_a_power_of_two(p: Prescale)
    ensures
        0 <= p.exponent() < 8,
        p.divider() == pow2(p.exponent() as nat),
        prescale_of(p.exponent()) == p,
        Prescale::DivideBy1.divider() == 1,
        Prescale::DivideBy2.divider() == 2 * Prescale::DivideBy1.divider(),
        Prescale::DivideBy4.divider() == 2 * Prescale::DivideBy2.divider(),
        Prescale::DivideBy8.divider() == 2 * Prescale::DivideBy4.divider(),
        Prescale::DivideBy16.divider() == 2 * Prescale::DivideBy8.divider(),
        Prescale::DivideBy32.divider() == 2 * Prescale::DivideBy16.divider(),
        Prescale::DivideBy64.divider() == 2 * Prescale::DivideBy32.divider(),
        Prescale::DivideBy128.divider() == 2 * Prescale::DivideBy64.divider(),
{
    lemma2_to64();
}

/// `period` periods of `unit` come closest to `whole`: half a unit off at most.
pub open spec fn nearest(whole: int, unit: int, period: int) -> bool {
    (2 * period - 1) * unit <= 2 * whole < (2 * period + 1) * unit
}

/// Rounding in tenths finds the nearest whole number.
proof fn lemma_rounded(whole: int, d: int, rate: int, period: int)
    requires
        0 <= whole,
        0 < d,
        0 < rate,
    ensures
        0 < d * rate,
        nearest(whole, d * rate, period) <==> period == (10 * whole / d / rate + 5) / 10,
{
    let unit = d * rate;
    let tenths = 10 * whole / d / rate;
    assert(0 < unit) by (nonlinear_arith)
        requires
            0 < d,
            0 < rate,
            unit == d * rate,
    ;
    lemma_div_denominator(10 * whole, d, rate);
    lemma_fundamental_div_mod(10 * whole, unit);
    assert(tenths * unit <= 10 * whole < (tenths + 1) * unit) by (nonlinear_arith)
        requires
            10 * whole == unit * tenths + (10 * whole) % unit,
            0 <= (10 * whole) % unit < unit,
    ;
    if period == (tenths + 5) / 10 {
        assert(10 * period - 5 <= tenths && tenths + 1 <= 10 * period + 5);
        assert((10 * period - 5) * unit <= tenths * unit && (tenths + 1) * unit <= (10 * period + 5) * unit)
            by (nonlinear_arith)
            requires
                10 * period - 5 <= tenths,
                tenths + 1 <= 10 * period + 5,
                0 < unit,
        ;
        assert((10 * period - 5) * unit == 5 * ((2 * period - 1) * unit) && (10 * period + 5) * unit == 5 * ((2
            * period + 1) * unit)) by (nonlinear_arith);
    }
    if nearest(whole, unit, period) {
        assert((10 * period - 5) * unit == 5 * ((2 * period - 1) * unit) && (10 * period + 5) * unit == 5 * ((2
            * period + 1) * unit)) by (nonlinear_arith);
        assert(10 * period - 5 < tenths + 1 && tenths < 10 * period + 5) by (nonlinear_arith)
            requires
                (10 * period - 5) * unit <= 10 * whole < (10 * period + 5) * unit,
                tenths * unit <= 10 * whole < (tenths + 1) * unit,
                0 < unit,
        ;
    }
}

/// How many cycles of the prescaled clock one period of SCL takes, by the
/// programmed fields.
pub open spec fn programmed_period(setup: ControllerSetup) -> int {
    setup.clklo + setup.clkhi + 2 + 2int / (pow2(setup.prescale.exponent() as nat) as int)
}

/// Wherever a prescaler can serve a rate, the programmed period comes closest
/// to it: it is the whole number of cycles of the prescaled clock that is off
/// by half a cycle at most.
pub proof fn the_programmed_period_is_the_nearest(setup: ControllerSetup, input_hz: int, rate: int)
    requires
        0 <= input_hz,
        0 < rate,
        setup_times(setup, input_hz, rate),
        viable(input_hz, rate, setup.prescale),
    ensures
        nearest(input_hz, pow2(setup.prescale.exponent() as nat) * rate, programmed_period(setup)),
        3 <= programmed_period(setup) <= 122,
{
    let p = setup.prescale;
    a_prescaler_divides_by_a_power_of_two(p);
    assert(best_prescale(input_hz, rate, p)) by {
        assert(p.divider() > 0);
    }
    a_viable_period_is_not_cut(input_hz, rate, p);
    lemma_rounded(input_hz, p.divider(), rate, scl_period(input_hz, rate, p));
}

/// A prescaler whose nearest period the timing fields can hold is found, and
/// the one that is chosen yields a rate that is off by no more than that, and
/// by less where that one divides by less.
pub proof fn no_prescaler_comes_closer(setup: ControllerSetup, input_hz: int, rate: int, exponent: nat, period: int)
    requires
        0 <= input_hz <= u32::MAX,
        0 < rate < u32::MAX,
        setup_times(setup, input_hz, rate),
        exponent < 8,
        nearest(input_hz, pow2(exponent) * rate, period),
        3 + 2int / (pow2(exponent) as int) <= period <= 122,
    ensures
        viable(input_hz, rate, setup.prescale),
        ({
            let chosen = input_hz / (pow2(setup.prescale.exponent() as nat) as int) / programmed_period(setup);
            let other = input_hz / (pow2(exponent) as int) / period;
            let off = if chosen >= rate {
                chosen - rate
            } else {
                rate - chosen
            };
            let other_off = if other >= rate {
                other - rate
            } else {
                rate - other
            };
            &&& off <= other_off
            &&& exponent < setup.prescale.exponent() ==> off < other_off
        }),
{
    let q = prescale_of(exponent as int);
    let p = setup.prescale;
    a_prescaler_divides_by_a_power_of_two(q);
    a_prescaler_divides_by_a_power_of_two(p);
    assert(q.exponent() == exponent);
    lemma_rounded(input_hz, q.divider(), rate, period);
    assert(period == scl_period(input_hz, rate, q));
    assert(clk_cycles(input_hz, rate, q) + 2 + scl_latency(q) == period);
    let other = input_hz / q.divider() / period;
    assert(0 <= input_hz / q.divider() <= input_hz) by (nonlinear_arith)
        requires
            0 <= input_hz,
            1 <= q.divider(),
    ;
    let prescaled = input_hz / q.divider();
    assert(0 <= prescaled / period <= prescaled) by (nonlinear_arith)
        requires
            0 <= prescaled,
            1 <= period,
    ;
    assert(rate_error(input_hz, rate, q) < u32::MAX);
    assert(viable(input_hz, rate, q));
    assert(q.divider() > 0);
    assert(best_prescale(input_hz, rate, p));
    a_viable_period_is_not_cut(input_hz, rate, p);
    if exponent < p.exponent() {
        assert(q.divider() < p.divider()) by {
            lemma2_to64();
        }
    }
}

/// Where no prescaler can serve a rate, the period is left empty and the clock
/// undivided.
pub proof fn a_rate_that_cannot_be_served_gets_no_period(setup: ControllerSetup, input_hz: int, rate: int)
    requires
        setup_times(setup, input_hz, rate),
        !viable(input_hz, rate, setup.prescale),
        0 <= input_hz,
        0 < rate,
    ensures
        setup.prescale.exponent() == 0,
        setup.clklo == 0,
        setup.clkhi == 0,
{
    assert(high_cycles(input_hz, rate, Prescale::DivideBy1, 0) == 0);
    assert(timing(input_hz, rate, Prescale::DivideBy1, 0).0 == 0);
}

/// Of the cycles that the two phases share, the high phase gets half, less the
/// latency, unless the low phase would then fall short of the bus-free time.
pub proof fn the_phases_share_the_period(setup: ControllerSetup, input_hz: int, rate: int)
    requires
        0 <= input_hz,
        0 < rate,
        setup_times(setup, input_hz, rate),
        viable(input_hz, rate, setup.prescale),
    ensures
        ({
            let d = pow2(setup.prescale.exponent() as nat) as int;
            let bus_free = 13 * input_hz / rate / d / 25;
            let shared = setup.clklo + setup.clkhi - 2int / d;
            &&& setup.clklo >= setup.clkhi
            &&& shared >= 0 ==> 2 * setup.clkhi <= shared
            &&& {
                ||| shared < 2 * setup.clkhi + 2
                ||| setup.clklo == bus_free - 1
                ||| setup.clkhi == 1 && setup.clklo + 1 < bus_free
            }
        }),
{
    let p = setup.prescale;
    a_prescaler_divides_by_a_power_of_two(p);
    assert(best_prescale(input_hz, rate, p)) by {
        assert(p.divider() > 0);
    }
    a_viable_period_is_not_cut(input_hz, rate, p);
}

/// Set-up and hold take half of the period and data becomes valid within a
/// quarter of it, each less the cycle that the hardware adds, and rounded
/// down.
pub proof fn set_up_and_hold_take_half_a_period(setup: ControllerSetup, input_hz: int, rate: int)
    requires
        0 <= input_hz,
        0 < rate,
        setup_times(setup, input_hz, rate),
        viable(input_hz, rate, setup.prescale),
    ensures
        ({
            let unit = pow2(setup.prescale.exponent() as nat) * rate;
            let half = setup.sethold + 1;
            let quarter = setup.datavd + 1;
            &&& 2 * unit <= input_hz ==> 2 * half * unit <= input_hz
            &&& input_hz < 2 * (half + 1) * unit
            &&& 4 * unit <= input_hz ==> 4 * quarter * unit <= input_hz
            &&& input_hz < 4 * (quarter + 1) * unit
            &&& input_hz < 2 * unit ==> setup.sethold == 0
            &&& input_hz < 4 * unit ==> setup.datavd == 0
        }),
{
    let p = setup.prescale;
    a_prescaler_divides_by_a_power_of_two(p);
    assert(best_prescale(input_hz, rate, p)) by {
        assert(p.divider() > 0);
    }
    a_viable_period_is_not_cut(input_hz, rate, p);
    let unit = p.divider() * rate;
    let ratio = input_hz / rate / p.divider();
    assert(rate * p.divider() == unit && 0 < unit) by (nonlinear_arith)
        requires
            unit == p.divider() * rate,
            0 < rate,
            0 < p.divider(),
    ;
    lemma_div_denominator(input_hz, rate, p.divider());
    lemma_fundamental_div_mod(input_hz, unit);
    assert(ratio * unit <= input_hz < (ratio + 1) * unit) by (nonlinear_arith)
        requires
            input_hz == unit * ratio + input_hz % unit,
            0 <= input_hz % unit < unit,
    ;
    lemma_part(input_hz, unit, ratio, 2);
    lemma_part(input_hz, unit, ratio, 4);
}

proof fn lemma_part(whole: int, unit: int, ratio: int, parts: int)
    requires
        0 <= whole,
        0 < unit,
        0 < parts,
        ratio * unit <= whole < (ratio + 1) * unit,
    ensures
        0 <= ratio,
        ({
            let part = at_least_zero(ratio / parts - 1) + 1;
            &&& parts * unit <= whole ==> parts * part * unit <= whole
            &&& whole < parts * (part + 1) * unit
            &&& whole < parts * unit ==> part == 1
        }),
{
    assert(0 <= ratio) by (nonlinear_arith)
        requires
            0 <= whole < (ratio + 1) * unit,
            0 < unit,
    ;
    let k = ratio / parts;
    lemma_fundamental_div_mod(ratio, parts);
    assert(parts * k <= ratio < parts * (k + 1)) by (nonlinear_arith)
        requires
            ratio == parts * k + ratio % parts,
            0 <= ratio % parts < parts,
    ;
    assert(parts * k * unit <= whole) by (nonlinear_arith)
        requires
            parts * k <= ratio,
            ratio * unit <= whole,
            0 < unit,
    ;
    assert(whole < parts * (k + 1) * unit) by (nonlinear_arith)
        requires
            ratio + 1 <= parts * (k + 1),
            whole < (ratio + 1) * unit,
            0 < unit,
    ;
    assert(0 <= k) by (nonlinear_arith)
        requires
            0 <= ratio,
            ratio < parts * (k + 1),
            0 < parts,
    ;
    if k == 0 {
        assert(whole < parts * 2 * unit && parts * (0 + 1) * unit == parts * unit) by (nonlinear_arith)
            requires
                whole < parts * (0 + 1) * unit,
                0 < parts,
                0 < unit,
        ;
    } else {
        assert(parts * unit <= parts * k * unit) by (nonlinear_arith)
            requires
                1 <= k,
                0 < parts,
                0 < unit,
        ;
    }
}

/// The watchdog lasts at least as long as the caller asked for, and one count
/// less would not. A time that it cannot last is rejected.
pub proof fn the_watchdog_lasts_as_long_as_asked(
    input_hz: u32,
    speed: Speed,
    micros: u64,
    r: Result<ControllerSetup, SetupError>,
)
    requires
        setup_prepared(input_hz, speed, PinLowTimeout::Enabled(micros), r),
    ensures
        r matches Ok(setup) ==> {
            let count = 256 * (pow2(setup.prescale.exponent() as nat) as int) * 1_000_000;
            &&& 1 <= setup.pinlow <= 0xfff
            &&& (setup.pinlow - 1) * count < micros * input_hz <= setup.pinlow * count
        },
        r is Err ==> forall|setup: ControllerSetup| #[trigger]
            setup_times(setup, input_hz as int, speed.bit_rate() as int) ==> {
                let count = 256 * (pow2(setup.prescale.exponent() as nat) as int) * 1_000_000;
                micros * input_hz == 0 || micros * input_hz > 0xfff * count
            },
{
    let cycles = micros * input_hz;
    assert(0 <= cycles) by (nonlinear_arith)
        requires
            0 <= micros,
            0 <= input_hz,
            cycles == micros * input_hz,
    ;
    match r {
        Ok(setup) => {
            lemma_watchdog(setup.prescale, micros as int, input_hz as int);
        },
        Err(_) => {
            assert forall|setup: ControllerSetup| #[trigger]
                setup_times(setup, input_hz as int, speed.bit_rate() as int) implies ({
                let count = 256 * (pow2(setup.prescale.exponent() as nat) as int) * 1_000_000;
                micros * input_hz == 0 || micros * input_hz > 0xfff * count
            }) by {
                lemma_watchdog(setup.prescale, micros as int, input_hz as int);
                let unit = 256 * (pow2(setup.prescale.exponent() as nat) as int) * 1_000_000;
                let n = pin_low_count(input_hz as int, setup.prescale, micros as int);
                if n >= 1 {
                    assert(0xfff * unit <= (n - 1) * unit) by (nonlinear_arith)
                        requires
                            n > 0xfff,
                            0 < unit,
                    ;
                } else {
                    assert(cycles <= 0) by (nonlinear_arith)
                        requires
                            n <= 0,
                            0 < unit,
                            cycles <= n * unit,
                    ;
                }
            }
        },
    }
}

proof fn lemma_watchdog(p: Prescale, micros: int, input_hz: int)
    ensures
        ({
            let unit = 256 * (pow2(p.exponent() as nat) as int) * 1_000_000;
            let n = pin_low_count(input_hz, p, micros);
            &&& 0 < unit
            &&& (n - 1) * unit < micros * input_hz <= n * unit
        }),
{
    a_prescaler_divides_by_a_power_of_two(p);
    let unit = 256 * (pow2(p.exponent() as nat) as int) * 1_000_000;
    let cycles = micros * input_hz;
    let n = pin_low_count(input_hz, p, micros);
    assert(n == (cycles + unit - 1) / unit);
    lemma_fundamental_div_mod(cycles + unit - 1, unit);
    assert((n - 1) * unit < cycles <= n * unit) by (nonlinear_arith)
        requires
            cycles + unit - 1 == unit * n + (cycles + unit - 1) % unit,
            0 <= (cycles + unit - 1) % unit < unit,
    ;
}

/// A deadline passes once more ticks went by than were granted, and not before.
pub proof fn a_deadline_passes_behind_its_timeout(start: u64, timeout: u64, now: u64)
    requires
        start <= now,
    ensures
        now > deadline(start, timeout) <==> now - start > timeout,
{
}

/// A DMA transfer may take the transfer timeout and a millisecond more for each
/// of its bytes.
pub proof fn a_dma_transfer_has_a_millisecond_for_each_byte(timeout: u64, length: usize)
    requires
        timeout + 1_000 * length <= u64::MAX,
    ensures
        dma_bound(timeout, length) == timeout + 1_000 * length,
{
}

} // verus!
