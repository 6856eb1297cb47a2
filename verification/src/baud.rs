//! Bus timing of the controller, from its input clock and the wanted rate.

use vstd::prelude::*;

verus! {

/// The LPI2C clock prescaler.
#[derive(Clone, Copy, Debug, PartialEq, Eq, Structural)]
pub enum Prescale {
    DivideBy1,
    DivideBy2,
    DivideBy4,
    DivideBy8,
    DivideBy16,
    DivideBy32,
    DivideBy64,
    DivideBy128,
}

/// The prescaler with the given exponent of two.
pub open spec fn prescale_of(exponent: int) -> Prescale {
    if exponent == 0 {
        Prescale::DivideBy1
    } else if exponent == 1 {
        Prescale::DivideBy2
    } else if exponent == 2 {
        Prescale::DivideBy4
    } else if exponent == 3 {
        Prescale::DivideBy8
    } else if exponent == 4 {
        Prescale::DivideBy16
    } else if exponent == 5 {
        Prescale::DivideBy32
    } else if exponent == 6 {
        Prescale::DivideBy64
    } else {
        Prescale::DivideBy128
    }
}

impl Prescale {
    /// What this prescaler divides its input clock by.
    pub open spec fn divider(self) -> int {
        match self {
            Prescale::DivideBy1 => 1,
            Prescale::DivideBy2 => 2,
            Prescale::DivideBy4 => 4,
            Prescale::DivideBy8 => 8,
            Prescale::DivideBy16 => 16,
            Prescale::DivideBy32 => 32,
            Prescale::DivideBy64 => 64,
            Prescale::DivideBy128 => 128,
        }
    }

    /// The exponent of two that this prescaler divides by.
    pub open spec fn exponent(self) -> int {
        match self {
            Prescale::DivideBy1 => 0,
            Prescale::DivideBy2 => 1,
            Prescale::DivideBy4 => 2,
            Prescale::DivideBy8 => 3,
            Prescale::DivideBy16 => 4,
            Prescale::DivideBy32 => 5,
            Prescale::DivideBy64 => 6,
            Prescale::DivideBy128 => 7,
        }
    }

    /// Computes [`Prescale::divider`].
    pub fn divide_by(self) -> (r: u32)
        ensures
            r == self.divider(),
            1 <= r <= 128,
    {
        match self {
            Prescale::DivideBy1 => 1,
            Prescale::DivideBy2 => 2,
            Prescale::DivideBy4 => 4,
            Prescale::DivideBy8 => 8,
            Prescale::DivideBy16 => 16,
            Prescale::DivideBy32 => 32,
            Prescale::DivideBy64 => 64,
            Prescale::DivideBy128 => 128,
        }
    }

    fn with_exponent(exponent: u32) -> (r: Self)
        requires
            exponent < 8,
        ensures
            r == prescale_of(exponent as int),
    {
        match exponent {
            0 => Prescale::DivideBy1,
            1 => Prescale::DivideBy2,
            2 => Prescale::DivideBy4,
            3 => Prescale::DivideBy8,
            4 => Prescale::DivideBy16,
            5 => Prescale::DivideBy32,
            6 => Prescale::DivideBy64,
            _ => Prescale::DivideBy128,
        }
    }
}

/// SCL synchronisation latency behind the prescaler, in cycles.
pub open spec fn scl_latency(p: Prescale) -> int {
    2int / p.divider()
}

/// The SCL period behind the prescaler, rounded to the nearest cycle.
pub open spec fn scl_period(src_hz: int, baud_hz: int, p: Prescale) -> int {
    (10 * src_hz / p.divider() / baud_hz + 5) / 10
}

/// The cycles that are left of the period for the high and low phases.
pub open spec fn clk_cycles(src_hz: int, baud_hz: int, p: Prescale) -> int {
    scl_period(src_hz, baud_hz, p) - (scl_latency(p) + 2)
}

pub open spec fn abs_diff(a: int, b: int) -> int {
    if a >= b {
        a - b
    } else {
        b - a
    }
}

/// How far the rate that the prescaler yields is off the wanted one.
pub open spec fn rate_error(src_hz: int, baud_hz: int, p: Prescale) -> int {
    abs_diff((src_hz / p.divider()) / (clk_cycles(src_hz, baud_hz, p) + 2 + scl_latency(p)), baud_hz)
}

/// The prescaler leaves a period that the timing fields can hold, and an
/// error that can be improved on.
pub open spec fn viable(src_hz: int, baud_hz: int, p: Prescale) -> bool {
    &&& 0 < clk_cycles(src_hz, baud_hz, p) <= 120 - scl_latency(p)
    &&& rate_error(src_hz, baud_hz, p) < u32::MAX
}

/// The viable prescaler with the smallest rate error; of several, the
/// smallest divider.
pub open spec fn best_prescale(src_hz: int, baud_hz: int, p: Prescale) -> bool {
    &&& viable(src_hz, baud_hz, p)
    &&& forall|q: Prescale|
        #![trigger q.divider()]
        viable(src_hz, baud_hz, q) ==> {
            &&& rate_error(src_hz, baud_hz, p) <= rate_error(src_hz, baud_hz, q)
            &&& q.divider() < p.divider() ==> rate_error(src_hz, baud_hz, p) < rate_error(src_hz, baud_hz, q)
        }
}

/// The prescaler of a rate is always the same: [`best_prescale`] leaves no
/// choice.
pub proof fn best_prescale_is_unique(src_hz: int, baud_hz: int, p: Prescale, q: Prescale)
    requires
        best_prescale(src_hz, baud_hz, p),
        best_prescale(src_hz, baud_hz, q),
    ensures
        p == q,
{
    assert(p.divider() <= q.divider() || q.divider() <= p.divider());
}

pub open spec fn none_viable(src_hz: int, baud_hz: int) -> bool {
    forall|q: Prescale| #![trigger q.divider()] !viable(src_hz, baud_hz, q)
}

pub open spec fn at_least_zero(x: int) -> int {
    if x < 0 {
        0
    } else {
        x
    }
}

/// The high phase: half of the cycles less the latency, but never so long
/// that the bus-free time falls below 0.52 of the period.
pub open spec fn high_cycles(src_hz: int, baud_hz: int, p: Prescale, cycles: int) -> int {
    let half = at_least_zero(cycles - scl_latency(p)) / 2;
    let limit = at_least_zero(cycles - 13 * src_hz / baud_hz / p.divider() / 25) + 1;
    if half > limit {
        limit
    } else {
        half
    }
}

/// The timing fields for a prescaler and its cycles: low and high phase,
/// set-up and hold (about half of the period) and data valid (about a
/// quarter), each cut to the width of its field.
pub open spec fn timing(src_hz: int, baud_hz: int, p: Prescale, cycles: int) -> (int, int, int, int) {
    let high = high_cycles(src_hz, baud_hz, p, cycles);
    let ratio = src_hz / baud_hz;
    (
        (cycles - high) % 64,
        high % 64,
        at_least_zero(ratio / p.divider() / 2 - 1) % 64,
        at_least_zero(ratio / p.divider() / 4 - 1) % 256,
    )
}

/// Computes the prescaler and the timing fields for a bus rate: the
/// prescaler whose rate comes closest, and the fields derived from it. Where
/// no prescaler is viable, the fields are those of an empty period without
/// prescaling.
pub fn compute_baud_params(src_hz: u32, baud_hz: u32) -> (r: (Prescale, u8, u8, u8, u8))
    requires
        13 * src_hz <= u32::MAX,
        0 < baud_hz,
    ensures
        best_prescale(src_hz as int, baud_hz as int, r.0) || (none_viable(src_hz as int, baud_hz as int) && r.0
            == Prescale::DivideBy1),
        ({
            let cycles = if best_prescale(src_hz as int, baud_hz as int, r.0) {
                clk_cycles(src_hz as int, baud_hz as int, r.0)
            } else {
                0
            };
            (r.1 as int, r.2 as int, r.3 as int, r.4 as int) == timing(src_hz as int, baud_hz as int, r.0, cycles)
        }),
{
    let ghost src = src_hz as int;
    let ghost baud = baud_hz as int;
    let mut best_prescale: Prescale = Prescale::DivideBy1;
    let mut best_cycles: u32 = 0;
    let mut best_error: u32 = u32::MAX;
    let mut exponent: u32 = 0;
    while exponent < 8
        invariant
            exponent <= 8,
            13 * src_hz <= u32::MAX,
            0 < baud_hz,
            src == src_hz,
            baud == baud_hz,
            best_error == u32::MAX ==> best_prescale == Prescale::DivideBy1 && best_cycles == 0,
            best_error == u32::MAX ==> forall|e: int|
                0 <= e < exponent ==> !viable(src, baud, #[trigger] prescale_of(e)),
            best_error < u32::MAX ==> {
                &&& viable(src, baud, best_prescale)
                &&& best_cycles == clk_cycles(src, baud, best_prescale)
                &&& best_error == rate_error(src, baud, best_prescale)
            },
            best_cycles <= 120,
            best_error < u32::MAX ==> forall|e: int|
                0 <= e < exponent && viable(src, baud, #[trigger] prescale_of(e)) ==> {
                    &&& best_error <= rate_error(src, baud, prescale_of(e))
                    &&& prescale_of(e).divider() < best_prescale.divider() ==> best_error < rate_error(
                        src,
                        baud,
                        prescale_of(e),
                    )
                },
            best_error < u32::MAX ==> exists|e: int| 0 <= e < exponent && #[trigger] prescale_of(e) == best_prescale,
        decreases 8 - exponent,
    {
        let prescale = Prescale::with_exponent(exponent);
        let divider: u32 = prescale.divide_by();
        let latency: u32 = 2 / divider;
        let period: u32 = (10 * src_hz / divider / baud_hz + 5) / 10;
        let overhead: u32 = latency + 2;
        assert(period == scl_period(src, baud, prescale));
        assert(latency == scl_latency(prescale));
        if period > overhead {
            let cycles: u32 = period - overhead;
            if cycles <= 120 - latency {
                let computed: u32 = (src_hz / divider) / (cycles + 2 + latency);
                let error: u32 = if computed >= baud_hz {
                    computed - baud_hz
                } else {
                    baud_hz - computed
                };
                assert(error == rate_error(src, baud, prescale));
                if error < best_error {
                    best_prescale = prescale;
                    best_cycles = cycles;
                    best_error = error;
                }
            }
        }
        assert(prescale == prescale_of(exponent as int));
        exponent = exponent + 1;
    }
    proof {
        assert forall|q: Prescale| #![trigger q.divider()] prescale_of(q.exponent()) == q && 0 <= q.exponent() < 8 by {
        }
    }
    let divider: u32 = best_prescale.divide_by();
    let latency: u32 = 2 / divider;
    let mut high: u32 = best_cycles.saturating_sub(latency) / 2;

    // Clamp so that the bus-free time is at least 0.52 of the period.
    let bus_free: u32 = 13 * src_hz / baud_hz / divider / 25;
    let limit: u32 = best_cycles.saturating_sub(bus_free).saturating_add(1);
    if high > limit {
        high = limit;
    }
    let ratio: u32 = src_hz / baud_hz;
    let hold: u32 = (ratio / divider / 2).saturating_sub(1);
    let valid: u32 = (ratio / divider / 4).saturating_sub(1);
    let low: u32 = best_cycles - high;
    assert(high & 0x3f == high % 64) by (bit_vector);
    assert(low & 0x3f == low % 64) by (bit_vector);
    assert(hold & 0x3f == hold % 64) by (bit_vector);
    assert(valid & 0xff == valid % 256) by (bit_vector);
    (
        best_prescale,
        (low & 0x3f) as u8,
        (high & 0x3f) as u8,
        (hold & 0x3f) as u8,
        (valid & 0xff) as u8,
    )
}

} // verus!
