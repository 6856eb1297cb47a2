//! What the driver needs to know of the chip's clock tree.

use vstd::prelude::*;

verus! {

/// Why a clock could not be set up.
#[derive(Clone, Copy, Debug, PartialEq, Eq, Structural)]
pub enum ClockError {
    /// The clocks were never initialized.
    NeverInitialized,
    /// The clock tree rejected the configuration, for the reason with this
    /// number.
    Rejected(u8),
}

/// In which power states a clock keeps running.
#[derive(Clone, Copy, Debug, PartialEq, Eq, Structural)]
pub enum PoweredClock {
    /// Running in normal operation, stopped in deep sleep.
    NormalEnabledDeepSleepDisabled,
    /// Running in every power state.
    AlwaysEnabled,
}

/// The source of the LPI2C functional clock.
#[derive(Clone, Copy, Debug, PartialEq, Eq, Structural)]
pub enum Lpi2cClockSel {
    /// The divided low-frequency oscillator.
    FroLfDiv,
    /// One of the chip's other sources, by its selector value.
    Source(u8),
    /// No clock.
    Unclocked,
}

/// A clock divider of one to sixteen.
#[derive(Clone, Copy, Debug, PartialEq, Eq, Structural)]
pub struct Div4 {
    field: u8,
}

impl Div4 {
    /// What the clock is divided by.
    pub closed spec fn divisor(self) -> int {
        self.field + 1
    }

    /// No division.
    pub fn no_div() -> (r: Self)
        ensures
            r.divisor() == 1,
    {
        Div4 { field: 0 }
    }

    /// The value of the divider field, which is one less than the divisor.
    pub fn bits(self) -> (r: u8)
        ensures
            r == self.divisor() - 1,
    {
        self.field
    }
}

} // verus!
