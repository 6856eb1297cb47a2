//! The LPI2C controller driver.
//!
//! The driver supports Standard, Fast, and Fast-mode Plus transfers, in
//! blocking, interrupt-driven and DMA operation. [`Speed::UltraFast`] denotes
//! high-speed I2C and is rejected.

use vstd::prelude::*;

use crate::baud::{
    best_prescale, best_prescale_is_unique, clk_cycles, compute_baud_params, none_viable, timing, Prescale,
};
use crate::clocks::{ClockError, Div4, Lpi2cClockSel, PoweredClock};
use crate::controller_registers::{ControllerRegisters, ControllerStatusError};
use crate::dma::InvalidParameters;
use crate::instance_info::Info;
use crate::lpi2c_regs::{Access, ControllerPort};
use crate::answers::{owed, squares};
use crate::session::{mirrors, opens_read, session_fits, SessionView};
use crate::ticks::{ticks_from_millis, TICK_HZ};
use crate::trace::{bounded_by, entry, recoveries, wire};
use crate::words::Mier;

pub mod asynch;
pub mod blocking;
pub mod dma;
pub mod dma_exchange;
pub mod dma_txn;
pub mod exchange;
pub mod stream;
pub mod txn;

verus! {

/// Errors exclusive to hardware initialization.
#[derive(Clone, Copy, Debug, PartialEq, Eq, Structural)]
#[non_exhaustive]
pub enum SetupError {
    /// Clock configuration error.
    ClockSetup(ClockError),
    /// The requested bus speed needs a controller mode this driver does not
    /// implement.
    UnsupportedSpeed,
    /// An enabled [`PinLowTimeout`] cannot be represented by the functional
    /// clock and the derived prescaler.
    PinLowTimeoutOutOfRange,
    /// Other internal errors or unexpected state.
    Other,
}

/// I/O errors.
#[derive(Clone, Copy, Debug, PartialEq, Eq, Structural)]
#[non_exhaustive]
pub enum IOError {
    /// FIFO error: the command in the FIFO queue expected the controller to
    /// be in a STARTed state, but it was not.
    FifoError,
    /// Reading for I2C failed.
    ReadFail,
    /// Writing to I2C failed.
    WriteFail,
    /// I2C address NAK condition.
    AddressNack,
    /// Bus level arbitration loss.
    ArbitrationLoss,
    /// SCL or SDA held low longer than the configured pin-low timeout.
    PinLowTimeout,
    /// The transfer terminated early: an end of packet latched with received
    /// bytes still owed and no fault flagged.
    UnexpectedStop,
    /// The bus made no forward progress within [`Config::transfer_timeout`].
    Timeout,
    /// The requested read cannot be performed as a single atomic bus
    /// transaction, and non-atomic chunking is not enabled.
    ChunkingRequired,
    /// Address out of range.
    AddressOutOfRange(u8),
    /// Invalid write buffer length.
    InvalidWriteBufferLength,
    /// Invalid read buffer length.
    InvalidReadBufferLength,
    /// Other internal errors or unexpected state.
    Other,
}

/// The public error of a status error.
pub open spec fn io_error(error: ControllerStatusError) -> IOError {
    match error {
        ControllerStatusError::AddressNack => IOError::AddressNack,
        ControllerStatusError::ArbitrationLoss => IOError::ArbitrationLoss,
        ControllerStatusError::Fifo => IOError::FifoError,
        ControllerStatusError::PinLowTimeout => IOError::PinLowTimeout,
    }
}

impl IOError {
    /// Computes [`io_error`].
    pub fn from_status(value: ControllerStatusError) -> (r: Self)
        ensures
            r == io_error(value),
    {
        match value {
            ControllerStatusError::AddressNack => IOError::AddressNack,
            ControllerStatusError::ArbitrationLoss => IOError::ArbitrationLoss,
            ControllerStatusError::Fifo => IOError::FifoError,
            ControllerStatusError::PinLowTimeout => IOError::PinLowTimeout,
        }
    }
}

impl From<ControllerStatusError> for IOError {
    fn from(value: ControllerStatusError) -> (r: Self) {
        IOError::from_status(value)
    }
}

impl vstd::std_specs::convert::FromSpecImpl<ControllerStatusError> for IOError {
    open spec fn obeys_from_spec() -> bool {
        true
    }

    open spec fn from_spec(value: ControllerStatusError) -> Self {
        io_error(value)
    }
}

impl From<InvalidParameters> for IOError {
    fn from(_value: InvalidParameters) -> (r: Self) {
        IOError::Other
    }
}

impl vstd::std_specs::convert::FromSpecImpl<InvalidParameters> for IOError {
    open spec fn obeys_from_spec() -> bool {
        true
    }

    open spec fn from_spec(_value: InvalidParameters) -> Self {
        IOError::Other
    }
}

/// The classes of I/O errors that portable drivers tell apart.
#[derive(Clone, Copy, Debug, PartialEq, Eq, Structural)]
pub enum ErrorKind {
    ArbitrationLoss,
    /// The address was not acknowledged.
    NoAcknowledgeAddress,
    Other,
}

/// The portable class of an error.
pub open spec fn error_kind(error: IOError) -> ErrorKind {
    if error == IOError::ArbitrationLoss {
        ErrorKind::ArbitrationLoss
    } else if error == IOError::AddressNack {
        ErrorKind::NoAcknowledgeAddress
    } else {
        ErrorKind::Other
    }
}

impl IOError {
    /// The portable class of this error.
    pub fn kind(&self) -> (r: ErrorKind)
        ensures
            r == error_kind(*self),
    {
        match *self {
            IOError::ArbitrationLoss => ErrorKind::ArbitrationLoss,
            IOError::AddressNack => ErrorKind::NoAcknowledgeAddress,
            _ => ErrorKind::Other,
        }
    }
}

/// I2C interrupt handler of the controller side.
pub struct InterruptHandler<H> {
    _phantom: core::marker::PhantomData<H>,
}

impl<H: ControllerPort> InterruptHandler<H> {
    /// Services one interrupt: masks every source where one is enabled, and
    /// tells whether the waiter has to be woken.
    pub fn on_interrupt(registers: &mut ControllerRegisters<H>) -> (wake: bool)
        ensures
            ({
                let mask = entry(old(registers).log(), final(registers).log(), 0)->ReadMier_0;
                &&& wake == (mask != Mier::none())
                &&& final(registers).log() == if wake {
                    old(registers).log().push(Access::ReadMier(mask)).push(Access::WriteMier(Mier::none()))
                } else {
                    old(registers).log().push(Access::ReadMier(mask))
                }
            }),
            final(registers).block() == old(registers).block(),
    {
        registers.disable_interrupts_if_enabled()
    }
}

/// Bus speed (nominal SCL, no clock stretching).
#[derive(Clone, Copy, Debug, PartialEq, Eq, Structural)]
pub enum Speed {
    /// 100 kbit/sec
    Standard,
    /// 400 kbit/sec
    Fast,
    /// 1 Mbit/sec
    FastPlus,
    /// 3.4-Mbit/s high-speed I2C. This driver does not perform the required
    /// high-speed setup and rejects it.
    UltraFast,
}

impl Default for Speed {
    fn default() -> (r: Self)
        ensures
            r == Speed::Standard,
    {
        Speed::Standard
    }
}

impl Speed {
    /// The nominal bit rate.
    pub open spec fn bit_rate(self) -> u32 {
        match self {
            Speed::Standard => 100_000,
            Speed::Fast => 400_000,
            Speed::FastPlus => 1_000_000,
            Speed::UltraFast => 3_400_000,
        }
    }

    /// Proves that this driver implements the speed.
    pub fn supported(self) -> (r: Result<SupportedSpeed, SetupError>)
        ensures
            match r {
                Ok(speed) => self != Speed::UltraFast && speed.rate() == self.bit_rate(),
                Err(e) => self == Speed::UltraFast && e == SetupError::UnsupportedSpeed,
            },
    {
        match self {
            Speed::Standard => Ok(SupportedSpeed(100_000)),
            Speed::Fast => Ok(SupportedSpeed(400_000)),
            Speed::FastPlus => Ok(SupportedSpeed(1_000_000)),
            Speed::UltraFast => Err(SetupError::UnsupportedSpeed),
        }
    }
}

impl From<Speed> for u32 {
    fn from(val: Speed) -> (r: Self) {
        match val {
            Speed::Standard => 100_000,
            Speed::Fast => 400_000,
            Speed::FastPlus => 1_000_000,
            Speed::UltraFast => 3_400_000,
        }
    }
}

impl vstd::std_specs::convert::FromSpecImpl<Speed> for u32 {
    open spec fn obeys_from_spec() -> bool {
        true
    }

    open spec fn from_spec(val: Speed) -> Self {
        val.bit_rate()
    }
}

/// A controller speed which is supported by this driver's complete setup and
/// command protocol. Only [`Speed::supported`] makes one, so no setup path
/// can revive an unsupported speed.
#[derive(Clone, Copy)]
pub struct SupportedSpeed(u32);

impl SupportedSpeed {
    #[verifier::type_invariant]
    spec fn implemented(self) -> bool {
        0 < self.0
    }

    /// The bit rate in hertz.
    pub closed spec fn rate(self) -> u32 {
        self.0
    }

    pub fn hertz(self) -> (r: u32)
        ensures
            r == self.rate(),
            r > 0,
    {
        proof {
            use_type_invariant(&self);
        }
        self.0
    }
}

/// Hardware watchdog for SCL or SDA being held low.
///
/// Separate from [`Config::transfer_timeout`], which is a software
/// forward-progress budget.
#[derive(Clone, Copy, Debug, PartialEq, Eq, Structural)]
pub enum PinLowTimeout {
    /// Do not enable the hardware pin-low watchdog.
    Disabled,
    /// Fail a transfer if either bus line stays low for this many ticks.
    ///
    /// The requested duration is rounded up to the hardware's 256-cycle
    /// quantum behind the prescaler. A zero or unrepresentable duration is
    /// rejected.
    Enabled(u64),
}

impl Default for PinLowTimeout {
    fn default() -> (r: Self)
        ensures
            r == PinLowTimeout::Disabled,
    {
        PinLowTimeout::Disabled
    }
}

/// The largest count that the pin-low field holds.
pub const PIN_LOW_MAX: u32 = 0xfff;

/// The functional-clock cycles of one pin-low count, times the ticks of a
/// second.
pub open spec fn pin_low_unit(p: Prescale) -> int {
    TICK_HZ * p.divider() * 256
}

/// The smallest pin-low count that lasts at least `ticks`.
pub open spec fn pin_low_count(input_hz: int, p: Prescale, ticks: int) -> int {
    (ticks * input_hz + pin_low_unit(p) - 1) / pin_low_unit(p)
}

/// Every controller register value that the configuration decides, prepared
/// before any hardware is touched.
#[derive(Clone, Copy, Debug, PartialEq, Eq, Structural)]
pub struct ControllerSetup {
    pub prescale: Prescale,
    pub clklo: u8,
    pub clkhi: u8,
    pub sethold: u8,
    pub datavd: u8,
    /// The pin-low count; zero leaves the watchdog disabled.
    pub pinlow: u16,
}

/// A setup whose timing fields are those of the given rate.
pub open spec fn setup_times(setup: ControllerSetup, input_hz: int, rate: int) -> bool {
    let cycles = if best_prescale(input_hz, rate, setup.prescale) {
        clk_cycles(input_hz, rate, setup.prescale)
    } else {
        0
    };
    &&& best_prescale(input_hz, rate, setup.prescale) || (none_viable(input_hz, rate) && setup.prescale
        == Prescale::DivideBy1)
    &&& (setup.clklo as int, setup.clkhi as int, setup.sethold as int, setup.datavd as int) == timing(
        input_hz,
        rate,
        setup.prescale,
        cycles,
    )
}

/// What preparing a supported speed comes to. The pin-low count is that of
/// the one prescaler the rate has.
pub open spec fn setup_prepared(
    input_hz: u32,
    speed: Speed,
    pin_low_timeout: PinLowTimeout,
    r: Result<ControllerSetup, SetupError>,
) -> bool {
    match r {
        Ok(setup) => {
            &&& setup_times(setup, input_hz as int, speed.bit_rate() as int)
            &&& match pin_low_timeout {
                PinLowTimeout::Disabled => setup.pinlow == 0,
                PinLowTimeout::Enabled(ticks) => setup.pinlow == pin_low_count(
                    input_hz as int,
                    setup.prescale,
                    ticks as int,
                ) && 1 <= setup.pinlow <= PIN_LOW_MAX,
            }
        },
        Err(e) => {
            &&& e == SetupError::PinLowTimeoutOutOfRange
            &&& pin_low_timeout is Enabled
            &&& forall|setup: ControllerSetup| #[trigger]
                setup_times(setup, input_hz as int, speed.bit_rate() as int) ==> !(1 <= pin_low_count(
                    input_hz as int,
                    setup.prescale,
                    pin_low_timeout->Enabled_0 as int,
                ) <= PIN_LOW_MAX)
        },
    }
}

impl ControllerSetup {
    /// Prepares the controller for one input clock, speed and watchdog.
    pub fn new(input_hz: u32, speed: SupportedSpeed, pin_low_timeout: PinLowTimeout) -> (r: Result<Self, SetupError>)
        requires
            13 * input_hz <= u32::MAX,
        ensures
            forall|s: Speed| #[trigger]
                s.bit_rate() == speed.rate() ==> setup_prepared(input_hz, s, pin_low_timeout, r),
            r is Err ==> r == Err::<Self, SetupError>(SetupError::PinLowTimeoutOutOfRange),
    {
        let (prescale, clklo, clkhi, sethold, datavd) = compute_baud_params(input_hz, speed.hertz());
        let pinlow: u16 = match pin_low_timeout {
            PinLowTimeout::Disabled => 0,
            PinLowTimeout::Enabled(ticks) => {
                let unit: u128 = TICK_HZ as u128 * prescale.divide_by() as u128 * 256;
                assert(ticks as u128 * input_hz as u128 <= u64::MAX * u32::MAX) by (nonlinear_arith);
                let count: u128 = (ticks as u128 * input_hz as u128 + unit - 1) / unit;
                assert(count == pin_low_count(input_hz as int, prescale, ticks as int));
                if count == 0 || count > PIN_LOW_MAX as u128 {
                    proof {
                        assert forall|setup: ControllerSetup| #[trigger]
                            setup_times(setup, input_hz as int, speed.rate() as int) implies !(1 <= pin_low_count(
                            input_hz as int,
                            setup.prescale,
                            ticks as int,
                        ) <= PIN_LOW_MAX) by {
                            let src = input_hz as int;
                            let rate = speed.rate() as int;
                            if best_prescale(src, rate, prescale) && best_prescale(src, rate, setup.prescale) {
                                best_prescale_is_unique(src, rate, prescale, setup.prescale);
                            }
                            assert(prescale.divider() > 0);
                            assert(setup.prescale.divider() > 0);
                        }
                    }
                    return Err(SetupError::PinLowTimeoutOutOfRange);
                }
                count as u16
            },
        };
        Ok(ControllerSetup { prescale, clklo, clkhi, sethold, datavd, pinlow })
    }
}

/// I2C controller configuration.
#[derive(Clone, Copy, Debug, PartialEq, Eq, Structural)]
#[non_exhaustive]
pub struct Config {
    /// Bus speed
    pub speed: Speed,
    /// Clock configuration
    pub clock_config: ClockConfig,
    /// Allow a read to be split into several bus transactions.
    ///
    /// Off by default, and unsafe for many devices: the bus is released
    /// between the chunks, and a re-read after a partial transfer starts at
    /// the beginning of the caller's buffer, so a device with an
    /// auto-incrementing pointer returns shifted data. Only enable it for
    /// stateless-read devices on a single-controller bus.
    pub allow_chunked_reads: bool,
    /// Hardware watchdog for a physically stuck-low SCL or SDA line.
    pub pin_low_timeout: PinLowTimeout,
    /// Budget for forward progress within a transfer, in ticks: the wait for
    /// one received byte, for the command FIFO to drain, or for a DMA
    /// transfer to complete (scaled by length).
    ///
    /// Exceeding it yields [`IOError::Timeout`] rather than hanging.
    pub transfer_timeout: u64,
}

impl Default for Config {
    fn default() -> (r: Self)
        ensures
            r.speed == Speed::Standard,
            r.clock_config.is_default(),
            !r.allow_chunked_reads,
            r.pin_low_timeout == PinLowTimeout::Disabled,
            r.transfer_timeout == TICK_HZ / 10,
    {
        Config {
            speed: Speed::default(),
            clock_config: ClockConfig::default(),
            // Atomic transactions by default; opting out is a deliberate
            // per-device decision.
            allow_chunked_reads: false,
            pin_low_timeout: PinLowTimeout::Disabled,
            transfer_timeout: ticks_from_millis(100),
        }
    }
}

/// I2C controller clock configuration.
#[derive(Clone, Copy, Debug, PartialEq, Eq, Structural)]
#[non_exhaustive]
pub struct ClockConfig {
    /// Powered clock configuration
    pub power: PoweredClock,
    /// LPI2C clock source
    pub source: Lpi2cClockSel,
    /// LPI2C pre-divider
    pub div: Div4,
}

impl ClockConfig {
    /// The undivided low-frequency oscillator, off in deep sleep.
    pub open spec fn is_default(self) -> bool {
        &&& self.power == PoweredClock::NormalEnabledDeepSleepDisabled
        &&& self.source == Lpi2cClockSel::FroLfDiv
        &&& self.div.divisor() == 1
    }
}

impl Default for ClockConfig {
    fn default() -> (r: Self)
        ensures
            r.is_default(),
    {
        ClockConfig {
            power: PoweredClock::NormalEnabledDeepSleepDisabled,
            source: Lpi2cClockSel::FroLfDiv,
            div: Div4::no_div(),
        }
    }
}

/// The fixed receive channel/request pair of one controller instance. The
/// facade accepts this type rather than loose channel and request arguments,
/// so a receive arm cannot be handed transmit plumbing.
#[must_use]
pub struct ControllerRxDma<'a, C, R> {
    pub owner: usize,
    pub channel: &'a C,
    pub request: R,
}

impl<'a, C, R: Copy> ControllerRxDma<'a, C, R> {
    pub fn new(owner: usize, channel: &'a C, request: R) -> (r: Self)
        ensures
            r.owner == owner,
            r.channel == channel,
            r.request == request,
    {
        ControllerRxDma { owner, channel, request }
    }

    pub fn owner(&self) -> (r: usize)
        ensures
            r == self.owner,
    {
        self.owner
    }

    pub fn channel(&self) -> (r: &'a C)
        ensures
            r == self.channel,
    {
        self.channel
    }

    pub fn request(&self) -> (r: R)
        ensures
            r == self.request,
    {
        self.request
    }
}

/// The fixed transmit channel/request pair of one controller instance. See
/// [`ControllerRxDma`].
#[must_use]
pub struct ControllerTxDma<'a, C, R> {
    pub owner: usize,
    pub channel: &'a C,
    pub request: R,
}

impl<'a, C, R: Copy> ControllerTxDma<'a, C, R> {
    pub fn new(owner: usize, channel: &'a C, request: R) -> (r: Self)
        ensures
            r.owner == owner,
            r.channel == channel,
            r.request == request,
    {
        ControllerTxDma { owner, channel, request }
    }

    pub fn owner(&self) -> (r: usize)
        ensures
            r == self.owner,
    {
        self.owner
    }

    pub fn channel(&self) -> (r: &'a C)
        ensures
            r == self.channel,
    {
        self.channel
    }

    pub fn request(&self) -> (r: R)
        ensures
            r == self.request,
    {
        self.request
    }
}

/// I2C controller driver.
pub struct I2c<H> {
    regs: ControllerRegisters<H>,
    info: Info,
    /// See [`Config::allow_chunked_reads`].
    allow_chunked_reads: bool,
    /// See [`Config::transfer_timeout`].
    timeout: u64,
    /// Peripheral input clock frequency in Hz, captured at construction.
    freq: u32,
}

impl<H> I2c<H> {
    /// The history of the register block.
    pub closed spec fn log(&self) -> Seq<Access> {
        self.regs.log()
    }

    /// The identity of the register block.
    pub closed spec fn block(&self) -> usize {
        self.regs.block()
    }

    /// Whether a transaction is open.
    pub closed spec fn session_open(&self) -> bool {
        self.info.open()
    }

    /// Whether a read may be split into several transactions.
    pub closed spec fn allows_chunks(&self) -> bool {
        self.allow_chunked_reads
    }

    /// The transfer timeout, in ticks.
    pub closed spec fn budget(&self) -> u64 {
        self.timeout
    }

    /// The input clock frequency.
    pub closed spec fn clock_hz(&self) -> u32 {
        self.freq
    }

    /// No transaction is open. Every public operation starts and ends here.
    pub open spec fn idle(&self) -> bool {
        &&& !self.session_open()
        &&& !opens_read(wire(self.log()))
        &&& owed(self.log()) is Idle
    }

    /// Same register block and same configuration, and every recovery since
    /// ran within the transfer timeout.
    pub open spec fn same_setup(&self, other: &Self) -> bool {
        &&& bounded_by(recoveries(other.log()), recoveries(self.log()), self.budget())
        &&& self.block() == other.block()
        &&& self.allows_chunks() == other.allows_chunks()
        &&& self.budget() == other.budget()
        &&& self.clock_hz() == other.clock_hz()
    }

    /// The session is the one that is open on this controller, and no fault
    /// is bound to it. Its phase says which commands went out, and that each
    /// of them was answered as it should be.
    pub open spec fn owns(&self, session: SessionView) -> bool {
        &&& self.session_open()
        &&& session.owner == self.block()
        &&& session.timeout == self.budget()
        &&& session.fault is None
        &&& mirrors(wire(self.log()), session.phase)
        &&& squares(owed(self.log()), session.phase)
    }

    /// The session is the one that is open on this controller. A fault may be
    /// bound to it.
    pub open spec fn keeps(&self, session: SessionView) -> bool {
        &&& self.session_open()
        &&& session.owner == self.block()
        &&& session.timeout == self.budget()
        &&& session_fits(self.log(), session)
    }
}

impl<H: ControllerPort> I2c<H> {
    /// Prepares every user-controlled register value before a constructor
    /// changes any hardware. `clock` is what the clock tree says of the
    /// functional clock; an uninitialized tree says nothing.
    pub fn construction_setup(config: &Config, clock: Option<Result<u32, ClockError>>) -> (r: Result<
        ControllerSetup,
        SetupError,
    >)
        requires
            clock matches Some(Ok(hz)) ==> 13 * hz <= u32::MAX,
        ensures
            if config.speed == Speed::UltraFast {
                r == Err::<ControllerSetup, SetupError>(SetupError::UnsupportedSpeed)
            } else {
                match clock {
                    None => r == Err::<ControllerSetup, SetupError>(
                        SetupError::ClockSetup(ClockError::NeverInitialized),
                    ),
                    Some(Err(e)) => r == Err::<ControllerSetup, SetupError>(SetupError::ClockSetup(e)),
                    Some(Ok(hz)) => setup_prepared(hz, config.speed, config.pin_low_timeout, r),
                }
            },
    {
        let speed = match config.speed.supported() {
            Ok(speed) => speed,
            Err(e) => {
                return Err(e);
            },
        };
        match clock {
            None => Err(SetupError::ClockSetup(ClockError::NeverInitialized)),
            Some(Err(e)) => Err(SetupError::ClockSetup(e)),
            Some(Ok(hz)) => ControllerSetup::new(hz, speed, config.pin_low_timeout),
        }
    }

    /// Takes over a clocked register block and programs the prepared setup.
    pub fn new_inner(hw: H, base: usize, config: &Config, setup: ControllerSetup, freq: u32) -> (r: Self)
        ensures
            r.idle(),
            r.block() == base,
            r.allows_chunks() == config.allow_chunked_reads,
            r.budget() == config.transfer_timeout,
            r.clock_hz() == freq,
            r.log() == Seq::<Access>::empty().push(Access::ApplySetup(setup)),
    {
        let mut inst = I2c {
            regs: ControllerRegisters::new(hw, base),
            info: Info::new(),
            allow_chunked_reads: config.allow_chunked_reads,
            timeout: config.transfer_timeout,
            freq,
        };
        inst.set_configuration(setup);
        proof {
            broadcast use {crate::trace::group_trace, crate::answers::lemma_owed_push};

            assert(wire(inst.log()) =~= Seq::empty());
        }
        inst
    }

    fn set_configuration(&mut self, setup: ControllerSetup)
        ensures
            final(self).same_setup(old(self)),
            final(self).session_open() == old(self).session_open(),
            final(self).log() == old(self).log().push(Access::ApplySetup(setup)),
    {
        broadcast use {crate::trace::group_bounded, crate::trace::group_trace};

        self.regs.configure(setup);
    }

    /// Applies a new configuration. A rejected one touches nothing.
    pub fn set_config(&mut self, config: &Config) -> (r: Result<(), SetupError>)
        requires
            13 * old(self).clock_hz() <= u32::MAX,
        ensures
            final(self).session_open() == old(self).session_open(),
            old(self).idle() ==> final(self).idle(),
            final(self).block() == old(self).block(),
            final(self).clock_hz() == old(self).clock_hz(),
            match r {
                Ok(_) => {
                    let setup = entry(old(self).log(), final(self).log(), 0)->ApplySetup_0;
                    &&& config.speed != Speed::UltraFast
                    &&& setup_prepared(old(self).clock_hz(), config.speed, config.pin_low_timeout, Ok(setup))
                    &&& final(self).log() == old(self).log().push(Access::ApplySetup(setup))
                    &&& final(self).allows_chunks() == config.allow_chunked_reads
                    &&& final(self).budget() == config.transfer_timeout
                },
                Err(e) => {
                    &&& final(self).log() == old(self).log()
                    &&& final(self).same_setup(old(self))
                    &&& if config.speed == Speed::UltraFast {
                        e == SetupError::UnsupportedSpeed
                    } else {
                        setup_prepared(old(self).clock_hz(), config.speed, config.pin_low_timeout, Err(e))
                    }
                },
            },
    {
        broadcast use crate::trace::group_bounded;

        let speed = match config.speed.supported() {
            Ok(speed) => speed,
            Err(e) => {
                return Err(e);
            },
        };
        let setup = match ControllerSetup::new(self.freq, speed, config.pin_low_timeout) {
            Ok(setup) => setup,
            Err(e) => {
                return Err(e);
            },
        };
        self.set_configuration(setup);
        proof {
            broadcast use {crate::trace::group_trace, crate::answers::lemma_owed_push};

            assert(wire(self.log()) == wire(old(self).log()));
        }
        self.allow_chunked_reads = config.allow_chunked_reads;
        self.timeout = config.transfer_timeout;
        Ok(())
    }

    /// Whether a transaction is open.
    pub fn session_live(&self) -> (r: bool)
        ensures
            r == self.session_open(),
    {
        self.info.session_live()
    }
}

} // verus!
