//! The LPI2C target driver.

use vstd::prelude::*;

use crate::clocks::{ClockError, Div4, Lpi2cClockSel, PoweredClock};
use crate::dma::InvalidParameters;
use crate::lpi2c_regs::{layout_agrees, Access, Direction, DmaPort, MappedAddresses, TargetPort};
use crate::target_registers::{
    chunk_end_of, configured, dma_armed, dma_finished, dma_wakes, fault_of, listen_event_ran, listen_wakes,
    response_aborted, rx_chunk_end_of, rx_drained, rx_wakes, target_fifos_reset, tx_step_of, tx_wakes, ChunkEnd,
    ListenEvent, RxChunkEnd, TargetFault, TargetPlan, TargetRegisters, TargetRxEvent, TargetTxStep,
};
use crate::trace::{entry, extends, sent, taken};
use crate::wait::{WaitOutcome, POLL_LIMIT};
use crate::words::{Sier, Ssr, Stdr};

pub mod response;

verus! {

broadcast use crate::trace::group_trace;

/// Errors exclusive to hardware initialization.
#[derive(Clone, Copy, Debug, PartialEq, Eq, Structural)]
#[non_exhaustive]
pub enum SetupError {
    /// Clock configuration error.
    ClockSetup(ClockError),
    /// The selected LPI2C source provides no functional clock.
    NoFunctionalClock,
    /// Address is out of range, mixes address widths, or describes an empty
    /// or reversed range.
    InvalidAddress,
    /// Other internal errors or unexpected state.
    Other,
}

/// I2C target addresses.
pub enum Address {
    /// One 7-bit (`0x000..=0x07f`) or 10-bit (`0x080..=0x3ff`) address.
    Single(u16),
    /// Two addresses of the same width within `0x000..=0x3ff`.
    Dual(u16, u16),
    /// End-exclusive range of addresses.
    ///
    /// The start and final included address (`end - 1`) must have the same
    /// width. `end` may be one past a width boundary, so `0x20..0x30` is a
    /// 7-bit range, `0x00..0x80` covers every 7-bit address, and
    /// `0x80..0x400` covers the representable 10-bit range.
    Range(core::ops::Range<u16>),
}

impl Clone for Address {
    fn clone(&self) -> (r: Self)
        ensures
            r == *self,
    {
        match self {
            Address::Single(address) => Address::Single(*address),
            Address::Dual(first, second) => Address::Dual(*first, *second),
            Address::Range(range) => Address::Range(range.start..range.end),
        }
    }
}

impl Default for Address {
    fn default() -> (r: Self)
        ensures
            r == Address::Single(0x2a),
    {
        Address::Single(0x2a)
    }
}

/// A target address plan that has passed validation. Only
/// [`Address::validate`] is meant to make one.
#[derive(Clone, Copy, Debug, PartialEq, Eq, Structural)]
pub enum ValidatedAddress {
    Single7(u16),
    Single10(u16),
    Dual7(u16, u16),
    Dual10(u16, u16),
    Range7 { start: u16, last: u16 },
    Range10 { start: u16, last: u16 },
}

#[derive(Clone, Copy, Debug, PartialEq, Eq, Structural)]
pub enum AddressWidth {
    SevenBit,
    TenBit,
}

/// The width of a representable address.
pub open spec fn width_of(address: int) -> Option<AddressWidth> {
    if 0 <= address <= 0x7f {
        Some(AddressWidth::SevenBit)
    } else if 0x80 <= address <= 0x3ff {
        Some(AddressWidth::TenBit)
    } else {
        None
    }
}

impl ValidatedAddress {
    /// A plan that [`Address::validate`] can return: every address is of the
    /// plan's width, and a range is not empty.
    pub open spec fn planned(self) -> bool {
        match self {
            ValidatedAddress::Single7(a) => a <= 0x7f,
            ValidatedAddress::Single10(a) => 0x80 <= a <= 0x3ff,
            ValidatedAddress::Dual7(a, b) => a <= 0x7f && b <= 0x7f,
            ValidatedAddress::Dual10(a, b) => 0x80 <= a <= 0x3ff && 0x80 <= b <= 0x3ff,
            ValidatedAddress::Range7 { start, last } => start <= last <= 0x7f,
            ValidatedAddress::Range10 { start, last } => 0x80 <= start <= last <= 0x3ff,
        }
    }
}

/// Computes [`width_of`].
fn width(address: u16) -> (r: Option<AddressWidth>)
    ensures
        r == width_of(address as int),
{
    if address <= 0x7f {
        Some(AddressWidth::SevenBit)
    } else if address <= 0x3ff {
        Some(AddressWidth::TenBit)
    } else {
        None
    }
}

/// The plan of two addresses that have to be of one representable width.
pub open spec fn same_width(first: int, last: int) -> Option<AddressWidth> {
    if width_of(first) == width_of(last) {
        width_of(first)
    } else {
        None
    }
}

impl Address {
    /// The validated plan of this address description, if it has one.
    pub open spec fn plan(self) -> Option<ValidatedAddress> {
        match self {
            Address::Single(a) => match width_of(a as int) {
                Some(AddressWidth::SevenBit) => Some(ValidatedAddress::Single7(a)),
                Some(AddressWidth::TenBit) => Some(ValidatedAddress::Single10(a)),
                None => None,
            },
            Address::Dual(a, b) => match same_width(a as int, b as int) {
                Some(AddressWidth::SevenBit) => Some(ValidatedAddress::Dual7(a, b)),
                Some(AddressWidth::TenBit) => Some(ValidatedAddress::Dual10(a, b)),
                None => None,
            },
            Address::Range(range) => {
                if range.start >= range.end {
                    None
                } else {
                    match same_width(range.start as int, range.end - 1) {
                        Some(AddressWidth::SevenBit) => Some(
                            ValidatedAddress::Range7 { start: range.start, last: (range.end - 1) as u16 },
                        ),
                        Some(AddressWidth::TenBit) => Some(
                            ValidatedAddress::Range10 { start: range.start, last: (range.end - 1) as u16 },
                        ),
                        None => None,
                    }
                }
            },
        }
    }

    /// Validates this address description before any hardware is touched.
    pub fn validate(&self) -> (r: Result<ValidatedAddress, SetupError>)
        ensures
            match r {
                Ok(plan) => self.plan() == Some(plan) && plan.planned(),
                Err(e) => self.plan() is None && e == SetupError::InvalidAddress,
            },
    {
        match self {
            Address::Single(address) => match width(*address) {
                Some(AddressWidth::SevenBit) => Ok(ValidatedAddress::Single7(*address)),
                Some(AddressWidth::TenBit) => Ok(ValidatedAddress::Single10(*address)),
                None => Err(SetupError::InvalidAddress),
            },
            Address::Dual(first, second) => match (width(*first), width(*second)) {
                (Some(AddressWidth::SevenBit), Some(AddressWidth::SevenBit)) => {
                    Ok(ValidatedAddress::Dual7(*first, *second))
                },
                (Some(AddressWidth::TenBit), Some(AddressWidth::TenBit)) => {
                    Ok(ValidatedAddress::Dual10(*first, *second))
                },
                _ => Err(SetupError::InvalidAddress),
            },
            Address::Range(range) => {
                // Derive the last address only after an empty or reversed
                // range has been rejected, so that no wrap can turn an empty
                // range into a catch-all match.
                let last: u16 = match range.end.checked_sub(1) {
                    Some(last) => last,
                    None => {
                        return Err(SetupError::InvalidAddress);
                    },
                };
                if range.start > last {
                    return Err(SetupError::InvalidAddress);
                }
                match (width(range.start), width(last)) {
                    (Some(AddressWidth::SevenBit), Some(AddressWidth::SevenBit)) => {
                        Ok(ValidatedAddress::Range7 { start: range.start, last })
                    },
                    (Some(AddressWidth::TenBit), Some(AddressWidth::TenBit)) => {
                        Ok(ValidatedAddress::Range10 { start: range.start, last })
                    },
                    _ => Err(SetupError::InvalidAddress),
                }
            },
        }
    }
}

/// Errors exclusive to I/O.
#[derive(Clone, Copy, Debug, PartialEq, Eq, Structural)]
#[non_exhaustive]
pub enum IOError {
    /// Busy Busy
    BusBusy,
    /// Target Busy
    TargetBusy,
    /// FIFO Error
    FifoError,
    /// Bit Error
    BitError,
    /// Other internal errors or unexpected state.
    Other,
}

/// The public error of a fault.
pub open spec fn fault_error(fault: TargetFault) -> IOError {
    match fault {
        TargetFault::Bit => IOError::BitError,
        TargetFault::Fifo => IOError::FifoError,
    }
}

impl From<TargetFault> for IOError {
    fn from(value: TargetFault) -> (r: Self) {
        match value {
            TargetFault::Bit => IOError::BitError,
            TargetFault::Fifo => IOError::FifoError,
        }
    }
}

impl vstd::std_specs::convert::FromSpecImpl<TargetFault> for IOError {
    open spec fn obeys_from_spec() -> bool {
        true
    }

    open spec fn from_spec(value: TargetFault) -> Self {
        fault_error(value)
    }
}

impl From<InvalidParameters> for IOError {
    fn from(_value: InvalidParameters) -> (r: Self) {
        IOError::Other
    }
}

impl vstd::std_specs::convert::FromSpecImpl<InvalidParameters> for IOError {
    open spec fn obeys_from_spec() -> bool {
        true
    }

    open spec fn from_spec(_value: InvalidParameters) -> Self {
        IOError::Other
    }
}

/// Outcome of a `respond_to_read` call.
///
/// The `usize` in every variant counts bytes queued for transmission:
/// consumed from the supplied buffer and written into the transmit register.
/// It is not a count of bytes that reached the bus. When a transfer
/// terminates, the register may hold one byte that was queued but never
/// clocked out, and it is discarded.
#[derive(Clone, Copy, Debug, PartialEq, Eq, Structural)]
#[non_exhaustive]
pub enum ReadStatus {
    /// Controller terminated the read exactly when the supplied buffer was
    /// exhausted.
    Complete(usize),
    /// Buffer was fully consumed but the controller is still asking for more
    /// bytes.
    NeedMore(usize),
    /// Controller issued an early STOP or repeated START before the buffer
    /// was exhausted.
    EarlyStop(usize),
}

/// Outcome of a `respond_to_write` call.
///
/// The `usize` in every variant counts bytes written into the supplied
/// buffer, i.e. bytes the target ACKed.
#[derive(Clone, Copy, Debug, PartialEq, Eq, Structural)]
#[non_exhaustive]
pub enum WriteStatus {
    /// Controller issued STOP.
    Stopped(usize),
    /// Controller issued a repeated START. The next listen reports the
    /// direction and address of the new sub-transaction.
    Restarted(usize),
    /// The supplied buffer filled before the controller terminated the
    /// transfer.
    BufferFull(usize),
}

/// I2C interrupt handler of the target side.
pub struct InterruptHandler<H> {
    _phantom: core::marker::PhantomData<H>,
}

impl<H: TargetPort> InterruptHandler<H> {
    /// Services one interrupt: masks every source where one is enabled, and
    /// tells whether the waiter has to be woken.
    pub fn on_interrupt(registers: &mut TargetRegisters<H>) -> (wake: bool)
        ensures
            ({
                let mask = entry(old(registers).log(), final(registers).log(), 0)->ReadSier_0;
                &&& wake == (mask != Sier::none())
                &&& final(registers).log() == if wake {
                    old(registers).log().push(Access::ReadSier(mask)).push(Access::WriteSier(Sier::none()))
                } else {
                    old(registers).log().push(Access::ReadSier(mask))
                }
            }),
            final(registers).same_block(*old(registers)),
    {
        registers.disable_interrupts_if_enabled()
    }
}

/// Enable or disable feature.
#[derive(Clone, Copy, Debug, PartialEq, Eq, Structural)]
pub enum Status {
    Disabled,
    Enabled,
}

impl Default for Status {
    fn default() -> (r: Self)
        ensures
            r == Status::Disabled,
    {
        Status::Disabled
    }
}

impl From<Status> for bool {
    fn from(value: Status) -> (r: Self) {
        match value {
            Status::Disabled => false,
            Status::Enabled => true,
        }
    }
}

impl vstd::std_specs::convert::FromSpecImpl<Status> for bool {
    open spec fn obeys_from_spec() -> bool {
        true
    }

    open spec fn from_spec(value: Status) -> Self {
        value == Status::Enabled
    }
}

/// I2C target configuration.
#[non_exhaustive]
pub struct Config {
    /// Addresses to respond to
    pub address: Address,
    /// Enable SMBus alert
    pub smbus_alert: Status,
    /// Enable general call support
    pub general_call: Status,
    /// Clock configuration
    pub clock_config: ClockConfig,
}

impl Clone for Config {
    fn clone(&self) -> (r: Self)
        ensures
            r == *self,
    {
        Config {
            address: self.address.clone(),
            smbus_alert: self.smbus_alert,
            general_call: self.general_call,
            clock_config: self.clock_config,
        }
    }
}

impl Default for Config {
    fn default() -> (r: Self)
        ensures
            r.address == Address::Single(0x2a),
            r.smbus_alert == Status::Disabled,
            r.general_call == Status::Disabled,
            r.clock_config.is_default(),
    {
        Config {
            address: Address::default(),
            smbus_alert: Status::default(),
            general_call: Status::default(),
            clock_config: ClockConfig::default(),
        }
    }
}

/// I2C target clock configuration.
#[derive(Clone, Copy, Debug, PartialEq, Eq, Structural)]
#[non_exhaustive]
pub struct ClockConfig {
    /// Powered clock configuration
    pub power: PoweredClock,
    /// LPI2C clock source
    pub source: Lpi2cClockSel,
    /// LPI2C pre-divider
    pub div: Div4,
}

impl ClockConfig {
    /// The undivided low-frequency oscillator, off in deep sleep.
    pub open spec fn is_default(self) -> bool {
        &&& self.power == PoweredClock::NormalEnabledDeepSleepDisabled
        &&& self.source == Lpi2cClockSel::FroLfDiv
        &&& self.div.divisor() == 1
    }
}

impl Default for ClockConfig {
    fn default() -> (r: Self)
        ensures
            r.is_default(),
    {
        ClockConfig {
            power: PoweredClock::NormalEnabledDeepSleepDisabled,
            source: Lpi2cClockSel::FroLfDiv,
            div: Div4::no_div(),
        }
    }
}

/// What the controller asks of this target.
#[derive(Clone, Copy, Debug, PartialEq, Eq, Structural)]
#[non_exhaustive]
pub enum Request {
    /// Controller wants to write data to this target
    Write(u16),
    /// Controller wants to read data from this target
    Read(u16),
    /// Controller issued a STOP condition for this target
    Stop(u16),
    /// Controller issued a general call
    GeneralCall,
    /// Controller issued an SMBus alert
    SmbusAlert,
}

/// I2C target events.
#[derive(Clone, Copy, Debug, PartialEq, Eq, Structural)]
#[non_exhaustive]
pub enum Event {
    SmbusAlert,
    GeneralCall,
    Address0Match(u16),
    Address1Match(u16),
    Stop(u16),
    RepeatedStart(u16),
    TransmitAck,
    AddressValid(u16),
    ReceiveData,
    TransmitData,
}

/// The driver's event for a classified listen event.
pub open spec fn event_of(event: ListenEvent) -> Result<Event, IOError> {
    match event {
        ListenEvent::Fault(fault) => Err(fault_error(fault)),
        ListenEvent::AddressValid(addr) => Ok(Event::AddressValid(addr)),
        ListenEvent::GeneralCall => Ok(Event::GeneralCall),
        ListenEvent::SmbusAlert => Ok(Event::SmbusAlert),
        ListenEvent::TransmitAck => Ok(Event::TransmitAck),
        ListenEvent::RepeatedStart(addr) => Ok(Event::RepeatedStart(addr)),
        ListenEvent::Stop(addr) => Ok(Event::Stop(addr)),
        ListenEvent::Nothing => Err(IOError::Other),
    }
}

/// The request that a received address word announces: its lowest bit is the
/// direction, the rest is the address.
pub open spec fn addressed_request(word: u16) -> Request {
    if word % 2 == 1 {
        Request::Read(word / 2)
    } else {
        Request::Write(word / 2)
    }
}

/// The request that a listen reports for an event.
pub open spec fn request_of(event: Result<Event, IOError>) -> Result<Request, IOError> {
    match event {
        Ok(Event::SmbusAlert) => Ok(Request::SmbusAlert),
        Ok(Event::GeneralCall) => Ok(Request::GeneralCall),
        Ok(Event::Stop(addr)) => Ok(Request::Stop(addr / 2)),
        Ok(Event::RepeatedStart(addr)) => Ok(addressed_request(addr)),
        Ok(Event::AddressValid(addr)) => Ok(addressed_request(addr)),
        Ok(_) => Err(IOError::Other),
        Err(e) => Err(e),
    }
}

/// Computes [`request_of`] for an event.
pub fn request_for(event: Event) -> (r: Result<Request, IOError>)
    ensures
        r == request_of(Ok(event)),
{
    match event {
        Event::SmbusAlert => Ok(Request::SmbusAlert),
        Event::GeneralCall => Ok(Request::GeneralCall),
        Event::Stop(addr) => {
            assert(addr >> 1 == addr / 2) by (bit_vector);
            Ok(Request::Stop(addr >> 1))
        },
        Event::RepeatedStart(addr) | Event::AddressValid(addr) => {
            assert(addr >> 1 == addr / 2) by (bit_vector);
            assert(addr & 1 == addr % 2) by (bit_vector);
            if addr & 1 != 0 {
                Ok(Request::Read(addr >> 1))
            } else {
                Ok(Request::Write(addr >> 1))
            }
        },
        _ => Err(IOError::Other),
    }
}

/// Validated target clock input prepared before any hardware is touched. A
/// zero clock would otherwise be clamped into a plausible register value and
/// leave a nonfunctional target on the bus.
#[derive(Clone, Copy, Debug, PartialEq, Eq, Structural)]
pub struct TargetSetup {
    pub frequency: u32,
}

impl TargetSetup {
    pub fn new(frequency: u32) -> (r: Result<Self, SetupError>)
        ensures
            r == (if frequency == 0 {
                Err(SetupError::NoFunctionalClock)
            } else {
                Ok(TargetSetup { frequency })
            }),
    {
        if frequency == 0 {
            return Err(SetupError::NoFunctionalClock);
        }
        Ok(TargetSetup { frequency })
    }
}

/// The data-valid delay of about one microsecond, in clock cycles, within
/// its field.
pub open spec fn data_valid_delay(frequency: u32) -> int {
    if frequency / 1_000_000 < 1 {
        1
    } else if frequency / 1_000_000 > 63 {
        63
    } else {
        frequency as int / 1_000_000
    }
}

/// A wait for a new transaction: nothing but looks that did not end it.
pub open spec fn still_listening(before: Seq<Access>, log: Seq<Access>) -> bool {
    &&& extends(before, log)
    &&& forall|i: int|
        before.len() <= i < log.len() ==> (#[trigger] log[i] is ReadSsr && !listen_wakes(log[i]->ReadSsr_0))
}

/// The last look ended the wait.
pub open spec fn listen_over(before: Seq<Access>, log: Seq<Access>) -> bool {
    &&& log.len() > before.len()
    &&& still_listening(before, log.drop_last())
    &&& log.last() is ReadSsr
    &&& listen_wakes(log.last()->ReadSsr_0)
}

/// What a blocking listen did and returned: it cleared stale events, looked
/// until a look ended the wait, took one event, and reported its request. It
/// gives up only where the wait was polled to its limit.
pub open spec fn listened(before: Seq<Access>, after: Seq<Access>, r: Result<Request, IOError>) -> bool {
    let cleared = before.push(Access::WriteSsr(Ssr::all_events()));
    ||| exists|ready: Seq<Access>, event: ListenEvent|
        {
            &&& #[trigger] listen_event_ran(ready, after, event)
            &&& listen_over(cleared, ready)
            &&& r == request_of(event_of(event))
        }
    ||| {
        &&& still_listening(cleared, after)
        &&& after.len() - cleared.len() >= POLL_LIMIT
        &&& r == Err::<Request, IOError>(IOError::Other)
    }
}

/// The log ends with a look that found the given step.
pub open spec fn last_step(log: Seq<Access>, step: TargetTxStep) -> bool {
    log.len() > 0 && log.last() is ReadSsr && tx_step_of(log.last()->ReadSsr_0) == Some(step)
}

/// The log ends with a look that found a fault, and with the FIFO reset that
/// answers it.
pub open spec fn fault_answered(log: Seq<Access>, error: IOError) -> bool {
    let seen = log.take(log.len() - 2);
    &&& log.len() >= 3
    &&& seen.last() is ReadSsr
    &&& fault_of(seen.last()->ReadSsr_0) is Some
    &&& error == fault_error(fault_of(seen.last()->ReadSsr_0)->Some_0)
    &&& target_fifos_reset(seen, log)
}

/// How many bytes were queued for transmission behind `before`.
pub open spec fn queued_count(before: Seq<Access>, after: Seq<Access>) -> int {
    sent(after).len() - sent(before).len()
}

/// `next` is what a response to a read does behind `last`: it looks again
/// where there was nothing to do, queues one byte where there was room, resets
/// the FIFOs where there was a fault, and does nothing behind a termination.
pub open spec fn tx_follows(last: Access, next: Access) -> bool {
    match last {
        Access::ReadSsr(ssr) => match tx_step_of(ssr) {
            None => next is ReadSsr,
            Some(TargetTxStep::Room) => next is WriteStdr,
            Some(TargetTxStep::Fault(_)) => next is ReadScr,
            Some(TargetTxStep::Ended) => false,
        },
        Access::WriteStdr(_) => next is ReadSsr,
        Access::ReadScr(_) => next is WriteScr,
        _ => false,
    }
}

/// Everything behind `before` came as [`tx_follows`] says, beginning with a
/// look.
pub open spec fn tx_paced(before: Seq<Access>, log: Seq<Access>) -> bool {
    &&& extends(before, log)
    &&& log.len() > before.len() ==> log[before.len() as int] is ReadSsr
    &&& forall|i: int| before.len() < i < log.len() ==> tx_follows(log[i - 1], #[trigger] log[i])
}

/// `next` is what a response to a write does behind `last`: it looks again
/// where there was nothing to do, takes one byte where there was data, resets
/// the FIFOs where there was a fault, and does nothing behind a termination.
pub open spec fn rx_follows(last: Access, next: Access) -> bool {
    match last {
        Access::ReadSsr(ssr) => if ssr.rdf {
            next is ReadSrdr
        } else if fault_of(ssr) is Some {
            next is ReadScr
        } else {
            !ssr.sdf && !ssr.rsf && next is ReadSsr
        },
        Access::ReadSrdr(_) => next is ReadSsr,
        Access::ReadScr(_) => next is WriteScr,
        _ => false,
    }
}

/// Everything behind `before` came as [`rx_follows`] says, beginning with a
/// look.
pub open spec fn rx_paced(before: Seq<Access>, log: Seq<Access>) -> bool {
    &&& extends(before, log)
    &&& log.len() > before.len() ==> log[before.len() as int] is ReadSsr
    &&& forall|i: int| before.len() < i < log.len() ==> rx_follows(log[i - 1], #[trigger] log[i])
}

/// What a response to a read did and returned. The bytes queued are the
/// first bytes of the buffer, each behind a look that found room.
pub open spec fn read_answered(
    before: Seq<Access>,
    after: Seq<Access>,
    buf: Seq<u8>,
    r: Result<ReadStatus, IOError>,
) -> bool {
    let count = queued_count(before, after);
    &&& tx_paced(before, after)
    &&& 0 <= count <= buf.len()
    &&& sent(after) == sent(before) + buf.take(count)
    &&& taken(after) == taken(before)
    &&& match r {
        Ok(ReadStatus::EarlyStop(n)) => n == count && n < buf.len() && last_step(after, TargetTxStep::Ended),
        Ok(ReadStatus::Complete(n)) => n == count && n == buf.len() && last_step(after, TargetTxStep::Ended),
        Ok(ReadStatus::NeedMore(n)) => n == count && n == buf.len() && last_step(after, TargetTxStep::Room),
        Err(e) => fault_answered(after, e) || (e == IOError::Other && after.len() - before.len() >= POLL_LIMIT),
    }
}

/// The log ends with a look that found no data, no fault, and the given
/// termination.
pub open spec fn terminated(log: Seq<Access>, restarted: bool) -> bool {
    let ssr = log.last()->ReadSsr_0;
    &&& log.len() > 0
    &&& log.last() is ReadSsr
    &&& !ssr.rdf
    &&& fault_of(ssr) is None
    &&& if restarted {
        !ssr.sdf && ssr.rsf
    } else {
        ssr.sdf
    }
}

/// How many bytes were received behind `before`.
pub open spec fn taken_count(before: Seq<Access>, after: Seq<Access>) -> int {
    taken(after).len() - taken(before).len()
}

/// What a response to a write did and returned. The first bytes of the
/// buffer are the bytes that came in, each behind a look that found data; the
/// rest is untouched.
pub open spec fn write_answered(
    before: Seq<Access>,
    after: Seq<Access>,
    given: Seq<u8>,
    buf: Seq<u8>,
    r: Result<WriteStatus, IOError>,
) -> bool {
    let count = taken_count(before, after);
    &&& rx_paced(before, after)
    &&& buf.len() == given.len()
    &&& 0 <= count <= buf.len()
    &&& taken(after) == taken(before) + buf.take(count)
    &&& buf.skip(count) == given.skip(count)
    &&& sent(after) == sent(before)
    &&& match r {
        Ok(WriteStatus::Stopped(n)) => n == count && n < buf.len() && terminated(after, false),
        Ok(WriteStatus::Restarted(n)) => n == count && n < buf.len() && terminated(after, true),
        Ok(WriteStatus::BufferFull(n)) => n == count && n == buf.len(),
        Err(e) => fault_answered(after, e) || (e == IOError::Other && after.len() - before.len() >= POLL_LIMIT),
    }
}

/// I2C target driver.
pub struct I2c<H> {
    regs: TargetRegisters<H>,
    /// Peripheral input clock frequency in Hz, captured at construction.
    freq: u32,
    smbus_alert: Status,
    general_call: Status,
}

impl<H> I2c<H> {
    /// The history of the register block.
    pub closed spec fn log(&self) -> Seq<Access> {
        self.regs.log()
    }

    /// The identity of the register block.
    pub closed spec fn block(&self) -> usize {
        self.regs.block()
    }

    pub closed spec fn layout(&self) -> MappedAddresses {
        self.regs.layout()
    }

    pub closed spec fn clock_hz(&self) -> u32 {
        self.freq
    }

    pub closed spec fn alerts(&self) -> Status {
        self.smbus_alert
    }

    pub closed spec fn general_calls(&self) -> Status {
        self.general_call
    }

    /// Same register block and same configuration.
    pub open spec fn same_setup(&self, other: &Self) -> bool {
        &&& self.block() == other.block()
        &&& self.layout() == other.layout()
        &&& self.clock_hz() == other.clock_hz()
        &&& self.alerts() == other.alerts()
        &&& self.general_calls() == other.general_calls()
    }
}

impl<H: TargetPort> I2c<H> {
    /// Validates the complete target clock configuration without touching the
    /// peripheral. `clock` is what the clock tree says of the functional
    /// clock.
    pub fn construction_setup(clock: Option<Result<u32, ClockError>>) -> (r: Result<TargetSetup, SetupError>)
        ensures
            r == (match clock {
                None => Err(SetupError::ClockSetup(ClockError::NeverInitialized)),
                Some(Err(e)) => Err(SetupError::ClockSetup(e)),
                Some(Ok(hz)) => if hz == 0 {
                    Err(SetupError::NoFunctionalClock)
                } else {
                    Ok(TargetSetup { frequency: hz })
                },
            }),
    {
        match clock {
            None => Err(SetupError::ClockSetup(ClockError::NeverInitialized)),
            Some(Err(e)) => Err(SetupError::ClockSetup(e)),
            Some(Ok(hz)) => TargetSetup::new(hz),
        }
    }

    /// Takes over a clocked register block and configures the target.
    pub fn new_inner(
        regs: TargetRegisters<H>,
        config: &Config,
        address: ValidatedAddress,
        setup: TargetSetup,
    ) -> (r: Result<Self, SetupError>)
        requires
            layout_agrees(regs.block(), regs.layout()),
            address.planned(),
        ensures
            r matches Ok(inst) && {
                &&& inst.block() == regs.block()
                &&& inst.layout() == regs.layout()
                &&& inst.clock_hz() == setup.frequency
                &&& inst.alerts() == config.smbus_alert
                &&& inst.general_calls() == config.general_call
                &&& configured(
                    regs.log(),
                    inst.log(),
                    TargetPlan {
                        address,
                        general_call: config.general_call == Status::Enabled,
                        smbus_alert: config.smbus_alert == Status::Enabled,
                        datavd: data_valid_delay(setup.frequency) as u8,
                    },
                )
            },
    {
        let mut inst = I2c {
            regs,
            freq: setup.frequency,
            smbus_alert: config.smbus_alert,
            general_call: config.general_call,
        };
        match inst.set_configuration(config, address) {
            Ok(_) => Ok(inst),
            Err(e) => Err(e),
        }
    }

    fn set_configuration(&mut self, config: &Config, address: ValidatedAddress) -> (r: Result<(), SetupError>)
        requires
            layout_agrees(old(self).block(), old(self).layout()),
            address.planned(),
        ensures
            r is Ok,
            final(self).same_setup(old(self)),
            configured(
                old(self).log(),
                final(self).log(),
                (TargetPlan {
                    address,
                    general_call: config.general_call == Status::Enabled,
                    smbus_alert: config.smbus_alert == Status::Enabled,
                    datavd: data_valid_delay(old(self).clock_hz()) as u8,
                }),
            ),
    {
        let cycles: u32 = self.freq / 1_000_000;
        let datavd: u8 = if cycles < 1 {
            1
        } else if cycles > 63 {
            63
        } else {
            cycles as u8
        };
        self.regs.configure(address, bool::from(config.general_call), bool::from(config.smbus_alert), datavd)
    }

    /// Drops the contents of both FIFOs.
    pub fn reset_fifos(&mut self)
        ensures
            target_fifos_reset(old(self).log(), final(self).log()),
            final(self).same_setup(old(self)),
    {
        self.regs.reset_fifos();
    }

    /// Takes and classifies one listen event.
    fn status(&mut self) -> (r: Result<Event, IOError>)
        ensures
            exists|event: ListenEvent|
                {
                    &&& #[trigger] listen_event_ran(old(self).log(), final(self).log(), event)
                    &&& r == event_of(event)
                },
            final(self).same_setup(old(self)),
    {
        let ghost entered = self.log();
        let event = self.regs.take_listen_event();
        assert(listen_event_ran(entered, self.log(), event));
        match event {
            ListenEvent::Fault(f) => Err(IOError::from(f)),
            ListenEvent::AddressValid(addr) => Ok(Event::AddressValid(addr)),
            ListenEvent::GeneralCall => Ok(Event::GeneralCall),
            ListenEvent::SmbusAlert => Ok(Event::SmbusAlert),
            ListenEvent::TransmitAck => Ok(Event::TransmitAck),
            ListenEvent::RepeatedStart(addr) => Ok(Event::RepeatedStart(addr)),
            ListenEvent::Stop(addr) => Ok(Event::Stop(addr)),
            ListenEvent::Nothing => Err(IOError::Other),
        }
    }

    /// Blocks until the controller makes a request of this target.
    pub fn blocking_listen(&mut self) -> (r: Result<Request, IOError>)
        ensures
            listened(old(self).log(), final(self).log(), r),
            final(self).same_setup(old(self)),
    {
        self.regs.clear_stale_events();
        let ghost cleared = self.log();
        let mut polls: u64 = POLL_LIMIT;
        loop
            invariant
                self.same_setup(old(self)),
                cleared == old(self).log().push(Access::WriteSsr(Ssr::all_events())),
                still_listening(cleared, self.log()),
                self.log().len() - cleared.len() >= POLL_LIMIT - polls,
            decreases polls,
        {
            let ghost round = self.log();
            if self.regs.listen_ready() {
                let ghost ready = self.log();
                assert(ready.drop_last() =~= round);
                let event = self.status();
                let r = match event {
                    Ok(event) => request_for(event),
                    Err(e) => Err(e),
                };
                proof {
                    let found = choose|found: ListenEvent|
                        {
                            &&& #[trigger] listen_event_ran(ready, self.log(), found)
                            &&& event == event_of(found)
                        };
                    assert(listen_event_ran(ready, self.log(), found));
                    assert(r == request_of(event_of(found)));
                }
                return r;
            }
            if polls == 0 {
                return Err(IOError::Other);
            }
            polls = polls - 1;
        }
    }

    /// Waits for one transmit step, answering a fault with a FIFO reset.
    fn await_tx_step(&mut self, Ghost(begun): Ghost<Seq<Access>>) -> (r: Result<TargetTxStep, IOError>)
        requires
            tx_paced(begun, old(self).log()),
            old(self).log().len() == begun.len() || old(self).log().last() is WriteStdr,
        ensures
            final(self).same_setup(old(self)),
            tx_paced(begun, final(self).log()),
            final(self).log().len() > begun.len(),
            sent(final(self).log()) == sent(old(self).log()),
            taken(final(self).log()) == taken(old(self).log()),
            match r {
                Ok(step) => !(step is Fault) && last_step(final(self).log(), step),
                Err(e) => fault_answered(final(self).log(), e) || (e == IOError::Other && final(self).log().len()
                    - old(self).log().len() >= POLL_LIMIT),
            },
    {
        let ghost entered = self.log();
        let mut polls: u64 = POLL_LIMIT;
        loop
            invariant
                self.same_setup(old(self)),
                entered == old(self).log(),
                extends(entered, self.log()),
                tx_paced(begun, self.log()),
                self.log().len() == begun.len() || self.log().last() is WriteStdr || (self.log().last() is ReadSsr
                    && tx_step_of(self.log().last()->ReadSsr_0) is None),
                sent(self.log()) == sent(entered),
                taken(self.log()) == taken(entered),
                self.log().len() - entered.len() >= POLL_LIMIT - polls,
            decreases polls,
        {
            match self.regs.tx_step() {
                Some(TargetTxStep::Fault(f)) => {
                    let ghost seen = self.log();
                    self.reset_fifos();
                    assert(self.log().take(self.log().len() - 2) =~= seen);
                    return Err(IOError::from(f));
                },
                Some(step) => {
                    return Ok(step);
                },
                None => {},
            }
            if polls == 0 {
                return Err(IOError::Other);
            }
            polls = polls - 1;
        }
    }

    /// Transmits data to the controller, blocking until the transfer has come
    /// to a clean termination point: STOP, repeated START, or the buffer
    /// exhausted.
    ///
    /// Flags are not cleared at the entry: anything latched now belongs to
    /// this transfer.
    pub fn blocking_respond_to_read(&mut self, buf: &[u8]) -> (r: Result<ReadStatus, IOError>)
        ensures
            read_answered(old(self).log(), final(self).log(), buf@, r),
            final(self).same_setup(old(self)),
    {
        let ghost entered = self.log();
        let mut count: usize = 0;
        proof {
            assert(buf@.take(0) =~= Seq::<u8>::empty());
            assert(sent(entered) =~= sent(entered) + buf@.take(0));
        }
        while count < buf.len()
            invariant
                self.same_setup(old(self)),
                entered == old(self).log(),
                tx_paced(entered, self.log()),
                self.log().len() == entered.len() || self.log().last() is WriteStdr,
                count <= buf@.len(),
                sent(self.log()) == sent(entered) + buf@.take(count as int),
                taken(self.log()) == taken(entered),
            decreases buf@.len() - count,
        {
            match self.await_tx_step(Ghost(entered)) {
                Err(e) => {
                    return Err(e);
                },
                Ok(TargetTxStep::Ended) => {
                    return Ok(ReadStatus::EarlyStop(count));
                },
                Ok(_) => {
                    self.regs.push_tx(buf[count]);
                    proof {
                        assert(buf@.take(count + 1) =~= buf@.take(count as int).push(buf@[count as int]));
                        assert(sent(self.log()) =~= sent(entered) + buf@.take(count + 1));
                    }
                    count = count + 1;
                },
            }
        }
        // All bytes pushed: is the controller done, or does it want more?
        match self.await_tx_step(Ghost(entered)) {
            Err(e) => Err(e),
            Ok(TargetTxStep::Ended) => Ok(ReadStatus::Complete(count)),
            Ok(_) => Ok(ReadStatus::NeedMore(count)),
        }
    }

    /// Receives data from the controller, blocking until the transfer has come
    /// to a clean termination point: STOP, repeated START, or the buffer
    /// filled. Pending data drains before any termination is honored.
    pub fn blocking_respond_to_write(&mut self, buf: &mut [u8]) -> (r: Result<WriteStatus, IOError>)
        ensures
            write_answered(old(self).log(), final(self).log(), old(buf)@, final(buf)@, r),
            final(self).same_setup(old(self)),
    {
        let ghost entered = self.log();
        let ghost given = buf@;
        let mut count: usize = 0;
        let mut polls: u64 = POLL_LIMIT;
        let ghost mut mark: nat = self.log().len();
        proof {
            assert(buf@.take(0) =~= Seq::<u8>::empty());
            assert(taken(entered) =~= taken(entered) + buf@.take(0));
        }
        while count < buf.len()
            invariant
                self.same_setup(old(self)),
                entered == old(self).log(),
                given == old(buf)@,
                rx_paced(entered, self.log()),
                self.log().len() == entered.len() || self.log().last() is ReadSrdr || (self.log().last() is ReadSsr
                    && !rx_wakes(self.log().last()->ReadSsr_0)),
                buf@.len() == given.len(),
                count <= buf@.len(),
                taken(self.log()) == taken(entered) + buf@.take(count as int),
                buf@.skip(count as int) == given.skip(count as int),
                sent(self.log()) == sent(entered),
                entered.len() <= mark,
                self.log().len() - mark >= POLL_LIMIT - polls,
            decreases buf@.len() - count, polls,
        {
            match self.regs.rx_event() {
                Some(TargetRxEvent::Byte(b)) => {
                    let ghost before = buf@;
                    buf[count] = b;
                    proof {
                        assert(buf@.take(count + 1) =~= before.take(count as int).push(b));
                        assert(taken(self.log()) =~= taken(entered) + buf@.take(count + 1));
                        assert(buf@.skip(count + 1) =~= before.skip(count as int).skip(1));
                        assert(given.skip(count + 1) =~= given.skip(count as int).skip(1));
                        mark = self.log().len();
                    }
                    count = count + 1;
                    polls = POLL_LIMIT;
                },
                Some(TargetRxEvent::Fault(f)) => {
                    let ghost seen = self.log();
                    self.reset_fifos();
                    assert(self.log().take(self.log().len() - 2) =~= seen);
                    return Err(IOError::from(f));
                },
                Some(TargetRxEvent::Stopped) => {
                    return Ok(WriteStatus::Stopped(count));
                },
                Some(TargetRxEvent::Restarted) => {
                    return Ok(WriteStatus::Restarted(count));
                },
                None => {
                    if polls == 0 {
                        return Err(IOError::Other);
                    }
                    polls = polls - 1;
                },
            }
        }
        Ok(WriteStatus::BufferFull(count))
    }
}

/// The outcome of one asynchronous step: wait for the next wake with this
/// progress, or be done.
#[derive(Clone, Copy, Debug, PartialEq, Eq)]
pub enum Progress<T> {
    Wait(usize),
    Done(T),
}

/// What one step of an interrupt-driven response to a read did and returned.
/// Unlike the blocking response, it resets the FIFOs when the transfer ends.
pub open spec fn read_step_ran(
    before: Seq<Access>,
    after: Seq<Access>,
    buf: Seq<u8>,
    count: int,
    waited: Option<WaitOutcome>,
    r: Progress<Result<ReadStatus, IOError>>,
) -> bool {
    let ssr = entry(before, after, 0)->ReadSsr_0;
    let looked = before.push(Access::ReadSsr(ssr));
    match waited {
        None => after == before && r == Progress::<Result<ReadStatus, IOError>>::Wait(count as usize),
        Some(WaitOutcome::Woken) => match tx_step_of(ssr) {
            None => {
                &&& after == looked
                &&& r == Progress::<Result<ReadStatus, IOError>>::Wait(count as usize)
            },
            Some(TargetTxStep::Fault(fault)) => {
                &&& target_fifos_reset(looked, after)
                &&& r == Progress::Done(Err::<ReadStatus, IOError>(fault_error(fault)))
            },
            Some(TargetTxStep::Ended) => {
                &&& target_fifos_reset(looked, after)
                &&& r == Progress::Done(
                    Ok::<ReadStatus, IOError>(
                        if count < buf.len() {
                            ReadStatus::EarlyStop(count as usize)
                        } else {
                            ReadStatus::Complete(count as usize)
                        },
                    ),
                )
            },
            Some(TargetTxStep::Room) => if count < buf.len() {
                &&& after == looked.push(Access::WriteStdr(Stdr { data: buf[count] }))
                &&& r == Progress::<Result<ReadStatus, IOError>>::Wait((count + 1) as usize)
            } else {
                &&& after == looked
                &&& r == Progress::Done(Ok::<ReadStatus, IOError>(ReadStatus::NeedMore(count as usize)))
            },
        },
        Some(_) => after == before && r == Progress::Done(Err::<ReadStatus, IOError>(IOError::Other)),
    }
}

/// What one step of an interrupt-driven response to a write did and returned.
pub open spec fn write_step_ran(
    before: Seq<Access>,
    after: Seq<Access>,
    given: Seq<u8>,
    buf: Seq<u8>,
    count: int,
    waited: Option<WaitOutcome>,
    r: Progress<Result<WriteStatus, IOError>>,
) -> bool {
    let ssr = entry(before, after, 0)->ReadSsr_0;
    let byte = entry(before, after, 1)->ReadSrdr_0;
    let looked = before.push(Access::ReadSsr(ssr));
    match waited {
        None => {
            &&& after == before
            &&& buf == given
            &&& r == (if count < buf.len() {
                Progress::Wait(count as usize)
            } else {
                Progress::Done(Ok::<WriteStatus, IOError>(WriteStatus::BufferFull(count as usize)))
            })
        },
        Some(WaitOutcome::Woken) => if ssr.rdf {
            &&& after == looked.push(Access::ReadSrdr(byte))
            &&& buf == given.update(count, byte.data)
            &&& r == (if count + 1 < buf.len() {
                Progress::Wait((count + 1) as usize)
            } else {
                Progress::Done(Ok::<WriteStatus, IOError>(WriteStatus::BufferFull((count + 1) as usize)))
            })
        } else if fault_of(ssr) is Some {
            &&& target_fifos_reset(looked, after)
            &&& buf == given
            &&& r == Progress::Done(Err::<WriteStatus, IOError>(fault_error(fault_of(ssr)->Some_0)))
        } else if ssr.sdf || ssr.rsf {
            &&& target_fifos_reset(looked, after)
            &&& buf == given
            &&& r == Progress::Done(
                Ok::<WriteStatus, IOError>(
                    if ssr.sdf {
                        WriteStatus::Stopped(count as usize)
                    } else {
                        WriteStatus::Restarted(count as usize)
                    },
                ),
            )
        } else {
            &&& after == looked
            &&& buf == given
            &&& r == Progress::<Result<WriteStatus, IOError>>::Wait(count as usize)
        },
        Some(_) => {
            &&& after == before
            &&& buf == given
            &&& r == Progress::Done(Err::<WriteStatus, IOError>(IOError::Other))
        },
    }
}

impl<H: TargetPort> I2c<H> {
    /// Starts an asynchronous listen: clears stale events.
    pub fn begin_listen(&mut self)
        ensures
            final(self).log() == old(self).log().push(Access::WriteSsr(Ssr::all_events())),
            final(self).same_setup(old(self)),
    {
        self.regs.clear_stale_events();
    }

    /// Arms the listening interrupts and evaluates the wake condition of an
    /// asynchronous listen.
    pub fn listen_wake(&mut self) -> (r: bool)
        ensures
            ({
                let ssr = entry(old(self).log(), final(self).log(), 1)->ReadSsr_0;
                let armed = Sier::listen(
                    old(self).general_calls() == Status::Enabled,
                    old(self).alerts() == Status::Enabled,
                );
                &&& final(self).log() == old(self).log().push(Access::WriteSier(armed)).push(Access::ReadSsr(ssr))
                &&& r == listen_wakes(ssr)
            }),
            final(self).same_setup(old(self)),
    {
        self.regs.listen_wake(bool::from(self.general_call), bool::from(self.smbus_alert))
    }

    /// Ends an asynchronous listen after its wait: takes one event and
    /// reports its request.
    pub fn finish_listen(&mut self, waited: WaitOutcome) -> (r: Result<Request, IOError>)
        ensures
            final(self).same_setup(old(self)),
            if waited == WaitOutcome::Woken {
                exists|event: ListenEvent|
                    {
                        &&& #[trigger] listen_event_ran(old(self).log(), final(self).log(), event)
                        &&& r == request_of(event_of(event))
                    }
            } else {
                &&& r == Err::<Request, IOError>(IOError::Other)
                &&& final(self).log() == old(self).log()
            },
    {
        match waited {
            WaitOutcome::Woken => {
                let event = self.status();
                match event {
                    Ok(event) => request_for(event),
                    Err(e) => Err(e),
                }
            },
            _ => Err(IOError::Other),
        }
    }

    /// Arms the transmit interrupts and evaluates their wake condition.
    pub fn tx_wake(&mut self) -> (r: bool)
        ensures
            ({
                let ssr = entry(old(self).log(), final(self).log(), 1)->ReadSsr_0;
                &&& final(self).log() == old(self).log().push(Access::WriteSier(Sier::transmit())).push(
                    Access::ReadSsr(ssr),
                )
                &&& r == tx_wakes(ssr)
            }),
            final(self).same_setup(old(self)),
    {
        self.regs.tx_wake()
    }

    /// Arms the receive interrupts and evaluates their wake condition.
    pub fn rx_wake(&mut self) -> (r: bool)
        ensures
            ({
                let ssr = entry(old(self).log(), final(self).log(), 1)->ReadSsr_0;
                &&& final(self).log() == old(self).log().push(Access::WriteSier(Sier::receive())).push(
                    Access::ReadSsr(ssr),
                )
                &&& r == rx_wakes(ssr)
            }),
            final(self).same_setup(old(self)),
    {
        self.regs.rx_wake()
    }

    /// One step of an interrupt-driven response to a read. `waited` is how
    /// the last wait for [`Self::tx_wake`] ended, and `None` at the start.
    /// The buffer is not padded: a controller that clocks on gets
    /// [`ReadStatus::NeedMore`].
    pub fn respond_to_read_step(&mut self, buf: &[u8], count: usize, waited: Option<WaitOutcome>) -> (r: Progress<
        Result<ReadStatus, IOError>,
    >)
        requires
            count <= buf@.len(),
        ensures
            read_step_ran(old(self).log(), final(self).log(), buf@, count as int, waited, r),
            r matches Progress::Wait(next) ==> {
                &&& count <= next <= buf@.len()
                &&& sent(final(self).log()) == sent(old(self).log()) + buf@.subrange(count as int, next as int)
            },
            r is Done ==> sent(final(self).log()) == sent(old(self).log()),
            final(self).same_setup(old(self)),
    {
        let ghost entered = self.log();
        proof {
            assert(buf@.subrange(count as int, count as int) =~= Seq::<u8>::empty());
            assert(sent(entered) =~= sent(entered) + Seq::<u8>::empty());
        }
        match waited {
            None => {
                return Progress::Wait(count);
            },
            Some(WaitOutcome::Woken) => {},
            Some(_) => {
                return Progress::Done(Err(IOError::Other));
            },
        }
        match self.regs.tx_step() {
            Some(TargetTxStep::Fault(f)) => {
                self.reset_fifos();
                Progress::Done(Err(IOError::from(f)))
            },
            Some(TargetTxStep::Ended) => {
                self.reset_fifos();
                if count < buf.len() {
                    Progress::Done(Ok(ReadStatus::EarlyStop(count)))
                } else {
                    Progress::Done(Ok(ReadStatus::Complete(count)))
                }
            },
            Some(TargetTxStep::Room) => {
                if count < buf.len() {
                    self.regs.push_tx(buf[count]);
                    proof {
                        assert(buf@.subrange(count as int, count + 1) =~= seq![buf@[count as int]]);
                        assert(sent(self.log()) =~= sent(entered) + buf@.subrange(count as int, count + 1));
                    }
                    Progress::Wait(count + 1)
                } else {
                    Progress::Done(Ok(ReadStatus::NeedMore(count)))
                }
            },
            None => Progress::Wait(count),
        }
    }

    /// One step of an interrupt-driven response to a write. `waited` is how
    /// the last wait for [`Self::rx_wake`] ended, and `None` at the start.
    pub fn respond_to_write_step(&mut self, buf: &mut [u8], count: usize, waited: Option<WaitOutcome>) -> (r: Progress<
        Result<WriteStatus, IOError>,
    >)
        requires
            count <= old(buf)@.len(),
            waited is Some ==> count < old(buf)@.len(),
        ensures
            write_step_ran(old(self).log(), final(self).log(), old(buf)@, final(buf)@, count as int, waited, r),
            r matches Progress::Wait(next) ==> next < final(buf)@.len(),
            final(buf)@.len() == old(buf)@.len(),
            final(self).same_setup(old(self)),
    {
        match waited {
            None => {
                if count < buf.len() {
                    return Progress::Wait(count);
                }
                return Progress::Done(Ok(WriteStatus::BufferFull(count)));
            },
            Some(WaitOutcome::Woken) => {},
            Some(_) => {
                return Progress::Done(Err(IOError::Other));
            },
        }
        match self.regs.rx_event() {
            Some(TargetRxEvent::Byte(b)) => {
                buf[count] = b;
                if count + 1 < buf.len() {
                    Progress::Wait(count + 1)
                } else {
                    Progress::Done(Ok(WriteStatus::BufferFull(count + 1)))
                }
            },
            Some(TargetRxEvent::Fault(f)) => {
                self.reset_fifos();
                Progress::Done(Err(IOError::from(f)))
            },
            Some(TargetRxEvent::Stopped) => {
                self.reset_fifos();
                Progress::Done(Ok(WriteStatus::Stopped(count)))
            },
            Some(TargetRxEvent::Restarted) => {
                self.reset_fifos();
                Progress::Done(Ok(WriteStatus::Restarted(count)))
            },
            None => Progress::Wait(count),
        }
    }

    /// Explicitly abandons a response that still owns the bus: masks the
    /// target's requests, releases a possible clock stretch, discards the
    /// unfinished transfer's residue, and re-arms the configured target.
    pub fn abort_response(&mut self)
        ensures
            response_aborted(old(self).log(), final(self).log()),
            final(self).same_setup(old(self)),
    {
        self.regs.abort_active_response();
    }
}

/// Outcome of a single DMA transmit chunk.
#[derive(Clone, Copy, Debug, PartialEq, Eq, Structural)]
pub enum TxChunkOutcome {
    /// Controller issued STOP. Counts bytes transferred from this chunk.
    Stopped(usize),
    /// Controller issued repeated START. Counts bytes transferred from this
    /// chunk.
    Restarted(usize),
    /// The chunk was exhausted and the controller is still asking for more
    /// bytes. Equals the chunk length.
    NeedMore(usize),
}

/// Outcome of a single DMA receive chunk.
#[derive(Clone, Copy, Debug, PartialEq, Eq, Structural)]
pub enum RxChunkOutcome {
    /// Controller issued STOP. Counts bytes received into this chunk.
    Stopped(usize),
    /// Controller issued repeated START. Counts bytes received into this
    /// chunk.
    Restarted(usize),
    /// The chunk filled before the controller terminated the transfer. Equals
    /// the chunk length.
    Filled(usize),
}

/// What the classification of a finished receive chunk did and returned.
/// Data that the chunk has no room for defers the termination, so that the
/// residue is not marooned into the next transaction.
pub open spec fn rx_chunk_classified(
    before: Seq<Access>,
    after: Seq<Access>,
    bytes: usize,
    length: usize,
    r: Result<RxChunkOutcome, IOError>,
) -> bool {
    let ssr = entry(before, after, 0)->ReadSsr_0;
    let looked = before.push(Access::ReadSsr(ssr));
    match rx_chunk_end_of(ssr, bytes == length) {
        RxChunkEnd::Fault(fault) => {
            &&& target_fifos_reset(looked, after)
            &&& r == Err::<RxChunkOutcome, IOError>(fault_error(fault))
        },
        RxChunkEnd::ResiduePending | RxChunkEnd::Continue => {
            &&& after == looked
            &&& r == Ok::<RxChunkOutcome, IOError>(RxChunkOutcome::Filled(length))
        },
        RxChunkEnd::Stopped => {
            &&& after == looked
            &&& r == Ok::<RxChunkOutcome, IOError>(RxChunkOutcome::Stopped(bytes))
        },
        RxChunkEnd::Restarted => {
            &&& after == looked
            &&& r == Ok::<RxChunkOutcome, IOError>(RxChunkOutcome::Restarted(bytes))
        },
    }
}

/// What ending a receive chunk did and returned: the channel is shut down,
/// what the FIFO still holds is drained behind the bytes it moved, and the
/// chunk is classified.
pub open spec fn rx_chunk_ran(
    before: Seq<Access>,
    after: Seq<Access>,
    given: Seq<u8>,
    data: Seq<u8>,
    length: usize,
    r: Result<RxChunkOutcome, IOError>,
) -> bool {
    exists|quiet: Seq<Access>, drained: Seq<Access>, moved: usize, bytes: usize|
        {
            &&& #[trigger] dma_finished(before, quiet, Direction::Rx, length, moved)
            &&& #[trigger] rx_drained(quiet, drained, given, data, moved, bytes)
            &&& rx_chunk_classified(drained, after, bytes, length, r)
        }
}

/// Where a transmit chunk stands: classified, or still to be settled, with
/// the bytes that were moved.
pub enum TxChunk {
    Done(Result<TxChunkOutcome, IOError>),
    Settle(usize),
}

/// What one classification of a transmit chunk did and returned. With nothing
/// latched, `rest` says how the chunk goes on.
pub open spec fn tx_chunk_classified(
    before: Seq<Access>,
    after: Seq<Access>,
    bytes: usize,
    rest: TxChunk,
    r: TxChunk,
) -> bool {
    let ssr = entry(before, after, 0)->ReadSsr_0;
    let looked = before.push(Access::ReadSsr(ssr));
    match chunk_end_of(ssr) {
        ChunkEnd::Fault(fault) => {
            &&& target_fifos_reset(looked, after)
            &&& r == TxChunk::Done(Err(fault_error(fault)))
        },
        ChunkEnd::Stopped => {
            &&& after == looked
            &&& r == TxChunk::Done(Ok(TxChunkOutcome::Stopped(bytes)))
        },
        ChunkEnd::Restarted => {
            &&& after == looked
            &&& r == TxChunk::Done(Ok(TxChunkOutcome::Restarted(bytes)))
        },
        ChunkEnd::Continue => {
            &&& after == looked
            &&& r == rest
        },
    }
}

/// The bytes so far and those of one more chunk. A channel that reports more
/// than can be counted counts as much as can be.
pub open spec fn joined(count: usize, n: usize) -> usize {
    if count + n <= usize::MAX {
        (count + n) as usize
    } else {
        usize::MAX
    }
}

/// How a response to a read stands behind a finished chunk: goes on with the
/// next chunk, or is done.
pub open spec fn joined_read(count: usize, outcome: TxChunkOutcome, is_last: bool, total: usize) -> Progress<
    ReadStatus,
> {
    match outcome {
        TxChunkOutcome::NeedMore(n) => if is_last {
            Progress::Done(ReadStatus::NeedMore(joined(count, n)))
        } else {
            Progress::Wait(joined(count, n))
        },
        TxChunkOutcome::Stopped(n) | TxChunkOutcome::Restarted(n) => Progress::Done(
            if is_last && joined(count, n) == total {
                ReadStatus::Complete(joined(count, n))
            } else {
                ReadStatus::EarlyStop(joined(count, n))
            },
        ),
    }
}

/// Computes [`joined_read`].
pub fn read_chunk_done(count: usize, outcome: TxChunkOutcome, is_last: bool, total: usize) -> (r: Progress<ReadStatus>)
    ensures
        r == joined_read(count, outcome, is_last, total),
{
    match outcome {
        TxChunkOutcome::Stopped(n) | TxChunkOutcome::Restarted(n) => {
            let count: usize = count.saturating_add(n);
            if is_last && count == total {
                Progress::Done(ReadStatus::Complete(count))
            } else {
                Progress::Done(ReadStatus::EarlyStop(count))
            }
        },
        TxChunkOutcome::NeedMore(n) => {
            let count: usize = count.saturating_add(n);
            if is_last {
                Progress::Done(ReadStatus::NeedMore(count))
            } else {
                Progress::Wait(count)
            }
        },
    }
}

/// How a response to a write stands behind a finished chunk: goes on with the
/// next chunk, or is done.
pub open spec fn joined_write(count: usize, outcome: RxChunkOutcome, is_last: bool) -> Progress<WriteStatus> {
    match outcome {
        RxChunkOutcome::Stopped(n) => Progress::Done(WriteStatus::Stopped(joined(count, n))),
        RxChunkOutcome::Restarted(n) => Progress::Done(WriteStatus::Restarted(joined(count, n))),
        RxChunkOutcome::Filled(n) => if is_last {
            Progress::Done(WriteStatus::BufferFull(joined(count, n)))
        } else {
            Progress::Wait(joined(count, n))
        },
    }
}

/// Computes [`joined_write`].
pub fn write_chunk_done(count: usize, outcome: RxChunkOutcome, is_last: bool) -> (r: Progress<WriteStatus>)
    ensures
        r == joined_write(count, outcome, is_last),
{
    match outcome {
        RxChunkOutcome::Stopped(n) => Progress::Done(WriteStatus::Stopped(count.saturating_add(n))),
        RxChunkOutcome::Restarted(n) => Progress::Done(WriteStatus::Restarted(count.saturating_add(n))),
        RxChunkOutcome::Filled(n) => {
            if is_last {
                Progress::Done(WriteStatus::BufferFull(count.saturating_add(n)))
            } else {
                Progress::Wait(count.saturating_add(n))
            }
        },
    }
}

impl<H: TargetPort + DmaPort> I2c<H> {
    /// Arms the receive channel for the chunk that begins at `offset` of the
    /// lent buffer.
    pub fn begin_read_dma_chunk(&mut self, offset: usize, length: usize, max_transfer: usize) -> (r: Result<
        (),
        IOError,
    >)
        requires
            old(self).block() <= usize::MAX - 0x170,
        ensures
            dma_armed(
                old(self).log(),
                final(self).log(),
                Direction::Rx,
                (old(self).block() + 0x170) as usize,
                offset,
                length,
                max_transfer,
                match r {
                    Ok(_) => Ok(()),
                    Err(_) => Err(InvalidParameters),
                },
            ),
            r matches Err(e) ==> e == IOError::Other,
            final(self).same_setup(old(self)),
    {
        match self.regs.arm_rx_dma(offset, length, max_transfer) {
            Ok(_) => Ok(()),
            Err(e) => Err(IOError::from(e)),
        }
    }

    /// Arms the transmit channel for the chunk that begins at `offset` of the
    /// lent buffer.
    pub fn begin_write_dma_chunk(&mut self, offset: usize, length: usize, max_transfer: usize) -> (r: Result<
        (),
        IOError,
    >)
        requires
            old(self).block() <= usize::MAX - 0x170,
        ensures
            dma_armed(
                old(self).log(),
                final(self).log(),
                Direction::Tx,
                (old(self).block() + 0x160) as usize,
                offset,
                length,
                max_transfer,
                match r {
                    Ok(_) => Ok(()),
                    Err(_) => Err(InvalidParameters),
                },
            ),
            r matches Err(e) ==> e == IOError::Other,
            final(self).same_setup(old(self)),
    {
        match self.regs.arm_tx_dma(offset, length, max_transfer) {
            Ok(_) => Ok(()),
            Err(e) => Err(IOError::from(e)),
        }
    }

    /// Arms the DMA-transfer interrupts and evaluates their wake condition
    /// together with the channel's completion.
    pub fn dma_wake(&mut self, direction: Direction) -> (r: bool)
        ensures
            ({
                let ssr = entry(old(self).log(), final(self).log(), 1)->ReadSsr_0;
                let checked = old(self).log().push(Access::WriteSier(Sier::terminations())).push(
                    Access::ReadSsr(ssr),
                );
                if dma_wakes(ssr) {
                    &&& final(self).log() == checked
                    &&& r
                } else {
                    final(self).log() == checked.push(Access::DmaIsDone(direction, r))
                }
            }),
            final(self).same_setup(old(self)),
    {
        self.regs.dma_wake(direction)
    }

    /// Shuts the channel of a cancelled chunk down.
    pub fn cancel_dma_chunk(&mut self, direction: Direction, total: usize) -> (moved: usize)
        ensures
            dma_finished(old(self).log(), final(self).log(), direction, total, moved),
            final(self).same_setup(old(self)),
    {
        match direction {
            Direction::Rx => self.regs.finish_rx_dma(total),
            Direction::Tx => self.regs.finish_tx_dma(total),
        }
    }

    /// Ends a receive chunk after its wait. `data` is the chunk's buffer.
    ///
    /// The termination wake races the final byte's handoff: a byte may rest in
    /// the FIFO whose request was rescinded by the shutdown, so the FIFO is
    /// drained before the chunk is classified.
    pub fn finish_read_dma_chunk(&mut self, data: &mut [u8]) -> (r: Result<RxChunkOutcome, IOError>)
        ensures
            rx_chunk_ran(
                old(self).log(),
                final(self).log(),
                old(data)@,
                final(data)@,
                old(data)@.len() as usize,
                r,
            ),
            final(data)@.len() == old(data)@.len(),
            final(self).same_setup(old(self)),
    {
        let ghost entered = self.log();
        let ghost given = data@;
        let length: usize = data.len();
        let moved: usize = self.regs.finish_rx_dma(length);
        let ghost quiet = self.log();
        let bytes: usize = self.regs.drain_rx(data, moved);
        let ghost drained = self.log();
        assert(dma_finished(entered, quiet, Direction::Rx, length, moved));
        assert(rx_drained(quiet, drained, given, data@, moved, bytes));
        match self.regs.rx_chunk_end(bytes == length) {
            RxChunkEnd::Fault(f) => {
                // Whatever the FIFOs still hold must not survive into the
                // next transaction.
                self.regs.reset_fifos();
                Err(IOError::from(f))
            },
            RxChunkEnd::ResiduePending => Ok(RxChunkOutcome::Filled(length)),
            RxChunkEnd::Stopped => Ok(RxChunkOutcome::Stopped(bytes)),
            RxChunkEnd::Restarted => Ok(RxChunkOutcome::Restarted(bytes)),
            RxChunkEnd::Continue => Ok(RxChunkOutcome::Filled(length)),
        }
    }

    /// Ends a transmit chunk of `length` bytes after its wait. An exhausted
    /// chunk proves only that its last byte entered the transmit register, so
    /// it still has to settle.
    pub fn finish_write_dma_chunk(&mut self, length: usize) -> (r: TxChunk)
        ensures
            exists|quiet: Seq<Access>, moved: usize|
                {
                    &&& #[trigger] dma_finished(old(self).log(), quiet, Direction::Tx, length, moved)
                    &&& tx_chunk_classified(quiet, final(self).log(), moved, TxChunk::Settle(moved), r)
                },
            final(self).same_setup(old(self)),
    {
        let ghost entered = self.log();
        let moved: usize = self.regs.finish_tx_dma(length);
        assert(dma_finished(entered, self.log(), Direction::Tx, length, moved));
        match self.regs.chunk_end() {
            ChunkEnd::Fault(f) => {
                self.regs.reset_fifos();
                TxChunk::Done(Err(IOError::from(f)))
            },
            ChunkEnd::Stopped => TxChunk::Done(Ok(TxChunkOutcome::Stopped(moved))),
            ChunkEnd::Restarted => TxChunk::Done(Ok(TxChunkOutcome::Restarted(moved))),
            ChunkEnd::Continue => TxChunk::Settle(moved),
        }
    }

    /// Settles an exhausted transmit chunk after a wait for
    /// [`Self::tx_wake`]: a termination means the read ended exactly at the
    /// chunk, and otherwise the controller clocks on.
    pub fn settle_write_dma_chunk(&mut self, length: usize, moved: usize, waited: WaitOutcome) -> (r: TxChunk)
        ensures
            if waited == WaitOutcome::Woken {
                tx_chunk_classified(
                    old(self).log(),
                    final(self).log(),
                    moved,
                    TxChunk::Done(Ok(TxChunkOutcome::NeedMore(length))),
                    r,
                )
            } else {
                &&& r == TxChunk::Done(Err(IOError::Other))
                &&& final(self).log() == old(self).log()
            },
            final(self).same_setup(old(self)),
    {
        match waited {
            WaitOutcome::Woken => {},
            _ => {
                return TxChunk::Done(Err(IOError::Other));
            },
        }
        match self.regs.chunk_end() {
            ChunkEnd::Fault(f) => {
                self.regs.reset_fifos();
                TxChunk::Done(Err(IOError::from(f)))
            },
            ChunkEnd::Stopped => TxChunk::Done(Ok(TxChunkOutcome::Stopped(moved))),
            ChunkEnd::Restarted => TxChunk::Done(Ok(TxChunkOutcome::Restarted(moved))),
            ChunkEnd::Continue => TxChunk::Done(Ok(TxChunkOutcome::NeedMore(length))),
        }
    }
}

} // verus!
