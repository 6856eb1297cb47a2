use lpi2c::baud::{compute_baud_params, Prescale};
use lpi2c::clocks::{ClockError, Lpi2cClockSel, PoweredClock};
use lpi2c::controller::{
    Config as ControllerConfig, ControllerSetup, PinLowTimeout, SetupError as ControllerSetupError, Speed,
};
use lpi2c::target::{Address, Config as TargetConfig, SetupError, Status, TargetSetup, ValidatedAddress};

#[test]
fn only_implemented_speeds_can_cross_the_setup_boundary() {
    assert!(Speed::Standard.supported().is_ok());
    assert!(Speed::Fast.supported().is_ok());
    assert!(Speed::FastPlus.supported().is_ok());
    assert!(matches!(
        Speed::UltraFast.supported(),
        Err(ControllerSetupError::UnsupportedSpeed)
    ));
}

#[test]
fn target_setup_rejects_a_zero_functional_clock() {
    assert!(matches!(TargetSetup::new(0), Err(SetupError::NoFunctionalClock)));
}

fn is_valid(address: Address) -> bool {
    address.validate().is_ok()
}

#[test]
fn target_address_validation_accepts_only_representable_same_width_plans() {
    assert!(is_valid(Address::Single(0x00)));
    assert!(is_valid(Address::Single(0x7f)));
    assert!(is_valid(Address::Single(0x80)));
    assert!(is_valid(Address::Single(0x3ff)));
    assert!(!is_valid(Address::Single(0x400)));

    assert!(is_valid(Address::Dual(0x20, 0x30)));
    assert!(is_valid(Address::Dual(0x80, 0x3ff)));
    assert!(!is_valid(Address::Dual(0x7f, 0x80)));
    assert!(!is_valid(Address::Dual(0x400, 0x401)));

    assert!(is_valid(Address::Range(0x20..0x30)));
    assert!(is_valid(Address::Range(0x7f..0x80)));
    assert!(is_valid(Address::Range(0x00..0x80)));
    assert!(is_valid(Address::Range(0x80..0x400)));
    assert!(!is_valid(Address::Range(0x00..0x00)));
    assert!(!is_valid(Address::Range(0x31..0x30)));
    assert!(!is_valid(Address::Range(0x7f..0x81)));
    assert!(!is_valid(Address::Range(0x3ff..0x401)));
}

#[test]
fn bus_timing_is_exact() {
    assert_eq!(
        compute_baud_params(12_000_000, 100_000),
        (Prescale::DivideBy1, 61, 55, 59, 29)
    );
    assert_eq!(
        compute_baud_params(12_000_000, 400_000),
        (Prescale::DivideBy1, 14, 12, 14, 6)
    );
    assert_eq!(
        compute_baud_params(45_000_000, 1_000_000),
        (Prescale::DivideBy1, 22, 19, 21, 10)
    );
    assert_eq!(
        compute_baud_params(180_000_000, 100_000),
        (Prescale::DivideBy16, 57, 54, 55, 27)
    );
}

#[test]
fn a_clock_that_no_prescaler_can_serve_gets_an_empty_period() {
    assert_eq!(
        compute_baud_params(1_000_000, 1_000_000),
        (Prescale::DivideBy1, 0, 0, 0, 0)
    );
}

#[test]
fn timing_fields_fit_their_registers() {
    for rate in [100_000, 400_000, 1_000_000] {
        for clock in [0, 1, 999_999, 12_000_000, 48_000_000, 330_000_000] {
            let (_, low, high, hold, _) = compute_baud_params(clock, rate);
            assert!(low < 64 && high < 64 && hold < 64);
        }
    }
}

#[test]
fn the_low_phase_stays_within_a_cycle_of_the_bus_free_time() {
    for (clock, rate) in [(12_000_000u32, 100_000u32), (45_000_000, 400_000), (180_000_000, 1_000_000)] {
        let (prescale, low, _, _, _) = compute_baud_params(clock, rate);
        let bus_free = 13 * clock / rate / prescale.divide_by() / 25;
        assert!(u32::from(low) + 1 >= bus_free);
    }
}

#[test]
fn the_fields_of_a_viable_period_add_up() {
    // Low and high phase make up the period but for the fixed overhead: no
    // field was cut to its width.
    for (clock, rate) in [(12_000_000u32, 100_000u32), (12_000_000, 400_000), (180_000_000, 100_000)] {
        let (prescale, low, high, hold, valid) = compute_baud_params(clock, rate);
        let divider = prescale.divide_by();
        let period = (10 * clock / divider / rate + 5) / 10;
        assert_eq!(u32::from(low) + u32::from(high), period - (2 / divider + 2));
        assert_eq!(u32::from(hold), clock / rate / divider / 2 - 1);
        assert_eq!(u32::from(valid), clock / rate / divider / 4 - 1);
    }
}

#[test]
fn prescalers_divide_by_powers_of_two() {
    assert_eq!(Prescale::DivideBy1.divide_by(), 1);
    assert_eq!(Prescale::DivideBy8.divide_by(), 8);
    assert_eq!(Prescale::DivideBy128.divide_by(), 128);
}

#[test]
fn speeds_name_their_bit_rates() {
    assert_eq!(u32::from(Speed::Standard), 100_000);
    assert_eq!(u32::from(Speed::Fast), 400_000);
    assert_eq!(u32::from(Speed::FastPlus), 1_000_000);
    assert_eq!(u32::from(Speed::UltraFast), 3_400_000);
    assert_eq!(Speed::FastPlus.supported().ok().map(|s| s.hertz()), Some(1_000_000));
}

fn prepare(clock: u32, watchdog: PinLowTimeout) -> Result<ControllerSetup, ControllerSetupError> {
    match Speed::Standard.supported() {
        Ok(speed) => ControllerSetup::new(clock, speed, watchdog),
        Err(e) => Err(e),
    }
}

#[test]
fn a_disabled_watchdog_has_no_count() {
    let setup = prepare(12_000_000, PinLowTimeout::Disabled).ok().unwrap();
    assert_eq!(setup.prescale, Prescale::DivideBy1);
    assert_eq!((setup.clklo, setup.clkhi, setup.sethold, setup.datavd), (61, 55, 59, 29));
    assert_eq!(setup.pinlow, 0);
}

#[test]
fn a_watchdog_is_rounded_up_to_its_quantum() {
    // One count is 256 cycles of 12 MHz: 21.3 microseconds.
    assert_eq!(prepare(12_000_000, PinLowTimeout::Enabled(21)).ok().unwrap().pinlow, 1);
    assert_eq!(prepare(12_000_000, PinLowTimeout::Enabled(22)).ok().unwrap().pinlow, 2);
    assert_eq!(prepare(12_000_000, PinLowTimeout::Enabled(1_000)).ok().unwrap().pinlow, 47);
    assert_eq!(prepare(12_000_000, PinLowTimeout::Enabled(87_360)).ok().unwrap().pinlow, 0xfff);
}

#[test]
fn an_unrepresentable_watchdog_is_rejected() {
    assert!(matches!(
        prepare(12_000_000, PinLowTimeout::Enabled(0)),
        Err(ControllerSetupError::PinLowTimeoutOutOfRange)
    ));
    assert!(matches!(
        prepare(12_000_000, PinLowTimeout::Enabled(87_361)),
        Err(ControllerSetupError::PinLowTimeoutOutOfRange)
    ));
    assert!(matches!(
        prepare(12_000_000, PinLowTimeout::Enabled(u64::MAX)),
        Err(ControllerSetupError::PinLowTimeoutOutOfRange)
    ));
}

#[test]
fn controller_defaults_are_atomic_and_bounded() {
    let config = ControllerConfig::default();
    assert!(config.speed == Speed::Standard);
    assert!(!config.allow_chunked_reads);
    assert_eq!(config.pin_low_timeout, PinLowTimeout::Disabled);
    // A tenth of a second, in ticks of a microsecond.
    assert_eq!(config.transfer_timeout, 100_000);
    assert_eq!(config.clock_config.power, PoweredClock::NormalEnabledDeepSleepDisabled);
    assert_eq!(config.clock_config.source, Lpi2cClockSel::FroLfDiv);
    assert_eq!(config.clock_config.div.bits(), 0);
}

#[test]
fn target_defaults_answer_one_address() {
    let config = TargetConfig::default();
    assert!(matches!(config.address, Address::Single(0x2a)));
    assert!(config.smbus_alert == Status::Disabled);
    assert!(config.general_call == Status::Disabled);
    assert_eq!(config.clock_config.div.bits(), 0);
    assert!(!bool::from(config.general_call));
    assert!(bool::from(Status::Enabled));
}

#[test]
fn address_plans_keep_their_addresses() {
    assert!(matches!(
        Address::Dual(0x20, 0x30).validate(),
        Ok(ValidatedAddress::Dual7(0x20, 0x30))
    ));
    assert!(matches!(
        Address::Range(0x20..0x30).validate(),
        Ok(ValidatedAddress::Range7 { start: 0x20, last: 0x2f })
    ));
    assert!(matches!(
        Address::Range(0x80..0x400).validate(),
        Ok(ValidatedAddress::Range10 { start: 0x80, last: 0x3ff })
    ));
    assert!(matches!(Address::Single(0x400).validate(), Err(SetupError::InvalidAddress)));
}

#[test]
fn clock_errors_tell_their_reason() {
    assert_ne!(ClockError::NeverInitialized, ClockError::Rejected(3));
}
