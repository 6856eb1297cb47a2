use lpi2c::bus_clear::{BusClearError, BusLines, Lines};

/// Two lines with a device that holds SDA for some pulses, or SCL for good.
struct Bus {
    scl: bool,
    sda: bool,
    scl_stuck: bool,
    /// How many pulses the device still holds SDA for.
    held: usize,
    pulses: usize,
    stops: usize,
    delayed: u64,
}

fn bus(held: usize) -> Bus {
    Bus { scl: true, sda: true, scl_stuck: false, held, pulses: 0, stops: 0, delayed: 0 }
}

impl BusLines for Bus {
    fn release_scl(&mut self) {
        if !self.scl {
            self.scl = true;
            self.pulses += 1;
            if self.held > 0 {
                self.held -= 1;
            }
        }
    }

    fn drive_scl_low(&mut self) {
        self.scl = false;
    }

    fn scl_is_high(&mut self) -> bool {
        self.scl && !self.scl_stuck
    }

    fn release_sda(&mut self) {
        if !self.sda && self.scl {
            self.stops += 1;
        }
        self.sda = true;
    }

    fn drive_sda_low(&mut self) {
        self.sda = false;
    }

    fn sda_is_high(&mut self) -> bool {
        self.sda && self.held == 0
    }

    fn delay_us(&mut self, us: u32) {
        self.delayed += u64::from(us);
    }
}

#[test]
fn an_idle_bus_gets_no_traffic() {
    let mut lines = Lines::new(bus(0));
    assert_eq!(lines.clear(), Ok(()));
    let bus = lines.into_inner();
    assert_eq!((bus.pulses, bus.stops), (0, 0));
}

#[test]
fn a_held_data_line_is_clocked_free_and_stopped() {
    for held in [1usize, 5, 9] {
        let mut lines = Lines::new(bus(held));
        assert_eq!(lines.clear(), Ok(()));
        let bus = lines.into_inner();
        // One rising edge of SCL belongs to the STOP.
        assert_eq!(bus.pulses, held + 1);
        assert_eq!(bus.stops, 1);
        assert!(bus.scl && bus.sda);
    }
}

#[test]
fn a_data_line_that_is_never_released_is_given_up() {
    let mut lines = Lines::new(bus(100));
    assert_eq!(lines.clear(), Err(BusClearError::SdaHeldLow));
    let bus = lines.into_inner();
    assert_eq!(bus.pulses, 9);
    assert_eq!(bus.stops, 0);
}

#[test]
fn a_held_clock_is_given_up() {
    let mut stuck = bus(1);
    stuck.scl_stuck = true;
    let mut lines = Lines::new(stuck);
    assert_eq!(lines.clear(), Err(BusClearError::SclHeldLow));
    let bus = lines.into_inner();
    assert_eq!(bus.pulses, 0);
    assert_eq!(bus.delayed, 5_000);
}
