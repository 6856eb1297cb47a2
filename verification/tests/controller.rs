use std::cell::RefCell;
use std::collections::VecDeque;
use std::rc::Rc;
use std::time::{Duration, Instant};

use lpi2c::clocks::ClockError;
use lpi2c::controller::asynch::{StopOp, Turn, Wait};
use lpi2c::controller::blocking::Operation;
use lpi2c::controller::dma::DmaVerdict;
use lpi2c::controller::dma_exchange::{DmaLeg, DmaOperation};
use lpi2c::controller::exchange::{Leg, Stride};
use lpi2c::controller::{
    Config, ControllerSetup, ErrorKind, I2c, IOError, InterruptHandler, PinLowTimeout, SetupError, Speed,
};
use lpi2c::controller_registers::{
    halt_step, ControllerRegisters, ControllerStatusError, HaltResolution, HaltStep, RxStep, TxStep,
};
use lpi2c::dma::{next_chunk, InvalidParameters};
use lpi2c::lpi2c_regs::{ControllerPort, Direction, DmaPort};
use lpi2c::session::Session;
use lpi2c::wait::WaitOutcome;
use lpi2c::words::{ControllerCommand, Mcfgr1, Mcr, Mder, Mfsr, Mier, Mrdr, Msr, Mtdr, Param};

const DEVICE: u8 = 0x2a;

/// One access to the register block.
#[derive(Clone, Copy, Debug, PartialEq, Eq)]
enum Step {
    Status,
    ClearStatus,
    Fifo,
    Size,
    Command(ControllerCommand),
    Data,
    ResetFifos,
    Enable,
    TerminatePinLow,
    ResolveHalt,
}

/// An LPI2C controller with one device on its bus. Commands run as soon as
/// they are queued, unless the FIFO is stuck.
struct Sim {
    /// Every access, but for those to the control and DMA words.
    steps: Vec<Step>,
    /// Every command that was queued.
    commands: Vec<(ControllerCommand, u8)>,
    /// What the device received.
    written: Vec<u8>,
    /// What the device answers.
    memory: Vec<u8>,
    cursor: usize,
    rx: VecDeque<u8>,
    msr: Msr,
    mier: Mier,
    mder: Mder,
    /// The exponent of the FIFO size.
    fifo: u8,
    /// Commands stay in the FIFO.
    stuck: bool,
    queued: u8,
    /// The device leaves its bytes out.
    silent: bool,
    /// The next RECEIVE raises a FIFO error behind so many bytes.
    overruns_behind: Option<usize>,
    /// How long the device takes for each byte, and when the next is there.
    pace: Option<Duration>,
    ready: Instant,
    /// How many more looks at the FIFO find it stuck.
    frees_after: Option<usize>,
    /// How often the packet ends early, without data.
    early_ends: usize,
    /// How many bytes the device takes until it rejects one.
    nack_byte: Option<usize>,
    /// The flags that the next START raises.
    on_start: Option<ControllerStatusError>,
    resolution: HaltResolution,
    /// The engine stays busy when a halt is resolved.
    busy_after_halt: bool,
    resolved: Vec<ControllerStatusError>,
    terminations: usize,
    resets: usize,
    fifo_resets: usize,
    setups: Vec<ControllerSetup>,
    dma: Vec<(Direction, usize, usize, usize)>,
    dma_accepts: bool,
    dma_done: bool,
    dma_moved: usize,
    dma_enabled: usize,
    quiesced: usize,
}

#[derive(Clone)]
struct Port(Rc<RefCell<Sim>>);

fn clear() -> Msr {
    Msr {
        epf: false,
        sdf: false,
        ndf: false,
        alf: false,
        fef: false,
        pltf: false,
        dmf: false,
        stf: false,
        mbf: false,
        rest: 0,
    }
}

fn sim() -> Port {
    Port(Rc::new(RefCell::new(Sim {
        steps: Vec::new(),
        commands: Vec::new(),
        written: Vec::new(),
        memory: (0..2048usize).map(|i| (i % 251) as u8).collect(),
        cursor: 0,
        rx: VecDeque::new(),
        msr: clear(),
        mier: Mier::disabled(),
        mder: Mder { tdde: false, rdde: false, rest: 7 },
        fifo: 2,
        stuck: false,
        queued: 0,
        silent: false,
        overruns_behind: None,
        pace: None,
        ready: Instant::now(),
        frees_after: None,
        early_ends: 0,
        nack_byte: None,
        on_start: None,
        resolution: HaltResolution::Settled,
        busy_after_halt: false,
        resolved: Vec::new(),
        terminations: 0,
        resets: 0,
        fifo_resets: 0,
        setups: Vec::new(),
        dma: Vec::new(),
        dma_accepts: true,
        dma_done: false,
        dma_moved: 0,
        dma_enabled: 0,
        quiesced: 0,
    })))
}

impl Sim {
    fn run(&mut self, command: Mtdr) {
        match command.cmd {
            ControllerCommand::Start => {
                self.msr.mbf = true;
                if command.data >> 1 != DEVICE {
                    self.msr.ndf = true;
                }
                match self.on_start.take() {
                    Some(ControllerStatusError::AddressNack) => self.msr.ndf = true,
                    Some(ControllerStatusError::ArbitrationLoss) => self.msr.alf = true,
                    Some(ControllerStatusError::Fifo) => self.msr.fef = true,
                    Some(ControllerStatusError::PinLowTimeout) => self.msr.pltf = true,
                    None => {}
                }
            }
            ControllerCommand::Transmit => {
                self.written.push(command.data);
                match self.nack_byte {
                    Some(1) => {
                        self.nack_byte = None;
                        self.msr.ndf = true;
                    }
                    Some(n) => self.nack_byte = Some(n - 1),
                    None => {}
                }
            }
            ControllerCommand::Receive => {
                if self.early_ends > 0 {
                    self.early_ends -= 1;
                    self.msr.epf = true;
                    self.msr.mbf = false;
                } else if let Some(bytes) = self.overruns_behind.take() {
                    self.rx.extend(&self.memory[..bytes]);
                    self.msr.fef = true;
                } else if !self.silent {
                    for _ in 0..usize::from(command.data) + 1 {
                        self.rx.push_back(self.memory[self.cursor % self.memory.len()]);
                        self.cursor += 1;
                    }
                }
            }
            ControllerCommand::Stop => self.msr.mbf = false,
        }
    }
}

impl ControllerPort for Port {
    fn read_param(&mut self) -> Param {
        self.0.borrow_mut().steps.push(Step::Size);
        Param { mtxfifo: self.0.borrow().fifo }
    }

    fn read_mcr(&mut self) -> Mcr {
        Mcr { rtf: false, rrf: false, rest: 1 }
    }

    fn write_mcr(&mut self, value: Mcr) {
        assert_eq!(value.rest, 1);
        let mut sim = self.0.borrow_mut();
        sim.steps.push(Step::ResetFifos);
        if value.rtf {
            sim.queued = 0;
        }
        if value.rrf {
            sim.rx.clear();
        }
        sim.fifo_resets += 1;
    }

    fn read_msr(&mut self) -> Msr {
        let mut sim = self.0.borrow_mut();
        sim.steps.push(Step::Status);
        sim.msr
    }

    fn write_msr(&mut self, value: Msr) {
        let mut sim = self.0.borrow_mut();
        sim.steps.push(Step::ClearStatus);
        sim.msr.epf &= !value.epf;
        sim.msr.sdf &= !value.sdf;
        sim.msr.ndf &= !value.ndf;
        sim.msr.alf &= !value.alf;
        sim.msr.fef &= !value.fef;
        sim.msr.pltf &= !value.pltf;
    }

    fn read_mier(&mut self) -> Mier {
        self.0.borrow().mier
    }

    fn write_mier(&mut self, value: Mier) {
        let mut sim = self.0.borrow_mut();
        sim.steps.push(Step::Enable);
        sim.mier = value;
    }

    fn read_mder(&mut self) -> Mder {
        self.0.borrow().mder
    }

    fn write_mder(&mut self, value: Mder) {
        self.0.borrow_mut().mder = value;
    }

    fn read_mcfgr1(&mut self) -> Mcfgr1 {
        Mcfgr1 { autostop: true, rest: 0 }
    }

    fn read_mfsr(&mut self) -> Mfsr {
        let mut sim = self.0.borrow_mut();
        sim.steps.push(Step::Fifo);
        match sim.frees_after {
            Some(0) => {
                sim.frees_after = None;
                sim.stuck = false;
                sim.queued = 0;
            }
            Some(n) => sim.frees_after = Some(n - 1),
            None => {}
        }
        let arrived = match sim.pace {
            Some(_) if Instant::now() < sim.ready => 0,
            Some(_) => sim.rx.len().min(1),
            None => sim.rx.len().min(255),
        };
        Mfsr { txcount: sim.queued, rxcount: arrived as u8 }
    }

    fn write_mtdr(&mut self, value: Mtdr) {
        let mut sim = self.0.borrow_mut();
        sim.steps.push(Step::Command(value.cmd));
        sim.commands.push((value.cmd, value.data));
        if sim.stuck {
            sim.queued += 1;
        } else {
            sim.run(value);
        }
    }

    fn read_mrdr(&mut self) -> Mrdr {
        let mut sim = self.0.borrow_mut();
        sim.steps.push(Step::Data);
        if let Some(pace) = sim.pace {
            sim.ready = Instant::now() + pace;
        }
        Mrdr { data: sim.rx.pop_front().unwrap_or(0) }
    }

    fn resolve_halt(&mut self, error: ControllerStatusError, _timeout: u64, _deadline: u64) -> HaltResolution {
        let mut sim = self.0.borrow_mut();
        sim.steps.push(Step::ResolveHalt);
        sim.resolved.push(error);
        sim.msr = clear();
        sim.msr.mbf = sim.busy_after_halt;
        sim.resolution
    }

    fn terminate_pin_low(&mut self) {
        let mut sim = self.0.borrow_mut();
        sim.steps.push(Step::TerminatePinLow);
        sim.terminations += 1;
        sim.msr = clear();
    }

    fn reset_engine(&mut self) {
        let mut sim = self.0.borrow_mut();
        sim.resets += 1;
        sim.msr = clear();
        sim.queued = 0;
    }

    fn apply_setup(&mut self, setup: ControllerSetup) {
        self.0.borrow_mut().setups.push(setup);
    }
}

impl DmaPort for Port {
    fn dma_disable_request(&mut self, _direction: Direction) {}

    fn dma_clear_done(&mut self, _direction: Direction) {}

    fn dma_clear_interrupt(&mut self, _direction: Direction) {}

    fn dma_set_request_source(&mut self, _direction: Direction) {}

    fn dma_setup(&mut self, direction: Direction, port: usize, offset: usize, length: usize) -> bool {
        let mut sim = self.0.borrow_mut();
        sim.dma.push((direction, port, offset, length));
        sim.dma_accepts
    }

    fn dma_enable_request(&mut self, direction: Direction) {
        let mut sim = self.0.borrow_mut();
        match direction {
            Direction::Rx => assert!(sim.mder.rdde),
            Direction::Tx => assert!(sim.mder.tdde),
        }
        assert_eq!(sim.mder.rest, 7);
        sim.dma_enabled += 1;
    }

    fn dma_barrier(&mut self) {}

    fn dma_quiesce(&mut self, _direction: Direction) -> bool {
        let mut sim = self.0.borrow_mut();
        sim.quiesced += 1;
        sim.dma_done
    }

    fn dma_transferred_bytes(&mut self, _direction: Direction) -> usize {
        self.0.borrow().dma_moved
    }

    fn dma_is_done(&mut self, _direction: Direction) -> bool {
        self.0.borrow().dma_done
    }
}

const BASE: usize = 0x4003_3000;
const CLOCK: u32 = 12_000_000;

fn driver_with(port: &Port, allow_chunked_reads: bool) -> I2c<Port> {
    let mut config = Config::default();
    config.allow_chunked_reads = allow_chunked_reads;
    config.transfer_timeout = 3_000;
    let setup = I2c::<Port>::construction_setup(&config, Some(Ok(CLOCK))).ok().unwrap();
    I2c::new_inner(port.clone(), BASE, &config, setup, CLOCK)
}

fn driver(port: &Port) -> I2c<Port> {
    driver_with(port, false)
}

fn start(read: bool) -> (ControllerCommand, u8) {
    (ControllerCommand::Start, DEVICE << 1 | u8::from(read))
}

fn receive(bytes: usize) -> (ControllerCommand, u8) {
    (ControllerCommand::Receive, (bytes - 1) as u8)
}

const STOP: (ControllerCommand, u8) = (ControllerCommand::Stop, 0);

#[test]
fn a_write_is_start_bytes_and_stop() {
    let port = sim();
    let mut i2c = driver(&port);
    assert_eq!(i2c.blocking_write(DEVICE, &[1, 2, 3]), Ok(()));
    let sim = port.0.borrow();
    assert_eq!(
        sim.commands,
        vec![
            start(false),
            (ControllerCommand::Transmit, 1),
            (ControllerCommand::Transmit, 2),
            (ControllerCommand::Transmit, 3),
            STOP
        ]
    );
    assert_eq!(sim.written, vec![1, 2, 3]);
    assert!(!i2c.session_live());
}

#[test]
fn an_empty_write_probes_the_address() {
    let port = sim();
    let mut i2c = driver(&port);
    assert_eq!(i2c.blocking_write(DEVICE, &[]), Ok(()));
    assert_eq!(port.0.borrow().commands, vec![start(false), STOP]);
    assert_eq!(i2c.blocking_write(0x33, &[]), Err(IOError::AddressNack));
}

/// The steps behind the `n`th command, up to the next one.
fn steps_behind(port: &Port, n: usize) -> Vec<Step> {
    let sim = port.0.borrow();
    let places: Vec<usize> =
        (0..sim.steps.len()).filter(|i| matches!(sim.steps[*i], Step::Command(_))).collect();
    let to = places.get(n + 1).copied().unwrap_or(sim.steps.len());
    sim.steps[places[n] + 1..to].to_vec()
}

/// A poll that found the commands run, and the final status behind it.
const ANSWERED: [Step; 4] = [Step::Status, Step::Fifo, Step::Status, Step::ClearStatus];

/// The look that precedes every command.
const ROOM: [Step; 3] = [Step::Status, Step::Fifo, Step::Size];

#[test]
fn a_start_settles_and_a_stop_completes() {
    let port = sim();
    let mut i2c = driver(&port);
    assert_eq!(i2c.blocking_write(DEVICE, &[]), Ok(()));
    assert_eq!(steps_behind(&port, 0), [&ANSWERED[..], &ROOM[..]].concat());
    assert_eq!(steps_behind(&port, 1), ANSWERED.to_vec());
    // The same for the interrupt-driven driver, woken or not.
    let port = sim();
    let mut i2c = driver(&port);
    let open = run_start(&mut i2c, false);
    assert!(steps_behind(&port, 0).ends_with(&ANSWERED));
    assert_eq!(run_stop(&mut i2c, open), Ok(()));
    assert!(steps_behind(&port, 1).ends_with(&ANSWERED));
}

#[test]
fn a_sent_byte_is_looked_behind() {
    let port = sim();
    let mut i2c = driver(&port);
    assert_eq!(i2c.blocking_write(DEVICE, &[7, 8]), Ok(()));
    for n in [1, 2] {
        assert_eq!(steps_behind(&port, n)[0], Step::Status);
    }
    // The last byte too, though nothing follows it.
    let port = sim();
    let mut i2c = driver(&port);
    assert!(run_write(&mut i2c, DEVICE, &[7]).is_ok());
    assert!(steps_behind(&port, 1).contains(&Step::Status));
}

#[test]
fn a_fault_behind_the_last_byte_fails_the_write() {
    let port = sim();
    let mut i2c = driver(&port);
    port.0.borrow_mut().nack_byte = Some(2);
    assert_eq!(i2c.blocking_write(DEVICE, &[7, 8]), Err(IOError::AddressNack));
    assert_eq!(i2c.blocking_write(DEVICE, &[7, 8]), Ok(()));
    // Only the commands of the write, and those that close it, went out.
    let sent = [start(false), (ControllerCommand::Transmit, 7), (ControllerCommand::Transmit, 8)];
    assert_eq!(port.0.borrow().commands[..3], sent);
}

#[test]
fn an_idle_recovery_only_cleans_up() {
    let port = sim();
    let mut i2c = driver(&port);
    let open = run_start(&mut i2c, false);
    port.0.borrow_mut().msr.mbf = false;
    port.0.borrow_mut().steps.clear();
    i2c.cancel(open);
    let steps = port.0.borrow().steps.clone();
    // A last look for a fault, and then the recovery.
    let looked = [Step::Status, Step::Fifo, Step::Status];
    let slate = [Step::ResetFifos, Step::ClearStatus];
    assert_eq!(steps, [&looked[..], &slate[..], &[Step::Status][..], &slate[..]].concat());
}

#[test]
fn the_fifos_of_a_busy_engine_are_not_reset_before_it_is_idle() {
    let port = sim();
    let mut i2c = driver(&port);
    let open = run_start(&mut i2c, false);
    port.0.borrow_mut().steps.clear();
    i2c.cancel(open);
    let sim = port.0.borrow();
    let stop = sim.steps.iter().position(|s| *s == Step::Command(ControllerCommand::Stop)).unwrap();
    let reset = sim.steps.iter().position(|s| *s == Step::ResetFifos).unwrap();
    assert!(stop < reset);
}

#[test]
fn a_pin_low_timeout_behind_a_nack_is_a_nack() {
    let port = sim();
    port.0.borrow_mut().on_start = Some(ControllerStatusError::PinLowTimeout);
    let mut i2c = driver(&port);
    // No such device: the START raises both flags.
    assert_eq!(i2c.blocking_write(DEVICE + 1, &[1]), Err(IOError::AddressNack));
    assert_eq!(port.0.borrow().terminations, 0);
    assert_eq!(port.0.borrow().resolved, vec![ControllerStatusError::AddressNack]);
}

#[test]
fn the_budget_runs_anew_behind_every_byte() {
    for (pace, expected) in [(60, Ok(())), (900, Err(IOError::Timeout))] {
        let port = sim();
        let pace = Duration::from_millis(pace);
        port.0.borrow_mut().pace = Some(pace);
        port.0.borrow_mut().ready = Instant::now() + pace;
        let mut config = Config::default();
        config.transfer_timeout = 300_000;
        let setup = I2c::<Port>::construction_setup(&config, Some(Ok(CLOCK))).ok().unwrap();
        let mut i2c = I2c::new_inner(port.clone(), BASE, &config, setup, CLOCK);
        let mut buffer = [0u8; 6];
        // Six bytes take longer than the budget, one does not.
        assert_eq!(i2c.blocking_read(DEVICE, &mut buffer), expected);
        if expected.is_ok() {
            assert_eq!(buffer, port.0.borrow().memory[..6]);
        }
    }
}

#[test]
fn a_second_attempt_that_fails_is_the_last() {
    // The first attempt queues two commands, the second one at a time.
    let port = sim();
    port.0.borrow_mut().early_ends = 3;
    let mut i2c = driver_with(&port, true);
    let mut buffer = vec![0u8; 300];
    assert_eq!(i2c.blocking_read(DEVICE, &mut buffer), Err(IOError::UnexpectedStop));
    assert_eq!(starts(&port), 2);
    assert!(!i2c.session_live());

    let port = sim();
    port.0.borrow_mut().early_ends = 3;
    let mut i2c = driver_with(&port, true);
    assert!(matches!(run_read(&mut i2c, DEVICE, &mut buffer), Err(IOError::UnexpectedStop)));
    assert_eq!(starts(&port), 2);
    assert!(!i2c.session_live());

    // Without consent the first one is.
    let port = sim();
    port.0.borrow_mut().early_ends = 3;
    let mut i2c = driver(&port);
    assert_eq!(i2c.blocking_read(DEVICE, &mut buffer), Err(IOError::UnexpectedStop));
    assert_eq!(starts(&port), 1);
}

#[test]
fn a_fault_ends_a_read_behind_the_bytes_that_came_in() {
    for bytes in [0, 3] {
        let port = sim();
        port.0.borrow_mut().overruns_behind = Some(bytes);
        let mut i2c = driver_with(&port, true);
        let mut buffer = [0xffu8; 6];
        assert_eq!(i2c.blocking_read(DEVICE, &mut buffer), Err(IOError::FifoError));
        assert_eq!(buffer[..bytes], port.0.borrow().memory[..bytes]);
        assert!(buffer[bytes..].iter().all(|b| *b == 0xff));
        assert_eq!(port.0.borrow().resolved, vec![ControllerStatusError::Fifo]);
        assert_eq!(starts(&port), 1);

        let port = sim();
        port.0.borrow_mut().overruns_behind = Some(bytes);
        let mut i2c = driver_with(&port, true);
        assert!(matches!(run_read(&mut i2c, DEVICE, &mut buffer), Err(IOError::FifoError)));
        assert_eq!(starts(&port), 1);
    }
}

#[test]
fn commands_wait_for_room_and_bytes_for_data() {
    let port = sim();
    let mut i2c = driver(&port);
    let mut buffer = vec![0u8; 600];
    assert_eq!(i2c.blocking_write_read(DEVICE, &[1, 2, 3], &mut buffer), Ok(()));
    let mut data = [0u8; 5];
    let open = run_read(&mut i2c, DEVICE, &mut data).ok().unwrap();
    assert_eq!(run_stop(&mut i2c, open), Ok(()));
    let sim = port.0.borrow();
    let mut counts = (0, 0);
    for (i, step) in sim.steps.iter().enumerate() {
        match step {
            Step::Command(_) => {
                counts.0 += 1;
                assert_eq!(sim.steps[i - 3..i], [Step::Status, Step::Fifo, Step::Size]);
            }
            Step::Data => {
                counts.1 += 1;
                assert_eq!(sim.steps[i - 1], Step::Fifo);
            }
            _ => {}
        }
    }
    assert_eq!(counts, (sim.commands.len(), 605));
}

#[test]
fn a_start_that_times_out_is_not_retried() {
    let port = sim();
    port.0.borrow_mut().stuck = true;
    let mut i2c = driver_with(&port, true);
    assert_eq!(i2c.blocking_read(DEVICE, &mut [0, 0]), Err(IOError::Timeout));
    assert_eq!(starts(&port), 1);
}

#[test]
fn a_close_that_finds_no_room_is_tried_again() {
    let port = sim();
    let mut i2c = driver(&port);
    let open = run_start(&mut i2c, false);
    {
        let mut sim = port.0.borrow_mut();
        sim.stuck = true;
        sim.queued = 4;
        sim.frees_after = Some(12);
    }
    let behind = port.0.borrow().commands.len();
    i2c.cancel(open);
    let sim = port.0.borrow();
    assert_eq!(sim.commands[behind..], [STOP]);
    assert_eq!(sim.resets, 0);
    assert!(sim.frees_after.is_none());
}

#[test]
fn a_halted_engine_is_waited_for_until_it_is_late() {
    let idle = clear();
    let busy = Msr { mbf: true, ..clear() };
    let shorted = Msr { pltf: true, mbf: true, ..clear() };
    let manual = Mcfgr1 { autostop: false, rest: 0 };
    let queued = Mfsr { txcount: 1, rxcount: 0 };
    assert_eq!(halt_step(busy, manual, queued, false), HaltStep::Wait);
    assert_eq!(halt_step(busy, manual, queued, true), HaltStep::Discard(HaltResolution::NeedsManualClose));
    for late in [false, true] {
        assert_eq!(halt_step(idle, manual, queued, late), HaltStep::Discard(HaltResolution::Settled));
        assert_eq!(halt_step(shorted, manual, queued, late), HaltStep::Terminate);
    }
}

#[test]
fn a_halted_engine_with_an_empty_fifo_is_closed_by_hand_at_once() {
    let idle = clear();
    let busy = Msr { mbf: true, ..clear() };
    let shorted = Msr { pltf: true, mbf: true, ..clear() };
    let manual = Mcfgr1 { autostop: false, rest: 0 };
    let automatic = Mcfgr1 { autostop: true, rest: 0 };
    let empty = Mfsr { txcount: 0, rxcount: 3 };
    assert_eq!(halt_step(busy, manual, empty, false), HaltStep::Discard(HaltResolution::NeedsManualClose));
    assert_eq!(halt_step(busy, automatic, empty, false), HaltStep::Wait);
    assert_eq!(halt_step(busy, automatic, empty, true), HaltStep::Discard(HaltResolution::NeedsManualClose));
    assert_eq!(halt_step(idle, manual, empty, false), HaltStep::Discard(HaltResolution::Settled));
    assert_eq!(halt_step(shorted, manual, empty, false), HaltStep::Terminate);
}

#[test]
fn reads_of_every_length_return_what_the_device_sent() {
    for length in [1usize, 2, 40, 80, 255, 256, 257, 260, 300, 512] {
        let port = sim();
        let mut i2c = driver(&port);
        let mut buffer = vec![0u8; length];
        assert_eq!(i2c.blocking_read(DEVICE, &mut buffer), Ok(()));
        let sim = port.0.borrow();
        assert_eq!(buffer, sim.memory[..length]);
        let mut expected = vec![start(true)];
        let mut rest = length;
        while rest > 0 {
            let chunk = rest.min(256);
            expected.push(receive(chunk));
            rest -= chunk;
        }
        expected.push(STOP);
        assert_eq!(sim.commands, expected);
    }
}

#[test]
fn a_write_read_has_one_repeated_start_and_one_stop() {
    let port = sim();
    let mut i2c = driver(&port);
    let mut buffer = [0u8; 2];
    assert_eq!(i2c.blocking_write_read(DEVICE, &[9], &mut buffer), Ok(()));
    assert_eq!(buffer, [0, 1]);
    assert_eq!(
        port.0.borrow().commands,
        vec![start(false), (ControllerCommand::Transmit, 9), start(true), receive(2), STOP]
    );
}

#[test]
fn doomed_requests_touch_nothing() {
    let port = sim();
    let mut i2c = driver(&port);
    assert_eq!(i2c.blocking_read(DEVICE, &mut []), Err(IOError::InvalidReadBufferLength));
    assert_eq!(i2c.blocking_write_read(DEVICE, &[1], &mut []), Err(IOError::InvalidReadBufferLength));
    assert_eq!(i2c.blocking_read(0x80, &mut [0]), Err(IOError::AddressOutOfRange(0x80)));
    assert_eq!(i2c.blocking_write(0xff, &[0]), Err(IOError::AddressOutOfRange(0xff)));
    assert!(port.0.borrow().commands.is_empty());
    assert!(!i2c.session_live());
}

#[test]
fn a_nack_is_recovered_once_and_the_next_transfer_works() {
    let port = sim();
    let mut i2c = driver(&port);
    assert_eq!(i2c.blocking_write(0x33, &[1]), Err(IOError::AddressNack));
    assert_eq!(port.0.borrow().resolved, vec![ControllerStatusError::AddressNack]);
    assert!(port.0.borrow().written.is_empty());
    assert!(!i2c.session_live());
    assert_eq!(i2c.blocking_write(DEVICE, &[1]), Ok(()));
    assert_eq!(port.0.borrow().written, vec![1]);
}

#[test]
fn a_nack_that_needs_a_close_gets_a_bare_stop() {
    let port = sim();
    port.0.borrow_mut().resolution = HaltResolution::NeedsManualClose;
    let mut i2c = driver(&port);
    assert_eq!(i2c.blocking_read(0x33, &mut [0]), Err(IOError::AddressNack));
    let sim = port.0.borrow();
    assert!(!sim.commands.iter().any(|c| c.0 == ControllerCommand::Receive));
}

#[test]
fn every_fault_has_its_error() {
    for (fault, error) in [
        (ControllerStatusError::AddressNack, IOError::AddressNack),
        (ControllerStatusError::ArbitrationLoss, IOError::ArbitrationLoss),
        (ControllerStatusError::Fifo, IOError::FifoError),
        (ControllerStatusError::PinLowTimeout, IOError::PinLowTimeout),
    ] {
        let port = sim();
        let mut i2c = driver(&port);
        port.0.borrow_mut().on_start = Some(fault);
        assert_eq!(i2c.blocking_write(DEVICE, &[1]), Err(error));
        assert!(!i2c.session_live());
        assert_eq!(IOError::from(fault), error);
    }
}

#[test]
fn a_pin_low_timeout_shuts_the_controller_down() {
    let port = sim();
    let mut i2c = driver(&port);
    port.0.borrow_mut().on_start = Some(ControllerStatusError::PinLowTimeout);
    assert_eq!(i2c.blocking_read(DEVICE, &mut [0]), Err(IOError::PinLowTimeout));
    assert_eq!(port.0.borrow().terminations, 1);
}

#[test]
fn error_kinds_are_portable() {
    assert_eq!(IOError::ArbitrationLoss.kind(), ErrorKind::ArbitrationLoss);
    assert_eq!(IOError::AddressNack.kind(), ErrorKind::NoAcknowledgeAddress);
    assert_eq!(IOError::Timeout.kind(), ErrorKind::Other);
    assert_eq!(IOError::from(InvalidParameters), IOError::Other);
}

#[test]
fn a_silent_device_times_out() {
    let port = sim();
    port.0.borrow_mut().silent = true;
    let mut i2c = driver(&port);
    assert_eq!(i2c.blocking_read(DEVICE, &mut [0, 0]), Err(IOError::Timeout));
    assert!(!i2c.session_live());
    // The recovery closed the transaction.
    assert_eq!(port.0.borrow().commands.last(), Some(&STOP));
}

#[test]
fn a_stuck_command_pipeline_times_out_and_is_reset() {
    let port = sim();
    port.0.borrow_mut().stuck = true;
    port.0.borrow_mut().msr.mbf = true;
    let mut i2c = driver(&port);
    assert_eq!(i2c.blocking_write(DEVICE, &[1, 2]), Err(IOError::Timeout));
    assert_eq!(port.0.borrow().resets, 1);
    assert!(!i2c.session_live());
}

#[test]
fn an_early_end_is_reported_without_consent() {
    let port = sim();
    port.0.borrow_mut().early_ends = 1;
    let mut i2c = driver(&port);
    assert_eq!(i2c.blocking_read(DEVICE, &mut [0; 300]), Err(IOError::UnexpectedStop));
    let starts = port.0.borrow().commands.iter().filter(|c| c.0 == ControllerCommand::Start).count();
    assert_eq!(starts, 1);
}

#[test]
fn an_early_end_is_retried_in_chunks_with_consent() {
    let port = sim();
    port.0.borrow_mut().early_ends = 2;
    let mut i2c = driver_with(&port, true);
    let mut buffer = vec![0u8; 300];
    assert_eq!(i2c.blocking_read(DEVICE, &mut buffer), Ok(()));
    let sim = port.0.borrow();
    assert_eq!(buffer, sim.memory[..300]);
    let tail = &sim.commands[sim.commands.len() - 6..];
    assert_eq!(tail, [start(true), receive(256), STOP, start(true), receive(44), STOP]);
}

/// How many transactions and repeated transactions were begun.
fn starts(port: &Port) -> usize {
    port.0.borrow().commands.iter().filter(|c| c.0 == ControllerCommand::Start).count()
}

#[test]
fn only_a_stalled_read_is_retried() {
    for fault in [
        ControllerStatusError::AddressNack,
        ControllerStatusError::ArbitrationLoss,
        ControllerStatusError::Fifo,
        ControllerStatusError::PinLowTimeout,
    ] {
        let port = sim();
        port.0.borrow_mut().on_start = Some(fault);
        let mut i2c = driver_with(&port, true);
        assert!(i2c.blocking_read(DEVICE, &mut [0; 4]).is_err());
        assert_eq!(starts(&port), 1);
    }
    // A START that does not settle is no stalled read.
    let port = sim();
    port.0.borrow_mut().stuck = true;
    let mut i2c = driver_with(&port, true);
    assert_eq!(i2c.blocking_read(DEVICE, &mut [0; 4]), Err(IOError::Timeout));
    assert_eq!(starts(&port), 1);
    // A device that sends nothing is asked again.
    let port = sim();
    port.0.borrow_mut().silent = true;
    let mut i2c = driver_with(&port, true);
    assert_eq!(i2c.blocking_read(DEVICE, &mut [0; 4]), Err(IOError::Timeout));
    assert_eq!(starts(&port), 2);
}

#[test]
fn a_transaction_chains_its_operations() {
    let port = sim();
    let mut i2c = driver(&port);
    let mut operations = vec![
        Operation::Write(vec![7, 8]),
        Operation::Read(vec![0, 0, 0]),
        Operation::Write(vec![9]),
    ];
    assert_eq!(i2c.transaction(DEVICE, &mut operations), Ok(()));
    assert!(matches!(&operations[1], Operation::Read(data) if data == &vec![0, 1, 2]));
    assert_eq!(
        port.0.borrow().commands,
        vec![
            start(false),
            (ControllerCommand::Transmit, 7),
            (ControllerCommand::Transmit, 8),
            start(true),
            receive(3),
            start(false),
            (ControllerCommand::Transmit, 9),
            STOP
        ]
    );
}

#[test]
fn a_transaction_with_a_doomed_read_never_starts() {
    let port = sim();
    let mut i2c = driver(&port);
    let mut operations = vec![Operation::Write(vec![7]), Operation::Read(Vec::new())];
    assert_eq!(i2c.transaction(DEVICE, &mut operations), Err(IOError::InvalidReadBufferLength));
    assert!(port.0.borrow().commands.is_empty());
    assert_eq!(i2c.transaction(DEVICE, &mut Vec::new()), Ok(()));
    assert_eq!(
        i2c.transaction(0x90, &mut vec![Operation::Write(vec![1])]),
        Err(IOError::AddressOutOfRange(0x90))
    );
    assert!(port.0.borrow().commands.is_empty());
}

#[test]
fn an_unsupported_configuration_is_rejected_before_the_hardware() {
    let port = sim();
    let mut i2c = driver(&port);
    assert_eq!(port.0.borrow().setups.len(), 1);
    let mut config = Config::default();
    config.speed = Speed::UltraFast;
    assert!(matches!(i2c.set_config(&config), Err(SetupError::UnsupportedSpeed)));
    config.speed = Speed::Fast;
    config.pin_low_timeout = PinLowTimeout::Enabled(0);
    assert!(matches!(i2c.set_config(&config), Err(SetupError::PinLowTimeoutOutOfRange)));
    assert_eq!(port.0.borrow().setups.len(), 1);
    config.pin_low_timeout = PinLowTimeout::Disabled;
    assert!(i2c.set_config(&config).is_ok());
    let sim = port.0.borrow();
    assert_eq!(sim.setups.len(), 2);
    assert_eq!((sim.setups[1].clklo, sim.setups[1].clkhi), (14, 12));
}

#[test]
fn construction_needs_a_clock() {
    let config = Config::default();
    assert!(matches!(
        I2c::<Port>::construction_setup(&config, None),
        Err(SetupError::ClockSetup(ClockError::NeverInitialized))
    ));
    assert!(matches!(
        I2c::<Port>::construction_setup(&config, Some(Err(ClockError::Rejected(4)))),
        Err(SetupError::ClockSetup(ClockError::Rejected(4)))
    ));
}

#[test]
fn the_interrupt_handler_masks_and_wakes_once() {
    let port = sim();
    let mut registers = ControllerRegisters::new(port.clone(), BASE);
    assert!(!InterruptHandler::on_interrupt(&mut registers));
    registers.enable_receive_interrupts();
    assert!(port.0.borrow().mier.rdie && port.0.borrow().mier.ndie && !port.0.borrow().mier.tdie);
    assert!(InterruptHandler::on_interrupt(&mut registers));
    assert_eq!(port.0.borrow().mier, Mier::disabled());
    assert!(!InterruptHandler::on_interrupt(&mut registers));
}

#[test]
fn data_is_taken_before_a_fault() {
    let port = sim();
    let mut registers = ControllerRegisters::new(port.clone(), BASE);
    port.0.borrow_mut().rx.push_back(0x5a);
    port.0.borrow_mut().msr.ndf = true;
    assert!(registers.rx_ready());
    assert_eq!(registers.rx_step(), Some(RxStep::Byte(0x5a)));
    assert_eq!(registers.rx_step(), Some(RxStep::Fault(ControllerStatusError::AddressNack)));
    assert_eq!(registers.tx_room_step(), Some(TxStep::Fault(ControllerStatusError::AddressNack)));
    port.0.borrow_mut().msr = clear();
    assert_eq!(registers.rx_step(), None);
    assert!(!registers.rx_ready());
    port.0.borrow_mut().msr.epf = true;
    assert_eq!(registers.rx_step(), Some(RxStep::Ended));
    assert_eq!(registers.tx_room_step(), Some(TxStep::Room));
}

#[test]
fn taking_the_status_clears_what_was_seen() {
    let port = sim();
    let mut registers = ControllerRegisters::new(port.clone(), BASE);
    port.0.borrow_mut().msr.alf = true;
    port.0.borrow_mut().msr.sdf = true;
    assert_eq!(registers.take_status().error(), Some(ControllerStatusError::ArbitrationLoss));
    assert_eq!(port.0.borrow().msr, clear());
    assert_eq!(registers.take_status().error(), None);
}

#[test]
fn the_fifo_reset_keeps_the_other_control_bits() {
    let port = sim();
    let mut registers = ControllerRegisters::new(port.clone(), BASE);
    port.0.borrow_mut().rx.push_back(1);
    registers.reset_fifos();
    assert!(port.0.borrow().rx.is_empty());
    assert_eq!(port.0.borrow().fifo_resets, 1);
    assert_eq!(registers.tx_fifo_capacity(), 4);
    assert_eq!(registers.rx_data_ptr(), BASE + 0x70);
    assert_eq!(registers.tx_data_ptr(), BASE + 0x60);
}

/// Opens a transaction and leaves it behind its START.
fn run_start(i2c: &mut I2c<Port>, read: bool) -> Session {
    let mut op = i2c.begin_start(DEVICE, read).ok().unwrap();
    let mut waited = None;
    loop {
        match i2c.start_turn(op, waited) {
            Turn::Wait(next, until) => {
                op = next;
                waited = wait(i2c, until);
            }
            Turn::Done(r) => return r.ok().unwrap(),
        }
    }
}

#[test]
fn the_wire_decides_how_a_cancelled_transaction_is_closed() {
    // An addressed read that never asked for data: one byte is clocked in.
    let port = sim();
    let mut i2c = driver(&port);
    let open = run_start(&mut i2c, true);
    i2c.cancel(open);
    assert_eq!(port.0.borrow().commands, vec![start(true), receive(1), STOP]);
    assert!(!i2c.session_live());
    // A write: a bare STOP.
    let port = sim();
    let mut i2c = driver(&port);
    let open = run_start(&mut i2c, false);
    i2c.cancel(open);
    assert_eq!(port.0.borrow().commands, vec![start(false), STOP]);
    // A read with a command out: a bare STOP behind it.
    let port = sim();
    let mut i2c = driver(&port);
    let open = run_read(&mut i2c, DEVICE, &mut [0; 3]).ok().unwrap();
    i2c.cancel(open);
    assert_eq!(port.0.borrow().commands, vec![start(true), receive(3), STOP]);
    // The engine closed the transaction by itself: nothing is queued.
    let port = sim();
    let mut i2c = driver(&port);
    let open = run_start(&mut i2c, true);
    port.0.borrow_mut().msr.mbf = false;
    i2c.cancel(open);
    assert_eq!(port.0.borrow().commands, vec![start(true)]);
}

#[test]
fn a_halt_that_comes_with_the_cancellation_decides_the_close() {
    for (fault, close) in [
        // Nobody acknowledged the address, so nobody drives SDA.
        (ControllerStatusError::AddressNack, vec![STOP]),
        (ControllerStatusError::Fifo, vec![receive(1), STOP]),
    ] {
        let port = sim();
        port.0.borrow_mut().resolution = HaltResolution::NeedsManualClose;
        let mut i2c = driver(&port);
        let open = run_start(&mut i2c, true);
        {
            let mut sim = port.0.borrow_mut();
            sim.busy_after_halt = true;
            match fault {
                ControllerStatusError::Fifo => sim.msr.fef = true,
                _ => sim.msr.ndf = true,
            }
        }
        i2c.cancel(open);
        let mut expected = vec![start(true)];
        expected.extend(close);
        assert_eq!(port.0.borrow().commands, expected);
        assert_eq!(port.0.borrow().resolved, vec![fault]);
    }
}

/// Waits as an executor would: asks the driver whether the wait is over.
fn wait(i2c: &mut I2c<Port>, wait: Wait) -> Option<WaitOutcome> {
    if i2c.wake(wait) {
        Some(WaitOutcome::Woken)
    } else {
        Some(WaitOutcome::TimedOut)
    }
}

fn run_read(i2c: &mut I2c<Port>, address: u8, buffer: &mut [u8]) -> Result<Session, IOError> {
    let mut op = i2c.begin_read(address, buffer)?;
    let mut waited = None;
    loop {
        match i2c.read_turn(op, buffer, waited) {
            Turn::Wait(next, until) => {
                op = next;
                waited = wait(i2c, until);
            }
            Turn::Done(r) => return r,
        }
    }
}

fn run_write(i2c: &mut I2c<Port>, address: u8, data: &[u8]) -> Result<Session, IOError> {
    let mut op = i2c.begin_write(address, data)?;
    let mut waited = None;
    loop {
        match i2c.write_turn(op, data, waited) {
            Turn::Wait(next, until) => {
                op = next;
                waited = wait(i2c, until);
            }
            Turn::Done(r) => return r,
        }
    }
}

fn run_stop(i2c: &mut I2c<Port>, open: Session) -> Result<(), IOError> {
    let mut op = StopOp::Unqueued(open);
    let mut waited = None;
    loop {
        match i2c.stop_turn(op, waited) {
            Turn::Wait(next, until) => {
                op = next;
                waited = wait(i2c, until);
            }
            Turn::Done(r) => return r,
        }
    }
}

#[test]
fn an_interrupt_driven_read_is_the_polled_read() {
    for length in [1usize, 256, 257, 512] {
        let polled = sim();
        let mut buffer = vec![0u8; length];
        assert_eq!(driver(&polled).blocking_read(DEVICE, &mut buffer), Ok(()));

        let port = sim();
        let mut i2c = driver(&port);
        let mut data = vec![0u8; length];
        let open = run_read(&mut i2c, DEVICE, &mut data).ok().unwrap();
        assert!(i2c.session_live());
        assert_eq!(run_stop(&mut i2c, open), Ok(()));
        assert!(!i2c.session_live());
        assert_eq!(data, buffer);
        assert_eq!(port.0.borrow().commands, polled.0.borrow().commands);
    }
}

#[test]
fn an_interrupt_driven_write_is_the_polled_write() {
    let polled = sim();
    assert_eq!(driver(&polled).blocking_write(DEVICE, &[4, 5, 6]), Ok(()));

    let port = sim();
    let mut i2c = driver(&port);
    let open = run_write(&mut i2c, DEVICE, &[4, 5, 6]).ok().unwrap();
    assert_eq!(run_stop(&mut i2c, open), Ok(()));
    assert_eq!(port.0.borrow().commands, polled.0.borrow().commands);
    assert_eq!(port.0.borrow().written, vec![4, 5, 6]);
}

#[test]
fn an_interrupt_driven_write_then_read_repeats_the_start() {
    let port = sim();
    let mut i2c = driver(&port);
    let open = run_write(&mut i2c, DEVICE, &[1]).ok().unwrap();
    let mut buffer = [0u8; 2];
    let mut op = i2c.begin_read_continue(DEVICE, &buffer, open).ok().unwrap();
    let mut waited = None;
    let open = loop {
        match i2c.read_turn(op, &mut buffer, waited) {
            Turn::Wait(next, until) => {
                op = next;
                waited = wait(&mut i2c, until);
            }
            Turn::Done(r) => break r.ok().unwrap(),
        }
    };
    assert_eq!(run_stop(&mut i2c, open), Ok(()));
    assert_eq!(buffer, [0, 1]);
    assert_eq!(
        port.0.borrow().commands,
        vec![start(false), (ControllerCommand::Transmit, 1), start(true), receive(2), STOP]
    );
}

#[test]
fn an_interrupt_driven_read_retries_in_chunks_only_with_consent() {
    let port = sim();
    port.0.borrow_mut().early_ends = 2;
    let mut i2c = driver_with(&port, true);
    let mut data = vec![0u8; 300];
    let open = run_read(&mut i2c, DEVICE, &mut data).ok().unwrap();
    assert_eq!(run_stop(&mut i2c, open), Ok(()));
    assert_eq!(data, port.0.borrow().memory[..300]);

    let port = sim();
    port.0.borrow_mut().early_ends = 2;
    let mut i2c = driver(&port);
    assert!(matches!(run_read(&mut i2c, DEVICE, &mut data), Err(IOError::UnexpectedStop)));
    assert!(!i2c.session_live());
}

#[test]
fn interrupt_driven_requests_are_checked_first() {
    let port = sim();
    let mut i2c = driver(&port);
    assert!(matches!(run_read(&mut i2c, DEVICE, &mut []), Err(IOError::InvalidReadBufferLength)));
    assert!(matches!(run_read(&mut i2c, 0x80, &mut [0]), Err(IOError::AddressOutOfRange(0x80))));
    assert!(matches!(run_write(&mut i2c, 0x81, &[0]), Err(IOError::AddressOutOfRange(0x81))));
    assert!(matches!(run_write(&mut i2c, 0x33, &[0]), Err(IOError::AddressNack)));
    assert!(port.0.borrow().commands.iter().filter(|c| c.0 == ControllerCommand::Start).count() == 1);
}

#[test]
fn a_failed_wait_recovers_the_transaction() {
    // The wait for received data: closed and timed out.
    for (outcome, error) in [
        (WaitOutcome::Closed, IOError::ReadFail),
        (WaitOutcome::TimedOut, IOError::Timeout),
    ] {
        let port = sim();
        port.0.borrow_mut().silent = true;
        let mut i2c = driver(&port);
        let mut data = [0u8; 2];
        let mut op = i2c.begin_read(DEVICE, &data).ok().unwrap();
        let mut waited = None;
        let r = loop {
            match i2c.read_turn(op, &mut data, waited) {
                Turn::Wait(next, Wait::Rx(_)) => {
                    op = next;
                    waited = Some(outcome);
                }
                Turn::Wait(next, until) => {
                    op = next;
                    waited = wait(&mut i2c, until);
                }
                Turn::Done(r) => break r,
            }
        };
        assert!(matches!(r, Err(e) if e == error));
        assert!(!i2c.session_live());
    }
    // The wait for a queued byte to leave.
    let port = sim();
    let mut i2c = driver(&port);
    let mut op = i2c.begin_write(DEVICE, &[1]).ok().unwrap();
    let mut waited = None;
    let mut settling = 0;
    let r = loop {
        match i2c.write_turn(op, &[1], waited) {
            Turn::Wait(next, Wait::TxSettle(_)) => {
                op = next;
                settling += 1;
                waited = Some(WaitOutcome::Closed);
            }
            Turn::Wait(next, _) => {
                op = next;
                waited = Some(WaitOutcome::Woken);
            }
            Turn::Done(r) => break r,
        }
    };
    assert_eq!(settling, 1);
    assert!(matches!(r, Err(IOError::WriteFail)));
}

#[test]
fn a_full_fifo_makes_a_start_wait_for_room() {
    let port = sim();
    port.0.borrow_mut().queued = 4;
    let mut i2c = driver(&port);
    let op = i2c.begin_write(DEVICE, &[1]).ok().unwrap();
    let Turn::Wait(op, until) = i2c.write_turn(op, &[1], None) else {
        panic!("the FIFO is full");
    };
    assert_eq!(until, Wait::TxRoom(3_000));
    assert!(!i2c.wake(until));
    assert!(port.0.borrow().commands.is_empty());
    assert!(matches!(
        i2c.write_turn(op, &[1], Some(WaitOutcome::TimedOut)),
        Turn::Done(Err(IOError::Timeout))
    ));
    assert!(!i2c.session_live());
}

#[test]
fn a_cancelled_read_is_recovered() {
    let port = sim();
    port.0.borrow_mut().silent = true;
    let mut i2c = driver(&port);
    let mut data = [0u8; 2];
    let op = i2c.begin_read(DEVICE, &data).ok().unwrap();
    let Turn::Wait(op, _) = i2c.read_turn(op, &mut data, None) else {
        panic!("the device is silent");
    };
    assert!(i2c.session_live());
    i2c.cancel_read(op, &data);
    assert!(!i2c.session_live());
    assert_eq!(port.0.borrow().commands.last(), Some(&STOP));
    // A fresh START that never left the reservation queues nothing itself.
    let op = i2c.begin_write(DEVICE, &[1]).ok().unwrap();
    assert!(i2c.session_live());
    i2c.cancel_write(op, &[1]);
    assert!(!i2c.session_live());
}

fn run_dma_read(i2c: &mut I2c<Port>, length: usize) -> Result<Session, IOError> {
    let mut op = i2c.begin_dma_read(DEVICE, length)?;
    let mut waited = None;
    let mut verdict = None;
    loop {
        match i2c.dma_read_turn(op, 0x7fff, waited, verdict) {
            Turn::Wait(next, Wait::RxDma(_)) => {
                op = next;
                waited = None;
                verdict = i2c.poll_rx_dma();
            }
            Turn::Wait(next, until) => {
                op = next;
                waited = wait(i2c, until);
                verdict = None;
            }
            Turn::Done(r) => return r,
        }
    }
}

#[test]
fn a_dma_read_queues_its_commands_and_arms_the_channel() {
    let port = sim();
    port.0.borrow_mut().dma_done = true;
    let mut i2c = driver(&port);
    let open = run_dma_read(&mut i2c, 300).ok().unwrap();
    assert_eq!(run_stop(&mut i2c, open), Ok(()));
    let sim = port.0.borrow();
    assert_eq!(sim.commands, vec![start(true), receive(256), receive(44), STOP]);
    assert_eq!(sim.dma, vec![(Direction::Rx, BASE + 0x70, 0, 300)]);
    assert_eq!(sim.quiesced, 1);
    assert!(!sim.mder.rdde);
}

#[test]
fn a_dma_read_over_capacity_is_refused_without_consent() {
    let port = sim();
    let mut i2c = driver(&port);
    assert!(matches!(i2c.begin_dma_read(DEVICE, 1100), Err(IOError::ChunkingRequired)));
    assert!(matches!(i2c.begin_dma_read(DEVICE, 0), Err(IOError::InvalidReadBufferLength)));
    assert!(matches!(i2c.begin_dma_read(0x99, 8), Err(IOError::AddressOutOfRange(0x99))));
    assert!(port.0.borrow().commands.is_empty());
    assert_eq!(i2c.dma_read_preflight(1024), Ok(()));
    assert_eq!(i2c.dma_read_preflight(1025), Err(IOError::ChunkingRequired));
    assert!(i2c.chain_fits(1024));
    assert!(!i2c.chain_fits(1025));
}

#[test]
fn a_dma_read_over_capacity_runs_in_chunks_with_consent() {
    let port = sim();
    port.0.borrow_mut().dma_done = true;
    let mut i2c = driver_with(&port, true);
    let open = run_dma_read(&mut i2c, 1100).ok().unwrap();
    assert_eq!(run_stop(&mut i2c, open), Ok(()));
    let sim = port.0.borrow();
    let mut expected = Vec::new();
    for chunk in [256usize, 256, 256, 256, 76] {
        expected.push(start(true));
        expected.push(receive(chunk));
        expected.push(STOP);
    }
    assert_eq!(sim.commands, expected);
    // Each chunk goes behind the one before it.
    let transfers = [(0, 256), (256, 256), (512, 256), (768, 256), (1024, 76)];
    assert_eq!(sim.dma, transfers.map(|(from, length)| (Direction::Rx, BASE + 0x70, from, length)));
}

#[test]
fn a_dma_verdict_decides_how_a_read_ends() {
    for (verdict, error) in [
        (None, IOError::Timeout),
        (Some(DmaVerdict::UnexpectedStop), IOError::UnexpectedStop),
        (Some(DmaVerdict::Fault(ControllerStatusError::Fifo)), IOError::FifoError),
    ] {
        let port = sim();
        let mut i2c = driver(&port);
        let mut op = i2c.begin_dma_read(DEVICE, 8).ok().unwrap();
        let mut seen = None;
        let r = loop {
            match i2c.dma_read_turn(op, 0x7fff, None, seen) {
                Turn::Wait(next, Wait::RxDma(_)) => {
                    op = next;
                    port.0.borrow_mut().msr.epf = error == IOError::UnexpectedStop;
                    port.0.borrow_mut().msr.mbf = error != IOError::UnexpectedStop;
                    port.0.borrow_mut().msr.fef = error == IOError::FifoError;
                    seen = i2c.poll_rx_dma();
                    assert_eq!(seen, verdict);
                }
                Turn::Wait(next, _) => op = next,
                Turn::Done(r) => break r,
            }
        };
        assert!(matches!(r, Err(e) if e == error));
        assert_eq!(port.0.borrow().quiesced, 1);
        assert!(!i2c.session_live());
    }
}

#[test]
fn a_fault_that_races_a_dma_completion_fails_the_transfer() {
    let port = sim();
    port.0.borrow_mut().dma_done = true;
    let mut i2c = driver(&port);
    let mut op = i2c.begin_dma_read(DEVICE, 8).ok().unwrap();
    let mut seen = None;
    let r = loop {
        match i2c.dma_read_turn(op, 0x7fff, None, seen) {
            Turn::Wait(next, Wait::RxDma(_)) => {
                op = next;
                seen = i2c.poll_rx_dma();
                assert_eq!(seen, Some(DmaVerdict::Complete));
                port.0.borrow_mut().msr.fef = true;
            }
            Turn::Wait(next, _) => op = next,
            Turn::Done(r) => break r,
        }
    };
    assert!(matches!(r, Err(IOError::FifoError)));
    assert_eq!(port.0.borrow().quiesced, 1);
    assert!(!i2c.session_live());
}

#[test]
fn a_halted_dma_read_clocks_a_byte_in_only_before_the_first() {
    for (moved, close) in [(0, vec![receive(1), STOP]), (3, vec![STOP])] {
        let port = sim();
        port.0.borrow_mut().silent = true;
        port.0.borrow_mut().dma_moved = moved;
        port.0.borrow_mut().resolution = HaltResolution::NeedsManualClose;
        port.0.borrow_mut().busy_after_halt = true;
        let mut i2c = driver(&port);
        let mut op = i2c.begin_dma_read(DEVICE, 8).ok().unwrap();
        let mut seen = None;
        let r = loop {
            match i2c.dma_read_turn(op, 0x7fff, None, seen) {
                Turn::Wait(next, Wait::RxDma(_)) => {
                    op = next;
                    port.0.borrow_mut().msr.fef = true;
                    seen = i2c.poll_rx_dma();
                }
                Turn::Wait(next, _) => op = next,
                Turn::Done(r) => break r,
            }
        };
        assert!(matches!(r, Err(IOError::FifoError)));
        let sim = port.0.borrow();
        assert_eq!(sim.commands[..2], [start(true), receive(8)]);
        assert_eq!(sim.commands[2..], close);
    }
}

#[test]
fn a_dma_read_is_retried_only_where_it_stopped_short() {
    for (fault, again) in [(false, true), (true, false)] {
        let port = sim();
        let mut i2c = driver_with(&port, true);
        let mut op = i2c.begin_dma_read(DEVICE, 8).ok().unwrap();
        let mut transfers = 0;
        let mut seen = None;
        let r = loop {
            match i2c.dma_read_turn(op, 0x7fff, None, seen) {
                Turn::Wait(next, Wait::RxDma(_)) => {
                    op = next;
                    transfers += 1;
                    port.0.borrow_mut().msr.fef = fault;
                    seen = i2c.poll_rx_dma();
                }
                Turn::Wait(next, _) => {
                    op = next;
                    seen = None;
                }
                Turn::Done(r) => break r,
            }
        };
        let error = if fault { IOError::FifoError } else { IOError::Timeout };
        assert!(matches!(r, Err(e) if e == error));
        assert_eq!(transfers, if again { 2 } else { 1 });
        assert_eq!(starts(&port), transfers);
    }
}

#[test]
fn a_refused_dma_transfer_recovers() {
    let port = sim();
    port.0.borrow_mut().dma_accepts = false;
    let mut i2c = driver(&port);
    assert!(matches!(run_dma_read(&mut i2c, 8), Err(IOError::Other)));
    assert!(!i2c.session_live());
    assert_eq!(port.0.borrow().dma_enabled, 0);
}

#[test]
fn a_dma_poll_ranks_completion_fault_and_end() {
    let port = sim();
    let mut i2c = driver(&port);
    assert_eq!(i2c.poll_rx_dma(), None);
    assert!(port.0.borrow().mier.ndie && !port.0.borrow().mier.rdie);
    port.0.borrow_mut().msr.epf = true;
    assert_eq!(i2c.poll_rx_dma(), Some(DmaVerdict::UnexpectedStop));
    port.0.borrow_mut().msr.fef = true;
    assert_eq!(i2c.poll_rx_dma(), Some(DmaVerdict::Fault(ControllerStatusError::Fifo)));
    assert_eq!(i2c.poll_tx_dma(), Some(DmaVerdict::Fault(ControllerStatusError::Fifo)));
    port.0.borrow_mut().dma_done = true;
    assert_eq!(i2c.poll_rx_dma(), Some(DmaVerdict::Complete));
    assert_eq!(i2c.poll_tx_dma(), Some(DmaVerdict::Complete));
}

#[test]
fn a_dma_write_hands_every_chunk_out() {
    let port = sim();
    port.0.borrow_mut().dma_done = true;
    let mut i2c = driver(&port);
    let mut op = i2c.begin_dma_write(DEVICE, 10).ok().unwrap();
    let mut waited = None;
    let mut verdict = None;
    let mut bounds = Vec::new();
    let open = loop {
        match i2c.dma_write_turn(op, 4, waited, verdict) {
            Turn::Wait(next, Wait::TxDma(bound)) => {
                op = next;
                bounds.push(bound);
                waited = None;
                verdict = i2c.poll_tx_dma();
            }
            Turn::Wait(next, until) => {
                op = next;
                waited = wait(&mut i2c, until);
            }
            Turn::Done(r) => break r.ok().unwrap(),
        }
    };
    assert_eq!(run_stop(&mut i2c, open), Ok(()));
    let chunks: Vec<(usize, usize)> = port.0.borrow().dma.iter().map(|t| (t.2, t.3)).collect();
    assert_eq!(chunks, vec![(0, 4), (4, 4), (8, 2)]);
    // The timeout and a millisecond for each byte.
    assert_eq!(bounds, vec![7_000, 7_000, 5_000]);
    assert_eq!(port.0.borrow().commands, vec![start(false), STOP]);
}

#[test]
fn a_cancelled_dma_transfer_is_quiesced_before_the_recovery() {
    let port = sim();
    let mut i2c = driver(&port);
    let mut op = i2c.begin_dma_read(DEVICE, 8).ok().unwrap();
    loop {
        match i2c.dma_read_turn(op, 0x7fff, None, None) {
            Turn::Wait(next, Wait::RxDma(_)) => {
                op = next;
                break;
            }
            Turn::Wait(next, _) => op = next,
            Turn::Done(_) => panic!("the transfer is running"),
        }
    }
    i2c.cancel_dma_read(op);
    assert_eq!(port.0.borrow().quiesced, 1);
    assert!(!i2c.session_live());
    let op = i2c.begin_dma_write(DEVICE, 8).ok().unwrap();
    i2c.cancel_dma_write(op, 8);
    assert!(!i2c.session_live());
}

#[test]
fn dma_chunks_partition_a_buffer() {
    assert_eq!(next_chunk(10, 0, 4), (4, false));
    assert_eq!(next_chunk(10, 8, 4), (10, true));
    assert_eq!(next_chunk(10, 0, 10), (10, true));
}

fn run_exchange(i2c: &mut I2c<Port>, address: u8, operations: &mut Vec<Operation>) -> Result<(), IOError> {
    let mut op = match i2c.begin_exchange(address, operations)? {
        Some(op) => op,
        None => return Ok(()),
    };
    let mut waited = None;
    loop {
        match i2c.exchange_turn(op, operations, waited) {
            Stride::Wait(next, until) => {
                op = next;
                waited = wait(i2c, until);
            }
            Stride::Next(next) => {
                op = next;
                waited = None;
            }
            Stride::Done(r) => return r,
        }
    }
}

#[test]
fn an_interrupt_driven_exchange_is_the_polled_transaction() {
    let request = || vec![Operation::Write(vec![7, 8]), Operation::Read(vec![0; 300]), Operation::Write(Vec::new())];
    let polled = sim();
    let mut expected = request();
    assert_eq!(driver(&polled).transaction(DEVICE, &mut expected), Ok(()));
    let port = sim();
    let mut i2c = driver(&port);
    let mut operations = request();
    assert_eq!(run_exchange(&mut i2c, DEVICE, &mut operations), Ok(()));
    assert_eq!(port.0.borrow().commands, polled.0.borrow().commands);
    match (&operations[1], &expected[1]) {
        (Operation::Read(got), Operation::Read(wanted)) => assert_eq!(got, wanted),
        _ => unreachable!(),
    }
    assert!(!i2c.session_live());
}

#[test]
fn an_exchange_of_one_operation_is_a_plain_transfer() {
    let port = sim();
    let mut i2c = driver(&port);
    assert_eq!(run_exchange(&mut i2c, DEVICE, &mut vec![Operation::Read(vec![0; 2])]), Ok(()));
    assert_eq!(port.0.borrow().commands, vec![start(true), receive(2), STOP]);
    port.0.borrow_mut().commands.clear();
    assert_eq!(run_exchange(&mut i2c, DEVICE, &mut vec![Operation::Write(vec![5])]), Ok(()));
    assert_eq!(port.0.borrow().commands, vec![start(false), (ControllerCommand::Transmit, 5), STOP]);
}

#[test]
fn an_exchange_of_a_write_and_a_read_has_one_stop() {
    let port = sim();
    let mut i2c = driver(&port);
    let mut operations = vec![Operation::Write(vec![5]), Operation::Read(vec![0; 2])];
    assert_eq!(run_exchange(&mut i2c, DEVICE, &mut operations), Ok(()));
    assert!(matches!(&operations[1], Operation::Read(data) if data == &vec![0, 1]));
    assert_eq!(
        port.0.borrow().commands,
        vec![start(false), (ControllerCommand::Transmit, 5), start(true), receive(2), STOP]
    );
}

#[test]
fn doomed_exchanges_touch_nothing() {
    let port = sim();
    let mut i2c = driver(&port);
    let mut doomed = vec![Operation::Write(vec![1]), Operation::Read(Vec::new())];
    assert_eq!(run_exchange(&mut i2c, 0x99, &mut doomed), Err(IOError::InvalidReadBufferLength));
    assert_eq!(run_exchange(&mut i2c, 0x99, &mut Vec::new()), Ok(()));
    assert_eq!(
        run_exchange(&mut i2c, 0x99, &mut vec![Operation::Write(vec![1])]),
        Err(IOError::AddressOutOfRange(0x99))
    );
    assert!(port.0.borrow().commands.is_empty());
    assert!(!i2c.session_live());
}

#[test]
fn a_failed_exchange_is_recovered_and_its_successor_works() {
    let port = sim();
    let mut i2c = driver(&port);
    let mut operations = vec![Operation::Write(vec![1]), Operation::Read(vec![0; 4])];
    port.0.borrow_mut().early_ends = 1;
    assert_eq!(run_exchange(&mut i2c, DEVICE, &mut operations), Err(IOError::UnexpectedStop));
    assert!(!i2c.session_live());
    assert_eq!(run_exchange(&mut i2c, DEVICE, &mut operations), Ok(()));
    port.0.borrow_mut().silent = true;
    assert_eq!(run_exchange(&mut i2c, DEVICE, &mut operations), Err(IOError::Timeout));
    assert!(!i2c.session_live());
}

#[test]
fn a_cancelled_exchange_is_recovered_wherever_it_stands() {
    // Before the first turn nothing is open.
    let port = sim();
    let mut i2c = driver(&port);
    let mut operations = vec![Operation::Write(vec![1]), Operation::Read(vec![0; 4])];
    let op = i2c.begin_exchange(DEVICE, &operations).ok().unwrap().unwrap();
    i2c.cancel_exchange(op, &operations);
    assert!(port.0.borrow().commands.is_empty());
    // Between the two operations the write is open.
    let mut op = i2c.begin_exchange(DEVICE, &operations).ok().unwrap().unwrap();
    let mut waited = None;
    while !matches!(op.leg, Leg::Between(_, 1)) {
        match i2c.exchange_turn(op, &mut operations, waited) {
            Stride::Wait(next, until) => {
                op = next;
                waited = wait(&mut i2c, until);
            }
            Stride::Next(next) => {
                op = next;
                waited = None;
            }
            Stride::Done(_) => panic!("the read is still to come"),
        }
    }
    assert!(i2c.session_live());
    i2c.cancel_exchange(op, &operations);
    assert!(!i2c.session_live());
    assert_eq!(port.0.borrow().commands.last(), Some(&STOP));
}

fn run_dma_exchange(i2c: &mut I2c<Port>, address: u8, operations: &Vec<DmaOperation>) -> Result<(), IOError> {
    let mut op = match i2c.begin_dma_exchange(address, operations)? {
        Some(op) => op,
        None => return Ok(()),
    };
    let mut waited = None;
    let mut verdict = None;
    loop {
        match i2c.dma_exchange_turn(op, operations, 4096, waited, verdict) {
            Stride::Wait(next, Wait::RxDma(_)) => {
                op = next;
                waited = None;
                verdict = i2c.poll_rx_dma();
            }
            Stride::Wait(next, Wait::TxDma(_)) => {
                op = next;
                waited = None;
                verdict = i2c.poll_tx_dma();
            }
            Stride::Wait(next, until) => {
                op = next;
                waited = wait(i2c, until);
                verdict = None;
            }
            Stride::Next(next) => {
                op = next;
                waited = None;
                verdict = None;
            }
            Stride::Done(r) => return r,
        }
    }
}

#[test]
fn a_dma_exchange_chains_its_operations() {
    let port = sim();
    port.0.borrow_mut().dma_done = true;
    let mut i2c = driver(&port);
    let operations = vec![DmaOperation::Write(3), DmaOperation::Read(300), DmaOperation::Write(0)];
    assert_eq!(run_dma_exchange(&mut i2c, DEVICE, &operations), Ok(()));
    let sim = port.0.borrow();
    assert_eq!(sim.commands, vec![start(false), start(true), receive(256), receive(44), start(false), STOP]);
    assert_eq!(sim.dma, vec![(Direction::Tx, BASE + 0x60, 0, 3), (Direction::Rx, BASE + 0x70, 0, 300)]);
}

#[test]
fn doomed_dma_exchanges_never_start() {
    let port = sim();
    let mut i2c = driver(&port);
    for (address, operations, error) in [
        (0x99, vec![DmaOperation::Write(1), DmaOperation::Read(0)], IOError::InvalidReadBufferLength),
        (DEVICE, vec![DmaOperation::Write(1), DmaOperation::Read(1100)], IOError::ChunkingRequired),
        (0x99, vec![DmaOperation::Write(1), DmaOperation::Read(8)], IOError::AddressOutOfRange(0x99)),
    ] {
        assert_eq!(run_dma_exchange(&mut i2c, address, &operations), Err(error));
    }
    assert_eq!(run_dma_exchange(&mut i2c, 0x99, &Vec::new()), Ok(()));
    assert!(port.0.borrow().commands.is_empty());
    assert!(!i2c.session_live());
}

#[test]
fn a_cancelled_dma_exchange_quiesces_its_channel() {
    let port = sim();
    let mut i2c = driver(&port);
    let operations = vec![DmaOperation::Read(8)];
    let mut op = i2c.begin_dma_exchange(DEVICE, &operations).ok().unwrap().unwrap();
    while !matches!(&op.leg, DmaLeg::Reading(_, _, _)) || port.0.borrow().dma.is_empty() {
        match i2c.dma_exchange_turn(op, &operations, 4096, None, None) {
            Stride::Wait(next, _) | Stride::Next(next) => op = next,
            Stride::Done(_) => panic!("the transfer is running"),
        }
    }
    i2c.cancel_dma_exchange(op, &operations, 4096);
    assert_eq!(port.0.borrow().quiesced, 1);
    assert!(!i2c.session_live());
}
