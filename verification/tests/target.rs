use std::cell::RefCell;
use std::collections::VecDeque;
use std::rc::Rc;

use lpi2c::clocks::ClockError;
use lpi2c::lpi2c_regs::{check_layout, Direction, DmaPort, MappedAddresses, TargetPort};
use lpi2c::target::response::{Pause, RxResponse, TxResponse};
use lpi2c::target::{
    read_chunk_done, request_for, write_chunk_done, Address, Config, Event, I2c, IOError, InterruptHandler, Progress,
    ReadStatus, Request, RxChunkOutcome, SetupError, Status, TargetSetup, TxChunk, TxChunkOutcome, WriteStatus,
};
use lpi2c::target_registers::{dma_buffer_fits, ListenEvent, RxChunkEnd, TargetFault, TargetRegisters};
use lpi2c::wait::WaitOutcome;
use lpi2c::words::{Addrcfg, Samr, Sasr, Scfgr1, Scfgr2, Scr, Sder, Sier, Srdr, Ssr, Stdr};

/// An LPI2C target whose status is scripted: each read takes the next word,
/// and the last one stays.
struct Sim {
    script: VecDeque<Ssr>,
    ssr: Ssr,
    cleared: Vec<Ssr>,
    sier: Sier,
    sder: Sder,
    scr: Scr,
    controls: Vec<Scr>,
    scfgr1: Scfgr1,
    scfgr2: Scfgr2,
    samr: Option<Samr>,
    address: u16,
    sent: Vec<u8>,
    rx: VecDeque<u8>,
    /// The receive flag follows the FIFO.
    live_rdf: bool,
    dma: Vec<(Direction, usize, usize, usize)>,
    dma_accepts: bool,
    dma_done: bool,
    dma_moved: usize,
}

#[derive(Clone)]
struct Port(Rc<RefCell<Sim>>);

fn quiet() -> Ssr {
    Ssr {
        tdf: false,
        rdf: false,
        avf: false,
        taf: false,
        rsf: false,
        sdf: false,
        bef: false,
        fef: false,
        gcf: false,
        sarf: false,
        rest: 0,
    }
}

fn sim(script: &[Ssr]) -> Port {
    Port(Rc::new(RefCell::new(Sim {
        script: script.iter().copied().collect(),
        ssr: quiet(),
        cleared: Vec::new(),
        sier: Sier::disabled(),
        sder: Sder { tdde: false, rdde: false, rest: 3 },
        scr: Scr { sen: false, rst: false, filten: true, filtdz: false, rtf: false, rrf: false, rest: 5 },
        controls: Vec::new(),
        scfgr1: Scfgr1 {
            rxstall: false,
            txdstall: false,
            adrstall: false,
            gcen: false,
            saen: false,
            addrcfg: Addrcfg::Unused,
            rest: 6,
        },
        scfgr2: Scfgr2 { datavd: 0, rest: 8 },
        samr: None,
        address: 0,
        sent: Vec::new(),
        rx: VecDeque::new(),
        live_rdf: false,
        dma: Vec::new(),
        dma_accepts: true,
        dma_done: false,
        dma_moved: 0,
    })))
}

impl TargetPort for Port {
    fn read_scr(&mut self) -> Scr {
        self.0.borrow().scr
    }

    fn write_scr(&mut self, value: Scr) {
        let mut sim = self.0.borrow_mut();
        sim.controls.push(value);
        if value.rrf {
            sim.rx.clear();
        }
        // The FIFO resets read back as zero.
        sim.scr = Scr { rtf: false, rrf: false, ..value };
    }

    fn read_ssr(&mut self) -> Ssr {
        let mut sim = self.0.borrow_mut();
        if let Some(next) = sim.script.pop_front() {
            sim.ssr = next;
        }
        let mut ssr = sim.ssr;
        if sim.live_rdf {
            ssr.rdf = !sim.rx.is_empty();
        }
        ssr
    }

    fn write_ssr(&mut self, value: Ssr) {
        self.0.borrow_mut().cleared.push(value);
    }

    fn read_sier(&mut self) -> Sier {
        self.0.borrow().sier
    }

    fn write_sier(&mut self, value: Sier) {
        self.0.borrow_mut().sier = value;
    }

    fn read_sder(&mut self) -> Sder {
        self.0.borrow().sder
    }

    fn write_sder(&mut self, value: Sder) {
        self.0.borrow_mut().sder = value;
    }

    fn read_scfgr1(&mut self) -> Scfgr1 {
        self.0.borrow().scfgr1
    }

    fn write_scfgr1(&mut self, value: Scfgr1) {
        self.0.borrow_mut().scfgr1 = value;
    }

    fn read_scfgr2(&mut self) -> Scfgr2 {
        self.0.borrow().scfgr2
    }

    fn write_scfgr2(&mut self, value: Scfgr2) {
        self.0.borrow_mut().scfgr2 = value;
    }

    fn write_samr(&mut self, value: Samr) {
        self.0.borrow_mut().samr = Some(value);
    }

    fn read_sasr(&mut self) -> Sasr {
        Sasr { raddr: self.0.borrow().address }
    }

    fn write_stdr(&mut self, value: Stdr) {
        self.0.borrow_mut().sent.push(value.data);
    }

    fn read_srdr(&mut self) -> Srdr {
        Srdr { data: self.0.borrow_mut().rx.pop_front().unwrap_or(0) }
    }
}

impl DmaPort for Port {
    fn dma_disable_request(&mut self, _direction: Direction) {}

    fn dma_clear_done(&mut self, _direction: Direction) {}

    fn dma_clear_interrupt(&mut self, _direction: Direction) {}

    fn dma_set_request_source(&mut self, _direction: Direction) {}

    fn dma_setup(&mut self, direction: Direction, port: usize, offset: usize, length: usize) -> bool {
        let mut sim = self.0.borrow_mut();
        sim.dma.push((direction, port, offset, length));
        sim.dma_accepts
    }

    fn dma_enable_request(&mut self, _direction: Direction) {}

    fn dma_barrier(&mut self) {}

    fn dma_quiesce(&mut self, _direction: Direction) -> bool {
        self.0.borrow().dma_done
    }

    fn dma_transferred_bytes(&mut self, _direction: Direction) -> usize {
        self.0.borrow().dma_moved
    }

    fn dma_is_done(&mut self, _direction: Direction) -> bool {
        self.0.borrow().dma_done
    }
}

const BASE: usize = 0x4003_4000;

fn layout(base: usize) -> MappedAddresses {
    MappedAddresses {
        param: base + 0x004,
        mcr: base + 0x010,
        msr: base + 0x014,
        mier: base + 0x018,
        mder: base + 0x01c,
        mcfgr1: base + 0x024,
        mfsr: base + 0x05c,
        mtdr: base + 0x060,
        mrdr: base + 0x070,
        scr: base + 0x110,
        ssr: base + 0x114,
        sier: base + 0x118,
        sder: base + 0x11c,
        sasr: base + 0x150,
        stdr: base + 0x160,
        srdr: base + 0x170,
    }
}

fn registers(port: &Port) -> TargetRegisters<Port> {
    TargetRegisters::from_pac(port.clone(), BASE, layout(BASE))
}

fn target_with(port: &Port, config: &Config) -> I2c<Port> {
    let registers = registers(port);
    assert!(registers.check_layout());
    let setup = I2c::<Port>::construction_setup(Some(Ok(12_000_000))).ok().unwrap();
    let address = config.address.validate().ok().unwrap();
    I2c::new_inner(registers, config, address, setup).ok().unwrap()
}

fn target(port: &Port) -> I2c<Port> {
    target_with(port, &Config::default())
}

#[test]
fn the_register_map_is_checked() {
    assert!(check_layout(BASE, &layout(BASE)));
    let mut drifted = layout(BASE);
    drifted.stdr += 4;
    assert!(!check_layout(BASE, &drifted));
}

#[test]
fn configuring_programs_the_plan_and_enables_last() {
    let port = sim(&[]);
    let mut config = Config::default();
    config.address = Address::Range(0x20..0x30);
    config.general_call = Status::Enabled;
    let _ = target_with(&port, &config);
    let sim = port.0.borrow();
    assert_eq!(sim.samr, Some(Samr { addr0: 0x20, addr1: 0x2f }));
    assert_eq!(
        sim.scfgr1,
        Scfgr1 {
            rxstall: true,
            txdstall: true,
            adrstall: true,
            gcen: true,
            saen: false,
            addrcfg: Addrcfg::FromAddressMatch07BitToAddressMatch17Bit,
            rest: 6,
        }
    );
    // About a microsecond of 12 MHz.
    assert_eq!(sim.scfgr2, Scfgr2 { datavd: 12, rest: 8 });
    assert!(!sim.controls[0].sen);
    assert!(sim.controls[1].rtf && sim.controls[1].rrf);
    assert!(sim.controls[2].rst && !sim.controls[3].rst);
    assert!(sim.controls[4].filtdz && !sim.controls[4].filten);
    assert!(sim.controls[5].sen);
    assert!(sim.controls.iter().all(|c| c.rest == 5));
    assert_eq!(sim.cleared.len(), 1);
}

#[test]
fn construction_needs_a_functional_clock() {
    assert!(matches!(
        I2c::<Port>::construction_setup(None),
        Err(SetupError::ClockSetup(ClockError::NeverInitialized))
    ));
    assert!(matches!(
        I2c::<Port>::construction_setup(Some(Err(ClockError::Rejected(1)))),
        Err(SetupError::ClockSetup(ClockError::Rejected(1)))
    ));
    assert!(matches!(I2c::<Port>::construction_setup(Some(Ok(0))), Err(SetupError::NoFunctionalClock)));
    assert_eq!(TargetSetup::new(5).ok().unwrap().frequency, 5);
}

fn with(f: impl Fn(&mut Ssr)) -> Ssr {
    let mut ssr = quiet();
    f(&mut ssr);
    ssr
}

#[test]
fn a_listen_reports_the_request_of_its_event() {
    for (found, address, request) in [
        (with(|s| s.avf = true), 0x2a << 1, Ok(Request::Write(0x2a))),
        (with(|s| s.avf = true), 0x2a << 1 | 1, Ok(Request::Read(0x2a))),
        (with(|s| s.sdf = true), 0x2a << 1, Ok(Request::Stop(0x2a))),
        (
            with(|s| {
                s.gcf = true;
                s.avf = true
            }),
            0,
            Ok(Request::GeneralCall),
        ),
        (with(|s| s.sarf = true), 0x19, Ok(Request::SmbusAlert)),
        (with(|s| s.bef = true), 0, Err(IOError::BitError)),
        (with(|s| s.fef = true), 0, Err(IOError::FifoError)),
    ] {
        let port = sim(&[]);
        let mut i2c = target(&port);
        port.0.borrow_mut().script = [quiet(), found, found].into_iter().collect();
        port.0.borrow_mut().address = address;
        port.0.borrow_mut().cleared.clear();
        assert_eq!(i2c.blocking_listen(), request);
        let sim = port.0.borrow();
        // Stale events first, then exactly what was seen.
        assert_eq!(sim.cleared[0], with(|s| {
            s.rsf = true;
            s.sdf = true;
            s.bef = true;
            s.fef = true
        }));
        assert_eq!(sim.cleared[1].sdf, found.sdf);
        assert_eq!(sim.cleared[1].bef, found.bef);
    }
}

#[test]
fn events_map_to_requests() {
    assert_eq!(request_for(Event::RepeatedStart(0x55)), Ok(Request::Read(0x2a)));
    assert_eq!(request_for(Event::Stop(0x54)), Ok(Request::Stop(0x2a)));
    assert_eq!(request_for(Event::TransmitAck), Err(IOError::Other));
}

#[test]
fn an_asynchronous_listen_arms_what_is_enabled() {
    let port = sim(&[]);
    let mut config = Config::default();
    config.smbus_alert = Status::Enabled;
    let mut i2c = target_with(&port, &config);
    i2c.begin_listen();
    assert!(!i2c.listen_wake());
    {
        let sim = port.0.borrow();
        assert!(sim.sier.sarie && !sim.sier.gcie && sim.sier.avie && !sim.sier.rdie);
        // A match says nothing yet; the address that is ready does.
        assert!(!sim.sier.am0ie && !sim.sier.am1ie);
    }
    port.0.borrow_mut().ssr = with(|s| s.avf = true);
    port.0.borrow_mut().address = 0x54;
    assert!(i2c.listen_wake());
    assert_eq!(i2c.finish_listen(WaitOutcome::Woken), Ok(Request::Write(0x2a)));
    assert_eq!(i2c.finish_listen(WaitOutcome::Closed), Err(IOError::Other));
}

#[test]
fn a_read_response_ends_early_exactly_or_needs_more() {
    let room = with(|s| s.tdf = true);
    let stop = with(|s| s.sdf = true);
    for (script, expected, sent) in [
        (vec![room, room, stop], Ok(ReadStatus::EarlyStop(2)), vec![1u8, 2]),
        (vec![room, room, room, stop], Ok(ReadStatus::Complete(3)), vec![1, 2, 3]),
        (vec![room, room, room, room], Ok(ReadStatus::NeedMore(3)), vec![1, 2, 3]),
        (vec![room, with(|s| s.fef = true)], Err(IOError::FifoError), vec![1]),
    ] {
        let port = sim(&[]);
        let mut i2c = target(&port);
        port.0.borrow_mut().script = script.into_iter().collect();
        assert_eq!(i2c.blocking_respond_to_read(&[1, 2, 3]), expected);
        assert_eq!(port.0.borrow().sent, sent);
    }
}

#[test]
fn a_write_response_stops_restarts_or_fills() {
    let stop = with(|s| s.sdf = true);
    let restart = with(|s| s.rsf = true);
    for (end, bytes, expected) in [
        (stop, vec![7u8, 8], Ok(WriteStatus::Stopped(2))),
        (restart, vec![7, 8], Ok(WriteStatus::Restarted(2))),
        (stop, vec![7, 8, 9, 10], Ok(WriteStatus::BufferFull(3))),
        (with(|s| s.bef = true), vec![7], Err(IOError::BitError)),
    ] {
        let port = sim(&[]);
        let mut i2c = target(&port);
        port.0.borrow_mut().live_rdf = true;
        port.0.borrow_mut().rx = bytes.iter().copied().collect();
        port.0.borrow_mut().ssr = end;
        let mut buffer = [0u8; 3];
        assert_eq!(i2c.blocking_respond_to_write(&mut buffer), expected);
        let count = bytes.len().min(3);
        assert_eq!(buffer[..count], bytes[..count]);
    }
}

#[test]
fn a_full_buffer_and_its_follow_up_lose_no_byte() {
    let port = sim(&[]);
    let mut i2c = target(&port);
    port.0.borrow_mut().live_rdf = true;
    port.0.borrow_mut().rx = [1, 2, 3, 4, 5].into_iter().collect();
    port.0.borrow_mut().ssr = with(|s| s.sdf = true);
    let mut first = [0u8; 3];
    let mut second = [0u8; 3];
    assert_eq!(i2c.blocking_respond_to_write(&mut first), Ok(WriteStatus::BufferFull(3)));
    assert_eq!(i2c.blocking_respond_to_write(&mut second), Ok(WriteStatus::Stopped(2)));
    assert_eq!((first, second), ([1, 2, 3], [4, 5, 0]));
}

#[test]
fn interrupt_driven_responses_take_one_step_at_a_time() {
    let port = sim(&[]);
    let mut i2c = target(&port);
    port.0.borrow_mut().ssr = with(|s| s.tdf = true);
    assert_eq!(i2c.respond_to_read_step(&[1, 2], 0, None), Progress::Wait(0));
    assert!(i2c.tx_wake());
    assert!(port.0.borrow().sier.tdie);
    assert_eq!(i2c.respond_to_read_step(&[1, 2], 0, Some(WaitOutcome::Woken)), Progress::Wait(1));
    assert_eq!(i2c.respond_to_read_step(&[1, 2], 1, Some(WaitOutcome::Woken)), Progress::Wait(2));
    assert_eq!(
        i2c.respond_to_read_step(&[1, 2], 2, Some(WaitOutcome::Woken)),
        Progress::Done(Ok(ReadStatus::NeedMore(2)))
    );
    assert_eq!(port.0.borrow().sent, vec![1, 2]);
    port.0.borrow_mut().ssr = with(|s| s.rsf = true);
    assert_eq!(
        i2c.respond_to_read_step(&[1, 2], 1, Some(WaitOutcome::Woken)),
        Progress::Done(Ok(ReadStatus::EarlyStop(1)))
    );
    assert_eq!(
        i2c.respond_to_read_step(&[1, 2], 1, Some(WaitOutcome::Closed)),
        Progress::Done(Err(IOError::Other))
    );

    port.0.borrow_mut().live_rdf = true;
    port.0.borrow_mut().rx = [9].into_iter().collect();
    let mut buffer = [0u8; 2];
    assert!(i2c.rx_wake());
    assert_eq!(i2c.respond_to_write_step(&mut buffer, 0, Some(WaitOutcome::Woken)), Progress::Wait(1));
    assert_eq!(
        i2c.respond_to_write_step(&mut buffer, 1, Some(WaitOutcome::Woken)),
        Progress::Done(Ok(WriteStatus::Restarted(1)))
    );
    assert_eq!(buffer, [9, 0]);
    assert_eq!(
        i2c.respond_to_write_step(&mut [], 0, None),
        Progress::Done(Ok(WriteStatus::BufferFull(0)))
    );
}

#[test]
fn the_fifo_reset_keeps_the_other_control_bits_of_the_target() {
    let port = sim(&[]);
    let mut i2c = target(&port);
    port.0.borrow_mut().controls.clear();
    i2c.reset_fifos();
    let sim = port.0.borrow();
    assert_eq!(sim.controls.len(), 1);
    assert!(sim.controls[0].rtf && sim.controls[0].rrf && sim.controls[0].sen);
    assert_eq!(sim.controls[0].rest, 5);
}

#[test]
fn an_abandoned_response_is_unwound_and_rearmed() {
    let port = sim(&[]);
    let mut i2c = target(&port);
    port.0.borrow_mut().sder = Sder { tdde: true, rdde: true, rest: 3 };
    let _ = i2c.rx_wake();
    i2c.abort_response();
    let sim = port.0.borrow();
    assert_eq!(sim.sier, Sier::disabled());
    assert_eq!(sim.sder, Sder { tdde: false, rdde: false, rest: 3 });
    assert!(sim.scr.sen);
}

#[test]
fn the_target_interrupt_handler_masks_and_wakes_once() {
    let port = sim(&[]);
    let mut registers = registers(&port);
    assert!(!InterruptHandler::on_interrupt(&mut registers));
    registers.enable_receive_interrupts();
    assert!(InterruptHandler::on_interrupt(&mut registers));
    assert_eq!(port.0.borrow().sier, Sier::disabled());
}

#[test]
fn a_fault_outranks_everything_a_listen_could_report() {
    let port = sim(&[with(|s| {
        s.fef = true;
        s.avf = true;
        s.sdf = true
    })]);
    let mut registers = registers(&port);
    assert_eq!(registers.take_listen_event(), ListenEvent::Fault(TargetFault::Fifo));
    assert!(matches!(IOError::from(TargetFault::Bit), IOError::BitError));
}

#[test]
fn residue_defers_the_termination_of_a_full_chunk() {
    let both = with(|s| {
        s.rdf = true;
        s.sdf = true
    });
    let port = sim(&[both]);
    let mut registers = registers(&port);
    assert_eq!(registers.rx_chunk_end(true), RxChunkEnd::ResiduePending);
    assert_eq!(registers.rx_chunk_end(false), RxChunkEnd::Stopped);
}

#[test]
fn dma_buffers_have_bounds() {
    assert!(!dma_buffer_fits(0, 0x7fff));
    assert!(dma_buffer_fits(1, 0x7fff));
    assert!(dma_buffer_fits(0x7fff, 0x7fff));
    assert!(!dma_buffer_fits(0x8000, 0x7fff));
}

#[test]
fn a_receive_chunk_drains_the_fifo_behind_the_channel() {
    let port = sim(&[]);
    let mut i2c = target(&port);
    assert_eq!(i2c.begin_read_dma_chunk(12, 4, 0x7fff), Ok(()));
    {
        let sim = port.0.borrow();
        assert_eq!(sim.dma, vec![(Direction::Rx, BASE + 0x170, 12, 4)]);
        assert!(sim.sder.rdde && !sim.sder.tdde);
    }
    port.0.borrow_mut().dma_moved = 2;
    port.0.borrow_mut().live_rdf = true;
    port.0.borrow_mut().rx = [8].into_iter().collect();
    port.0.borrow_mut().ssr = with(|s| s.sdf = true);
    assert!(i2c.dma_wake(Direction::Rx));
    let mut data = [6, 7, 0, 0];
    assert_eq!(i2c.finish_read_dma_chunk(&mut data), Ok(RxChunkOutcome::Stopped(3)));
    assert_eq!(data, [6, 7, 8, 0]);
    assert!(!port.0.borrow().sder.rdde);
}

#[test]
fn draining_reads_data_and_clears_no_flag() {
    let port = sim(&[]);
    port.0.borrow_mut().live_rdf = true;
    port.0.borrow_mut().ssr = with(|s| s.sdf = true);
    port.0.borrow_mut().rx = [1, 2, 3].into_iter().collect();
    let mut regs = registers(&port);
    let mut data = [9; 4];
    assert_eq!(regs.drain_rx(&mut data, 2), 4);
    assert_eq!(data, [9, 9, 1, 2]);
    assert!(port.0.borrow().cleared.is_empty());
    assert_eq!(port.0.borrow().rx.len(), 1);
    assert_eq!(regs.drain_rx(&mut data, 0), 1);
    assert_eq!(data, [3, 9, 1, 2]);
}

#[test]
fn a_transmit_chunk_settles_before_it_asks_for_more() {
    let port = sim(&[]);
    let mut i2c = target(&port);
    assert_eq!(i2c.begin_write_dma_chunk(0, 4, 0x7fff), Ok(()));
    assert_eq!(port.0.borrow().dma, vec![(Direction::Tx, BASE + 0x160, 0, 4)]);
    assert!(!i2c.dma_wake(Direction::Tx));
    port.0.borrow_mut().dma_done = true;
    assert!(i2c.dma_wake(Direction::Tx));
    assert!(matches!(i2c.finish_write_dma_chunk(4), TxChunk::Settle(4)));
    assert!(matches!(
        i2c.settle_write_dma_chunk(4, 4, WaitOutcome::Woken),
        TxChunk::Done(Ok(TxChunkOutcome::NeedMore(4)))
    ));
    port.0.borrow_mut().ssr = with(|s| s.sdf = true);
    assert!(matches!(
        i2c.settle_write_dma_chunk(4, 4, WaitOutcome::Woken),
        TxChunk::Done(Ok(TxChunkOutcome::Stopped(4)))
    ));
    assert!(matches!(
        i2c.settle_write_dma_chunk(4, 4, WaitOutcome::Closed),
        TxChunk::Done(Err(IOError::Other))
    ));
}

#[test]
fn a_rejected_chunk_touches_nothing() {
    let port = sim(&[]);
    let mut i2c = target(&port);
    assert_eq!(i2c.begin_read_dma_chunk(0, 0, 0x7fff), Err(IOError::Other));
    assert_eq!(i2c.begin_write_dma_chunk(0, 9, 8), Err(IOError::Other));
    assert!(port.0.borrow().dma.is_empty());
    port.0.borrow_mut().dma_accepts = false;
    assert_eq!(i2c.begin_read_dma_chunk(0, 8, 8), Err(IOError::Other));
    assert!(!port.0.borrow().sder.rdde);
}

#[test]
fn chunks_add_up() {
    assert_eq!(read_chunk_done(4, TxChunkOutcome::NeedMore(4), false, 10), Progress::Wait(8));
    assert_eq!(
        read_chunk_done(8, TxChunkOutcome::Stopped(2), true, 10),
        Progress::Done(ReadStatus::Complete(10))
    );
    assert_eq!(
        read_chunk_done(4, TxChunkOutcome::Restarted(1), false, 10),
        Progress::Done(ReadStatus::EarlyStop(5))
    );
    assert_eq!(
        read_chunk_done(8, TxChunkOutcome::NeedMore(2), true, 10),
        Progress::Done(ReadStatus::NeedMore(10))
    );
    assert_eq!(write_chunk_done(0, RxChunkOutcome::Filled(4), false), Progress::Wait(4));
    assert_eq!(
        write_chunk_done(4, RxChunkOutcome::Filled(4), true),
        Progress::Done(WriteStatus::BufferFull(8))
    );
    assert_eq!(
        write_chunk_done(4, RxChunkOutcome::Restarted(1), false),
        Progress::Done(WriteStatus::Restarted(5))
    );
}

#[test]
fn a_dma_response_to_a_read_goes_chunk_by_chunk() {
    let port = sim(&[]);
    let mut i2c = target(&port);
    port.0.borrow_mut().dma_done = true;
    assert!(matches!(i2c.begin_dma_read_response(0, 4), Pause::Done(Ok(ReadStatus::NeedMore(0)))));
    let first = match i2c.begin_dma_read_response(6, 4) {
        Pause::Dma(op) => op,
        _ => panic!("a chunk is under way"),
    };
    assert_eq!(first, TxResponse::Moving(0, 4));
    let settling = match i2c.dma_read_response_turn(first, 6, 4, WaitOutcome::Woken) {
        Pause::Settle(op) => op,
        _ => panic!("an exhausted chunk settles"),
    };
    assert_eq!(settling, TxResponse::Settling(0, 4, 4));
    let second = match i2c.dma_read_response_turn(settling, 6, 4, WaitOutcome::Woken) {
        Pause::Dma(op) => op,
        _ => panic!("the next chunk is under way"),
    };
    assert_eq!(second, TxResponse::Moving(4, 6));
    assert_eq!(port.0.borrow().dma, vec![(Direction::Tx, BASE + 0x160, 0, 4), (Direction::Tx, BASE + 0x160, 4, 2)]);
    port.0.borrow_mut().ssr = with(|s| s.sdf = true);
    assert!(matches!(
        i2c.dma_read_response_turn(second, 6, 4, WaitOutcome::Woken),
        Pause::Done(Ok(ReadStatus::Complete(6)))
    ));
    assert!(matches!(
        i2c.dma_read_response_turn(settling, 6, 4, WaitOutcome::Closed),
        Pause::Done(Err(IOError::Other))
    ));
}

#[test]
fn a_dma_response_to_a_write_fills_its_chunks() {
    let port = sim(&[]);
    let mut i2c = target(&port);
    let mut buf = [1, 2, 3, 4, 5, 6];
    assert!(matches!(i2c.begin_dma_write_response(0, 4), Pause::Done(Ok(WriteStatus::BufferFull(0)))));
    let first = match i2c.begin_dma_write_response(6, 4) {
        Pause::Dma(op) => op,
        _ => panic!("a chunk is under way"),
    };
    assert_eq!(first, RxResponse { from: 0, to: 4 });
    port.0.borrow_mut().dma_done = true;
    let second = match i2c.dma_write_response_turn(first, &mut buf, 4) {
        Pause::Dma(op) => op,
        _ => panic!("the next chunk is under way"),
    };
    assert_eq!(second, RxResponse { from: 4, to: 6 });
    // The channel moved nothing of the last chunk; one byte waits in the FIFO.
    port.0.borrow_mut().dma_done = false;
    port.0.borrow_mut().dma_moved = 0;
    port.0.borrow_mut().live_rdf = true;
    port.0.borrow_mut().rx = [9].into_iter().collect();
    port.0.borrow_mut().ssr = with(|s| s.sdf = true);
    assert!(matches!(
        i2c.dma_write_response_turn(second, &mut buf, 4),
        Pause::Done(Ok(WriteStatus::Stopped(5)))
    ));
    assert_eq!(buf, [1, 2, 3, 4, 9, 6]);
}

#[test]
fn a_cancelled_dma_response_shuts_its_channel_down() {
    let port = sim(&[]);
    let mut i2c = target(&port);
    let op = match i2c.begin_dma_read_response(4, 4) {
        Pause::Dma(op) => op,
        _ => panic!("a chunk is under way"),
    };
    assert!(port.0.borrow().sder.tdde);
    i2c.cancel_dma_read_response(op);
    assert!(!port.0.borrow().sder.tdde);
    let op = match i2c.begin_dma_write_response(4, 4) {
        Pause::Dma(op) => op,
        _ => panic!("a chunk is under way"),
    };
    assert!(port.0.borrow().sder.rdde);
    i2c.cancel_dma_write_response(op);
    assert!(!port.0.borrow().sder.rdde);
    assert!(port.0.borrow().scr.sen);
}

#[test]
fn a_rejected_dma_response_is_reported() {
    let port = sim(&[]);
    let mut i2c = target(&port);
    port.0.borrow_mut().dma_accepts = false;
    assert!(matches!(i2c.begin_dma_read_response(4, 4), Pause::Done(Err(IOError::Other))));
    assert!(matches!(i2c.begin_dma_write_response(4, 4), Pause::Done(Err(IOError::Other))));
}
