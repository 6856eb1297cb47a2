//! The decisions of the interrupt-driven and DMA transfers of the controller.
//!
//! Each operation is a value that owns its session. A turn takes the
//! operation and how its last wait ended, does everything that can be done
//! without waiting, and hands back the next wait or the result. An operation
//! that is given up is cancelled, which recovers the bus.

use vstd::prelude::*;

use crate::answers::{ends_completed, ends_settled, owed};
use crate::controller::{I2c, IOError};
use crate::controller::blocking::still_owned;
use crate::controller_registers::{
    enqueue_ran, rx_ready_ran, start_word, status_error, stop_word, tx_room_step_ran, tx_settled_ran, CommandStep,
    ControllerStatusError, StartAction, StartDrainStep, StopAction, StopStep, TxStep,
};
use crate::lpi2c_regs::{Access, ControllerPort};
use crate::session::{
    fault_bound, lemma_bound_mirrors, lemma_fault_known, lemma_tick_read, mirrors, opens_read,
    recover_before_session_fault, recovered, remediate_before_session, session_fits, taken_over, tick_read, Abort,
    Session, SessionPhase, SessionView, StartReservation, StopWait,
};
use crate::ticks::{deadline, deadline_after, ticks_from_micros};
use crate::trace::{commands, extends, received, recoveries, wire};
use crate::transfer::{
    begins, ended_early, failed, fault_seen, faulted, found_full_behind, kept_waiting, last_is, lemma_moved_nothing,
    lemma_partway_earlier, lemma_partway_nothing, lemma_recovered_weaken, looked, moved, partway, refused, steady,
    unmet, unmet_behind,
};
use crate::wait::WaitOutcome;
use crate::words::{ControllerCommand, Mier, Mtdr};

verus! {

broadcast use {
    crate::answers::lemma_owed_push,
    crate::trace::group_bounded,
    crate::trace::group_trace,
    crate::transfer::group_wire,
    crate::session::lemma_recovered_wire,
};

/// What a turn waits for.
#[derive(Clone, Copy, Debug, PartialEq, Eq, Structural)]
pub enum Wait {
    /// Room in the command FIFO, for at most this many ticks.
    TxRoom(u64),
    /// A drained command FIFO, for at most this many ticks.
    TxSettle(u64),
    /// Received data, for at most this many ticks.
    Rx(u64),
    /// One turn of the executor.
    Yield,
    /// This many ticks.
    Sleep(u64),
    /// The end of a receive DMA transfer, for at most this many ticks.
    RxDma(u64),
    /// The end of a transmit DMA transfer, for at most this many ticks.
    TxDma(u64),
}

/// The outcome of a turn.
pub enum Turn<O, T> {
    Wait(O, Wait),
    Done(T),
}

/// The error of a wait that did not end with a wake. `closed` is what a
/// closed wait cell means to the operation.
pub open spec fn wait_error(waited: Option<WaitOutcome>, closed: IOError) -> Option<IOError> {
    match waited {
        Some(WaitOutcome::Closed) => Some(closed),
        Some(WaitOutcome::TimedOut) => Some(IOError::Timeout),
        _ => None,
    }
}

/// Computes [`wait_error`].
fn failed_wait(waited: Option<WaitOutcome>, closed: IOError) -> (r: Option<IOError>)
    ensures
        r == wait_error(waited, closed),
{
    match waited {
        Some(WaitOutcome::Closed) => Some(closed),
        Some(WaitOutcome::TimedOut) => Some(IOError::Timeout),
        _ => None,
    }
}

/// The last entry is a tick that is not before `end`.
pub open spec fn out_of_time(log: Seq<Access>, end: u64) -> bool {
    log.len() > 0 && log.last() is Now && log.last()->Now_0 >= end
}

/// A fault was classified with its arbitration loss cleared, and bound.
pub open spec fn scrubbed_fault(log: Seq<Access>, error: IOError) -> bool {
    &&& log.len() > 1
    &&& log.last() is ReadMfsr
    &&& log.drop_last().last() is WriteMsr
    &&& fault_seen(log.drop_last().drop_last(), error)
}

/// What bounds the time of a turn.
pub ghost enum Limit {
    /// Nothing that the turn itself reads the clock for.
    Untimed,
    /// A tick that an earlier turn fixed.
    Until(u64),
    /// A span of ticks that starts within the turn.
    Within(u64),
}

/// `end` is the deadline of a span of `budget` ticks that started between
/// `before` and `log`.
pub open spec fn due(before: Seq<Access>, log: Seq<Access>, budget: u64, end: u64) -> bool {
    exists|start: u64| #[trigger] tick_read(before, log, start) && end == deadline(start, budget)
}

/// A deadline that a turn hands on is the one it was given, or was fixed in
/// the turn.
pub open spec fn on_time(
    before: Seq<Access>,
    after: Seq<Access>,
    budget: u64,
    given: Option<u64>,
    next: Option<u64>,
) -> bool {
    next matches Some(end) ==> next == given || due(before, after, budget, end)
}

/// A span of `budget` ticks that started behind `before` is over at `log`.
pub open spec fn ran_out(before: Seq<Access>, log: Seq<Access>, budget: u64) -> bool {
    exists|end: u64| #[trigger] due(before, log, budget, end) && out_of_time(log, end)
}

/// The time of a turn that began at `before` is up at `log`.
pub open spec fn time_is_up(before: Seq<Access>, log: Seq<Access>, limit: Limit) -> bool {
    match limit {
        Limit::Untimed => false,
        Limit::Until(end) => out_of_time(log, end),
        Limit::Within(budget) => ran_out(before, log, budget),
    }
}

/// The limits that a step of a transaction can have: that of the operation
/// the turn began with, one that starts within the turn, or none.
pub open spec fn limit_of_step(limit: Limit, given: Limit, budget: u64) -> bool {
    limit == given || limit == Limit::Within(budget) || limit is Untimed
}

/// A turn that began at `before` came to `log` and failed there: on a fault,
/// an early end, a refused first command, or a deadline that passed behind a
/// look that found what was waited for not there. It had queued the first of
/// the commands that were left to it, `all`, and nothing else.
pub open spec fn turn_failed(
    before: Seq<Access>,
    log: Seq<Access>,
    limit: Limit,
    all: Seq<Mtdr>,
    error: IOError,
) -> bool {
    &&& steady(before, log)
    &&& partway(before, log, all)
    &&& recoveries(log) == recoveries(before)
    &&& match error {
        IOError::Timeout => time_is_up(before, log, limit) && unmet(log),
        IOError::UnexpectedStop => ended_early(log),
        IOError::Other => refused(log),
        IOError::AddressNack | IOError::ArbitrationLoss | IOError::FifoError | IOError::PinLowTimeout => faulted(
            log,
            error,
        ) || scrubbed_fault(log, error),
        _ => false,
    }
}

/// A turn gave its transaction up: because its wait failed, or because of
/// what it found. Exactly one recovery ran.
pub open spec fn turn_aborted(
    before: Seq<Access>,
    after: Seq<Access>,
    waited: Option<WaitOutcome>,
    closed: IOError,
    limit: Limit,
    all: Seq<Mtdr>,
    error: IOError,
    may_clock: bool,
) -> bool {
    if wait_error(waited, closed) is Some {
        wait_error(waited, closed) == Some(error) && recovered(before, after, may_clock)
    } else {
        found_and_left(before, after, limit, all, error, may_clock)
    }
}

/// A turn that gave its transaction up goes on from where it began.
pub proof fn lemma_turn_extends(
    before: Seq<Access>,
    after: Seq<Access>,
    waited: Option<WaitOutcome>,
    closed: IOError,
    limit: Limit,
    all: Seq<Mtdr>,
    error: IOError,
    may_clock: bool,
)
    requires
        turn_aborted(before, after, waited, closed, limit, all, error, may_clock),
    ensures
        extends(before, after),
{
    if wait_error(waited, closed) is Some {
        assert(extends(before, taken_over(before, after)));
    } else {
        let log = choose|log: Seq<Access>|
            #[trigger] turn_failed(before, log, limit, all, error) && recovered(log, after, may_clock);
        assert(extends(log, taken_over(log, after)));
    }
}

/// A turn gave its transaction up because of what it found.
pub open spec fn found_and_left(
    before: Seq<Access>,
    after: Seq<Access>,
    limit: Limit,
    all: Seq<Mtdr>,
    error: IOError,
    may_clock: bool,
) -> bool {
    exists|log: Seq<Access>| #[trigger] turn_failed(before, log, limit, all, error) && recovered(log, after, may_clock)
}

pub proof fn lemma_turn_aborted(
    before: Seq<Access>,
    log: Seq<Access>,
    after: Seq<Access>,
    limit: Limit,
    all: Seq<Mtdr>,
    error: IOError,
    clocks: bool,
    may_clock: bool,
)
    requires
        turn_failed(before, log, limit, all, error),
        recovered(log, after, clocks),
        clocks ==> may_clock,
    ensures
        found_and_left(before, after, limit, all, error, may_clock),
{
    lemma_recovered_weaken(log, after, clocks, may_clock);
}

/// A failed look at the FIFO is a failed turn.
pub proof fn lemma_failed_look(
    before: Seq<Access>,
    log: Seq<Access>,
    timeout: u64,
    limit: Limit,
    rest: Seq<Mtdr>,
    all: Seq<Mtdr>,
    error: IOError,
)
    requires
        failed(before, log, timeout, rest, error),
        begins(all, rest),
        error != IOError::Timeout,
    ensures
        turn_failed(before, log, limit, all, error),
{
    let none = Seq::<Mtdr>::empty();
    assert(commands(before) =~= commands(before) + none);
    assert(none + rest =~= rest);
    lemma_partway_earlier(before, before, log, none, rest, all);
}

/// What a later step of a turn found, which reads no clock, the turn found.
pub proof fn lemma_found_earlier(
    a: Seq<Access>,
    b: Seq<Access>,
    after: Seq<Access>,
    limit: Limit,
    words: Seq<Mtdr>,
    rest: Seq<Mtdr>,
    all: Seq<Mtdr>,
    error: IOError,
    clocks: bool,
    may_clock: bool,
)
    requires
        steady(a, b),
        recoveries(b) == recoveries(a),
        commands(b) == commands(a) + words,
        begins(all, words + rest),
        found_and_left(b, after, Limit::Untimed, rest, error, clocks),
        clocks ==> may_clock,
    ensures
        found_and_left(a, after, limit, all, error, may_clock),
{
    let log = choose|log: Seq<Access>|
        #[trigger] turn_failed(b, log, Limit::Untimed, rest, error) && recovered(log, after, clocks);
    lemma_partway_earlier(a, b, log, words, rest, all);
    assert(turn_failed(a, log, limit, all, error));
    lemma_recovered_weaken(log, after, clocks, may_clock);
}

/// A deadline that was fixed in a part of a turn was fixed in the turn.
pub proof fn lemma_due(a: Seq<Access>, b: Seq<Access>, c: Seq<Access>, budget: u64, end: u64)
    requires
        extends(a, b),
        extends(b, c),
        due(a, b, budget, end) || due(b, c, budget, end),
    ensures
        due(a, c, budget, end),
{
    if due(a, b, budget, end) {
        let start = choose|start: u64| #[trigger] tick_read(a, b, start) && end == deadline(start, budget);
        lemma_tick_read(a, b, c, start);
    } else {
        let start = choose|start: u64| #[trigger] tick_read(b, c, start) && end == deadline(start, budget);
        lemma_tick_read(a, b, c, start);
    }
}

/// A deadline that was fixed in the last part of a turn was fixed in the turn.
pub proof fn lemma_on_time(
    before: Seq<Access>,
    mid: Seq<Access>,
    after: Seq<Access>,
    budget: u64,
    given: Option<u64>,
    next: Option<u64>,
)
    requires
        extends(before, mid),
        extends(mid, after),
        on_time(mid, after, budget, None, next),
    ensures
        on_time(before, after, budget, given, next),
{
    if let Some(end) = next {
        lemma_due(before, mid, after, budget, end);
    }
}

pub proof fn lemma_bound_faulted(
    seen: Seq<Access>,
    after: Seq<Access>,
    session: SessionView,
    next: SessionView,
    fault: ControllerStatusError,
    error: IOError,
)
    requires
        seen.len() > 0,
        seen.last() is ReadMsr,
        status_error(seen.last()->ReadMsr_0) == Some(fault),
        fault_bound(seen, after, session, next, fault, error),
    ensures
        faulted(after, error),
        looked(seen, after),
        still_owned(session, next),
        session.fault is None && mirrors(wire(seen), session.phase) ==> session_fits(after, next),
{
    assert(after.drop_last() =~= seen);
    lemma_fault_known(seen, after, fault);
    if session.fault is None && mirrors(wire(seen), session.phase) {
        lemma_bound_mirrors(wire(seen), session, (after.last()->ReadMfsr_0).rxcount != 0, fault);
    }
}

/// Where a START stands.
pub enum StartStage {
    /// A fresh transaction: the slot is reserved, the START not yet queued.
    Fresh(StartReservation),
    /// A repeated START, not yet queued.
    Repeated(Session),
    /// The START is queued and has until the given tick to settle.
    Settling(Session, u64),
}

/// A START in progress.
pub struct StartOp {
    pub action: StartAction,
    pub stage: StartStage,
}

impl StartOp {
    /// The START was not queued yet.
    pub open spec fn unqueued(self) -> bool {
        !(self.stage is Settling)
    }

    /// The operation belongs to the transaction that is open on `i2c`.
    pub open spec fn fits<H>(self, i2c: &I2c<H>) -> bool {
        &&& i2c.session_open()
        &&& self.action.target() < 0x80
        &&& match self.stage {
            StartStage::Fresh(reservation) => {
                &&& reservation.owner() == i2c.block()
                &&& reservation.phase() == SessionPhase::Stable(Abort::General)
                &&& !opens_read(wire(i2c.log()))
                &&& owed(i2c.log()) is Idle
            },
            StartStage::Repeated(session) => i2c.owns(session@) && session@.phase is Stable,
            StartStage::Settling(session, _) => {
                &&& i2c.owns(session@)
                &&& session@.phase is StartPending
                &&& session@.phase->StartPending_after == SessionPhase::start_shape(self.action.reads())
            },
        }
    }

    /// The deadline of a queued START.
    pub open spec fn end(self) -> Option<u64> {
        match self.stage {
            StartStage::Settling(_, end) => Some(end),
            _ => None,
        }
    }

    /// What bounds a turn of the operation: the deadline of its queued START,
    /// or the time of a START that the turn itself queues.
    pub open spec fn limit(self, budget: u64) -> Limit {
        match self.end() {
            Some(end) => Limit::Until(end),
            None => Limit::Within(budget),
        }
    }

    /// A recovery from here may have to clock a byte in: only where a read is
    /// open or was asked for.
    pub open spec fn may_clock(self) -> bool {
        match self.stage {
            StartStage::Fresh(_) => self.action.reads(),
            StartStage::Repeated(session) => session@.phase.clocks() || self.action.reads(),
            StartStage::Settling(session, _) => session@.phase.clocks(),
        }
    }

    pub open spec fn word(self) -> Mtdr {
        start_word(self.action.target(), self.action.reads())
    }

    /// What the operation waits for at `log`: room for its command, and then
    /// its settling, for what is left of its time. A look behind `before`
    /// found just that missing.
    pub open spec fn waits_for(self, wait: Wait, before: Seq<Access>, log: Seq<Access>, timeout: u64) -> bool {
        match self.end() {
            None => wait == Wait::TxRoom(timeout) && found_full_behind(before, log),
            Some(end) => {
                &&& unmet_behind(before, log)
                &&& last_is(log, ControllerCommand::Start)
                &&& log.last() is Now
                &&& log.last()->Now_0 < end
                &&& wait == Wait::TxSettle((end - log.last()->Now_0) as u64)
            },
        }
    }
}

/// The one command that a turn queued, or nothing.
pub open spec fn one_word(queued: bool, word: Mtdr) -> Seq<Mtdr> {
    if queued {
        seq![word]
    } else {
        Seq::empty()
    }
}

pub proof fn lemma_one_word(before: Seq<Access>, after: Seq<Access>, word: Mtdr, queued: bool)
    requires
        enqueue_ran(
            before,
            after,
            word,
            if queued {
                CommandStep::Queued
            } else {
                CommandStep::Full
            },
        ),
    ensures
        moved(before, after, one_word(queued, word), Seq::empty()),
{
    assert(commands(after) =~= commands(before) + one_word(queued, word));
    assert(received(after) =~= received(before) + Seq::<u8>::empty());
}

pub proof fn lemma_then_looked(a: Seq<Access>, b: Seq<Access>, c: Seq<Access>, words: Seq<Mtdr>, bytes: Seq<u8>)
    requires
        moved(a, b, words, bytes),
        looked(b, c),
    ensures
        moved(a, c, words, bytes),
{
}

impl<H: ControllerPort> I2c<H> {
    /// Gives an open transaction up.
    pub fn cancel(&mut self, open: Session)
        requires
            old(self).keeps(open@),
        ensures
            final(self).same_setup(old(self)),
            final(self).idle(),
            recovered(old(self).log(), final(self).log(), open@.phase.clocks()),
    {
        open.abandon(&mut self.regs, &mut self.info);
    }

    /// Arms the interrupts of a wait and reports whether it is over, as one
    /// operation. Pauses have nothing to arm, and DMA transfers are polled by
    /// their own steps.
    pub fn wake(&mut self, wait: Wait) -> (r: bool)
        ensures
            final(self).same_setup(old(self)),
            final(self).session_open() == old(self).session_open(),
            looked(old(self).log(), final(self).log()),
            !(wait is Rx) || owed(old(self).log()) is Live ==> kept_waiting(old(self).log(), final(self).log()),
            match wait {
                Wait::TxRoom(_) => {
                    let armed = old(self).log().push(Access::WriteMier(Mier::transmit()));
                    ||| r && exists|step: TxStep| #[trigger] tx_room_step_ran(armed, final(self).log(), Some(step))
                    ||| !r && tx_room_step_ran(armed, final(self).log(), None)
                },
                Wait::TxSettle(_) => tx_settled_ran(
                    old(self).log().push(Access::WriteMier(Mier::transmit())),
                    final(self).log(),
                    r,
                ),
                Wait::Rx(_) => rx_ready_ran(
                    old(self).log().push(Access::WriteMier(Mier::receive())),
                    final(self).log(),
                    r,
                ),
                _ => r && final(self).log() == old(self).log(),
            },
    {
        match wait {
            Wait::TxRoom(_) => self.regs.tx_room_wake(),
            Wait::TxSettle(_) => self.regs.tx_settle_wake(),
            Wait::Rx(_) => self.regs.rx_wake(),
            _ => true,
        }
    }

    /// Reserves a fresh transaction.
    pub fn begin_start(&mut self, address: u8, read: bool) -> (r: Result<StartOp, IOError>)
        requires
            old(self).idle(),
        ensures
            final(self).same_setup(old(self)),
            final(self).log() == old(self).log(),
            match r {
                Ok(op) => {
                    &&& address < 0x80
                    &&& op.fits(final(self))
                    &&& op.unqueued()
                    &&& op.word() == start_word(address, read)
                    &&& op.action.reads() == read
                    &&& op.may_clock() == read
                },
                Err(e) => {
                    &&& address >= 0x80
                    &&& e == IOError::AddressOutOfRange(address)
                    &&& final(self).idle()
                },
            },
    {
        match StartAction::new(address, read) {
            None => Err(IOError::AddressOutOfRange(address)),
            Some(action) => {
                let reservation = StartReservation::acquire(&self.regs, &mut self.info);
                Ok(StartOp { action, stage: StartStage::Fresh(reservation) })
            },
        }
    }

    /// Prepares a repeated START on an open transaction. A rejected address
    /// recovers it.
    pub fn begin_repeated_start(&mut self, address: u8, read: bool, open: Session) -> (r: Result<StartOp, IOError>)
        requires
            old(self).owns(open@),
            open@.phase is Stable,
        ensures
            final(self).same_setup(old(self)),
            match r {
                Ok(op) => {
                    &&& address < 0x80
                    &&& op.fits(final(self))
                    &&& op.unqueued()
                    &&& op.word() == start_word(address, read)
                    &&& op.action.reads() == read
                    &&& op.may_clock() == (open@.phase.clocks() || read)
                    &&& final(self).log() == old(self).log()
                },
                Err(e) => {
                    &&& address >= 0x80
                    &&& e == IOError::AddressOutOfRange(address)
                    &&& final(self).idle()
                    &&& recovered(old(self).log(), final(self).log(), open@.phase.clocks())
                },
            },
    {
        match StartAction::new(address, read) {
            None => {
                self.cancel(open);
                Err(IOError::AddressOutOfRange(address))
            },
            Some(action) => Ok(StartOp { action, stage: StartStage::Repeated(open) }),
        }
    }

    /// One look at a queued START: drained without a fault, it takes the final
    /// status; pending, it waits for what is left of its time.
    #[verifier::rlimit(80)]
    fn settle_turn(&mut self, action: StartAction, open: Session, end: u64) -> (r: Turn<
        StartOp,
        Result<Session, IOError>,
    >)
        requires
            action.target() < 0x80,
            old(self).owns(open@),
            open@.phase is StartPending,
            open@.phase->StartPending_after == SessionPhase::start_shape(action.reads()),
        ensures
            final(self).same_setup(old(self)),
            match r {
                Turn::Wait(next, wait) => {
                    &&& looked(old(self).log(), final(self).log())
                    &&& unmet_behind(old(self).log(), final(self).log())
                    &&& next.fits(final(self))
                    &&& next.action == action
                    &&& next.end() == Some(end)
                    &&& next.may_clock() == open@.phase.clocks()
                    &&& final(self).log().last() is Now
                    &&& final(self).log().last()->Now_0 < end
                    &&& wait == Wait::TxSettle((end - final(self).log().last()->Now_0) as u64)
                },
                Turn::Done(Ok(next)) => {
                    &&& looked(old(self).log(), final(self).log())
                    &&& ends_settled(final(self).log())
                    &&& final(self).owns(next@)
                    &&& next@.phase == SessionPhase::Stable(SessionPhase::start_shape(action.reads()))
                },
                Turn::Done(Err(e)) => {
                    &&& final(self).idle()
                    &&& found_and_left(
                        old(self).log(),
                        final(self).log(),
                        Limit::Until(end),
                        Seq::empty(),
                        e,
                        open@.phase.clocks(),
                    )
                },
            },
    {
        let ghost entered = self.log();
        let ghost none = Seq::<Mtdr>::empty();
        let ghost pending = open@;
        let mut open = open;
        let step = {
            let permit = open.start_status_permit();
            self.regs.poll_start_drain(&permit)
        };
        let ghost mut seen = self.log();
        let mut found: Option<ControllerStatusError> = None;
        match step {
            StartDrainStep::Pending => {
                let now: u64 = self.regs.now();
                if now >= end {
                    let ghost log = self.log();
                    self.cancel(open);
                    proof {
                        lemma_partway_nothing(entered, log, none);
                        lemma_turn_aborted(
                            entered,
                            log,
                            self.log(),
                            Limit::Until(end),
                            none,
                            IOError::Timeout,
                            pending.phase.clocks(),
                            pending.phase.clocks(),
                        );
                    }
                    return Turn::Done(Err(IOError::Timeout));
                }
                return Turn::Wait(
                    StartOp { action, stage: StartStage::Settling(open, end) },
                    Wait::TxSettle(end - now),
                );
            },
            StartDrainStep::Fault(fault) => {
                found = Some(fault);
            },
            StartDrainStep::Drained => {
                let settled = {
                    let permit = open.start_status_permit();
                    self.regs.finish_start_status(permit)
                };
                proof {
                    assert(looked(seen, self.log()));
                    seen = self.log();
                }
                match settled {
                    Ok(_) => {
                        return Turn::Done(Ok(open));
                    },
                    Err(fault) => {
                        found = Some(fault);
                    },
                }
            },
        }
        let fault = found.unwrap();
        let error = open.bind_fault(&mut self.regs, fault);
        let ghost log = self.log();
        proof {
            lemma_bound_faulted(seen, log, pending, open@, fault, error);
        }
        self.cancel(open);
        proof {
            lemma_partway_nothing(entered, log, none);
            lemma_turn_aborted(
                entered,
                log,
                self.log(),
                Limit::Until(end),
                none,
                error,
                open@.phase.clocks(),
                pending.phase.clocks(),
            );
        }
        Turn::Done(Err(error))
    }

    /// One turn of a START: queues the command, waits for room where the FIFO
    /// is full, and then drives it until its status has settled.
    ///
    /// Before the command is queued no session exists for a fresh start, so
    /// every failure recovers with the general close; from then on the
    /// session owns the recovery.
    #[verifier::rlimit(100)]
    pub fn start_turn(&mut self, op: StartOp, waited: Option<WaitOutcome>) -> (r: Turn<
        StartOp,
        Result<Session, IOError>,
    >)
        requires
            op.fits(old(self)),
        ensures
            final(self).same_setup(old(self)),
            match r {
                Turn::Wait(next, wait) => {
                    &&& next.fits(final(self))
                    &&& next.action == op.action
                    &&& (next.may_clock() ==> op.may_clock())
                    &&& (next.unqueued() ==> op.unqueued())
                    &&& on_time(
                        old(self).log(),
                        final(self).log(),
                        old(self).budget(),
                        op.end(),
                        next.end(),
                    )
                    &&& next.waits_for(wait, old(self).log(), final(self).log(), old(self).budget())
                    &&& wait_error(waited, IOError::Other) is None
                    &&& moved(
                        old(self).log(),
                        final(self).log(),
                        one_word(op.unqueued() && !next.unqueued(), op.word()),
                        Seq::empty(),
                    )
                },
                Turn::Done(Ok(open)) => {
                    &&& final(self).owns(open@)
                    &&& open@.phase == SessionPhase::Stable(SessionPhase::start_shape(op.action.reads()))
                    &&& wait_error(waited, IOError::Other) is None
                    &&& moved(
                        old(self).log(),
                        final(self).log(),
                        one_word(op.unqueued(), op.word()),
                        Seq::empty(),
                    )
                    &&& ends_settled(final(self).log())
                },
                Turn::Done(Err(e)) => {
                    &&& final(self).idle()
                    &&& turn_aborted(
                        old(self).log(),
                        final(self).log(),
                        waited,
                        IOError::Other,
                        op.limit(old(self).budget()),
                        one_word(op.unqueued(), op.word()),
                        e,
                        op.may_clock(),
                    )
                },
            },
    {
        let ghost entered = self.log();
        let action = op.action;
        let ghost limit = op.limit(self.budget());
        let ghost may_clock = op.may_clock();
        let ghost all = one_word(op.unqueued(), op.word());
        let ghost none = Seq::<Mtdr>::empty();
        if let Some(error) = failed_wait(waited, IOError::Other) {
            self.cancel_start(op);
            return Turn::Done(Err(error));
        }
        let queued = match op.stage {
            StartStage::Settling(open, end) => {
                let r = self.settle_turn(action, open, end);
                proof {
                    if !(r matches Turn::Done(Err(_))) {
                        lemma_moved_nothing(entered, self.log());
                    }
                }
                return r;
            },
            StartStage::Fresh(reservation) => {
                let mut reservation = reservation;
                let step = {
                    let permit = reservation.start_transition_permit();
                    self.regs.try_enqueue_start(permit, action)
                };
                let ghost seen = self.log();
                match step {
                    CommandStep::Fault(fault) => {
                        let error = recover_before_session_fault(&mut self.regs, self.timeout, fault);
                        reservation.release(&mut self.info);
                        proof {
                            lemma_partway_nothing(entered, seen, all);
                            lemma_turn_aborted(entered, seen, self.log(), limit, all, error, false, may_clock);
                        }
                        return Turn::Done(Err(error));
                    },
                    CommandStep::Full => {
                        proof {
                            lemma_one_word(entered, seen, op.word(), false);
                        }
                        return Turn::Wait(
                            StartOp { action, stage: StartStage::Fresh(reservation) },
                            Wait::TxRoom(self.timeout),
                        );
                    },
                    CommandStep::Queued => reservation.into_pending_session(self.timeout),
                }
            },
            StartStage::Repeated(open) => {
                let mut open = open;
                match self.try_enqueue_start_session(action, &mut open) {
                    Err(error) => {
                        let ghost log = self.log();
                        self.cancel(open);
                        proof {
                            lemma_failed_look(entered, log, self.budget(), limit, none, all, error);
                            lemma_turn_aborted(
                                entered,
                                log,
                                self.log(),
                                limit,
                                all,
                                error,
                                open@.phase.clocks(),
                                may_clock,
                            );
                        }
                        return Turn::Done(Err(error));
                    },
                    Ok(queued) => {
                        proof {
                            lemma_one_word(entered, self.log(), op.word(), queued);
                        }
                        if !queued {
                            return Turn::Wait(
                                StartOp { action, stage: StartStage::Repeated(open) },
                                Wait::TxRoom(self.timeout),
                            );
                        }
                        open
                    },
                }
            },
        };
        let ghost pushed = self.log();
        proof {
            lemma_one_word(entered, pushed, op.word(), true);
            assert(wire(pushed).drop_last() =~= wire(entered));
        }
        let start: u64 = self.regs.now();
        let until: u64 = deadline_after(start, self.timeout);
        let ghost ready = self.log();
        let r = self.settle_turn(action, queued, until);
        proof {
            assert(tick_read(entered, ready, start));
            assert(due(entered, ready, self.budget(), until));
            match r {
                Turn::Done(Err(e)) => {
                    let log = choose|log: Seq<Access>| #[trigger]
                        turn_failed(ready, log, Limit::Until(until), none, e) && recovered(
                            log,
                            self.log(),
                            queued@.phase.clocks(),
                        );
                    lemma_due(entered, ready, log, self.budget(), until);
                    assert(all + none =~= all);
                    lemma_partway_earlier(entered, ready, log, all, none, all);
                    lemma_turn_aborted(entered, log, self.log(), limit, all, e, queued@.phase.clocks(), may_clock);
                },
                _ => {
                    lemma_due(entered, ready, self.log(), self.budget(), until);
                    lemma_then_looked(entered, pushed, self.log(), one_word(true, op.word()), Seq::empty());
                },
            }
        }
        r
    }

    /// Gives a START up. With no command queued for a fresh transaction the
    /// recovery is the general one; otherwise the session's own.
    pub fn cancel_start(&mut self, op: StartOp)
        requires
            op.fits(old(self)),
        ensures
            final(self).same_setup(old(self)),
            final(self).idle(),
            recovered(old(self).log(), final(self).log(), op.may_clock()),
    {
        let ghost entered = self.log();
        match op.stage {
            StartStage::Fresh(reservation) => {
                remediate_before_session(&mut self.regs, self.timeout);
                reservation.release(&mut self.info);
                proof {
                    lemma_recovered_weaken(entered, self.log(), false, op.may_clock());
                }
            },
            StartStage::Repeated(open) | StartStage::Settling(open, _) => {
                self.cancel(open);
                proof {
                    lemma_recovered_weaken(entered, self.log(), open@.phase.clocks(), op.may_clock());
                }
            },
        }
    }
}

/// How often a completing STOP is looked at before the wait backs off to the
/// timer.
pub const STOP_YIELDS: u32 = 64;

/// How long one back-off of a completing STOP lasts at most, in microseconds.
pub const STOP_BACKOFF_MICROS: u64 = 100;

/// A STOP in progress. From the moment it is queued every value of it owns
/// the session that is being closed.
pub enum StopOp {
    /// The STOP is not queued yet.
    Unqueued(Session),
    /// The STOP is queued and has until the given tick.
    Pulling(StopWait, u64),
    /// The STOP left the FIFO; the line is being watched, for the given number
    /// of looks so far.
    Completing(StopWait, u64, u32),
}

impl StopOp {
    pub open spec fn session(self) -> SessionView {
        match self {
            StopOp::Unqueued(session) => session@,
            StopOp::Pulling(stop, _) => stop@,
            StopOp::Completing(stop, _, _) => stop@,
        }
    }

    /// The operation belongs to the transaction that is open on `i2c`.
    pub open spec fn fits<H>(self, i2c: &I2c<H>) -> bool {
        &&& i2c.owns(self.session())
        &&& if self is Unqueued {
            self.session().phase.closable()
        } else {
            self.session().phase is StopPending && !self.session().phase.clocks()
        }
    }

    /// The deadline of a queued STOP.
    pub open spec fn end(self) -> Option<u64> {
        match self {
            StopOp::Unqueued(_) => None,
            StopOp::Pulling(_, end) => Some(end),
            StopOp::Completing(_, end, _) => Some(end),
        }
    }

    /// What bounds a turn of the operation: the deadline of its queued STOP.
    /// A turn that queues the STOP only fixes that deadline.
    pub open spec fn limit(self) -> Limit {
        match self.end() {
            Some(end) => Limit::Until(end),
            None => Limit::Untimed,
        }
    }

    /// What the operation waits for at `log`: room for its command, its way
    /// out of the FIFO, and then short pauses that do not reach past its
    /// deadline. A look behind `before` found the room or the completion
    /// missing, or the command was queued there.
    pub open spec fn waits_for(self, wait: Wait, before: Seq<Access>, log: Seq<Access>, timeout: u64) -> bool {
        match self {
            StopOp::Unqueued(_) => wait == Wait::TxRoom(timeout) && found_full_behind(before, log),
            StopOp::Pulling(_, _) => {
                &&& wait == Wait::TxSettle(timeout)
                &&& before.len() + 2 <= log.len()
                &&& log[log.len() - 2] == Access::WriteMtdr(stop_word())
            },
            StopOp::Completing(_, end, _) => {
                &&& unmet_behind(before, log)
                &&& last_is(log, ControllerCommand::Stop)
                &&& log.last() is Now
                &&& log.last()->Now_0 <= end
                &&& match wait {
                    Wait::Yield => true,
                    Wait::Sleep(ticks) => 0 < ticks <= STOP_BACKOFF_MICROS && ticks <= end - log.last()->Now_0,
                    _ => false,
                }
            },
        }
    }

    /// What a turn that ended at `log` waits for, where it went on from
    /// `self` to `next`.
    pub open spec fn waits(self, next: StopOp, log: Seq<Access>, timeout: u64) -> Wait {
        match next {
            StopOp::Unqueued(_) => Wait::TxRoom(timeout),
            StopOp::Pulling(_, _) => Wait::TxSettle(timeout),
            StopOp::Completing(_, end, _) => {
                let looks: u32 = if self is Completing {
                    self->Completing_2
                } else {
                    0
                };
                let left = end - log.last()->Now_0;
                if looks < STOP_YIELDS {
                    Wait::Yield
                } else {
                    Wait::Sleep(
                        if left < STOP_BACKOFF_MICROS {
                            left as u64
                        } else {
                            STOP_BACKOFF_MICROS
                        },
                    )
                }
            },
        }
    }
}

impl<H: ControllerPort> I2c<H> {
    /// One look at a queued STOP.
    #[verifier::rlimit(80)]
    fn completing_turn(&mut self, stop: StopWait, end: u64, looks: u32) -> (r: Turn<StopOp, Result<(), IOError>>)
        requires
            old(self).owns(stop@),
            stop@.phase is StopPending,
            !stop@.phase.clocks(),
        ensures
            final(self).same_setup(old(self)),
            match r {
                Turn::Wait(next, wait) => {
                    &&& next.fits(final(self))
                    &&& next is Completing
                    &&& next.end() == Some(end)
                    &&& looked(old(self).log(), final(self).log())
                    &&& final(self).log().last() is Now
                    &&& final(self).log().last()->Now_0 <= end
                    &&& wait == StopOp::Completing(stop, end, looks).waits(
                        next,
                        final(self).log(),
                        old(self).budget(),
                    )
                    &&& next.waits_for(wait, old(self).log(), final(self).log(), old(self).budget())
                    &&& next->Completing_2 == (if looks < STOP_YIELDS {
                        (looks + 1) as u32
                    } else {
                        looks
                    })
                },
                Turn::Done(Ok(_)) => {
                    &&& final(self).idle()
                    &&& looked(old(self).log(), final(self).log())
                    &&& ends_completed(final(self).log())
                },
                Turn::Done(Err(e)) => {
                    &&& final(self).idle()
                    &&& found_and_left(
                        old(self).log(),
                        final(self).log(),
                        Limit::Until(end),
                        Seq::empty(),
                        e,
                        false,
                    )
                },
            },
    {
        let ghost entered = self.log();
        let ghost none = Seq::<Mtdr>::empty();
        let ghost pending = stop@;
        let (session, error) = match self.regs.stop_step(stop) {
            StopStep::Completed(completed) => {
                assert(looked(entered, self.log()));
                match self.regs.finish_stop(completed) {
                    Ok(finalized) => {
                        finalized.defuse(&mut self.info);
                        return Turn::Done(Ok(()));
                    },
                    Err(fault) => {
                        let ghost seen = self.log();
                        let (session, error) = fault.into_error(&mut self.regs);
                        proof {
                            lemma_bound_faulted(seen, self.log(), pending, session@, fault.fault(), error);
                            assert(looked(entered, seen));
                        }
                        (session, error)
                    },
                }
            },
            StopStep::Fault(fault) => {
                let ghost seen = self.log();
                let (session, error) = fault.into_error(&mut self.regs);
                proof {
                    lemma_bound_faulted(seen, self.log(), pending, session@, fault.fault(), error);
                    assert(looked(entered, seen));
                }
                (session, error)
            },
            StopStep::Pending(next) => {
                assert(looked(entered, self.log()));
                let now: u64 = self.regs.now();
                if now <= end && looks < STOP_YIELDS {
                    return Turn::Wait(StopOp::Completing(next, end, looks + 1), Wait::Yield);
                }
                if now <= end {
                    let again: u64 = self.regs.now();
                    if again < end {
                        let left: u64 = end - again;
                        let step: u64 = ticks_from_micros(STOP_BACKOFF_MICROS);
                        return Turn::Wait(
                            StopOp::Completing(next, end, looks),
                            Wait::Sleep(
                                if left < step {
                                    left
                                } else {
                                    step
                                },
                            ),
                        );
                    }
                }
                let ghost log = self.log();
                self.cancel(next.into_session());
                proof {
                    lemma_partway_nothing(entered, log, none);
                    lemma_turn_aborted(
                        entered,
                        log,
                        self.log(),
                        Limit::Until(end),
                        none,
                        IOError::Timeout,
                        false,
                        false,
                    );
                }
                return Turn::Done(Err(IOError::Timeout));
            },
        };
        let ghost log = self.log();
        self.cancel(session);
        proof {
            lemma_partway_nothing(entered, log, none);
            lemma_turn_aborted(
                entered,
                log,
                self.log(),
                Limit::Until(end),
                none,
                error,
                session@.phase.clocks(),
                false,
            );
        }
        Turn::Done(Err(error))
    }

    /// One turn of a STOP: queues it, waits until it left the FIFO, and then
    /// watches it to its physical end. The session stays live across every
    /// wait, so that an error recovers exactly once.
    #[verifier::rlimit(80)]
    pub fn stop_turn(&mut self, op: StopOp, waited: Option<WaitOutcome>) -> (r: Turn<StopOp, Result<(), IOError>>)
        requires
            op.fits(old(self)),
        ensures
            final(self).same_setup(old(self)),
            match r {
                Turn::Wait(next, wait) => {
                    &&& next.fits(final(self))
                    &&& (op is Unqueued ==> !(next is Completing))
                    &&& (!(op is Unqueued) ==> next is Completing && next.end() == op.end())
                    &&& on_time(
                        old(self).log(),
                        final(self).log(),
                        old(self).budget(),
                        op.end(),
                        next.end(),
                    )
                    &&& wait == op.waits(next, final(self).log(), old(self).budget())
                    &&& next.waits_for(wait, old(self).log(), final(self).log(), old(self).budget())
                    &&& wait_error(waited, IOError::Other) is None
                    &&& moved(
                        old(self).log(),
                        final(self).log(),
                        one_word(op is Unqueued && !(next is Unqueued), stop_word()),
                        Seq::empty(),
                    )
                },
                Turn::Done(Ok(_)) => {
                    &&& !(op is Unqueued)
                    &&& final(self).idle()
                    &&& wait_error(waited, IOError::Other) is None
                    &&& looked(old(self).log(), final(self).log())
                    &&& ends_completed(final(self).log())
                },
                Turn::Done(Err(e)) => {
                    &&& final(self).idle()
                    &&& turn_aborted(
                        old(self).log(),
                        final(self).log(),
                        waited,
                        IOError::Other,
                        op.limit(),
                        one_word(op is Unqueued, stop_word()),
                        e,
                        false,
                    )
                },
            },
    {
        let ghost entered = self.log();
        if let Some(error) = failed_wait(waited, IOError::Other) {
            self.cancel_stop(op);
            return Turn::Done(Err(error));
        }
        match op {
            StopOp::Unqueued(open) => {
                let mut open = open;
                match self.try_enqueue_stop_session(StopAction::new(), &mut open) {
                    Err(error) => {
                        let ghost log = self.log();
                        self.cancel(open);
                        proof {
                            let all = seq![stop_word()];
                            lemma_failed_look(
                                entered,
                                log,
                                self.budget(),
                                Limit::Untimed,
                                Seq::empty(),
                                all,
                                error,
                            );
                            lemma_turn_aborted(
                                entered,
                                log,
                                self.log(),
                                Limit::Untimed,
                                all,
                                error,
                                open@.phase.clocks(),
                                false,
                            );
                        }
                        Turn::Done(Err(error))
                    },
                    Ok(queued) => {
                        let ghost pushed = self.log();
                        proof {
                            lemma_one_word(entered, pushed, stop_word(), queued);
                        }
                        if !queued {
                            return Turn::Wait(StopOp::Unqueued(open), Wait::TxRoom(self.timeout));
                        }
                        let stop = open.into_stop_wait();
                        let start: u64 = self.regs.now();
                        let end: u64 = deadline_after(start, self.timeout);
                        proof {
                            assert(tick_read(entered, self.log(), start));
                            assert(due(entered, self.log(), self.budget(), end));
                        }
                        Turn::Wait(StopOp::Pulling(stop, end), Wait::TxSettle(self.timeout))
                    },
                }
            },
            StopOp::Pulling(stop, end) => {
                let r = self.completing_turn(stop, end, 0);
                proof {
                    if !(r matches Turn::Done(Err(_))) {
                        lemma_moved_nothing(entered, self.log());
                    }
                }
                r
            },
            StopOp::Completing(stop, end, looks) => {
                let r = self.completing_turn(stop, end, looks);
                proof {
                    if !(r matches Turn::Done(Err(_))) {
                        lemma_moved_nothing(entered, self.log());
                    }
                }
                r
            },
        }
    }

    /// Gives a STOP up: the session that is being closed recovers.
    pub fn cancel_stop(&mut self, op: StopOp)
        requires
            op.fits(old(self)),
        ensures
            final(self).same_setup(old(self)),
            final(self).idle(),
            recovered(old(self).log(), final(self).log(), false),
    {
        match op {
            StopOp::Unqueued(open) => self.cancel(open),
            StopOp::Pulling(stop, _) | StopOp::Completing(stop, _, _) => self.cancel(stop.into_session()),
        }
    }
}

} // verus!
