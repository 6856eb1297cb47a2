//! Whole reads and writes of the interrupt-driven controller, from their
//! START to the open transaction that a STOP or a repeated START follows.

use vstd::prelude::*;

use crate::answers::owed;
use crate::controller::{I2c, IOError};
use crate::controller::asynch::{
    found_and_left, lemma_found_earlier, lemma_on_time, limit_of_step, on_time, one_word, turn_aborted, turn_failed,
    wait_error, Limit, StartOp, StopOp, Turn, Wait,
};
use crate::controller::blocking::{
    chunked_commands, commands_for, read_commands, read_opened, whole_chunks, write_commands,
};
use crate::controller::stream::{cleared_first, receive_aborted, Receiving, Sending};
use crate::controller_registers::{receive_word, rx_step_ran, start_word, stop_word};
use crate::lpi2c_regs::{Access, ControllerPort};
use crate::session::{recovered, Abort, Session, SessionPhase};
use crate::trace::{commands, extends, recoveries, wire};
use crate::transfer::{
    begins, cut_short, last_is, lemma_cut_earlier, lemma_cut_recovers, lemma_moved, lemma_moved_nothing,
    lemma_partway_earlier, lemma_partway_nothing, lemma_popped_later, lemma_recovered_weaken, looked, moved,
    nothing_behind, popped_behind, read_done, read_retried, receive_commands, retryable, seamed_commands, steady,
    transmit_commands, write_opened,
};
use crate::wait::WaitOutcome;
use crate::words::{ControllerCommand, Mtdr};

verus! {

broadcast use {
    crate::answers::lemma_owed_push,
    crate::trace::group_bounded,
    crate::trace::group_trace,
    crate::transfer::group_wire,
    crate::session::lemma_recovered_wire,
};

/// Where the attempts of a read began.
pub ghost struct Attempts {
    /// The history before the first START.
    pub from: Seq<Access>,
    /// The history up to the first settled START.
    pub opened: Seq<Access>,
    /// The history up to the recovery of the first attempt.
    pub retry: Seq<Access>,
}

/// Where a read stands.
pub enum ReadStage {
    /// The START of the one transaction that serves the whole read.
    Starting(StartOp),
    /// Its data.
    Chained(Receiving),
    /// The START of the chunk that begins at the given byte.
    Restarting(StartOp, usize),
    /// The data of one chunk.
    Chunk(Receiving),
    /// The STOP behind the chunk that ended at the given byte.
    Seaming(StopOp, usize),
}

/// A read in progress: one transaction, and where that fails and the caller
/// opted in, a second attempt in transactions of 256 bytes each.
pub struct ReadTxn {
    pub address: u8,
    pub attempts: Ghost<Attempts>,
    pub stage: ReadStage,
}

/// A read in chunks stands at `log`: the bytes before `place` came in, and
/// `rest` are the commands that are still to be queued.
pub open spec fn chunks_done(
    a: Attempts,
    log: Seq<Access>,
    address: u8,
    read: Seq<u8>,
    place: int,
    rest: Seq<Mtdr>,
) -> bool {
    let words = commands(log).skip(commands(a.retry).len() as int);
    &&& moved(a.from, a.opened, seq![start_word(address, true)], Seq::empty())
    &&& cut_short(a.opened, a.retry, receive_commands(read.len()), true)
    &&& moved(a.retry, log, words, read.take(place))
    &&& words + rest == chunked_commands(address, read.len())
}

/// Where the chunk that begins at `place` ends.
pub open spec fn chunk_end(len: int, place: int) -> int {
    if len - place < 256 {
        len
    } else {
        place + 256
    }
}

impl ReadTxn {
    /// The read belongs to what is open on `i2c`.
    pub open spec fn fits<H>(self, i2c: &I2c<H>, read: Seq<u8>) -> bool {
        let a = self.attempts@;
        let start = seq![start_word(self.address, true)];
        let len = read.len();
        &&& self.address < 0x80
        &&& len > 0
        &&& match self.stage {
            ReadStage::Starting(op) => {
                &&& op.fits(i2c)
                &&& op.word() == start_word(self.address, true)
                &&& op.action.reads()
                &&& moved(a.from, i2c.log(), one_word(!op.unqueued(), op.word()), Seq::empty())
            },
            ReadStage::Chained(op) => {
                &&& op.fits(i2c, read)
                &&& op.from == 0
                &&& op.to == len
                &&& moved(a.from, op.begun@, start, Seq::empty())
            },
            ReadStage::Restarting(op, place) => {
                &&& op.fits(i2c)
                &&& op.word() == start_word(self.address, true)
                &&& op.action.reads()
                &&& place < len
                &&& i2c.allows_chunks()
                &&& chunks_done(
                    a,
                    i2c.log(),
                    self.address,
                    read,
                    place as int,
                    one_word(op.unqueued(), op.word()) + seamed_commands(self.address, (len - place) as nat),
                )
            },
            ReadStage::Chunk(op) => {
                &&& op.fits(i2c, read)
                &&& op.to == chunk_end(len as int, op.from as int)
                &&& i2c.allows_chunks()
                &&& chunks_done(
                    a,
                    op.begun@,
                    self.address,
                    read,
                    op.from as int,
                    seamed_commands(self.address, (len - op.from) as nat),
                )
            },
            ReadStage::Seaming(op, place) => {
                &&& op.fits(i2c)
                &&& place < len
                &&& i2c.allows_chunks()
                &&& chunks_done(
                    a,
                    i2c.log(),
                    self.address,
                    read,
                    place as int,
                    one_word(op is Unqueued, stop_word()) + (start + seamed_commands(
                        self.address,
                        (len - place) as nat,
                    )),
                )
            },
        }
    }

    /// The commands that are still to be queued.
    pub open spec fn rest(self, len: nat) -> Seq<Mtdr> {
        let start = seq![start_word(self.address, true)];
        match self.stage {
            ReadStage::Starting(op) => one_word(op.unqueued(), op.word()) + receive_commands(len),
            ReadStage::Chained(op) => op.rest(),
            ReadStage::Restarting(op, place) => one_word(op.unqueued(), op.word()) + seamed_commands(
                self.address,
                (len - place) as nat,
            ),
            ReadStage::Chunk(op) => op.rest() + if op.to < len {
                stop_start(self.address, (len - op.to) as nat)
            } else {
                Seq::empty()
            },
            ReadStage::Seaming(op, place) => one_word(op is Unqueued, stop_word()) + (start + seamed_commands(
                self.address,
                (len - place) as nat,
            )),
        }
    }

    /// The same read, which after a turn from `before` to `after` waits for
    /// this.
    pub open spec fn followed_by(
        self,
        next: ReadTxn,
        wait: Wait,
        before: Seq<Access>,
        after: Seq<Access>,
        timeout: u64,
    ) -> bool {
        &&& next.address == self.address
        &&& next.attempts@.from == self.attempts@.from
        &&& next.waits_for(wait, before, after, timeout)
        &&& extends(before, after)
        &&& on_time(before, after, timeout, self.end(), next.end())
    }

    /// What the read waits for at `log`. Behind `before` its data phase was
    /// opened, a byte came in, or a look found what is waited for missing.
    pub open spec fn waits_for(self, wait: Wait, before: Seq<Access>, log: Seq<Access>, timeout: u64) -> bool {
        match self.stage {
            ReadStage::Starting(op) | ReadStage::Restarting(op, _) => op.waits_for(wait, before, log, timeout),
            ReadStage::Chained(op) | ReadStage::Chunk(op) => {
                &&& wait == Wait::Rx(timeout)
                &&& {
                    ||| before.len() <= op.begun@.len()
                    ||| popped_behind(before, log)
                    ||| nothing_behind(before, log)
                }
            },
            ReadStage::Seaming(op, _) => op.waits_for(wait, before, log, timeout),
        }
    }

    /// How a turn that goes on took the wait that it came with: a closed wait
    /// cell ends the read, and so does a wait that ran out, unless a byte came
    /// in after all or a second attempt is allowed.
    pub open spec fn heeded(
        self,
        next: ReadTxn,
        before: Seq<Access>,
        after: Seq<Access>,
        waited: Option<WaitOutcome>,
        allow_chunks: bool,
    ) -> bool {
        match self.stage {
            ReadStage::Chained(_) | ReadStage::Chunk(_) => {
                &&& waited != Some(WaitOutcome::Closed)
                &&& waited == Some(WaitOutcome::TimedOut) ==> popped_behind(before, after) || (
                self.stage is Chained && !(next.stage is Chained) && allow_chunks)
                &&& self.stage is Chained && !(next.stage is Chained) ==> allow_chunks
            },
            _ => wait_error(waited, IOError::Other) is None,
        }
    }

    /// The deadline of a queued START or STOP.
    pub open spec fn end(self) -> Option<u64> {
        match self.stage {
            ReadStage::Starting(op) | ReadStage::Restarting(op, _) => op.end(),
            ReadStage::Chained(_) | ReadStage::Chunk(_) => None,
            ReadStage::Seaming(op, _) => op.end(),
        }
    }

    /// A read that may be retried failed with an error that calls for it: at
    /// its START, or at its second attempt.
    pub open spec fn failed_twice(
        self,
        before: Seq<Access>,
        after: Seq<Access>,
        waited: Option<WaitOutcome>,
        budget: u64,
        len: nat,
        error: IOError,
    ) -> bool {
        let again = chunked_commands(self.address, len);
        match self.stage {
            ReadStage::Starting(op) => {
                ||| turn_aborted(
                    before,
                    after,
                    waited,
                    IOError::Other,
                    op.limit(budget),
                    one_word(op.unqueued(), op.word()),
                    error,
                    true,
                )
                ||| failed_again(before, after, budget, self.rest(len), again, error)
            },
            ReadStage::Chained(_) => failed_again(before, after, budget, self.rest(len), again, error),
            // These are the second attempt.
            ReadStage::Restarting(_, _) | ReadStage::Chunk(_) | ReadStage::Seaming(_, _) => true,
        }
    }

    /// What one turn of the read made of it, and of the buffer `read`.
    pub open spec fn turned<H>(
        self,
        r: Turn<ReadTxn, Result<Session, IOError>>,
        before: &I2c<H>,
        after: &I2c<H>,
        read: Seq<u8>,
        waited: Option<WaitOutcome>,
    ) -> bool {
        match r {
            Turn::Wait(next, wait) => {
                &&& next.fits(after, read)
                &&& self.followed_by(next, wait, before.log(), after.log(), before.budget())
                &&& self.heeded(next, before.log(), after.log(), waited, before.allows_chunks())
            },
            Turn::Done(Ok(open)) => {
                &&& after.owns(open@)
                &&& open@.phase == SessionPhase::Stable(Abort::ReadStreaming)
                &&& read_opened(self.attempts@.from, after.log(), self.address, read, before.allows_chunks())
            },
            Turn::Done(Err(e)) => {
                &&& after.idle()
                &&& read_turn_aborted(
                    before.log(),
                    after.log(),
                    waited,
                    self.limit(before.budget()),
                    before.budget(),
                    self.rest(read.len()),
                    chunked_commands(self.address, read.len()),
                    e,
                    before.allows_chunks(),
                )
                &&& before.allows_chunks() && retryable(e) ==> self.failed_twice(
                    before.log(),
                    after.log(),
                    waited,
                    before.budget(),
                    read.len(),
                    e,
                )
            },
        }
    }

    /// What bounds the step that a turn begins with.
    pub open spec fn limit(self, budget: u64) -> Limit {
        match self.stage {
            ReadStage::Starting(op) | ReadStage::Restarting(op, _) => op.limit(budget),
            ReadStage::Chained(_) | ReadStage::Chunk(_) => Limit::Untimed,
            ReadStage::Seaming(op, _) => op.limit(),
        }
    }
}

/// How a wait ended, where not waiting counts as a wake.
pub open spec fn outcome(waited: Option<WaitOutcome>) -> WaitOutcome {
    match waited {
        Some(o) => o,
        None => WaitOutcome::Woken,
    }
}

/// One step of a read gave its transaction up.
pub open spec fn step_aborted(
    before: Seq<Access>,
    after: Seq<Access>,
    waited: Option<WaitOutcome>,
    limit: Limit,
    all: Seq<Mtdr>,
    error: IOError,
) -> bool {
    ||| turn_aborted(before, after, waited, IOError::Other, limit, all, error, true)
    ||| receive_aborted(before, after, outcome(waited), all, error, true)
}

/// A turn that began at `before` with the commands `all` left to it came to
/// `attempt`, with `rest` left to it.
pub open spec fn reached(before: Seq<Access>, attempt: Seq<Access>, all: Seq<Mtdr>, rest: Seq<Mtdr>) -> bool {
    let some = commands(attempt).skip(commands(before).len() as int);
    &&& steady(before, attempt)
    &&& recoveries(attempt) == recoveries(before)
    &&& commands(attempt) == commands(before) + some
    &&& begins(all, some + rest)
}

/// A turn came to `attempt` as [`reached`] says, or behind a first attempt
/// that it cut short, with the commands `again` of the second one.
pub open spec fn reached_again(
    before: Seq<Access>,
    attempt: Seq<Access>,
    all: Seq<Mtdr>,
    again: Seq<Mtdr>,
    rest: Seq<Mtdr>,
    allow_chunks: bool,
) -> bool {
    ||| reached(before, attempt, all, rest)
    ||| allow_chunks && exists|retry: Seq<Access>| #[trigger]
        cut_short(before, retry, all, true) && reached(retry, attempt, again, rest)
}

/// A turn of a read failed: at the step that it came with, or, only where the
/// read may be retried, at a later step of the same turn. `given` bounds the
/// step that it came with; `all` are the commands that were left to it, and
/// `again` those of a second attempt.
pub open spec fn read_turn_aborted(
    before: Seq<Access>,
    after: Seq<Access>,
    waited: Option<WaitOutcome>,
    given: Limit,
    budget: u64,
    all: Seq<Mtdr>,
    again: Seq<Mtdr>,
    error: IOError,
    allow_chunks: bool,
) -> bool {
    exists|attempt: Seq<Access>, w: Option<WaitOutcome>, limit: Limit, rest: Seq<Mtdr>|
        {
            &&& #[trigger] step_aborted(attempt, after, w, limit, rest, error)
            &&& limit_of_step(limit, given, budget)
            &&& (w == waited || w is None)
            &&& reached_again(before, attempt, all, again, rest, allow_chunks)
        }
}

/// The data of a first attempt, with the commands `all`, failed to come, and
/// the second one, with the commands `again`, failed too.
pub open spec fn failed_again(
    before: Seq<Access>,
    after: Seq<Access>,
    budget: u64,
    all: Seq<Mtdr>,
    again: Seq<Mtdr>,
    error: IOError,
) -> bool {
    exists|retry: Seq<Access>| #[trigger]
        cut_short(before, retry, all, true) && read_turn_aborted(
            retry,
            after,
            None,
            Limit::Untimed,
            budget,
            again,
            Seq::empty(),
            error,
            false,
        )
}

pub proof fn lemma_reached(
    before: Seq<Access>,
    attempt: Seq<Access>,
    words: Seq<Mtdr>,
    rest: Seq<Mtdr>,
    all: Seq<Mtdr>,
)
    requires
        steady(before, attempt),
        recoveries(attempt) == recoveries(before),
        commands(attempt) == commands(before) + words,
        begins(all, words + rest),
    ensures
        reached(before, attempt, all, rest),
{
    assert(commands(attempt).skip(commands(before).len() as int) =~= words);
}

pub proof fn lemma_reached_here(before: Seq<Access>, all: Seq<Mtdr>, rest: Seq<Mtdr>)
    requires
        begins(all, rest),
    ensures
        reached(before, before, all, rest),
{
    let none = Seq::<Mtdr>::empty();
    assert(commands(before) =~= commands(before) + none);
    assert(none + rest =~= rest);
    lemma_reached(before, before, none, rest, all);
}

pub proof fn lemma_reached_earlier(
    a: Seq<Access>,
    b: Seq<Access>,
    attempt: Seq<Access>,
    words: Seq<Mtdr>,
    later: Seq<Mtdr>,
    all: Seq<Mtdr>,
    rest: Seq<Mtdr>,
)
    requires
        steady(a, b),
        recoveries(b) == recoveries(a),
        commands(b) == commands(a) + words,
        begins(all, words + later),
        reached(b, attempt, later, rest),
    ensures
        reached(a, attempt, all, rest),
{
    let some = commands(attempt).skip(commands(b).len() as int);
    assert(commands(attempt) =~= commands(a) + (words + some));
    assert forall|i: int| 0 <= i < ((words + some) + rest).len() implies #[trigger] ((words + some) + rest)[i]
        == all[i] by {
        assert((words + later)[i] == all[i]);
        if i >= words.len() {
            assert((some + rest)[i - words.len()] == later[i - words.len()]);
        }
    }
    lemma_reached(a, attempt, words + some, rest, all);
}

/// The commands of a chunk begin those of a read in chunks.
proof fn lemma_chunk_begins(address: u8, len: nat, to: nat)
    requires
        0 < to <= len,
        to == chunk_end(len as int, 0),
    ensures
        receive_commands(to).len() == 1,
        seamed_commands(address, len) =~= receive_commands(to) + if to < len {
            stop_start(address, (len - to) as nat)
        } else {
            Seq::empty()
        },
{
    assert(receive_commands(to) =~= seq![receive_word(to)]);
}

/// While bytes come in, the last command is a RECEIVE.
proof fn lemma_receiving(begun: Seq<Access>, log: Seq<Access>, total: int, asked: int, bytes: Seq<u8>)
    requires
        whole_chunks(total, asked),
        moved(begun, log, receive_commands(total as nat).take(commands_for(asked)), bytes),
    ensures
        last_is(log, ControllerCommand::Receive),
{
    let gone = receive_commands(total as nat).take(commands_for(asked));
    assert(gone.last().cmd == ControllerCommand::Receive);
    assert(wire(log) == wire(begun) + gone);
}

proof fn lemma_receive_weaken(
    before: Seq<Access>,
    after: Seq<Access>,
    waited: WaitOutcome,
    all: Seq<Mtdr>,
    error: IOError,
    may_clock: bool,
)
    requires
        receive_aborted(before, after, waited, all, error, may_clock),
        last_is(before, ControllerCommand::Receive),
    ensures
        receive_aborted(before, after, waited, all, error, true),
        cut_short(before, after, all, retryable(error)),
{
    if waited == WaitOutcome::Closed {
        lemma_recovered_weaken(before, after, may_clock, true);
        lemma_partway_nothing(before, before, all);
        assert(steady(before, before));
    } else if error == IOError::Timeout {
        let log = choose|log: Seq<Access>| #[trigger]
            rx_step_ran(before, log, None) && recovered(log, after, may_clock);
        lemma_recovered_weaken(log, after, may_clock, true);
        lemma_partway_nothing(before, log, all);
        assert(steady(before, log));
    } else {
        lemma_found(before, after, Limit::Untimed, all, error, may_clock);
    }
}

proof fn lemma_found(
    before: Seq<Access>,
    after: Seq<Access>,
    limit: Limit,
    all: Seq<Mtdr>,
    error: IOError,
    may_clock: bool,
)
    requires
        found_and_left(before, after, limit, all, error, may_clock),
    ensures
        found_and_left(before, after, limit, all, error, true),
        limit is Untimed ==> cut_short(before, after, all, retryable(error)),
{
    let log = choose|log: Seq<Access>| #[trigger]
        turn_failed(before, log, limit, all, error) && recovered(log, after, may_clock);
    lemma_recovered_weaken(log, after, may_clock, true);
    assert(steady(before, log));
}

pub proof fn lemma_turn_weaken(
    before: Seq<Access>,
    after: Seq<Access>,
    waited: Option<WaitOutcome>,
    closed: IOError,
    limit: Limit,
    all: Seq<Mtdr>,
    error: IOError,
    may_clock: bool,
)
    requires
        turn_aborted(before, after, waited, closed, limit, all, error, may_clock),
    ensures
        turn_aborted(before, after, waited, closed, limit, all, error, true),
{
    if wait_error(waited, closed) is Some {
        lemma_recovered_weaken(before, after, may_clock, true);
    } else {
        lemma_found(before, after, limit, all, error, may_clock);
    }
}

/// A turn that failed with some commands left to it failed with more left.
pub proof fn lemma_turn_longer(
    before: Seq<Access>,
    after: Seq<Access>,
    waited: Option<WaitOutcome>,
    closed: IOError,
    limit: Limit,
    some: Seq<Mtdr>,
    all: Seq<Mtdr>,
    error: IOError,
    may_clock: bool,
)
    requires
        turn_aborted(before, after, waited, closed, limit, some, error, may_clock),
        begins(all, some),
    ensures
        turn_aborted(before, after, waited, closed, limit, all, error, may_clock),
{
    if wait_error(waited, closed) is None {
        let log = choose|log: Seq<Access>| #[trigger]
            turn_failed(before, log, limit, some, error) && recovered(log, after, may_clock);
        let none = Seq::<Mtdr>::empty();
        assert(commands(before) =~= commands(before) + none);
        assert(none + some =~= some);
        lemma_partway_earlier(before, before, log, none, some, all);
        assert(turn_failed(before, log, limit, all, error));
    }
}

/// A read in chunks goes on: `words` were queued and `bytes` came in.
proof fn lemma_chunks_on(
    a: Attempts,
    log: Seq<Access>,
    after: Seq<Access>,
    address: u8,
    read: Seq<u8>,
    next_read: Seq<u8>,
    place: int,
    next_place: int,
    words: Seq<Mtdr>,
    rest: Seq<Mtdr>,
)
    requires
        chunks_done(a, log, address, read, place, words + rest),
        0 <= place <= next_place <= read.len(),
        next_read.len() == read.len(),
        next_read.take(place) == read.take(place),
        moved(log, after, words, next_read.subrange(place, next_place)),
    ensures
        chunks_done(a, after, address, next_read, next_place, rest),
{
    let done = commands(log).skip(commands(a.retry).len() as int);
    let bytes = next_read.subrange(place, next_place);
    lemma_moved(a.retry, log, after, done, words, read.take(place), bytes);
    assert(next_read.take(place) + bytes =~= next_read.take(next_place));
    assert(commands(after).skip(commands(a.retry).len() as int) =~= done + words);
    assert((done + words) + rest =~= done + (words + rest));
}

impl<H: ControllerPort> I2c<H> {
    /// A read request is checked before anything touches the bus.
    pub fn read_preflight(&self, read: &[u8]) -> (r: Result<(), IOError>)
        ensures
            r == (if read@.len() == 0 {
                Err(IOError::InvalidReadBufferLength)
            } else {
                Ok(())
            }),
    {
        if read.len() == 0 {
            return Err(IOError::InvalidReadBufferLength);
        }
        Ok(())
    }

    /// Opens a read on a fresh transaction.
    pub fn begin_read(&mut self, address: u8, read: &[u8]) -> (r: Result<ReadTxn, IOError>)
        requires
            old(self).idle(),
        ensures
            final(self).same_setup(old(self)),
            final(self).log() == old(self).log(),
            match r {
                Ok(op) => {
                    &&& read@.len() > 0
                    &&& address < 0x80
                    &&& op.fits(final(self), read@)
                    &&& op.address == address
                    &&& op.attempts@.from == old(self).log()
                    &&& op.end() is None
                    &&& op.rest(read@.len()) == read_commands(address, read@.len())
                    &&& op.stage matches ReadStage::Starting(start) && start.unqueued()
                },
                Err(e) => {
                    &&& final(self).idle()
                    &&& e == (if read@.len() == 0 {
                        IOError::InvalidReadBufferLength
                    } else {
                        IOError::AddressOutOfRange(address)
                    })
                    &&& (read@.len() == 0 || address >= 0x80)
                },
            },
    {
        match self.read_preflight(read) {
            Err(e) => {
                return Err(e);
            },
            Ok(_) => {},
        }
        let ghost entered = self.log();
        match self.begin_start(address, true) {
            Err(e) => Err(e),
            Ok(op) => {
                proof {
                    lemma_moved_nothing(entered, self.log());
                }
                Ok(
                    ReadTxn {
                        address,
                        attempts: Ghost(Attempts { from: entered, opened: entered, retry: entered }),
                        stage: ReadStage::Starting(op),
                    },
                )
            },
        }
    }

    /// Opens a read on an open transaction, by a repeated START. A rejected
    /// request recovers the open transaction rather than leaving it.
    pub fn begin_read_continue(&mut self, address: u8, read: &[u8], open: Session) -> (r: Result<ReadTxn, IOError>)
        requires
            old(self).owns(open@),
            open@.phase is Stable,
        ensures
            final(self).same_setup(old(self)),
            match r {
                Ok(op) => {
                    &&& read@.len() > 0
                    &&& address < 0x80
                    &&& op.fits(final(self), read@)
                    &&& op.address == address
                    &&& op.attempts@.from == old(self).log()
                    &&& op.end() is None
                    &&& op.rest(read@.len()) == read_commands(address, read@.len())
                    &&& op.stage matches ReadStage::Starting(start) && start.unqueued()
                    &&& final(self).log() == old(self).log()
                },
                Err(e) => {
                    &&& final(self).idle()
                    &&& e == (if read@.len() == 0 {
                        IOError::InvalidReadBufferLength
                    } else {
                        IOError::AddressOutOfRange(address)
                    })
                    &&& (read@.len() == 0 || address >= 0x80)
                    &&& recovered(old(self).log(), final(self).log(), open@.phase.clocks())
                },
            },
    {
        match self.read_preflight(read) {
            Err(e) => {
                self.cancel(open);
                return Err(e);
            },
            Ok(_) => {},
        }
        let ghost entered = self.log();
        match self.begin_repeated_start(address, true, open) {
            Err(e) => Err(e),
            Ok(op) => {
                proof {
                    lemma_moved_nothing(entered, self.log());
                }
                Ok(
                    ReadTxn {
                        address,
                        attempts: Ghost(Attempts { from: entered, opened: entered, retry: entered }),
                        stage: ReadStage::Starting(op),
                    },
                )
            },
        }
    }

    /// One turn of the START of a chunk, and the opening of its data phase.
    #[verifier::rlimit(100)]
    #[verifier::spinoff_prover]
    fn restart_turn(
        &mut self,
        address: u8,
        attempts: Ghost<Attempts>,
        op: StartOp,
        place: usize,
        read: &[u8],
        waited: Option<WaitOutcome>,
    ) -> (r: Turn<ReadTxn, Result<Session, IOError>>)
        requires
            (ReadTxn { address, attempts, stage: ReadStage::Restarting(op, place) }).fits(old(self), read@),
        ensures
            final(self).same_setup(old(self)),
            match r {
                Turn::Wait(next, wait) => {
                    &&& next.fits(final(self), read@)
                    &&& next.address == address
                    &&& next.attempts@.from == attempts@.from
                    &&& !(next.stage is Chained)
                    &&& wait_error(waited, IOError::Other) is None
                    &&& next.waits_for(wait, old(self).log(), final(self).log(), old(self).budget())
                    &&& extends(old(self).log(), final(self).log())
                    &&& on_time(
                        old(self).log(),
                        final(self).log(),
                        old(self).budget(),
                        op.end(),
                        next.end(),
                    )
                    &&& wait_error(waited, IOError::Other) is None
                },
                Turn::Done(Ok(_)) => false,
                Turn::Done(Err(e)) => {
                    &&& final(self).idle()
                    &&& read_turn_aborted(
                        old(self).log(),
                        final(self).log(),
                        waited,
                        op.limit(old(self).budget()),
                        old(self).budget(),
                        one_word(op.unqueued(), op.word()) + seamed_commands(
                            address,
                            (read@.len() - place) as nat,
                        ),
                        Seq::empty(),
                        e,
                        false,
                    )
                },
            },
    {
        let ghost entered = self.log();
        let ghost limit = op.limit(self.budget());
        let ghost word = op.word();
        let ghost rest = seamed_commands(address, (read@.len() - place) as nat);
        let ghost first = op.unqueued();
        let ghost all = one_word(first, word) + rest;
        match self.start_turn(op, waited) {
            Turn::Wait(next, wait) => {
                proof {
                    let words = one_word(first && !next.unqueued(), word);
                    assert(one_word(first, word) + rest =~= words + (one_word(next.unqueued(), word) + rest));
                    assert(read@.subrange(place as int, place as int) =~= Seq::<u8>::empty());
                    lemma_chunks_on(
                        attempts@,
                        entered,
                        self.log(),
                        address,
                        read@,
                        read@,
                        place as int,
                        place as int,
                        words,
                        one_word(next.unqueued(), word) + rest,
                    );
                }
                Turn::Wait(ReadTxn { address, attempts, stage: ReadStage::Restarting(next, place) }, wait)
            },
            Turn::Done(Err(e)) => {
                proof {
                    let one = one_word(first, word);
                    lemma_turn_weaken(entered, self.log(), waited, IOError::Other, limit, one, e, op.may_clock());
                    assert(step_aborted(entered, self.log(), waited, limit, one, e));
                    lemma_reached_here(entered, all, one);
                }
                Turn::Done(Err(e))
            },
            Turn::Done(Ok(open)) => {
                let ghost opened = self.log();
                let total: usize = read.len();
                let to: usize = if total - place < 256 {
                    total
                } else {
                    place + 256
                };
                proof {
                    assert(read@.subrange(place as int, place as int) =~= Seq::<u8>::empty());
                    lemma_chunks_on(
                        attempts@,
                        entered,
                        opened,
                        address,
                        read@,
                        read@,
                        place as int,
                        place as int,
                        one_word(first, word),
                        rest,
                    );
                }
                match self.begin_receiving(open, read, place, to) {
                    Turn::Wait(next, wait) => Turn::Wait(
                        ReadTxn { address, attempts, stage: ReadStage::Chunk(next) },
                        wait,
                    ),
                    Turn::Done(r) => {
                        proof {
                            let e = r->Err_0;
                            let chunk = receive_commands((to - place) as nat);
                            lemma_chunk_begins(address, (read@.len() - place) as nat, (to - place) as nat);
                            lemma_reached(entered, opened, one_word(first, word), chunk, all);
                            assert(step_aborted(opened, self.log(), None, Limit::Untimed, chunk, e));
                        }
                        Turn::Done(r)
                    },
                }
            },
        }
    }

    /// Goes on with the chunk that begins at `place`, on a fresh transaction.
    fn next_chunk(&mut self, address: u8, attempts: Ghost<Attempts>, place: usize, read: &[u8]) -> (r: Turn<
        ReadTxn,
        Result<Session, IOError>,
    >)
        requires
            old(self).idle(),
            old(self).allows_chunks(),
            address < 0x80,
            place < read@.len(),
            chunks_done(
                attempts@,
                old(self).log(),
                address,
                read@,
                place as int,
                seq![start_word(address, true)] + seamed_commands(address, (read@.len() - place) as nat),
            ),
        ensures
            final(self).same_setup(old(self)),
            match r {
                Turn::Wait(next, wait) => {
                    &&& next.fits(final(self), read@)
                    &&& next.address == address
                    &&& next.attempts@.from == attempts@.from
                    &&& !(next.stage is Chained)
                    &&& next.waits_for(wait, old(self).log(), final(self).log(), old(self).budget())
                    &&& extends(old(self).log(), final(self).log())
                    &&& on_time(old(self).log(), final(self).log(), old(self).budget(), None, next.end())
                },
                Turn::Done(Ok(_)) => false,
                Turn::Done(Err(e)) => {
                    &&& final(self).idle()
                    &&& read_turn_aborted(
                        old(self).log(),
                        final(self).log(),
                        None,
                        Limit::Untimed,
                        old(self).budget(),
                        chunked_commands(address, (read@.len() - place) as nat),
                        Seq::empty(),
                        e,
                        false,
                    )
                },
            },
    {
        match self.begin_start(address, true) {
            Err(e) => Turn::Done(Err(e)),
            Ok(op) => self.restart_turn(address, attempts, op, place, read, None),
        }
    }

    /// A first attempt that failed: a second one in chunks, only where the
    /// caller accepted that a half-read device may answer from another place.
    fn after_failed_attempt(
        &mut self,
        address: u8,
        attempts: Ghost<Attempts>,
        error: IOError,
        read: &[u8],
    ) -> (r: Turn<ReadTxn, Result<Session, IOError>>)
        requires
            old(self).idle(),
            address < 0x80,
            read@.len() > 0,
            moved(attempts@.from, attempts@.opened, seq![start_word(address, true)], Seq::empty()),
            cut_short(attempts@.opened, old(self).log(), receive_commands(read@.len()), retryable(error)),
        ensures
            final(self).same_setup(old(self)),
            match r {
                Turn::Wait(next, wait) => {
                    &&& old(self).allows_chunks() && retryable(error)
                    &&& next.fits(final(self), read@)
                    &&& next.address == address
                    &&& next.attempts@.from == attempts@.from
                    &&& !(next.stage is Chained)
                    &&& next.waits_for(wait, old(self).log(), final(self).log(), old(self).budget())
                    &&& extends(old(self).log(), final(self).log())
                    &&& on_time(old(self).log(), final(self).log(), old(self).budget(), None, next.end())
                },
                Turn::Done(Ok(_)) => false,
                Turn::Done(Err(e)) => {
                    &&& final(self).idle()
                    &&& if old(self).allows_chunks() && retryable(error) {
                        read_turn_aborted(
                            old(self).log(),
                            final(self).log(),
                            None,
                            Limit::Untimed,
                            old(self).budget(),
                            chunked_commands(address, read@.len()),
                            Seq::empty(),
                            e,
                            false,
                        )
                    } else {
                        e == error && final(self).log() == old(self).log()
                    }
                },
            },
    {
        if !(self.allow_chunked_reads && (error == IOError::UnexpectedStop || error == IOError::Timeout)) {
            return Turn::Done(Err(error));
        }
        let ghost again = Attempts { retry: self.log(), ..attempts@ };
        proof {
            let none = Seq::<Mtdr>::empty();
            lemma_moved_nothing(self.log(), self.log());
            assert(commands(self.log()).skip(commands(self.log()).len() as int) =~= none);
            assert(read@.take(0) =~= Seq::<u8>::empty());
            assert(none + chunked_commands(address, read@.len()) =~= chunked_commands(address, read@.len()));
        }
        self.next_chunk(address, Ghost(again), 0, read)
    }

    /// One turn of the START of a read, and the opening of its data phase.
    #[verifier::rlimit(100)]
    fn starting_turn(
        &mut self,
        address: u8,
        attempts: Ghost<Attempts>,
        start: StartOp,
        read: &mut [u8],
        waited: Option<WaitOutcome>,
    ) -> (r: Turn<ReadTxn, Result<Session, IOError>>)
        requires
            (ReadTxn { address, attempts, stage: ReadStage::Starting(start) }).fits(old(self), old(read)@),
        ensures
            final(self).same_setup(old(self)),
            final(read)@.len() == old(read)@.len(),
            (ReadTxn { address, attempts, stage: ReadStage::Starting(start) }).turned(
                r,
                old(self),
                final(self),
                final(read)@,
                waited,
            ),
    {
        let ghost op = ReadTxn { address, attempts, stage: ReadStage::Starting(start) };
        let ghost entered = self.log();
        let ghost all = op.rest(read@.len());
        let ghost again = chunked_commands(address, read@.len());
        let ghost limit = op.limit(self.budget());
        let ghost budget = self.budget();
        assert(extends(entered, entered));
        let ghost first = start.unqueued();
        let ghost word = start.word();
        match self.start_turn(start, waited) {
            Turn::Wait(next, wait) => {
                proof {
                    let words = one_word(first && !next.unqueued(), word);
                    lemma_moved(
                        attempts@.from,
                        entered,
                        self.log(),
                        one_word(!first, word),
                        words,
                        Seq::empty(),
                        Seq::empty(),
                    );
                    assert(one_word(!first, word) + words =~= one_word(!next.unqueued(), word));
                    assert(Seq::<u8>::empty() + Seq::<u8>::empty() =~= Seq::<u8>::empty());
                }
                Turn::Wait(ReadTxn { address, attempts, stage: ReadStage::Starting(next) }, wait)
            },
            Turn::Done(Err(e)) => {
                proof {
                    let one = one_word(first, word);
                    lemma_turn_weaken(
                        entered,
                        self.log(),
                        waited,
                        IOError::Other,
                        limit,
                        one,
                        e,
                        start.may_clock(),
                    );
                    lemma_reached_here(entered, all, one);
                    assert(step_aborted(entered, self.log(), waited, limit, one, e));
                }
                Turn::Done(Err(e))
            },
            Turn::Done(Ok(open)) => {
                let ghost opened = self.log();
                proof {
                    lemma_moved(
                        attempts@.from,
                        entered,
                        opened,
                        one_word(!first, word),
                        one_word(first, word),
                        Seq::empty(),
                        Seq::empty(),
                    );
                    assert(one_word(!first, word) + one_word(first, word) =~= seq![word]);
                    assert(Seq::<u8>::empty() + Seq::<u8>::empty() =~= Seq::<u8>::empty());
                }
                let total: usize = read.len();
                match self.begin_receiving(open, read, 0, total) {
                    Turn::Wait(next, wait) => Turn::Wait(
                        ReadTxn { address, attempts, stage: ReadStage::Chained(next) },
                        wait,
                    ),
                    Turn::Done(Ok(open)) => Turn::Done(Ok(open)),
                    Turn::Done(Err(e)) => {
                        let ghost failed_at = self.log();
                        proof {
                            let body = receive_commands(total as nat);
                            let one = one_word(first, word);
                            lemma_found(opened, failed_at, Limit::Untimed, body, e, true);
                            lemma_reached(entered, opened, one, body, all);
                            lemma_cut_earlier(entered, opened, failed_at, one, body, all, retryable(e));
                            assert(step_aborted(opened, failed_at, None, Limit::Untimed, body, e));
                        }
                        let ghost once = Attempts { opened, ..attempts@ };
                        let r = self.after_failed_attempt(address, Ghost(once), e, read);
                        proof {
                            lemma_later_attempt(
                                entered,
                                failed_at,
                                self.log(),
                                waited,
                                limit,
                                budget,
                                all,
                                again,
                                r,
                                e,
                                self.allows_chunks(),
                            );
                        }
                        r
                    },
                }
            },
        }
    }

    /// One turn of the data phase of a first attempt.
    #[verifier::rlimit(100)]
    fn chained_turn(
        &mut self,
        address: u8,
        attempts: Ghost<Attempts>,
        receiving: Receiving,
        read: &mut [u8],
        waited: Option<WaitOutcome>,
    ) -> (r: Turn<ReadTxn, Result<Session, IOError>>)
        requires
            (ReadTxn { address, attempts, stage: ReadStage::Chained(receiving) }).fits(old(self), old(read)@),
        ensures
            final(self).same_setup(old(self)),
            final(read)@.len() == old(read)@.len(),
            (ReadTxn { address, attempts, stage: ReadStage::Chained(receiving) }).turned(
                r,
                old(self),
                final(self),
                final(read)@,
                waited,
            ),
    {
        let ghost op = ReadTxn { address, attempts, stage: ReadStage::Chained(receiving) };
        let ghost entered = self.log();
        let ghost all = op.rest(read@.len());
        let ghost again = chunked_commands(address, read@.len());
        let ghost had = read@;
        let ghost limit = op.limit(self.budget());
        let ghost budget = self.budget();
        assert(extends(entered, entered));
        let ghost clocks = receiving.session@.phase.clocks();
        let ghost begun = receiving.begun@;
        match self.receive_turn(receiving, read, took(waited)) {
            Turn::Wait(next, wait) => Turn::Wait(
                ReadTxn { address, attempts, stage: ReadStage::Chained(next) },
                wait,
            ),
            Turn::Done(Ok(open)) => {
                assert(read@.subrange(0, read@.len() as int) =~= read@);
                assert(read_done(begun, self.log(), address, read@, self.allows_chunks()));
                Turn::Done(Ok(open))
            },
            Turn::Done(Err(e)) => {
                let ghost failed_at = self.log();
                proof {
                    let body = receive_commands(read@.len());
                    let gone = body.take(commands_for(receiving.asked as int));
                    assert(gone + all =~= body);
                    let bytes = had.subrange(receiving.from as int, receiving.place as int);
                    lemma_receiving(begun, entered, receiving.total(), receiving.asked as int, bytes);
                    lemma_receive_weaken(entered, failed_at, outcome(waited), all, e, clocks);
                    lemma_cut_earlier(begun, entered, failed_at, gone, all, body, retryable(e));
                    lemma_reached_here(entered, all, all);
                    assert(step_aborted(entered, failed_at, waited, Limit::Untimed, all, e));
                }
                let ghost once = Attempts { opened: begun, ..attempts@ };
                let r = self.after_failed_attempt(address, Ghost(once), e, read);
                proof {
                    lemma_later_attempt(
                        entered,
                        failed_at,
                        self.log(),
                        waited,
                        limit,
                        budget,
                        all,
                        again,
                        r,
                        e,
                        self.allows_chunks(),
                    );
                }
                r
            },
        }
    }

    /// One turn of the data phase of a chunk, and the beginning of its STOP.
    #[verifier::rlimit(100)]
    fn chunk_turn(
        &mut self,
        address: u8,
        attempts: Ghost<Attempts>,
        receiving: Receiving,
        read: &mut [u8],
        waited: Option<WaitOutcome>,
    ) -> (r: Turn<ReadTxn, Result<Session, IOError>>)
        requires
            (ReadTxn { address, attempts, stage: ReadStage::Chunk(receiving) }).fits(old(self), old(read)@),
        ensures
            final(self).same_setup(old(self)),
            final(read)@.len() == old(read)@.len(),
            (ReadTxn { address, attempts, stage: ReadStage::Chunk(receiving) }).turned(
                r,
                old(self),
                final(self),
                final(read)@,
                waited,
            ),
    {
        let ghost op = ReadTxn { address, attempts, stage: ReadStage::Chunk(receiving) };
        let ghost entered = self.log();
        let ghost all = op.rest(read@.len());
        let ghost had = read@;
        let ghost budget = self.budget();
        assert(extends(entered, entered));
        let ghost clocks = receiving.session@.phase.clocks();
        let ghost begun = receiving.begun@;
        let from: usize = receiving.from;
        let to: usize = receiving.to;
        let ghost rest = seamed_commands(address, (read@.len() - from) as nat);
        match self.receive_turn(receiving, read, took(waited)) {
            Turn::Wait(next, wait) => {
                assert(read@.take(from as int) =~= had.take(from as int));
                Turn::Wait(ReadTxn { address, attempts, stage: ReadStage::Chunk(next) }, wait)
            },
            Turn::Done(Err(e)) => {
                proof {
                    let left = receiving.rest();
                    let bytes = had.subrange(receiving.from as int, receiving.place as int);
                    lemma_receiving(begun, entered, receiving.total(), receiving.asked as int, bytes);
                    lemma_receive_weaken(entered, self.log(), outcome(waited), left, e, clocks);
                    lemma_reached_here(entered, all, left);
                    assert(step_aborted(entered, self.log(), waited, Limit::Untimed, left, e));
                }
                Turn::Done(Err(e))
            },
            Turn::Done(Ok(open)) => {
                let ghost drained = self.log();
                let ghost one = seq![receive_word((to - from) as nat)];
                let ghost tail = stop_start(address, (read@.len() - to) as nat);
                proof {
                    assert(read@.take(from as int) =~= had.take(from as int));
                    let all = receive_commands((to - from) as nat);
                    let words = commands(drained).skip(commands(begun).len() as int);
                    assert(all.len() == 1);
                    assert(words =~= one);
                    if to < read@.len() {
                        assert(rest =~= one + tail);
                    } else {
                        assert(rest =~= one + Seq::<Mtdr>::empty());
                    }
                    lemma_chunks_on(
                        attempts@,
                        begun,
                        drained,
                        address,
                        had,
                        read@,
                        from as int,
                        to as int,
                        one,
                        if to < read@.len() {
                            tail
                        } else {
                            Seq::empty()
                        },
                    );
                }
                if to == read.len() {
                    proof {
                        let a = attempts@;
                        let words = commands(drained).skip(commands(a.retry).len() as int);
                        assert(words + Seq::<Mtdr>::empty() =~= words);
                        assert(read@.take(to as int) =~= read@);
                        assert(read_retried(a.opened, a.retry, drained, address, read@));
                    }
                    return Turn::Done(Ok(open));
                }
                // A repeated START right after the automatic NACK of a
                // consumed RECEIVE is not reliably accepted, so every
                // chunk but the last ends with a STOP.
                match self.stop_turn(StopOp::Unqueued(open), None) {
                    Turn::Wait(next, wait) => {
                        proof {
                            lemma_on_time(entered, drained, self.log(), budget, op.end(), next.end());
                            let words = one_word(!(next is Unqueued), stop_word());
                            let after = one_word(next is Unqueued, stop_word()) + (seq![
                                start_word(address, true),
                            ] + seamed_commands(address, (read@.len() - to) as nat));
                            lemma_popped_later(entered, drained, self.log());
                            assert(tail =~= words + after);
                            assert(read@.subrange(to as int, to as int) =~= Seq::<u8>::empty());
                            lemma_chunks_on(
                                attempts@,
                                drained,
                                self.log(),
                                address,
                                read@,
                                read@,
                                to as int,
                                to as int,
                                words,
                                after,
                            );
                        }
                        Turn::Wait(ReadTxn { address, attempts, stage: ReadStage::Seaming(next, to) }, wait)
                    },
                    // A STOP that was just begun is not over yet.
                    Turn::Done(Ok(_)) => Turn::Done(Err(IOError::Other)),
                    Turn::Done(Err(e)) => {
                        proof {
                            let one = seq![stop_word()];
                            lemma_turn_weaken(
                                drained,
                                self.log(),
                                None,
                                IOError::Other,
                                Limit::Untimed,
                                one,
                                e,
                                false,
                            );
                            let body = receive_commands((to - from) as nat);
                            assert(body =~= seq![receive_word((to - from) as nat)]);
                            assert(commands(drained) == commands(begun) + body);
                            lemma_chunk_stop(receiving, begun, entered, drained, all, tail);
                            assert(step_aborted(drained, self.log(), None, Limit::Untimed, one, e));
                        }
                        Turn::Done(Err(e))
                    },
                }
            },
        }
    }

    /// One turn of the STOP of a chunk, and the beginning of the next one.
    #[verifier::rlimit(100)]
    fn seaming_turn(
        &mut self,
        address: u8,
        attempts: Ghost<Attempts>,
        stop: StopOp,
        place: usize,
        read: &mut [u8],
        waited: Option<WaitOutcome>,
    ) -> (r: Turn<ReadTxn, Result<Session, IOError>>)
        requires
            (ReadTxn { address, attempts, stage: ReadStage::Seaming(stop, place) }).fits(old(self), old(read)@),
        ensures
            final(self).same_setup(old(self)),
            final(read)@.len() == old(read)@.len(),
            (ReadTxn { address, attempts, stage: ReadStage::Seaming(stop, place) }).turned(
                r,
                old(self),
                final(self),
                final(read)@,
                waited,
            ),
    {
        let ghost op = ReadTxn { address, attempts, stage: ReadStage::Seaming(stop, place) };
        let ghost entered = self.log();
        let ghost all = op.rest(read@.len());
        let ghost again = chunked_commands(address, read@.len());
        let ghost limit = op.limit(self.budget());
        let ghost budget = self.budget();
        assert(extends(entered, entered));
        let ghost first = stop is Unqueued;
        let ghost on = seq![start_word(address, true)] + seamed_commands(address, (read@.len() - place) as nat);
        match self.stop_turn(stop, waited) {
            Turn::Wait(next, wait) => {
                proof {
                    let words = one_word(first && !(next is Unqueued), stop_word());
                    let after = one_word(next is Unqueued, stop_word()) + on;
                    assert(one_word(first, stop_word()) + on =~= words + after);
                    assert(read@.subrange(place as int, place as int) =~= Seq::<u8>::empty());
                    lemma_chunks_on(
                        attempts@,
                        entered,
                        self.log(),
                        address,
                        read@,
                        read@,
                        place as int,
                        place as int,
                        words,
                        after,
                    );
                }
                Turn::Wait(ReadTxn { address, attempts, stage: ReadStage::Seaming(next, place) }, wait)
            },
            Turn::Done(Err(e)) => {
                proof {
                    let one = one_word(first, stop_word());
                    lemma_turn_weaken(entered, self.log(), waited, IOError::Other, limit, one, e, false);
                    lemma_reached_here(entered, all, one);
                    assert(step_aborted(entered, self.log(), waited, limit, one, e));
                }
                Turn::Done(Err(e))
            },
            Turn::Done(Ok(_)) => {
                let ghost closed = self.log();
                proof {
                    lemma_moved_nothing(entered, closed);
                    assert(one_word(first, stop_word()) + on =~= Seq::<Mtdr>::empty() + on);
                    assert(read@.subrange(place as int, place as int) =~= Seq::<u8>::empty());
                    lemma_chunks_on(
                        attempts@,
                        entered,
                        closed,
                        address,
                        read@,
                        read@,
                        place as int,
                        place as int,
                        Seq::empty(),
                        on,
                    );
                }
                let r = self.next_chunk(address, attempts, place, read);
                proof {
                    lemma_later_step(entered, closed, self.log(), waited, limit, budget, all, on, again, r);
                }
                r
            },
        }
    }

    /// One turn of a read. It ends with the transaction open, and then the
    /// buffer holds exactly the bytes that came in.
    pub fn read_turn(&mut self, op: ReadTxn, read: &mut [u8], waited: Option<WaitOutcome>) -> (r: Turn<
        ReadTxn,
        Result<Session, IOError>,
    >)
        requires
            op.fits(old(self), old(read)@),
        ensures
            final(self).same_setup(old(self)),
            final(read)@.len() == old(read)@.len(),
            op.turned(r, old(self), final(self), final(read)@, waited),
    {
        let ghost entered = self.log();
        let ghost all = op.rest(read@.len());
        let ghost again = chunked_commands(op.address, read@.len());
        let ghost limit = op.limit(self.budget());
        let address = op.address;
        let attempts = op.attempts;
        match op.stage {
            ReadStage::Starting(start) => self.starting_turn(address, attempts, start, read, waited),
            ReadStage::Chained(receiving) => self.chained_turn(address, attempts, receiving, read, waited),
            ReadStage::Restarting(start, place) => {
                let r = self.restart_turn(address, attempts, start, place, read, waited);
                proof {
                    if let Turn::Done(Err(e)) = r {
                        lemma_turn_allow(
                            entered,
                            self.log(),
                            waited,
                            limit,
                            self.budget(),
                            all,
                            again,
                            e,
                            self.allows_chunks(),
                        );
                    }
                }
                r
            },
            ReadStage::Chunk(receiving) => self.chunk_turn(address, attempts, receiving, read, waited),
            ReadStage::Seaming(stop, place) => self.seaming_turn(address, attempts, stop, place, read, waited),
        }
    }
}

impl<H: ControllerPort> I2c<H> {
    /// Gives a read up: whatever it has open recovers.
    pub fn cancel_read(&mut self, op: ReadTxn, read: &[u8])
        requires
            op.fits(old(self), read@),
        ensures
            final(self).same_setup(old(self)),
            final(self).idle(),
            recovered(old(self).log(), final(self).log(), true),
    {
        let ghost entered = self.log();
        match op.stage {
            ReadStage::Starting(start) | ReadStage::Restarting(start, _) => {
                self.cancel_start(start);
                proof {
                    lemma_recovered_weaken(entered, self.log(), start.may_clock(), true);
                }
            },
            ReadStage::Chained(receiving) | ReadStage::Chunk(receiving) => {
                self.cancel(receiving.session);
                proof {
                    lemma_recovered_weaken(entered, self.log(), receiving.session@.phase.clocks(), true);
                }
            },
            ReadStage::Seaming(stop, _) => {
                self.cancel_stop(stop);
                proof {
                    lemma_recovered_weaken(entered, self.log(), false, true);
                }
            },
        }
    }
}

/// Where a write stands.
pub enum WriteStage {
    Starting(StartOp),
    Sending(Sending),
}

/// A write in progress.
pub struct WriteTxn {
    pub address: u8,
    /// The history before the START.
    pub from: Ghost<Seq<Access>>,
    pub stage: WriteStage,
}

impl WriteTxn {
    /// The write belongs to what is open on `i2c`.
    pub open spec fn fits<H>(self, i2c: &I2c<H>, write: Seq<u8>) -> bool {
        &&& self.address < 0x80
        &&& match self.stage {
            WriteStage::Starting(op) => {
                &&& op.fits(i2c)
                &&& op.word() == start_word(self.address, false)
                &&& !op.action.reads()
                &&& moved(self.from@, i2c.log(), one_word(!op.unqueued(), op.word()), Seq::empty())
            },
            WriteStage::Sending(op) => {
                &&& op.fits(i2c, write)
                &&& moved(self.from@, op.begun@, seq![start_word(self.address, false)], Seq::empty())
            },
        }
    }

    /// A recovery from here may have to clock a byte in: only where the write
    /// continues a read.
    pub open spec fn may_clock(self) -> bool {
        match self.stage {
            WriteStage::Starting(op) => op.may_clock(),
            WriteStage::Sending(_) => false,
        }
    }

    /// What the write waits for at `log`, as a look or a command behind
    /// `before` left it.
    pub open spec fn waits_for(self, wait: Wait, before: Seq<Access>, log: Seq<Access>, timeout: u64) -> bool {
        match self.stage {
            WriteStage::Starting(op) => op.waits_for(wait, before, log, timeout),
            WriteStage::Sending(op) => op.waits_for(wait, before, log, timeout),
        }
    }

    /// How a turn that goes on took the wait that it came with: one that
    /// failed ends the write, and a queued byte is left behind only with a
    /// clean look.
    pub open spec fn heeded(
        self,
        next: WriteTxn,
        before: Seq<Access>,
        after: Seq<Access>,
        waited: Option<WaitOutcome>,
    ) -> bool {
        &&& wait_error(waited, self.closed_error()) is None
        &&& self.stage matches WriteStage::Sending(op) ==> {
            &&& next.stage matches WriteStage::Sending(later) && later.begun@ == op.begun@ && later.place == op.place
                + if op.queued {
                1int
            } else {
                0int
            }
            &&& op.queued ==> cleared_first(before, after)
        }
    }

    /// The commands that are still to be queued.
    pub open spec fn rest(self, write: Seq<u8>) -> Seq<Mtdr> {
        match self.stage {
            WriteStage::Starting(op) => one_word(op.unqueued(), op.word()) + transmit_commands(write),
            WriteStage::Sending(op) => op.rest(write),
        }
    }

    /// The error that a closed wait cell means here.
    pub open spec fn closed_error(self) -> IOError {
        match self.stage {
            WriteStage::Starting(_) => IOError::Other,
            WriteStage::Sending(op) => op.closed_error(),
        }
    }

    /// The deadline of a queued START.
    pub open spec fn end(self) -> Option<u64> {
        match self.stage {
            WriteStage::Starting(op) => op.end(),
            WriteStage::Sending(_) => None,
        }
    }

    /// What bounds a turn of the write.
    pub open spec fn limit(self, budget: u64) -> Limit {
        match self.stage {
            WriteStage::Starting(op) => op.limit(budget),
            WriteStage::Sending(_) => Limit::Untimed,
        }
    }
}

impl<H: ControllerPort> I2c<H> {
    /// Opens a write on a fresh transaction.
    pub fn begin_write(&mut self, address: u8, write: &[u8]) -> (r: Result<WriteTxn, IOError>)
        requires
            old(self).idle(),
        ensures
            final(self).same_setup(old(self)),
            final(self).log() == old(self).log(),
            match r {
                Ok(op) => {
                    &&& address < 0x80
                    &&& op.fits(final(self), write@)
                    &&& op.address == address
                    &&& op.from@ == old(self).log()
                    &&& op.end() is None
                    &&& op.rest(write@) == write_commands(address, write@)
                    &&& !op.may_clock()
                },
                Err(e) => {
                    &&& address >= 0x80
                    &&& e == IOError::AddressOutOfRange(address)
                    &&& final(self).idle()
                },
            },
    {
        let ghost entered = self.log();
        match self.begin_start(address, false) {
            Err(e) => Err(e),
            Ok(op) => {
                proof {
                    lemma_moved_nothing(entered, self.log());
                }
                Ok(WriteTxn { address, from: Ghost(entered), stage: WriteStage::Starting(op) })
            },
        }
    }

    /// Opens a write on an open transaction, by a repeated START.
    pub fn begin_write_continue(&mut self, address: u8, write: &[u8], open: Session) -> (r: Result<WriteTxn, IOError>)
        requires
            old(self).owns(open@),
            open@.phase is Stable,
        ensures
            final(self).same_setup(old(self)),
            match r {
                Ok(op) => {
                    &&& address < 0x80
                    &&& op.fits(final(self), write@)
                    &&& op.address == address
                    &&& op.from@ == old(self).log()
                    &&& op.end() is None
                    &&& op.rest(write@) == write_commands(address, write@)
                    &&& op.may_clock() == open@.phase.clocks()
                    &&& final(self).log() == old(self).log()
                },
                Err(e) => {
                    &&& address >= 0x80
                    &&& e == IOError::AddressOutOfRange(address)
                    &&& final(self).idle()
                    &&& recovered(old(self).log(), final(self).log(), open@.phase.clocks())
                },
            },
    {
        let ghost entered = self.log();
        match self.begin_repeated_start(address, false, open) {
            Err(e) => Err(e),
            Ok(op) => {
                proof {
                    lemma_moved_nothing(entered, self.log());
                }
                Ok(WriteTxn { address, from: Ghost(entered), stage: WriteStage::Starting(op) })
            },
        }
    }

    /// One turn of a write. It ends with the transaction open, its START and
    /// every byte queued.
    #[verifier::rlimit(100)]
    pub fn write_turn(&mut self, op: WriteTxn, write: &[u8], waited: Option<WaitOutcome>) -> (r: Turn<
        WriteTxn,
        Result<Session, IOError>,
    >)
        requires
            op.fits(old(self), write@),
        ensures
            final(self).same_setup(old(self)),
            match r {
                Turn::Wait(next, wait) => {
                    &&& next.fits(final(self), write@)
                    &&& next.address == op.address
                    &&& next.from@ == op.from@
                    &&& extends(old(self).log(), final(self).log())
                    &&& next.waits_for(wait, old(self).log(), final(self).log(), old(self).budget())
                    &&& on_time(
                        old(self).log(),
                        final(self).log(),
                        old(self).budget(),
                        op.end(),
                        next.end(),
                    )
                    &&& (next.may_clock() ==> op.may_clock())
                    &&& op.heeded(next, old(self).log(), final(self).log(), waited)
                },
                Turn::Done(Ok(open)) => {
                    &&& final(self).owns(open@)
                    &&& open@.phase.writable()
                    &&& write_opened(op.from@, final(self).log(), op.address, write@)
                    &&& owed(final(self).log()) is Live
                    &&& wait_error(waited, op.closed_error()) is None
                },
                Turn::Done(Err(e)) => {
                    &&& final(self).idle()
                    &&& turn_aborted(
                        old(self).log(),
                        final(self).log(),
                        waited,
                        op.closed_error(),
                        op.limit(old(self).budget()),
                        op.rest(write@),
                        e,
                        op.may_clock(),
                    )
                },
            },
    {
        let ghost entered = self.log();
        let ghost limit = op.limit(self.budget());
        let ghost may_clock = op.may_clock();
        let address = op.address;
        let from = op.from;
        let ghost none = Seq::<u8>::empty();
        let ghost all = op.rest(write@);
        assert(none + none =~= none);
        match op.stage {
            WriteStage::Starting(start) => {
                let ghost first = start.unqueued();
                let ghost word = start.word();
                match self.start_turn(start, waited) {
                    Turn::Wait(next, wait) => {
                        proof {
                            let words = one_word(first && !next.unqueued(), word);
                            lemma_moved(from@, entered, self.log(), one_word(!first, word), words, none, none);
                            assert(one_word(!first, word) + words =~= one_word(!next.unqueued(), word));
                        }
                        Turn::Wait(WriteTxn { address, from, stage: WriteStage::Starting(next) }, wait)
                    },
                    Turn::Done(Err(e)) => {
                        proof {
                            lemma_turn_longer(
                                entered,
                                self.log(),
                                waited,
                                IOError::Other,
                                limit,
                                one_word(first, word),
                                all,
                                e,
                                may_clock,
                            );
                        }
                        Turn::Done(Err(e))
                    },
                    Turn::Done(Ok(open)) => {
                        let ghost opened = self.log();
                        proof {
                            lemma_moved(
                                from@,
                                entered,
                                opened,
                                one_word(!first, word),
                                one_word(first, word),
                                none,
                                none,
                            );
                            assert(one_word(!first, word) + one_word(first, word) =~= seq![word]);
                        }
                        match self.begin_sending(open, write) {
                            Turn::Wait(next, wait) => Turn::Wait(
                                WriteTxn { address, from, stage: WriteStage::Sending(next) },
                                wait,
                            ),
                            Turn::Done(Ok(open)) => {
                                assert(seq![word] =~= seq![start_word(address, false)] + transmit_commands(write@));
                                Turn::Done(Ok(open))
                            },
                            Turn::Done(Err(e)) => {
                                proof {
                                    lemma_found_earlier(
                                        entered,
                                        opened,
                                        self.log(),
                                        limit,
                                        one_word(first, word),
                                        transmit_commands(write@),
                                        all,
                                        e,
                                        false,
                                        may_clock,
                                    );
                                }
                                Turn::Done(Err(e))
                            },
                        }
                    },
                }
            },
            WriteStage::Sending(sending) => {
                let ghost begun = sending.begun@;
                match self.send_turn(sending, write, waited) {
                    Turn::Wait(next, wait) => Turn::Wait(
                        WriteTxn { address, from, stage: WriteStage::Sending(next) },
                        wait,
                    ),
                    Turn::Done(Err(e)) => Turn::Done(Err(e)),
                    Turn::Done(Ok(open)) => {
                        proof {
                            lemma_moved(
                                from@,
                                begun,
                                self.log(),
                                seq![start_word(address, false)],
                                transmit_commands(write@),
                                none,
                                none,
                            );
                        }
                        Turn::Done(Ok(open))
                    },
                }
            },
        }
    }

    /// Gives a write up: whatever it has open recovers.
    pub fn cancel_write(&mut self, op: WriteTxn, write: &[u8])
        requires
            op.fits(old(self), write@),
        ensures
            final(self).same_setup(old(self)),
            final(self).idle(),
            recovered(old(self).log(), final(self).log(), op.may_clock()),
    {
        match op.stage {
            WriteStage::Starting(start) => self.cancel_start(start),
            WriteStage::Sending(sending) => self.cancel(sending.session),
        }
    }
}

/// The commands from the STOP behind a chunk on.
pub open spec fn stop_start(address: u8, len: nat) -> Seq<Mtdr> {
    seq![stop_word(), start_word(address, true)] + seamed_commands(address, len)
}

/// Computes [`outcome`].
fn took(waited: Option<WaitOutcome>) -> (r: WaitOutcome)
    ensures
        r == outcome(waited),
{
    match waited {
        Some(o) => o,
        None => WaitOutcome::Woken,
    }
}

/// A turn that cannot be retried fails as one that can.
proof fn lemma_turn_allow(
    before: Seq<Access>,
    after: Seq<Access>,
    waited: Option<WaitOutcome>,
    given: Limit,
    budget: u64,
    all: Seq<Mtdr>,
    again: Seq<Mtdr>,
    error: IOError,
    allow_chunks: bool,
)
    requires
        read_turn_aborted(before, after, waited, given, budget, all, Seq::empty(), error, false),
    ensures
        read_turn_aborted(before, after, waited, given, budget, all, again, error, allow_chunks),
{
    let (attempt, w, limit, rest) = choose|
        attempt: Seq<Access>,
        w: Option<WaitOutcome>,
        limit: Limit,
        rest: Seq<Mtdr>,
    |
        {
            &&& #[trigger] step_aborted(attempt, after, w, limit, rest, error)
            &&& limit_of_step(limit, given, budget)
            &&& (w == waited || w is None)
            &&& reached_again(before, attempt, all, Seq::empty(), rest, false)
        };
    assert(step_aborted(attempt, after, w, limit, rest, error));
    assert(reached_again(before, attempt, all, again, rest, allow_chunks));
}

/// The STOP behind a chunk is the next command that was left to its read.
proof fn lemma_chunk_stop(
    receiving: Receiving,
    begun: Seq<Access>,
    entered: Seq<Access>,
    drained: Seq<Access>,
    all: Seq<Mtdr>,
    tail: Seq<Mtdr>,
)
    requires
        all == receiving.rest() + tail,
        tail.len() > 0,
        tail[0] == stop_word(),
        steady(entered, drained),
        recoveries(entered) == recoveries(begun),
        recoveries(drained) == recoveries(begun),
        receive_commands(receiving.total() as nat).len() == 1,
        whole_chunks(receiving.total(), receiving.asked as int),
        commands(entered) == commands(begun) + receive_commands(receiving.total() as nat).take(
            commands_for(receiving.asked as int),
        ),
        commands(drained) == commands(begun) + receive_commands(receiving.total() as nat),
    ensures
        reached(entered, drained, all, seq![stop_word()]),
{
    let body = receive_commands(receiving.total() as nat);
    let none = Seq::<Mtdr>::empty();
    assert(commands_for(receiving.asked as int) == 1);
    assert(body.take(1) =~= body);
    assert(receiving.rest() =~= none);
    assert(commands(drained) =~= commands(entered) + none);
    assert(none + seq![stop_word()] =~= seq![stop_word()]);
    assert(all =~= tail);
    lemma_reached(entered, drained, none, seq![stop_word()], all);
}

/// A failure of a second attempt in a turn is a failure of the turn.
proof fn lemma_later_attempt(
    before: Seq<Access>,
    mid: Seq<Access>,
    after: Seq<Access>,
    waited: Option<WaitOutcome>,
    given: Limit,
    budget: u64,
    all: Seq<Mtdr>,
    again: Seq<Mtdr>,
    r: Turn<ReadTxn, Result<Session, IOError>>,
    error: IOError,
    allow_chunks: bool,
)
    requires
        cut_short(before, mid, all, retryable(error)),
        r matches Turn::Done(Err(e)) ==> read_turn_aborted(
            before,
            after,
            waited,
            given,
            budget,
            all,
            again,
            e,
            allow_chunks,
        ) || (allow_chunks && retryable(error) && read_turn_aborted(
            mid,
            after,
            None,
            Limit::Untimed,
            budget,
            again,
            Seq::empty(),
            e,
            false,
        )),
    ensures
        extends(before, mid),
        r matches Turn::Done(Err(e)) ==> read_turn_aborted(
            before,
            after,
            waited,
            given,
            budget,
            all,
            again,
            e,
            allow_chunks,
        ),
        r matches Turn::Wait(next, _) ==> (extends(mid, after) && on_time(mid, after, budget, None, next.end())
            ==> on_time(before, after, budget, None, next.end())),
{
    lemma_cut_recovers(before, mid, all, retryable(error));
    if let Turn::Wait(next, _) = r {
        if extends(mid, after) && on_time(mid, after, budget, None, next.end()) {
            lemma_on_time(before, mid, after, budget, None, next.end());
        }
    }
    if let Turn::Done(Err(e)) = r {
        if !read_turn_aborted(before, after, waited, given, budget, all, again, e, allow_chunks) {
            let (attempt, w, limit, rest) = choose|
                attempt: Seq<Access>,
                w: Option<WaitOutcome>,
                limit: Limit,
                rest: Seq<Mtdr>,
            |
                {
                    &&& #[trigger] step_aborted(attempt, after, w, limit, rest, e)
                    &&& limit_of_step(limit, Limit::Untimed, budget)
                    &&& (w == None::<WaitOutcome> || w is None)
                    &&& reached_again(mid, attempt, again, Seq::empty(), rest, false)
                };
            assert(step_aborted(attempt, after, w, limit, rest, e));
            assert(cut_short(before, mid, all, true));
            assert(reached_again(before, attempt, all, again, rest, allow_chunks));
        }
    }
}

/// A failure of a later step in a turn, behind looks alone, is a failure of
/// the turn.
proof fn lemma_later_step(
    before: Seq<Access>,
    mid: Seq<Access>,
    after: Seq<Access>,
    waited: Option<WaitOutcome>,
    given: Limit,
    budget: u64,
    all: Seq<Mtdr>,
    later: Seq<Mtdr>,
    again: Seq<Mtdr>,
    r: Turn<ReadTxn, Result<Session, IOError>>,
)
    requires
        looked(before, mid),
        all == later,
        r matches Turn::Done(Err(e)) ==> read_turn_aborted(
            mid,
            after,
            None,
            Limit::Untimed,
            budget,
            later,
            Seq::empty(),
            e,
            false,
        ),
    ensures
        r matches Turn::Done(Err(e)) ==> read_turn_aborted(before, after, waited, given, budget, all, again, e, true),
        r matches Turn::Wait(next, _) ==> (extends(mid, after) && on_time(mid, after, budget, None, next.end())
            ==> on_time(before, after, budget, None, next.end())),
{
    if let Turn::Wait(next, _) = r {
        if extends(mid, after) && on_time(mid, after, budget, None, next.end()) {
            lemma_on_time(before, mid, after, budget, None, next.end());
        }
    }
    if let Turn::Done(Err(e)) = r {
        let (attempt, w, limit, rest) = choose|
            attempt: Seq<Access>,
            w: Option<WaitOutcome>,
            limit: Limit,
            rest: Seq<Mtdr>,
        |
            {
                &&& #[trigger] step_aborted(attempt, after, w, limit, rest, e)
                &&& limit_of_step(limit, Limit::Untimed, budget)
                &&& (w == None::<WaitOutcome> || w is None)
                &&& reached_again(mid, attempt, later, Seq::empty(), rest, false)
            };
        let none = Seq::<Mtdr>::empty();
        assert(commands(mid) =~= commands(before) + none);
        assert(none + later =~= later);
        lemma_reached_earlier(before, mid, attempt, none, later, all, rest);
        assert(step_aborted(attempt, after, w, limit, rest, e));
        assert(reached_again(before, attempt, all, again, rest, true));
    }
}

} // verus!
