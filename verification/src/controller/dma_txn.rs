//! Whole DMA reads and writes of the controller, from their START to the open
//! transaction that a STOP or a repeated START follows.

use vstd::prelude::*;

use crate::controller::{I2c, IOError};
use crate::controller::asynch::{
    lemma_on_time, lemma_turn_extends, limit_of_step, on_time, one_word, turn_aborted, wait_error, Limit, StartOp,
    StopOp, Turn, Wait,
};
use crate::controller::dma::{
    armed_behind, commands_of, completed_first, dma_aborted, dma_bound, dma_completed, dma_failed, dma_refused,
    draining_aborted, finished_first, handed_over, lemma_armed, lemma_armed_earlier, lemma_finished,
    lemma_finished_later, lemma_over_moved, lemma_over_nothing, lemma_over_on, pouring_refused, receive_ran,
    refused_behind, verdict_seen, DmaVerdict, Draining, Pouring,
};
use crate::controller::blocking::{chunked_commands, read_commands};
use crate::controller::txn::{
    chunk_end, lemma_reached, lemma_reached_earlier, lemma_reached_here, lemma_turn_weaken, reached, stop_start,
};
use crate::controller_registers::{
    active_fault_ran, controller_dma_finished, fifo_entries, receive_word, start_word, stop_word,
};
use crate::dma::chunk_end_at;
use crate::lpi2c_regs::{Access, ControllerPort, Direction, DmaPort};
use crate::session::{recovered, taken_over, Abort, Session, SessionPhase};
use crate::trace::{commands, entry, extends, recoveries};
use crate::transfer::{
    aborted, begins, carried, cut_short, lemma_cut_earlier, lemma_cut_recovers, lemma_cut_short, lemma_cut_untold,
    lemma_moved, lemma_moved_nothing, lemma_partway_nothing, lemma_partway_words, lemma_recovered_weaken, looked, moved,
    receive_commands, retryable, seamed_commands, steady,
};
use crate::wait::WaitOutcome;
use crate::words::Mtdr;

verus! {

broadcast use {
    crate::answers::lemma_owed_push,
    crate::trace::group_bounded,
    crate::trace::group_trace,
    crate::transfer::group_wire,
    crate::session::lemma_recovered_wire,
};

/// Where the attempts of a DMA read began.
pub ghost struct DmaAttempts {
    /// The history before the first START.
    pub from: Seq<Access>,
    /// The history before the START of the first chunk.
    pub base: Seq<Access>,
}

/// Where a DMA read stands.
pub enum DmaReadStage {
    /// The first START.
    Starting(StartOp),
    /// The data of the one transaction that serves the whole read.
    Chained(Draining),
    /// The START of the chunk that begins at the given byte.
    Restarting(StartOp, usize),
    /// The data of one chunk.
    Chunk(Draining),
    /// The STOP behind the chunk that ended at the given byte.
    Seaming(StopOp, usize),
}

/// A DMA read in progress: one transaction where the command FIFO can hold
/// its commands. A longer read, and a second attempt that the caller opted
/// in to, run in transactions of 256 bytes each.
pub struct DmaReadTxn {
    pub address: u8,
    pub length: usize,
    pub attempts: Ghost<DmaAttempts>,
    pub stage: DmaReadStage,
}

/// The FIFO was found too small for the commands of a read of `len` bytes.
pub open spec fn chain_too_long(before: Seq<Access>, log: Seq<Access>, len: int) -> bool {
    exists|i: int|
        {
            &&& before.len() <= i < log.len()
            &&& #[trigger] log[i] is ReadParam
            &&& commands_of(len) > fifo_entries(log[i]->ReadParam_0)
        }
}

/// A read in chunks may begin at `base`: the caller opted in and a first
/// attempt was recovered, or the read began there and does not fit the FIFO.
pub open spec fn chunks_begin(
    a: DmaAttempts,
    log: Seq<Access>,
    address: u8,
    len: int,
    allow_chunks: bool,
) -> bool {
    ||| a.base == a.from && chain_too_long(a.from, log, len)
    ||| allow_chunks && cut_short(a.from, a.base, read_commands(address, len as nat), false)
}

/// A read in chunks stands at `log`: the bytes before `place` were handed to
/// the channel, and `rest` are the commands that are still to be queued.
pub open spec fn chunks_queued(
    a: DmaAttempts,
    log: Seq<Access>,
    address: u8,
    len: nat,
    place: int,
    rest: Seq<Mtdr>,
    allow_chunks: bool,
) -> bool {
    let words = commands(log).skip(commands(a.base).len() as int);
    &&& chunks_begin(a, log, address, len as int, allow_chunks)
    &&& handed_over(a.base, log, words, Direction::Rx, place)
    &&& words + rest == chunked_commands(address, len)
}

/// A DMA read opened by its START and not yet closed: one transaction with
/// all of its commands, or, as [`chunks_begin`] allows, one in chunks. Either
/// way its transfers fill the buffer in order, each byte once.
pub open spec fn dma_read_opened(
    before: Seq<Access>,
    after: Seq<Access>,
    address: u8,
    len: nat,
    allow_chunks: bool,
) -> bool {
    ||| handed_over(before, after, read_commands(address, len), Direction::Rx, len as int)
    ||| exists|a: DmaAttempts|
        {
            &&& a.from == before
            &&& #[trigger] chunks_begin(a, after, address, len as int, allow_chunks)
            &&& handed_over(a.base, after, chunked_commands(address, len), Direction::Rx, len as int)
        }
}

impl DmaReadTxn {
    /// The read belongs to what is open on `i2c`.
    pub open spec fn fits<H>(self, i2c: &I2c<H>) -> bool {
        let a = self.attempts@;
        let start = seq![start_word(self.address, true)];
        let len = self.length;
        &&& self.address < 0x80
        &&& len > 0
        &&& match self.stage {
            DmaReadStage::Starting(op) => {
                &&& op.fits(i2c)
                &&& op.word() == start_word(self.address, true)
                &&& op.action.reads()
                &&& moved(a.from, i2c.log(), one_word(!op.unqueued(), op.word()), Seq::empty())
            },
            DmaReadStage::Chained(op) => {
                &&& op.fits(i2c)
                &&& op.from == 0
                &&& op.to == len
                &&& moved(a.from, op.begun@, start, Seq::empty())
            },
            DmaReadStage::Restarting(op, place) => {
                &&& op.fits(i2c)
                &&& op.word() == start_word(self.address, true)
                &&& op.action.reads()
                &&& place < len
                &&& chunks_queued(
                    a,
                    i2c.log(),
                    self.address,
                    len as nat,
                    place as int,
                    one_word(op.unqueued(), op.word()) + seamed_commands(self.address, (len - place) as nat),
                    i2c.allows_chunks(),
                )
            },
            DmaReadStage::Chunk(op) => {
                &&& op.fits(i2c)
                &&& op.from < len
                &&& op.to == chunk_end(len as int, op.from as int)
                &&& chunks_queued(
                    a,
                    op.begun@,
                    self.address,
                    len as nat,
                    op.from as int,
                    seamed_commands(self.address, (len - op.from) as nat),
                    i2c.allows_chunks(),
                )
            },
            DmaReadStage::Seaming(op, place) => {
                &&& op.fits(i2c)
                &&& place < len
                &&& chunks_queued(
                    a,
                    i2c.log(),
                    self.address,
                    len as nat,
                    place as int,
                    one_word(op is Unqueued, stop_word()) + (start + seamed_commands(
                        self.address,
                        (len - place) as nat,
                    )),
                    i2c.allows_chunks(),
                )
            },
        }
    }

    /// What the read waits for at `log`. Behind `before` a transfer was armed,
    /// or a look found what is waited for missing.
    pub open spec fn waits_for(self, wait: Wait, before: Seq<Access>, log: Seq<Access>, timeout: u64) -> bool {
        match self.stage {
            DmaReadStage::Starting(op) | DmaReadStage::Restarting(op, _) => op.waits_for(wait, before, log, timeout),
            DmaReadStage::Chained(op) | DmaReadStage::Chunk(op) => {
                &&& wait == Wait::RxDma(dma_bound(timeout, (op.to - op.from) as usize))
                &&& before.len() <= op.begun@.len()
            },
            DmaReadStage::Seaming(op, _) => op.waits_for(wait, before, log, timeout),
        }
    }

    /// How a turn that goes on took the wait that it came with, or the verdict
    /// on its transfer: a wait that failed ends the read. A transfer that
    /// stopped short leads to a second attempt where that is allowed, and one
    /// that completed to the next chunk.
    pub open spec fn heeded(
        self,
        next: DmaReadTxn,
        waited: Option<WaitOutcome>,
        verdict: Option<DmaVerdict>,
        allow_chunks: bool,
    ) -> bool {
        match self.stage {
            DmaReadStage::Chained(_) => !(next.stage is Chained) && allow_chunks && stopped_short(verdict),
            DmaReadStage::Chunk(op) => {
                &&& verdict == Some(DmaVerdict::Complete)
                &&& next.stage matches DmaReadStage::Seaming(_, place) && place == op.to
            },
            _ => wait_error(waited, IOError::Other) is None,
        }
    }

    /// The same read, which after a turn from `before` to `after` waits for
    /// this.
    pub open spec fn followed_by(
        self,
        next: DmaReadTxn,
        wait: Wait,
        before: Seq<Access>,
        after: Seq<Access>,
        timeout: u64,
    ) -> bool {
        &&& next.address == self.address
        &&& next.length == self.length
        &&& next.attempts@.from == self.attempts@.from
        &&& next.waits_for(wait, before, after, timeout)
        &&& extends(before, after)
        &&& on_time(before, after, timeout, self.end(), next.end())
    }

    /// The deadline of a queued START or STOP.
    pub open spec fn end(self) -> Option<u64> {
        match self.stage {
            DmaReadStage::Starting(op) | DmaReadStage::Restarting(op, _) => op.end(),
            DmaReadStage::Chained(_) | DmaReadStage::Chunk(_) => None,
            DmaReadStage::Seaming(op, _) => op.end(),
        }
    }

    /// The commands that are left to the read.
    pub open spec fn left(self, allow_chunks: bool, verdict: Option<DmaVerdict>) -> Left {
        let len = self.length as nat;
        match self.stage {
            DmaReadStage::Starting(op) => {
                let start = one_word(op.unqueued(), op.word());
                Left {
                    all: start + receive_commands(len),
                    straight: start + seamed_commands(self.address, len),
                    again: chunked_commands(self.address, len),
                    allow: allow_chunks,
                    told: true,
                }
            },
            DmaReadStage::Chained(_) => Left {
                all: Seq::empty(),
                straight: Seq::empty(),
                again: chunked_commands(self.address, len),
                allow: allow_chunks && stopped_short(verdict),
                told: false,
            },
            DmaReadStage::Restarting(op, place) => only(
                one_word(op.unqueued(), op.word()) + seamed_commands(self.address, (len - place) as nat),
            ),
            DmaReadStage::Chunk(op) => only(
                if op.to < len {
                    stop_start(self.address, (len - op.to) as nat)
                } else {
                    Seq::empty()
                },
            ),
            DmaReadStage::Seaming(op, place) => only(
                one_word(op is Unqueued, stop_word()) + (seq![start_word(self.address, true)] + seamed_commands(
                    self.address,
                    (len - place) as nat,
                )),
            ),
        }
    }

    /// A turn that ends a transfer shuts its channel down before anything
    /// else.
    pub open spec fn quiets(self, before: Seq<Access>, after: Seq<Access>) -> bool {
        match self.stage {
            DmaReadStage::Chained(op) | DmaReadStage::Chunk(op) => finished_first(
                before,
                after,
                Direction::Rx,
                (op.to - op.from) as usize,
            ),
            _ => true,
        }
    }

    /// A read that may be retried failed with an error that calls for it: at
    /// its START, at its second attempt, or in chunks from its START on.
    pub open spec fn failed_twice(
        self,
        before: Seq<Access>,
        after: Seq<Access>,
        waited: Option<WaitOutcome>,
        verdict: Option<DmaVerdict>,
        budget: u64,
        error: IOError,
    ) -> bool {
        match self.stage {
            DmaReadStage::Starting(op) => {
                ||| turn_aborted(
                    before,
                    after,
                    waited,
                    IOError::Other,
                    op.limit(budget),
                    one_word(op.unqueued(), op.word()),
                    error,
                    true,
                )
                ||| chain_too_long(before, after, self.length as int)
                ||| dma_failed_again(before, after, verdict, budget, self.left(true, verdict), error)
            },
            DmaReadStage::Chained(_) => dma_failed_again(
                before,
                after,
                verdict,
                budget,
                self.left(true, verdict),
                error,
            ),
            // These run in chunks already.
            DmaReadStage::Restarting(_, _) | DmaReadStage::Chunk(_) | DmaReadStage::Seaming(_, _) => true,
        }
    }

    /// What bounds the step that a turn begins with.
    pub open spec fn limit(self, budget: u64) -> Limit {
        match self.stage {
            DmaReadStage::Starting(op) | DmaReadStage::Restarting(op, _) => op.limit(budget),
            DmaReadStage::Chained(_) | DmaReadStage::Chunk(_) => Limit::Untimed,
            DmaReadStage::Seaming(op, _) => op.limit(),
        }
    }
}

/// The commands that are left to a DMA read: `all` where the FIFO holds its
/// pipeline, `straight` where it runs in chunks from its START on, and `again`
/// for a second attempt, where that is allowed; `told` where the history shows
/// that the first one stalled.
pub ghost struct Left {
    pub all: Seq<Mtdr>,
    pub straight: Seq<Mtdr>,
    pub again: Seq<Mtdr>,
    pub allow: bool,
    pub told: bool,
}

/// A transfer ran out of its time, or the packet ended before it was complete.
pub open spec fn stopped_short(verdict: Option<DmaVerdict>) -> bool {
    verdict is None || verdict == Some(DmaVerdict::UnexpectedStop)
}

/// Nothing but these commands is left.
pub open spec fn only(rest: Seq<Mtdr>) -> Left {
    Left { all: rest, straight: rest, again: Seq::empty(), allow: false, told: true }
}

/// The commands of a whole DMA read.
pub open spec fn whole_read(address: u8, len: nat, allow_chunks: bool) -> Left {
    Left {
        all: read_commands(address, len),
        straight: chunked_commands(address, len),
        again: chunked_commands(address, len),
        allow: allow_chunks,
        told: true,
    }
}

/// The commands of a DMA read behind its START.
pub open spec fn rest_of_read(address: u8, len: nat, allow_chunks: bool) -> Left {
    Left {
        all: receive_commands(len),
        straight: seamed_commands(address, len),
        again: chunked_commands(address, len),
        allow: allow_chunks,
        told: true,
    }
}

/// A turn that began at `before` with `left` came to `attempt`, with `rest`
/// left to it.
pub open spec fn reached_left(before: Seq<Access>, attempt: Seq<Access>, left: Left, rest: Seq<Mtdr>) -> bool {
    ||| reached(before, attempt, left.straight, rest)
    ||| reached(before, attempt, left.all, rest)
    ||| left.allow && exists|retry: Seq<Access>| #[trigger]
        cut_short(before, retry, left.all, left.told) && reached(retry, attempt, left.again, rest)
}

/// What is reached from `mid` with `later` is reached from `before` with
/// `left`.
pub open spec fn carries(before: Seq<Access>, left: Left, mid: Seq<Access>, later: Left) -> bool {
    forall|attempt: Seq<Access>, rest: Seq<Mtdr>| #[trigger]
        reached_left(mid, attempt, later, rest) ==> reached_left(before, attempt, left, rest)
}

/// `words` were queued since.
pub proof fn lemma_carries(before: Seq<Access>, left: Left, mid: Seq<Access>, words: Seq<Mtdr>, later: Left)
    requires
        steady(before, mid),
        recoveries(mid) == recoveries(before),
        commands(mid) == commands(before) + words,
        begins(left.straight, words + later.straight),
        begins(left.all, words + later.all),
        left.again == later.again,
        left.told == later.told,
        later.allow ==> left.allow,
    ensures
        carries(before, left, mid, later),
{
    assert forall|attempt: Seq<Access>, rest: Seq<Mtdr>| #[trigger]
        reached_left(mid, attempt, later, rest) implies reached_left(before, attempt, left, rest) by {
        if reached(mid, attempt, later.straight, rest) {
            lemma_reached_earlier(before, mid, attempt, words, later.straight, left.straight, rest);
        } else if reached(mid, attempt, later.all, rest) {
            lemma_reached_earlier(before, mid, attempt, words, later.all, left.all, rest);
        } else {
            let retry = choose|retry: Seq<Access>| #[trigger]
                cut_short(mid, retry, later.all, later.told) && reached(retry, attempt, later.again, rest);
            lemma_cut_earlier(before, mid, retry, words, later.all, left.all, left.told);
        }
    }
}

/// `words` were queued since by a read that runs in chunks.
proof fn lemma_carries_straight(
    before: Seq<Access>,
    left: Left,
    mid: Seq<Access>,
    words: Seq<Mtdr>,
    later: Seq<Mtdr>,
)
    requires
        steady(before, mid),
        recoveries(mid) == recoveries(before),
        commands(mid) == commands(before) + words,
        begins(left.straight, words + later),
    ensures
        carries(before, left, mid, only(later)),
{
    assert forall|attempt: Seq<Access>, rest: Seq<Mtdr>| #[trigger]
        reached_left(mid, attempt, only(later), rest) implies reached_left(before, attempt, left, rest) by {
        lemma_reached_earlier(before, mid, attempt, words, later, left.straight, rest);
    }
}

/// A first attempt was cut short since.
proof fn lemma_carries_again(before: Seq<Access>, left: Left, mid: Seq<Access>)
    requires
        left.allow,
        cut_short(before, mid, left.all, left.told),
    ensures
        carries(before, left, mid, only(left.again)),
{
    assert forall|attempt: Seq<Access>, rest: Seq<Mtdr>| #[trigger]
        reached_left(mid, attempt, only(left.again), rest) implies reached_left(before, attempt, left, rest) by {
        assert(reached(mid, attempt, left.again, rest));
        assert(cut_short(before, mid, left.all, left.told));
    }
}

/// One step of a DMA read gave its transaction up. `given` bounds the step
/// that the turn began with, and `rest` are the commands that were left to it.
pub open spec fn dma_step_aborted(
    before: Seq<Access>,
    after: Seq<Access>,
    waited: Option<WaitOutcome>,
    verdict: Option<DmaVerdict>,
    given: Limit,
    timeout: u64,
    rest: Seq<Mtdr>,
    error: IOError,
) -> bool {
    ||| exists|limit: Limit|
        {
            &&& #[trigger] turn_aborted(before, after, waited, IOError::Other, limit, rest, error, true)
            &&& limit_of_step(limit, given, timeout)
        }
    ||| exists|length: usize| #[trigger]
        dma_aborted(before, after, Direction::Rx, length, verdict, error, true)
    ||| exists|length: usize, max: usize|
        {
            &&& #[trigger] draining_aborted(before, after, timeout, length, max, error)
            &&& begins(rest, receive_commands(length as nat))
        }
}

/// A turn of a DMA read failed, at one of the steps that it took. `left` are
/// the commands that were left to the turn.
pub open spec fn dma_turn_aborted(
    before: Seq<Access>,
    after: Seq<Access>,
    waited: Option<WaitOutcome>,
    verdict: Option<DmaVerdict>,
    given: Limit,
    timeout: u64,
    left: Left,
    error: IOError,
) -> bool {
    exists|attempt: Seq<Access>, w: Option<WaitOutcome>, rest: Seq<Mtdr>|
        {
            &&& #[trigger] dma_step_aborted(attempt, after, w, verdict, given, timeout, rest, error)
            &&& (w == waited || w is None)
            &&& reached_left(before, attempt, left, rest)
        }
}

/// The data of a first attempt failed to come, and the second one failed too.
pub open spec fn dma_failed_again(
    before: Seq<Access>,
    after: Seq<Access>,
    verdict: Option<DmaVerdict>,
    budget: u64,
    left: Left,
    error: IOError,
) -> bool {
    exists|retry: Seq<Access>| #[trigger]
        cut_short(before, retry, left.all, left.told) && dma_turn_aborted(
            retry,
            after,
            None,
            verdict,
            Limit::Untimed,
            budget,
            only(left.again),
            error,
        )
}

/// As [`DmaReadTxn::failed_twice`], past the START.
pub open spec fn resumed_twice(
    before: Seq<Access>,
    after: Seq<Access>,
    verdict: Option<DmaVerdict>,
    budget: u64,
    address: u8,
    length: usize,
    error: IOError,
) -> bool {
    ||| chain_too_long(before, after, length as int)
    ||| dma_failed_again(before, after, verdict, budget, rest_of_read(address, length as nat, true), error)
}

/// A second attempt that failed behind a first one.
proof fn lemma_failed_again(
    before: Seq<Access>,
    retry: Seq<Access>,
    after: Seq<Access>,
    verdict: Option<DmaVerdict>,
    budget: u64,
    left: Left,
    error: IOError,
)
    requires
        cut_short(before, retry, left.all, left.told),
        dma_turn_aborted(retry, after, None, verdict, Limit::Untimed, budget, only(left.again), error),
    ensures
        dma_failed_again(before, after, verdict, budget, left, error),
{
}

/// What failed twice past the START failed twice from it on.
proof fn lemma_resumed_twice(
    before: Seq<Access>,
    mid: Seq<Access>,
    after: Seq<Access>,
    verdict: Option<DmaVerdict>,
    budget: u64,
    address: u8,
    length: usize,
    words: Seq<Mtdr>,
    left: Left,
    error: IOError,
)
    requires
        resumed_twice(mid, after, verdict, budget, address, length, error),
        steady(before, mid),
        recoveries(mid) == recoveries(before),
        commands(mid) == commands(before) + words,
        left.all == words + receive_commands(length as nat),
        left.again == chunked_commands(address, length as nat),
        left.told,
    ensures
        chain_too_long(before, after, length as int) || dma_failed_again(before, after, verdict, budget, left, error),
{
    let later = rest_of_read(address, length as nat, true);
    if chain_too_long(mid, after, length as int) {
        let i = choose|i: int|
            {
                &&& mid.len() <= i < after.len()
                &&& #[trigger] after[i] is ReadParam
                &&& commands_of(length as int) > fifo_entries(after[i]->ReadParam_0)
            };
        assert(after[i] is ReadParam);
    } else {
        let retry = choose|retry: Seq<Access>| #[trigger]
            cut_short(mid, retry, later.all, later.told) && dma_turn_aborted(
                retry,
                after,
                None,
                verdict,
                Limit::Untimed,
                budget,
                only(later.again),
                error,
            );
        lemma_cut_earlier(before, mid, retry, words, later.all, left.all, true);
    }
}

proof fn lemma_turn_step(
    before: Seq<Access>,
    after: Seq<Access>,
    waited: Option<WaitOutcome>,
    limit: Limit,
    verdict: Option<DmaVerdict>,
    given: Limit,
    timeout: u64,
    rest: Seq<Mtdr>,
    error: IOError,
    may_clock: bool,
)
    requires
        turn_aborted(before, after, waited, IOError::Other, limit, rest, error, may_clock),
        limit_of_step(limit, given, timeout),
    ensures
        dma_step_aborted(before, after, waited, verdict, given, timeout, rest, error),
{
    lemma_turn_weaken(before, after, waited, IOError::Other, limit, rest, error, may_clock);
}

/// A transfer that failed cut the read short.
proof fn lemma_drain_cut(
    before: Seq<Access>,
    after: Seq<Access>,
    length: usize,
    verdict: Option<DmaVerdict>,
    error: IOError,
)
    requires
        dma_aborted(before, after, Direction::Rx, length, verdict, error, true),
    ensures
        cut_short(before, after, Seq::empty(), false),
        retryable(error) ==> stopped_short(verdict),
{
    let (quiet, log, moved) = choose|quiet: Seq<Access>, log: Seq<Access>, moved: usize|
        {
            &&& #[trigger] dma_failed(before, quiet, log, Direction::Rx, length, moved, verdict, error)
            &&& recovered(log, after, true && !receive_ran(quiet, log, moved, verdict))
        };
    lemma_recovered_weaken(log, after, !receive_ran(quiet, log, moved, verdict), true);
    lemma_partway_nothing(before, log, Seq::empty());
    assert(steady(before, log));
}

/// A transfer that could not begin cut the read short.
proof fn lemma_begin_cut(
    before: Seq<Access>,
    after: Seq<Access>,
    timeout: u64,
    length: usize,
    max: usize,
    error: IOError,
)
    requires
        draining_aborted(before, after, timeout, length, max, error),
    ensures
        cut_short(before, after, receive_commands(length as nat), retryable(error)),
{
    let all = receive_commands(length as nat);
    if aborted(before, after, timeout, all, error, true) {
        let none = Seq::<Mtdr>::empty();
        assert(commands(before) =~= commands(before) + none);
        assert(none + all =~= all);
        lemma_cut_short(before, before, after, timeout, none, all, all, error, true);
    } else {
        let (queued, log) = choose|queued: Seq<Access>, log: Seq<Access>|
            {
                &&& #[trigger] moved(before, queued, all, Seq::empty())
                &&& #[trigger] dma_refused(queued, log, length, max)
                &&& looked(queued, log)
                &&& recovered(log, after, true)
            };
        lemma_partway_words(before, log, all, all);
        assert(steady(before, log));
    }
}

/// A failure of a later step of a turn is a failure of the turn.
pub proof fn lemma_later_step(
    before: Seq<Access>,
    mid: Seq<Access>,
    after: Seq<Access>,
    waited: Option<WaitOutcome>,
    verdict: Option<DmaVerdict>,
    given: Limit,
    timeout: u64,
    left: Left,
    later: Left,
    error: IOError,
)
    requires
        carries(before, left, mid, later),
        ({
            ||| dma_turn_aborted(mid, after, None, verdict, Limit::Untimed, timeout, later, error)
            ||| dma_turn_aborted(mid, after, None, verdict, Limit::Within(timeout), timeout, later, error)
        }),
    ensures
        dma_turn_aborted(before, after, waited, verdict, given, timeout, left, error),
{
    let first = if dma_turn_aborted(mid, after, None, verdict, Limit::Untimed, timeout, later, error) {
        Limit::Untimed
    } else {
        Limit::Within(timeout)
    };
    let (attempt, w, rest) = choose|attempt: Seq<Access>, w: Option<WaitOutcome>, rest: Seq<Mtdr>|
        {
            &&& #[trigger] dma_step_aborted(attempt, after, w, verdict, first, timeout, rest, error)
            &&& (w == None::<WaitOutcome> || w is None)
            &&& reached_left(mid, attempt, later, rest)
        };
    assert(dma_step_aborted(attempt, after, w, verdict, given, timeout, rest, error));
}

/// A read in chunks goes on: `words` were queued.
proof fn lemma_queued_on(
    a: DmaAttempts,
    log: Seq<Access>,
    after: Seq<Access>,
    address: u8,
    len: nat,
    place: int,
    words: Seq<Mtdr>,
    rest: Seq<Mtdr>,
    allow_chunks: bool,
)
    requires
        chunks_queued(a, log, address, len, place, words + rest, allow_chunks),
        moved(log, after, words, Seq::empty()),
    ensures
        chunks_queued(a, after, address, len, place, rest, allow_chunks),
{
    let done = commands(log).skip(commands(a.base).len() as int);
    lemma_over_moved(a.base, log, after, done, words, Direction::Rx, place);
    assert(commands(after).skip(commands(a.base).len() as int) =~= done + words);
    assert((done + words) + rest =~= done + (words + rest));
    lemma_still_too_long(a, log, after, len);
}

/// A read in chunks goes on: a chunk was drawn.
proof fn lemma_drawn_on(
    a: DmaAttempts,
    log: Seq<Access>,
    after: Seq<Access>,
    address: u8,
    len: nat,
    from: usize,
    length: usize,
    words: Seq<Mtdr>,
    rest: Seq<Mtdr>,
    allow_chunks: bool,
)
    requires
        length > 0,
        chunks_queued(a, log, address, len, from as int, words + rest, allow_chunks),
        carried(log, after, words, seq![(Direction::Rx, from, length)]),
    ensures
        chunks_queued(a, after, address, len, from + length, rest, allow_chunks),
{
    let done = commands(log).skip(commands(a.base).len() as int);
    lemma_over_on(a.base, log, after, done, words, Direction::Rx, from, length);
    assert(commands(after).skip(commands(a.base).len() as int) =~= done + words);
    assert((done + words) + rest =~= done + (words + rest));
    lemma_still_too_long(a, log, after, len);
}

proof fn lemma_still_too_long(a: DmaAttempts, log: Seq<Access>, after: Seq<Access>, len: nat)
    requires
        extends(log, after),
    ensures
        chain_too_long(a.from, log, len as int) ==> chain_too_long(a.from, after, len as int),
{
    if chain_too_long(a.from, log, len as int) {
        let i = choose|i: int|
            {
                &&& a.from.len() <= i < log.len()
                &&& #[trigger] log[i] is ReadParam
                &&& commands_of(len as int) > fifo_entries(log[i]->ReadParam_0)
            };
        assert(after[i] == log[i]);
        assert(chain_too_long(a.from, after, len as int));
    }
}

impl<H: ControllerPort + DmaPort> I2c<H> {
    /// Opens a DMA read on a fresh transaction.
    pub fn begin_dma_read(&mut self, address: u8, length: usize) -> (r: Result<DmaReadTxn, IOError>)
        requires
            old(self).idle(),
        ensures
            final(self).same_setup(old(self)),
            ({
                let param = entry(old(self).log(), final(self).log(), 0)->ReadParam_0;
                let too_long = commands_of(length as int) > fifo_entries(param) && !old(self).allows_chunks();
                &&& final(self).log() == (if length == 0 {
                    old(self).log()
                } else {
                    old(self).log().push(Access::ReadParam(param))
                })
                &&& match r {
                    Ok(op) => {
                        &&& length > 0 && !too_long && address < 0x80
                        &&& op.fits(final(self))
                        &&& op.address == address
                        &&& op.length == length
                        &&& op.attempts@.from == final(self).log()
                        &&& op.end() is None
                        &&& forall|verdict: Option<DmaVerdict>| #[trigger]
                            op.left(old(self).allows_chunks(), verdict) == whole_read(
                                address,
                                length as nat,
                                old(self).allows_chunks(),
                            )
                        &&& op.stage matches DmaReadStage::Starting(start) && start.unqueued()
                    },
                    Err(e) => {
                        &&& final(self).idle()
                        &&& e == (if length == 0 {
                            IOError::InvalidReadBufferLength
                        } else if too_long {
                            IOError::ChunkingRequired
                        } else {
                            IOError::AddressOutOfRange(address)
                        })
                        &&& (length == 0 || too_long || address >= 0x80)
                    },
                }
            }),
    {
        match self.dma_read_preflight(length) {
            Err(e) => {
                return Err(e);
            },
            Ok(_) => {},
        }
        let ghost checked = self.log();
        match self.begin_start(address, true) {
            Err(e) => Err(e),
            Ok(op) => {
                proof {
                    lemma_moved_nothing(checked, self.log());
                }
                Ok(
                    DmaReadTxn {
                        address,
                        length,
                        attempts: Ghost(DmaAttempts { from: checked, base: checked }),
                        stage: DmaReadStage::Starting(op),
                    },
                )
            },
        }
    }

    /// Opens a DMA read on an open transaction, by a repeated START. A
    /// rejected request recovers the open transaction rather than leaving it.
    pub fn begin_dma_read_continue(&mut self, address: u8, length: usize, open: Session) -> (r: Result<
        DmaReadTxn,
        IOError,
    >)
        requires
            old(self).owns(open@),
            open@.phase is Stable,
        ensures
            final(self).same_setup(old(self)),
            ({
                let param = entry(old(self).log(), final(self).log(), 0)->ReadParam_0;
                let too_long = commands_of(length as int) > fifo_entries(param) && !old(self).allows_chunks();
                let checked = if length == 0 {
                    old(self).log()
                } else {
                    old(self).log().push(Access::ReadParam(param))
                };
                match r {
                    Ok(op) => {
                        &&& length > 0 && !too_long && address < 0x80
                        &&& final(self).log() == checked
                        &&& op.fits(final(self))
                        &&& op.address == address
                        &&& op.length == length
                        &&& op.attempts@.from == checked
                        &&& op.end() is None
                        &&& forall|verdict: Option<DmaVerdict>| #[trigger]
                            op.left(old(self).allows_chunks(), verdict) == whole_read(
                                address,
                                length as nat,
                                old(self).allows_chunks(),
                            )
                        &&& op.stage matches DmaReadStage::Starting(start) && start.unqueued()
                    },
                    Err(e) => {
                        &&& final(self).idle()
                        &&& e == (if length == 0 {
                            IOError::InvalidReadBufferLength
                        } else if too_long {
                            IOError::ChunkingRequired
                        } else {
                            IOError::AddressOutOfRange(address)
                        })
                        &&& (length == 0 || too_long || address >= 0x80)
                        &&& recovered(checked, final(self).log(), open@.phase.clocks())
                    },
                }
            }),
    {
        let ghost entered = self.log();
        match self.dma_read_preflight(length) {
            Err(e) => {
                let ghost checked = self.log();
                self.cancel(open);
                proof {
                    if length > 0 {
                        assert(self.log()[entered.len() as int] == checked[entered.len() as int]);
                    }
                }
                return Err(e);
            },
            Ok(_) => {},
        }
        let ghost checked = self.log();
        match self.begin_repeated_start(address, true, open) {
            Err(e) => {
                assert(self.log()[entered.len() as int] == checked[entered.len() as int]);
                Err(e)
            },
            Ok(op) => {
                proof {
                    lemma_moved_nothing(checked, self.log());
                }
                Ok(
                    DmaReadTxn {
                        address,
                        length,
                        attempts: Ghost(DmaAttempts { from: checked, base: checked }),
                        stage: DmaReadStage::Starting(op),
                    },
                )
            },
        }
    }

    /// Opens the data phase of the chunk that begins at `place`, on its
    /// addressed transaction.
    #[verifier::rlimit(80)]
    fn dma_chunk(
        &mut self,
        address: u8,
        length: usize,
        attempts: Ghost<DmaAttempts>,
        open: Session,
        place: usize,
        max_transfer: usize,
    ) -> (r: Turn<DmaReadTxn, Result<Session, IOError>>)
        requires
            old(self).owns(open@),
            open@.phase.addressed(),
            address < 0x80,
            place < length,
            max_transfer <= u32::MAX,
            old(self).block() <= usize::MAX - 0x070,
            chunks_queued(
                attempts@,
                old(self).log(),
                address,
                length as nat,
                place as int,
                seamed_commands(address, (length - place) as nat),
                old(self).allows_chunks(),
            ),
        ensures
            final(self).same_setup(old(self)),
            match r {
                Turn::Wait(next, wait) => {
                    &&& next.fits(final(self))
                    &&& next.address == address
                    &&& next.length == length
                    &&& next.attempts@.from == attempts@.from
                    &&& !(next.stage is Chained)
                    &&& next.waits_for(wait, old(self).log(), final(self).log(), old(self).budget())
                    &&& extends(old(self).log(), final(self).log())
                    &&& next.end() is None
                },
                Turn::Done(Ok(_)) => false,
                Turn::Done(Err(e)) => {
                    &&& final(self).idle()
                    &&& extends(old(self).log(), final(self).log())
                    &&& forall|verdict: Option<DmaVerdict>| #[trigger]
                        dma_turn_aborted(
                            old(self).log(),
                            final(self).log(),
                            None,
                            verdict,
                            Limit::Untimed,
                            old(self).budget(),
                            only(seamed_commands(address, (length - place) as nat)),
                            e,
                        )
                },
            },
    {
        let ghost entered = self.log();
        let to: usize = if length - place < 256 {
            length
        } else {
            place + 256
        };
        match self.begin_draining(open, place, to, max_transfer) {
            Turn::Wait(next, wait) => Turn::Wait(
                DmaReadTxn { address, length, attempts, stage: DmaReadStage::Chunk(next) },
                wait,
            ),
            Turn::Done(r) => {
                proof {
                    let e = r->Err_0;
                    let rest = seamed_commands(address, (length - place) as nat);
                    lemma_reached_here(entered, rest, rest);
                    assert(begins(rest, receive_commands((to - place) as nat)));
                    assert forall|verdict: Option<DmaVerdict>| #[trigger]
                        dma_turn_aborted(
                            entered,
                            self.log(),
                            None,
                            verdict,
                            Limit::Untimed,
                            self.budget(),
                            only(rest),
                            e,
                        ) by {
                        assert(dma_step_aborted(
                            entered,
                            self.log(),
                            None,
                            verdict,
                            Limit::Untimed,
                            self.budget(),
                            rest,
                            e,
                        ));
                    }
                }
                Turn::Done(r)
            },
        }
    }

    /// One turn of the START of a chunk, and the opening of its data phase.
    #[verifier::rlimit(80)]
    fn dma_restart_turn(
        &mut self,
        address: u8,
        length: usize,
        attempts: Ghost<DmaAttempts>,
        op: StartOp,
        place: usize,
        max_transfer: usize,
        waited: Option<WaitOutcome>,
    ) -> (r: Turn<DmaReadTxn, Result<Session, IOError>>)
        requires
            (DmaReadTxn { address, length, attempts, stage: DmaReadStage::Restarting(op, place) }).fits(old(self)),
            max_transfer <= u32::MAX,
            old(self).block() <= usize::MAX - 0x070,
        ensures
            final(self).same_setup(old(self)),
            match r {
                Turn::Wait(next, wait) => {
                    &&& next.fits(final(self))
                    &&& next.address == address
                    &&& next.length == length
                    &&& next.attempts@.from == attempts@.from
                    &&& !(next.stage is Chained)
                    &&& wait_error(waited, IOError::Other) is None
                    &&& next.waits_for(wait, old(self).log(), final(self).log(), old(self).budget())
                    &&& extends(old(self).log(), final(self).log())
                    &&& on_time(old(self).log(), final(self).log(), old(self).budget(), op.end(), next.end())
                },
                Turn::Done(Ok(_)) => false,
                Turn::Done(Err(e)) => {
                    &&& final(self).idle()
                    &&& extends(old(self).log(), final(self).log())
                    &&& forall|verdict: Option<DmaVerdict>| #[trigger]
                        dma_turn_aborted(
                            old(self).log(),
                            final(self).log(),
                            waited,
                            verdict,
                            op.limit(old(self).budget()),
                            old(self).budget(),
                            only(
                                one_word(op.unqueued(), op.word()) + seamed_commands(
                                    address,
                                    (length - place) as nat,
                                ),
                            ),
                            e,
                        )
                },
            },
    {
        let ghost entered = self.log();
        let ghost limit = op.limit(self.budget());
        let ghost word = op.word();
        let ghost rest = seamed_commands(address, (length - place) as nat);
        let ghost first = op.unqueued();
        let ghost left = only(one_word(first, word) + rest);
        match self.start_turn(op, waited) {
            Turn::Wait(next, wait) => {
                proof {
                    let words = one_word(first && !next.unqueued(), word);
                    assert(one_word(first, word) + rest =~= words + (one_word(next.unqueued(), word) + rest));
                    lemma_queued_on(
                        attempts@,
                        entered,
                        self.log(),
                        address,
                        length as nat,
                        place as int,
                        words,
                        one_word(next.unqueued(), word) + rest,
                        self.allows_chunks(),
                    );
                }
                Turn::Wait(
                    DmaReadTxn { address, length, attempts, stage: DmaReadStage::Restarting(next, place) },
                    wait,
                )
            },
            Turn::Done(Err(e)) => {
                proof {
                    lemma_turn_extends(
                        entered,
                        self.log(),
                        waited,
                        IOError::Other,
                        limit,
                        one_word(first, word),
                        e,
                        op.may_clock(),
                    );
                    lemma_reached_here(entered, left.straight, one_word(first, word));
                    assert forall|verdict: Option<DmaVerdict>| #[trigger]
                        dma_turn_aborted(entered, self.log(), waited, verdict, limit, self.budget(), left, e) by {
                        lemma_turn_step(
                            entered,
                            self.log(),
                            waited,
                            limit,
                            verdict,
                            limit,
                            self.budget(),
                            one_word(first, word),
                            e,
                            op.may_clock(),
                        );
                    }
                }
                Turn::Done(Err(e))
            },
            Turn::Done(Ok(open)) => {
                let ghost opened = self.log();
                proof {
                    lemma_queued_on(
                        attempts@,
                        entered,
                        opened,
                        address,
                        length as nat,
                        place as int,
                        one_word(first, word),
                        rest,
                        self.allows_chunks(),
                    );
                }
                let r = self.dma_chunk(address, length, attempts, open, place, max_transfer);
                proof {
                    if let Turn::Done(Err(e)) = r {
                        lemma_carries_straight(entered, left, opened, one_word(first, word), rest);
                        assert forall|verdict: Option<DmaVerdict>| #[trigger]
                            dma_turn_aborted(entered, self.log(), waited, verdict, limit, self.budget(), left, e) by {
                            assert(dma_turn_aborted(
                                opened,
                                self.log(),
                                None,
                                verdict,
                                Limit::Untimed,
                                self.budget(),
                                only(rest),
                                e,
                            ));
                            lemma_later_step(
                                entered,
                                opened,
                                self.log(),
                                waited,
                                verdict,
                                limit,
                                self.budget(),
                                left,
                                only(rest),
                                e,
                            );
                        }
                    }
                }
                r
            },
        }
    }

    /// Goes on with the chunk that begins at `place`, on a fresh transaction.
    #[verifier::rlimit(80)]
    fn next_dma_chunk(
        &mut self,
        address: u8,
        length: usize,
        attempts: Ghost<DmaAttempts>,
        place: usize,
        max_transfer: usize,
    ) -> (r: Turn<DmaReadTxn, Result<Session, IOError>>)
        requires
            old(self).idle(),
            address < 0x80,
            place < length,
            max_transfer <= u32::MAX,
            old(self).block() <= usize::MAX - 0x070,
            chunks_queued(
                attempts@,
                old(self).log(),
                address,
                length as nat,
                place as int,
                seq![start_word(address, true)] + seamed_commands(address, (length - place) as nat),
                old(self).allows_chunks(),
            ),
        ensures
            final(self).same_setup(old(self)),
            match r {
                Turn::Wait(next, wait) => {
                    &&& next.fits(final(self))
                    &&& next.address == address
                    &&& next.length == length
                    &&& next.attempts@.from == attempts@.from
                    &&& !(next.stage is Chained)
                    &&& next.waits_for(wait, old(self).log(), final(self).log(), old(self).budget())
                    &&& extends(old(self).log(), final(self).log())
                    &&& on_time(old(self).log(), final(self).log(), old(self).budget(), None, next.end())
                },
                Turn::Done(Ok(_)) => false,
                Turn::Done(Err(e)) => {
                    &&& final(self).idle()
                    &&& extends(old(self).log(), final(self).log())
                    &&& forall|verdict: Option<DmaVerdict>| #[trigger]
                        dma_turn_aborted(
                            old(self).log(),
                            final(self).log(),
                            None,
                            verdict,
                            Limit::Untimed,
                            old(self).budget(),
                            only(
                                seq![start_word(address, true)] + seamed_commands(address, (length - place) as nat),
                            ),
                            e,
                        )
                },
            },
    {
        let ghost entered = self.log();
        let ghost left = only(seq![start_word(address, true)] + seamed_commands(address, (length - place) as nat));
        match self.begin_start(address, true) {
            Err(e) => Turn::Done(Err(e)),
            Ok(op) => {
                proof {
                    let rest = seamed_commands(address, (length - place) as nat);
                    assert(one_word(op.unqueued(), op.word()) + rest =~= left.straight);
                }
                let r = self.dma_restart_turn(address, length, attempts, op, place, max_transfer, None);
                proof {
                    if let Turn::Done(Err(e)) = r {
                        assert forall|verdict: Option<DmaVerdict>| #[trigger]
                            dma_turn_aborted(
                                entered,
                                self.log(),
                                None,
                                verdict,
                                Limit::Untimed,
                                self.budget(),
                                left,
                                e,
                            ) by {
                            assert(dma_turn_aborted(
                                entered,
                                self.log(),
                                None,
                                verdict,
                                Limit::Within(self.budget()),
                                self.budget(),
                                left,
                                e,
                            ));
                            lemma_later_step(
                                entered,
                                entered,
                                self.log(),
                                None,
                                verdict,
                                Limit::Untimed,
                                self.budget(),
                                left,
                                left,
                                e,
                            );
                        }
                    }
                }
                r
            },
        }
    }

    /// A first attempt that failed: a second one in chunks, only where the
    /// caller accepted that a half-read device may answer from another place.
    fn after_failed_drain(
        &mut self,
        address: u8,
        length: usize,
        attempts: Ghost<DmaAttempts>,
        error: IOError,
        max_transfer: usize,
    ) -> (r: Turn<DmaReadTxn, Result<Session, IOError>>)
        requires
            old(self).idle(),
            address < 0x80,
            length > 0,
            max_transfer <= u32::MAX,
            old(self).block() <= usize::MAX - 0x070,
            cut_short(attempts@.from, old(self).log(), read_commands(address, length as nat), false),
        ensures
            final(self).same_setup(old(self)),
            match r {
                Turn::Wait(next, wait) => {
                    &&& old(self).allows_chunks() && retryable(error)
                    &&& next.fits(final(self))
                    &&& next.address == address
                    &&& next.length == length
                    &&& next.attempts@.from == attempts@.from
                    &&& !(next.stage is Chained)
                    &&& next.waits_for(wait, old(self).log(), final(self).log(), old(self).budget())
                    &&& extends(old(self).log(), final(self).log())
                    &&& on_time(old(self).log(), final(self).log(), old(self).budget(), None, next.end())
                },
                Turn::Done(Ok(_)) => false,
                Turn::Done(Err(e)) => {
                    &&& final(self).idle()
                    &&& extends(old(self).log(), final(self).log())
                    &&& if old(self).allows_chunks() && retryable(error) {
                        forall|verdict: Option<DmaVerdict>| #[trigger]
                            dma_turn_aborted(
                                old(self).log(),
                                final(self).log(),
                                None,
                                verdict,
                                Limit::Untimed,
                                old(self).budget(),
                                only(chunked_commands(address, length as nat)),
                                e,
                            )
                    } else {
                        e == error && final(self).log() == old(self).log()
                    }
                },
            },
    {
        if !(self.allow_chunked_reads && (error == IOError::UnexpectedStop || error == IOError::Timeout)) {
            return Turn::Done(Err(error));
        }
        let ghost again = DmaAttempts { base: self.log(), ..attempts@ };
        proof {
            let none = Seq::<Mtdr>::empty();
            lemma_moved_nothing(self.log(), self.log());
            lemma_over_nothing(self.log(), self.log(), none, Direction::Rx);
            assert(commands(self.log()).skip(commands(self.log()).len() as int) =~= none);
            assert(none + chunked_commands(address, length as nat) =~= chunked_commands(address, length as nat));
        }
        self.next_dma_chunk(address, length, Ghost(again), 0, max_transfer)
    }

    /// Goes on once the first START has settled: chained where the command
    /// FIFO can hold the whole pipeline, in chunks otherwise, the first of
    /// which runs on the transaction that is already open.
    #[verifier::rlimit(100)]
    fn dma_resume(
        &mut self,
        address: u8,
        length: usize,
        attempts: Ghost<DmaAttempts>,
        open: Session,
        max_transfer: usize,
    ) -> (r: Turn<DmaReadTxn, Result<Session, IOError>>)
        requires
            old(self).owns(open@),
            open@.phase.addressed(),
            address < 0x80,
            length > 0,
            max_transfer <= u32::MAX,
            old(self).block() <= usize::MAX - 0x070,
            moved(attempts@.from, old(self).log(), seq![start_word(address, true)], Seq::empty()),
        ensures
            final(self).same_setup(old(self)),
            match r {
                Turn::Wait(next, wait) => {
                    &&& next.fits(final(self))
                    &&& next.address == address
                    &&& next.length == length
                    &&& next.attempts@.from == attempts@.from
                    &&& next.waits_for(wait, old(self).log(), final(self).log(), old(self).budget())
                    &&& extends(old(self).log(), final(self).log())
                    &&& on_time(old(self).log(), final(self).log(), old(self).budget(), None, next.end())
                },
                Turn::Done(Ok(_)) => false,
                Turn::Done(Err(e)) => {
                    &&& final(self).idle()
                    &&& forall|verdict: Option<DmaVerdict>| #[trigger]
                        dma_turn_aborted(
                            old(self).log(),
                            final(self).log(),
                            None,
                            verdict,
                            Limit::Untimed,
                            old(self).budget(),
                            rest_of_read(address, length as nat, old(self).allows_chunks()),
                            e,
                        )
                    &&& old(self).allows_chunks() && retryable(e) ==> forall|verdict: Option<DmaVerdict>| #[trigger]
                        resumed_twice(
                            old(self).log(),
                            final(self).log(),
                            verdict,
                            old(self).budget(),
                            address,
                            length,
                            e,
                        )
                },
            },
    {
        let ghost entered = self.log();
        let ghost start = seq![start_word(address, true)];
        let ghost left = rest_of_read(address, length as nat, self.allows_chunks());
        let ghost receives = receive_commands(length as nat);
        let chained = self.chain_fits(length);
        let ghost checked = self.log();
        assert(moved(attempts@.from, checked, start, Seq::empty()));
        if !chained {
            let ghost straight = DmaAttempts { base: attempts@.from, ..attempts@ };
            proof {
                assert(checked[entered.len() as int] is ReadParam);
                assert(chain_too_long(straight.from, checked, length as int));
                assert(commands(checked).skip(commands(straight.base).len() as int) =~= start);
                lemma_over_nothing(straight.base, checked, start, Direction::Rx);
            }
            let r = self.dma_chunk(address, length, Ghost(straight), open, 0, max_transfer);
            proof {
                if let Turn::Done(Err(e)) = r {
                    assert(self.log()[entered.len() as int] == checked[entered.len() as int]);
                    assert(chain_too_long(entered, self.log(), length as int));
                    let later = only(left.straight);
                    assert((length - 0usize) as nat == length as nat);
                    let none = Seq::<Mtdr>::empty();
                    assert(commands(checked) =~= commands(entered) + none);
                    assert(none + left.straight =~= left.straight);
                    lemma_carries_straight(entered, left, checked, none, left.straight);
                    assert forall|verdict: Option<DmaVerdict>| #[trigger]
                        dma_turn_aborted(
                            entered,
                            self.log(),
                            None,
                            verdict,
                            Limit::Untimed,
                            self.budget(),
                            left,
                            e,
                        ) by {
                        assert(dma_turn_aborted(
                            checked,
                            self.log(),
                            None,
                            verdict,
                            Limit::Untimed,
                            self.budget(),
                            later,
                            e,
                        ));
                        lemma_later_step(
                            entered,
                            checked,
                            self.log(),
                            None,
                            verdict,
                            Limit::Untimed,
                            self.budget(),
                            left,
                            later,
                            e,
                        );
                    }
                }
            }
            return r;
        }
        match self.begin_draining(open, 0, length, max_transfer) {
            Turn::Wait(next, wait) => Turn::Wait(
                DmaReadTxn { address, length, attempts, stage: DmaReadStage::Chained(next) },
                wait,
            ),
            Turn::Done(Ok(open)) => Turn::Done(Ok(open)),
            Turn::Done(Err(e)) => {
                let ghost failed_at = self.log();
                proof {
                    let none = Seq::<Mtdr>::empty();
                    lemma_begin_cut(checked, failed_at, self.budget(), length, max_transfer, e);
                    let told = retryable(e);
                    lemma_cut_earlier(attempts@.from, checked, failed_at, start, receives, start + receives, told);
                    lemma_cut_untold(attempts@.from, failed_at, start + receives, told);
                    assert(commands(checked) =~= commands(entered) + none);
                    assert(none + receives =~= receives);
                    lemma_cut_earlier(entered, checked, failed_at, none, receives, receives, told);
                    lemma_reached(entered, checked, none, receives, receives);
                }
                let r = self.after_failed_drain(address, length, attempts, e, max_transfer);
                proof {
                    if r is Wait {
                        lemma_on_time(entered, failed_at, self.log(), self.budget(), None, r->Wait_0.end());
                    }
                    if let Turn::Done(Err(last)) = r {
                        if self.allows_chunks() && retryable(last) {
                            assert forall|verdict: Option<DmaVerdict>| #[trigger]
                                resumed_twice(
                                    entered,
                                    self.log(),
                                    verdict,
                                    self.budget(),
                                    address,
                                    length,
                                    last,
                                ) by {
                                assert(dma_turn_aborted(
                                    failed_at,
                                    self.log(),
                                    None,
                                    verdict,
                                    Limit::Untimed,
                                    self.budget(),
                                    only(left.again),
                                    last,
                                ));
                                lemma_failed_again(
                                    entered,
                                    failed_at,
                                    self.log(),
                                    verdict,
                                    self.budget(),
                                    left,
                                    last,
                                );
                            }
                        }
                        assert forall|verdict: Option<DmaVerdict>| #[trigger]
                            dma_turn_aborted(
                                entered,
                                self.log(),
                                None,
                                verdict,
                                Limit::Untimed,
                                self.budget(),
                                left,
                                last,
                            ) by {
                            if self.allows_chunks() && retryable(e) {
                                let later = only(left.again);
                                assert(dma_turn_aborted(
                                    failed_at,
                                    self.log(),
                                    None,
                                    verdict,
                                    Limit::Untimed,
                                    self.budget(),
                                    later,
                                    last,
                                ));
                                lemma_carries_again(entered, left, failed_at);
                                lemma_later_step(
                                    entered,
                                    failed_at,
                                    self.log(),
                                    None,
                                    verdict,
                                    Limit::Untimed,
                                    self.budget(),
                                    left,
                                    later,
                                    last,
                                );
                            } else {
                                assert(dma_step_aborted(
                                    checked,
                                    self.log(),
                                    None,
                                    verdict,
                                    Limit::Untimed,
                                    self.budget(),
                                    receives,
                                    last,
                                ));
                            }
                        }
                    }
                }
                r
            },
        }
    }

    /// One turn of a DMA read. `waited` says how a wait for a START or a STOP
    /// ended, `verdict` how a transfer did. The read ends with the transaction
    /// open.
    #[verifier::rlimit(100)]
    pub fn dma_read_turn(
        &mut self,
        op: DmaReadTxn,
        max_transfer: usize,
        waited: Option<WaitOutcome>,
        verdict: Option<DmaVerdict>,
    ) -> (r: Turn<DmaReadTxn, Result<Session, IOError>>)
        requires
            verdict_seen(old(self).log(), verdict),
            op.fits(old(self)),
            max_transfer <= u32::MAX,
            old(self).block() <= usize::MAX - 0x070,
        ensures
            final(self).same_setup(old(self)),
            op.quiets(old(self).log(), final(self).log()),
            match r {
                Turn::Wait(next, wait) => {
                    &&& next.fits(final(self))
                    &&& op.followed_by(next, wait, old(self).log(), final(self).log(), old(self).budget())
                    &&& op.heeded(next, waited, verdict, old(self).allows_chunks())
                },
                Turn::Done(Ok(open)) => {
                    &&& final(self).owns(open@)
                    &&& open@.phase == SessionPhase::Stable(Abort::ReadStreaming)
                    &&& verdict == Some(DmaVerdict::Complete)
                    &&& match op.stage {
                        DmaReadStage::Chained(draining) | DmaReadStage::Chunk(draining) => dma_completed(
                            old(self).log(),
                            final(self).log(),
                            Direction::Rx,
                            (draining.to - draining.from) as usize,
                        ),
                        _ => false,
                    }
                    &&& dma_read_opened(
                        op.attempts@.from,
                        final(self).log(),
                        op.address,
                        op.length as nat,
                        old(self).allows_chunks(),
                    )
                },
                Turn::Done(Err(e)) => {
                    &&& final(self).idle()
                    &&& dma_turn_aborted(
                        old(self).log(),
                        final(self).log(),
                        waited,
                        verdict,
                        op.limit(old(self).budget()),
                        old(self).budget(),
                        op.left(old(self).allows_chunks(), verdict),
                        e,
                    )
                    &&& old(self).allows_chunks() && retryable(e) ==> op.failed_twice(
                        old(self).log(),
                        final(self).log(),
                        waited,
                        verdict,
                        old(self).budget(),
                        e,
                    )
                },
            },
    {
        let ghost entered = self.log();
        let ghost budget = self.budget();
        let ghost limit = op.limit(budget);
        let ghost allow = self.allows_chunks();
        let ghost left = op.left(allow, verdict);
        let ghost none = Seq::<u8>::empty();
        let address = op.address;
        let length = op.length;
        let attempts = op.attempts;
        assert(extends(entered, entered));
        assert(none + none =~= none);
        match op.stage {
            DmaReadStage::Starting(start) => {
                let ghost first = start.unqueued();
                let ghost word = start.word();
                match self.start_turn(start, waited) {
                    Turn::Wait(next, wait) => {
                        proof {
                            let words = one_word(first && !next.unqueued(), word);
                            lemma_moved(attempts@.from, entered, self.log(), one_word(!first, word), words, none, none);
                            assert(one_word(!first, word) + words =~= one_word(!next.unqueued(), word));
                        }
                        Turn::Wait(
                            DmaReadTxn { address, length, attempts, stage: DmaReadStage::Starting(next) },
                            wait,
                        )
                    },
                    Turn::Done(Err(e)) => {
                        proof {
                            lemma_turn_step(
                                entered,
                                self.log(),
                                waited,
                                limit,
                                verdict,
                                limit,
                                budget,
                                one_word(first, word),
                                e,
                                start.may_clock(),
                            );
                            lemma_reached_here(entered, left.all, one_word(first, word));
                        }
                        Turn::Done(Err(e))
                    },
                    Turn::Done(Ok(open)) => {
                        let ghost opened = self.log();
                        proof {
                            lemma_moved(
                                attempts@.from,
                                entered,
                                opened,
                                one_word(!first, word),
                                one_word(first, word),
                                none,
                                none,
                            );
                            assert(one_word(!first, word) + one_word(first, word) =~= seq![word]);
                        }
                        let r = self.dma_resume(address, length, attempts, open, max_transfer);
                        proof {
                            if r is Wait {
                                lemma_on_time(entered, opened, self.log(), budget, op.end(), r->Wait_0.end());
                            }
                            if let Turn::Done(Err(e)) = r {
                                let later = rest_of_read(address, length as nat, allow);
                                assert(dma_turn_aborted(
                                    opened,
                                    self.log(),
                                    None,
                                    verdict,
                                    Limit::Untimed,
                                    budget,
                                    later,
                                    e,
                                ));
                                if allow && retryable(e) {
                                    assert(resumed_twice(
                                        opened,
                                        self.log(),
                                        verdict,
                                        budget,
                                        address,
                                        length,
                                        e,
                                    ));
                                    lemma_resumed_twice(
                                        entered,
                                        opened,
                                        self.log(),
                                        verdict,
                                        budget,
                                        address,
                                        length,
                                        one_word(first, word),
                                        left,
                                        e,
                                    );
                                }
                                lemma_carries(entered, left, opened, one_word(first, word), later);
                                lemma_later_step(
                                    entered,
                                    opened,
                                    self.log(),
                                    waited,
                                    verdict,
                                    limit,
                                    budget,
                                    left,
                                    later,
                                    e,
                                );
                            }
                        }
                        r
                    },
                }
            },
            DmaReadStage::Chained(draining) => {
                let ghost begun = draining.begun@;
                match self.drain_turn(draining, verdict) {
                    Ok(open) => {
                        proof {
                            let start = seq![start_word(address, true)];
                            let all = receive_commands(length as nat);
                            lemma_over_nothing(attempts@.from, begun, start, Direction::Rx);
                            lemma_over_on(
                                attempts@.from,
                                begun,
                                self.log(),
                                start,
                                all,
                                Direction::Rx,
                                0,
                                length,
                            );
                        }
                        Turn::Done(Ok(open))
                    },
                    Err(e) => {
                        let ghost failed_at = self.log();
                        proof {
                            let none = Seq::<Mtdr>::empty();
                            let whole = read_commands(address, length as nat);
                            lemma_drain_cut(entered, failed_at, length, verdict, e);
                            let start = seq![start_word(address, true)];
                            lemma_over_nothing(attempts@.from, begun, start, Direction::Rx);
                            lemma_over_on(
                                attempts@.from,
                                begun,
                                entered,
                                start,
                                receive_commands(length as nat),
                                Direction::Rx,
                                0,
                                length,
                            );
                            assert(whole + none =~= whole);
                            lemma_cut_earlier(attempts@.from, entered, failed_at, whole, none, whole, false);
                            assert(dma_step_aborted(entered, failed_at, waited, verdict, limit, budget, none, e));
                            lemma_reached_here(entered, none, none);
                        }
                        let r = self.after_failed_drain(address, length, attempts, e, max_transfer);
                        proof {
                            lemma_finished_later(entered, failed_at, self.log(), Direction::Rx, length);
                            if r is Wait {
                                lemma_on_time(entered, failed_at, self.log(), budget, op.end(), r->Wait_0.end());
                            }
                            if let Turn::Done(Err(last)) = r {
                                if allow && retryable(e) {
                                    let later = only(left.again);
                                    assert(dma_turn_aborted(
                                        failed_at,
                                        self.log(),
                                        None,
                                        verdict,
                                        Limit::Untimed,
                                        budget,
                                        later,
                                        last,
                                    ));
                                    lemma_carries_again(entered, left, failed_at);
                                    lemma_later_step(
                                        entered,
                                        failed_at,
                                        self.log(),
                                        waited,
                                        verdict,
                                        limit,
                                        budget,
                                        left,
                                        later,
                                        last,
                                    );
                                }
                            }
                        }
                        r
                    },
                }
            },
            DmaReadStage::Restarting(start, place) => {
                let r = self.dma_restart_turn(address, length, attempts, start, place, max_transfer, waited);
                proof {
                    if let Turn::Done(Err(e)) = r {
                        assert(dma_turn_aborted(entered, self.log(), waited, verdict, limit, budget, left, e));
                    }
                }
                r
            },
            DmaReadStage::Chunk(draining) => {
                let ghost begun = draining.begun@;
                let from: usize = draining.from;
                let to: usize = draining.to;
                let ghost rest = seamed_commands(address, (length - from) as nat);
                match self.drain_turn(draining, verdict) {
                    Err(e) => {
                        proof {
                            lemma_reached_here(entered, left.straight, Seq::empty());
                            assert(dma_step_aborted(
                                entered,
                                self.log(),
                                waited,
                                verdict,
                                limit,
                                budget,
                                Seq::empty(),
                                e,
                            ));
                        }
                        Turn::Done(Err(e))
                    },
                    Ok(open) => {
                        let ghost drained = self.log();
                        let ghost one = receive_commands((to - from) as nat);
                        let ghost tail = if to < length {
                            stop_start(address, (length - to) as nat)
                        } else {
                            Seq::empty()
                        };
                        proof {
                            assert(one =~= seq![receive_word((to - from) as nat)]);
                            assert(rest =~= one + tail);
                            lemma_drawn_on(
                                attempts@,
                                begun,
                                drained,
                                address,
                                length as nat,
                                from,
                                (to - from) as usize,
                                one,
                                tail,
                                allow,
                            );
                        }
                        if to == length {
                            proof {
                                let a = attempts@;
                                let words = commands(drained).skip(commands(a.base).len() as int);
                                assert(words + Seq::<Mtdr>::empty() =~= words);
                                assert(chunks_begin(a, drained, address, length as int, allow));
                            }
                            return Turn::Done(Ok(open));
                        }
                        // A repeated START right after the automatic NACK of a
                        // consumed RECEIVE is not reliably accepted, so every
                        // chunk but the last ends with a STOP.
                        match self.stop_turn(StopOp::Unqueued(open), None) {
                            Turn::Wait(next, wait) => {
                                proof {
                                    lemma_finished_later(
                                        entered,
                                        drained,
                                        self.log(),
                                        Direction::Rx,
                                        (to - from) as usize,
                                    );
                                    lemma_on_time(entered, drained, self.log(), budget, op.end(), next.end());
                                    let words = one_word(!(next is Unqueued), stop_word());
                                    let after = one_word(next is Unqueued, stop_word()) + (seq![
                                        start_word(address, true),
                                    ] + seamed_commands(address, (length - to) as nat));
                                    assert(tail =~= words + after);
                                    lemma_queued_on(
                                        attempts@,
                                        drained,
                                        self.log(),
                                        address,
                                        length as nat,
                                        to as int,
                                        words,
                                        after,
                                        allow,
                                    );
                                }
                                Turn::Wait(
                                    DmaReadTxn { address, length, attempts, stage: DmaReadStage::Seaming(next, to) },
                                    wait,
                                )
                            },
                            // A STOP that was just begun is not over yet.
                            Turn::Done(Ok(_)) => Turn::Done(Err(IOError::Other)),
                            Turn::Done(Err(e)) => {
                                proof {
                                    let none = Seq::<Mtdr>::empty();
                                    let stop = seq![stop_word()];
                                    lemma_turn_extends(
                                        drained,
                                        self.log(),
                                        None,
                                        IOError::Other,
                                        Limit::Untimed,
                                        stop,
                                        e,
                                        false,
                                    );
                                    lemma_finished_later(
                                        entered,
                                        drained,
                                        self.log(),
                                        Direction::Rx,
                                        (to - from) as usize,
                                    );
                                    lemma_turn_step(
                                        drained,
                                        self.log(),
                                        None,
                                        Limit::Untimed,
                                        verdict,
                                        limit,
                                        budget,
                                        stop,
                                        e,
                                        false,
                                    );
                                    assert(commands(drained) =~= commands(entered) + none);
                                    assert(none + stop =~= stop);
                                    lemma_reached(entered, drained, none, stop, left.straight);
                                }
                                Turn::Done(Err(e))
                            },
                        }
                    },
                }
            },
            DmaReadStage::Seaming(stop, place) => {
                let ghost first = stop is Unqueued;
                let ghost on = seq![start_word(address, true)] + seamed_commands(address, (length - place) as nat);
                match self.stop_turn(stop, waited) {
                    Turn::Wait(next, wait) => {
                        proof {
                            let words = one_word(first && !(next is Unqueued), stop_word());
                            let after = one_word(next is Unqueued, stop_word()) + on;
                            assert(one_word(first, stop_word()) + on =~= words + after);
                            lemma_queued_on(
                                attempts@,
                                entered,
                                self.log(),
                                address,
                                length as nat,
                                place as int,
                                words,
                                after,
                                allow,
                            );
                        }
                        Turn::Wait(
                            DmaReadTxn { address, length, attempts, stage: DmaReadStage::Seaming(next, place) },
                            wait,
                        )
                    },
                    Turn::Done(Err(e)) => {
                        proof {
                            let stop = one_word(first, stop_word());
                            lemma_turn_step(entered, self.log(), waited, limit, verdict, limit, budget, stop, e, false);
                            lemma_reached_here(entered, left.straight, stop);
                        }
                        Turn::Done(Err(e))
                    },
                    Turn::Done(Ok(_)) => {
                        let ghost closed = self.log();
                        proof {
                            lemma_moved_nothing(entered, closed);
                            assert(one_word(first, stop_word()) + on =~= Seq::<Mtdr>::empty() + on);
                            lemma_queued_on(
                                attempts@,
                                entered,
                                closed,
                                address,
                                length as nat,
                                place as int,
                                Seq::empty(),
                                on,
                                allow,
                            );
                        }
                        let r = self.next_dma_chunk(address, length, attempts, place, max_transfer);
                        proof {
                            if r is Wait {
                                lemma_on_time(entered, closed, self.log(), budget, op.end(), r->Wait_0.end());
                            }
                            if let Turn::Done(Err(e)) = r {
                                let none = Seq::<Mtdr>::empty();
                                assert(dma_turn_aborted(
                                    closed,
                                    self.log(),
                                    None,
                                    verdict,
                                    Limit::Untimed,
                                    budget,
                                    only(on),
                                    e,
                                ));
                                assert(commands(closed) =~= commands(entered) + none);
                                lemma_carries_straight(entered, left, closed, none, on);
                                lemma_later_step(
                                    entered,
                                    closed,
                                    self.log(),
                                    waited,
                                    verdict,
                                    limit,
                                    budget,
                                    left,
                                    only(on),
                                    e,
                                );
                            }
                        }
                        r
                    },
                }
            },
        }
    }

    /// Gives a DMA read up: a running channel is shut down before the bus is
    /// recovered.
    pub fn cancel_dma_read(&mut self, op: DmaReadTxn)
        requires
            op.fits(old(self)),
        ensures
            final(self).same_setup(old(self)),
            final(self).idle(),
            extends(old(self).log(), final(self).log()),
            recoveries(final(self).log()).len() == recoveries(old(self).log()).len() + 1,
            match op.stage {
                DmaReadStage::Chained(draining) | DmaReadStage::Chunk(draining) => dma_aborted(
                    old(self).log(),
                    final(self).log(),
                    Direction::Rx,
                    (draining.to - draining.from) as usize,
                    None,
                    IOError::Timeout,
                    true,
                ),
                _ => recovered(old(self).log(), final(self).log(), true),
            },
    {
        let ghost entered = self.log();
        assert(extends(entered, taken_over(entered, self.log())));
        match op.stage {
            DmaReadStage::Starting(start) | DmaReadStage::Restarting(start, _) => {
                self.cancel_start(start);
                proof {
                    lemma_recovered_weaken(entered, self.log(), start.may_clock(), true);
                }
            },
            DmaReadStage::Chained(draining) | DmaReadStage::Chunk(draining) => {
                // To the channel and to the bus a dropped transfer is one
                // whose time ran out.
                let ghost length = (draining.to - draining.from) as usize;
                let _ = self.drain_turn(draining, None);
                proof {
                    lemma_drain_cut(entered, self.log(), length, None, IOError::Timeout);
                    lemma_cut_recovers(entered, self.log(), Seq::empty(), false);
                }
            },
            DmaReadStage::Seaming(stop, _) => {
                self.cancel_stop(stop);
                proof {
                    lemma_recovered_weaken(entered, self.log(), false, true);
                }
            },
        }
    }
}

/// Where a DMA write stands.
pub enum DmaWriteStage {
    Starting(StartOp),
    Pouring(Pouring),
}

/// A DMA write in progress.
pub struct DmaWriteTxn {
    pub address: u8,
    pub length: usize,
    /// The history before the START.
    pub from: Ghost<Seq<Access>>,
    pub stage: DmaWriteStage,
}

impl DmaWriteTxn {
    /// The write belongs to what is open on `i2c`.
    pub open spec fn fits<H>(self, i2c: &I2c<H>) -> bool {
        &&& self.address < 0x80
        &&& match self.stage {
            DmaWriteStage::Starting(op) => {
                &&& op.fits(i2c)
                &&& op.word() == start_word(self.address, false)
                &&& !op.action.reads()
                &&& moved(self.from@, i2c.log(), one_word(!op.unqueued(), op.word()), Seq::empty())
            },
            DmaWriteStage::Pouring(op) => {
                &&& op.fits(i2c, self.length as int)
                &&& moved(self.from@, op.begun@, seq![start_word(self.address, false)], Seq::empty())
            },
        }
    }

    /// A turn that ends a transfer shuts its channel down before anything
    /// else.
    pub open spec fn quiets(self, before: Seq<Access>, after: Seq<Access>) -> bool {
        self.stage matches DmaWriteStage::Pouring(op) ==> finished_first(
            before,
            after,
            Direction::Tx,
            (op.to - op.from) as usize,
        )
    }

    /// A write in its data phase failed: at the transfer that was under way,
    /// or because the engine refused the one behind it.
    pub open spec fn poured_out(
        self,
        before: Seq<Access>,
        after: Seq<Access>,
        verdict: Option<DmaVerdict>,
        max_transfer: usize,
        error: IOError,
    ) -> bool {
        self.stage matches DmaWriteStage::Pouring(op) ==> {
            let done = (op.to - op.from) as usize;
            let next = chunk_end_at(self.length as int, op.to as int, max_transfer as int) - op.to;
            ||| dma_aborted(before, after, Direction::Tx, done, verdict, error, false)
            ||| {
                &&& verdict == Some(DmaVerdict::Complete)
                &&& refused_behind(before, after, done, next as usize, max_transfer, error)
            }
        }
    }

    /// What the write waits for at `log`. Behind `before` a transfer was
    /// armed, or a look found what is waited for missing.
    pub open spec fn waits_for(self, wait: Wait, before: Seq<Access>, log: Seq<Access>, timeout: u64) -> bool {
        match self.stage {
            DmaWriteStage::Starting(op) => op.waits_for(wait, before, log, timeout),
            DmaWriteStage::Pouring(op) => {
                &&& wait == Wait::TxDma(dma_bound(timeout, (op.to - op.from) as usize))
                &&& armed_behind(before, log, Direction::Tx)
            },
        }
    }

    /// How a turn that goes on took the wait that it came with, or the verdict
    /// on its transfer: a wait that failed ends the write, and the next
    /// transfer follows only on one that completed.
    pub open spec fn heeded(
        self,
        next: DmaWriteTxn,
        before: Seq<Access>,
        after: Seq<Access>,
        waited: Option<WaitOutcome>,
        verdict: Option<DmaVerdict>,
    ) -> bool {
        match self.stage {
            DmaWriteStage::Starting(_) => wait_error(waited, IOError::Other) is None,
            DmaWriteStage::Pouring(op) => {
                &&& verdict == Some(DmaVerdict::Complete)
                &&& next.stage matches DmaWriteStage::Pouring(later) && later.from == op.to
                &&& completed_first(before, after, Direction::Tx, (op.to - op.from) as usize)
            },
        }
    }

    /// The deadline of a queued START.
    pub open spec fn end(self) -> Option<u64> {
        match self.stage {
            DmaWriteStage::Starting(op) => op.end(),
            DmaWriteStage::Pouring(_) => None,
        }
    }

    /// The commands that are left to the write: the channel feeds the bytes.
    pub open spec fn rest(self) -> Seq<Mtdr> {
        match self.stage {
            DmaWriteStage::Starting(op) => one_word(op.unqueued(), op.word()),
            DmaWriteStage::Pouring(_) => Seq::empty(),
        }
    }

    /// What bounds the step that a turn begins with.
    pub open spec fn limit(self, budget: u64) -> Limit {
        match self.stage {
            DmaWriteStage::Starting(op) => op.limit(budget),
            DmaWriteStage::Pouring(_) => Limit::Untimed,
        }
    }
}

/// A DMA write opened by its START and not yet closed: behind the START the
/// bytes were handed to the channel in order, each of them once.
pub open spec fn dma_write_opened(before: Seq<Access>, after: Seq<Access>, address: u8, len: nat) -> bool {
    exists|opened: Seq<Access>|
        {
            &&& #[trigger] moved(before, opened, seq![start_word(address, false)], Seq::empty())
            &&& handed_over(opened, after, Seq::empty(), Direction::Tx, len as int)
        }
}

/// A turn of a DMA write failed, at one of the steps that it took. `limit`
/// bounds the step that it began with, and `all` are the commands that were
/// left to it.
pub open spec fn dma_write_aborted(
    before: Seq<Access>,
    after: Seq<Access>,
    waited: Option<WaitOutcome>,
    verdict: Option<DmaVerdict>,
    limit: Limit,
    all: Seq<Mtdr>,
    error: IOError,
) -> bool {
    ||| turn_aborted(before, after, waited, IOError::Other, limit, all, error, true)
    ||| exists|length: usize| #[trigger]
        dma_aborted(before, after, Direction::Tx, length, verdict, error, false)
    ||| exists|attempt: Seq<Access>, length: usize, max: usize|
        #![trigger pouring_refused(attempt, after, length, max, error)]
        reached(before, attempt, all, Seq::empty()) && pouring_refused(attempt, after, length, max, error)
}

/// A transfer that completed leaves the commands of a write as they are.
proof fn lemma_completed_reached(before: Seq<Access>, clean: Seq<Access>, done: usize)
    requires
        dma_completed(before, clean, Direction::Tx, done),
    ensures
        reached(before, clean, Seq::empty(), Seq::empty()),
{
    let (quiet, moved) = choose|quiet: Seq<Access>, moved: usize|
        {
            &&& #[trigger] controller_dma_finished(before, quiet, Direction::Tx, done, moved)
            &&& active_fault_ran(quiet, clean, None)
        };
    lemma_finished(before, quiet, Direction::Tx, done, moved);
    let none = Seq::<Mtdr>::empty();
    assert(looked(before, clean));
    assert(commands(clean) =~= commands(before) + none);
    assert(none + none =~= none);
    lemma_reached(before, clean, none, none, none);
}

impl<H: ControllerPort + DmaPort> I2c<H> {
    /// Opens a DMA write on a fresh transaction.
    pub fn begin_dma_write(&mut self, address: u8, length: usize) -> (r: Result<DmaWriteTxn, IOError>)
        requires
            old(self).idle(),
        ensures
            final(self).same_setup(old(self)),
            final(self).log() == old(self).log(),
            match r {
                Ok(op) => {
                    &&& address < 0x80
                    &&& op.fits(final(self))
                    &&& op.address == address
                    &&& op.length == length
                    &&& op.from@ == old(self).log()
                    &&& op.end() is None
                    &&& op.rest() == seq![start_word(address, false)]
                },
                Err(e) => {
                    &&& address >= 0x80
                    &&& e == IOError::AddressOutOfRange(address)
                    &&& final(self).idle()
                },
            },
    {
        let ghost entered = self.log();
        match self.begin_start(address, false) {
            Err(e) => Err(e),
            Ok(op) => {
                proof {
                    lemma_moved_nothing(entered, self.log());
                }
                Ok(DmaWriteTxn { address, length, from: Ghost(entered), stage: DmaWriteStage::Starting(op) })
            },
        }
    }

    /// Opens a DMA write on an open transaction, by a repeated START.
    pub fn begin_dma_write_continue(&mut self, address: u8, length: usize, open: Session) -> (r: Result<
        DmaWriteTxn,
        IOError,
    >)
        requires
            old(self).owns(open@),
            open@.phase is Stable,
        ensures
            final(self).same_setup(old(self)),
            match r {
                Ok(op) => {
                    &&& address < 0x80
                    &&& op.fits(final(self))
                    &&& op.address == address
                    &&& op.length == length
                    &&& op.from@ == old(self).log()
                    &&& op.end() is None
                    &&& op.rest() == seq![start_word(address, false)]
                    &&& final(self).log() == old(self).log()
                },
                Err(e) => {
                    &&& address >= 0x80
                    &&& e == IOError::AddressOutOfRange(address)
                    &&& final(self).idle()
                    &&& recovered(old(self).log(), final(self).log(), open@.phase.clocks())
                },
            },
    {
        let ghost entered = self.log();
        match self.begin_repeated_start(address, false, open) {
            Err(e) => Err(e),
            Ok(op) => {
                proof {
                    lemma_moved_nothing(entered, self.log());
                }
                Ok(DmaWriteTxn { address, length, from: Ghost(entered), stage: DmaWriteStage::Starting(op) })
            },
        }
    }

    /// One turn of a DMA write. `waited` says how a wait for the START ended,
    /// `verdict` how a transfer did. The write ends with the transaction open.
    #[verifier::rlimit(100)]
    pub fn dma_write_turn(
        &mut self,
        op: DmaWriteTxn,
        max_transfer: usize,
        waited: Option<WaitOutcome>,
        verdict: Option<DmaVerdict>,
    ) -> (r: Turn<DmaWriteTxn, Result<Session, IOError>>)
        requires
            verdict_seen(old(self).log(), verdict),
            op.fits(old(self)),
            max_transfer <= u32::MAX,
            old(self).block() <= usize::MAX - 0x070,
        ensures
            final(self).same_setup(old(self)),
            op.quiets(old(self).log(), final(self).log()),
            match r {
                Turn::Wait(next, wait) => {
                    &&& next.fits(final(self))
                    &&& next.address == op.address
                    &&& next.length == op.length
                    &&& next.from@ == op.from@
                    &&& extends(old(self).log(), final(self).log())
                    &&& next.waits_for(wait, old(self).log(), final(self).log(), old(self).budget())
                    &&& on_time(
                        old(self).log(),
                        final(self).log(),
                        old(self).budget(),
                        op.end(),
                        next.end(),
                    )
                    &&& op.heeded(next, old(self).log(), final(self).log(), waited, verdict)
                },
                Turn::Done(Ok(open)) => {
                    &&& final(self).owns(open@)
                    &&& open@.phase.writable()
                    &&& match op.stage {
                        DmaWriteStage::Pouring(pouring) => {
                            &&& verdict == Some(DmaVerdict::Complete)
                            &&& dma_completed(
                                old(self).log(),
                                final(self).log(),
                                Direction::Tx,
                                (pouring.to - pouring.from) as usize,
                            )
                        },
                        DmaWriteStage::Starting(_) => op.length == 0,
                    }
                    &&& dma_write_opened(op.from@, final(self).log(), op.address, op.length as nat)
                },
                Turn::Done(Err(e)) => {
                    &&& final(self).idle()
                    &&& dma_write_aborted(
                        old(self).log(),
                        final(self).log(),
                        waited,
                        verdict,
                        op.limit(old(self).budget()),
                        op.rest(),
                        e,
                    )
                    &&& op.poured_out(old(self).log(), final(self).log(), verdict, max_transfer, e)
                },
            },
    {
        let ghost entered = self.log();
        let ghost none = Seq::<u8>::empty();
        let address = op.address;
        let length = op.length;
        let from = op.from;
        assert(extends(entered, entered));
        assert(none + none =~= none);
        match op.stage {
            DmaWriteStage::Starting(start) => {
                let ghost first = start.unqueued();
                let ghost word = start.word();
                match self.start_turn(start, waited) {
                    Turn::Wait(next, wait) => {
                        proof {
                            let words = one_word(first && !next.unqueued(), word);
                            lemma_moved(from@, entered, self.log(), one_word(!first, word), words, none, none);
                            assert(one_word(!first, word) + words =~= one_word(!next.unqueued(), word));
                        }
                        Turn::Wait(DmaWriteTxn { address, length, from, stage: DmaWriteStage::Starting(next) }, wait)
                    },
                    Turn::Done(Err(e)) => {
                        proof {
                            lemma_turn_weaken(
                                entered,
                                self.log(),
                                waited,
                                IOError::Other,
                                start.limit(self.budget()),
                                one_word(first, word),
                                e,
                                start.may_clock(),
                            );
                        }
                        Turn::Done(Err(e))
                    },
                    Turn::Done(Ok(open)) => {
                        let ghost opened = self.log();
                        proof {
                            lemma_moved(
                                from@,
                                entered,
                                opened,
                                one_word(!first, word),
                                one_word(first, word),
                                none,
                                none,
                            );
                            assert(one_word(!first, word) + one_word(first, word) =~= seq![word]);
                        }
                        match self.begin_pouring(open, length, max_transfer) {
                            Turn::Wait(next, wait) => {
                                proof {
                                    lemma_armed(
                                        opened,
                                        self.log(),
                                        Direction::Tx,
                                        (self.block() + 0x060) as usize,
                                        0,
                                        next.to,
                                        max_transfer,
                                        true,
                                    );
                                    lemma_armed_earlier(entered, opened, self.log(), Direction::Tx);
                                }
                                Turn::Wait(
                                    DmaWriteTxn { address, length, from, stage: DmaWriteStage::Pouring(next) },
                                    wait,
                                )
                            },
                            Turn::Done(Ok(open)) => {
                                proof {
                                    lemma_moved_nothing(opened, self.log());
                                    lemma_over_nothing(opened, self.log(), Seq::empty(), Direction::Tx);
                                }
                                Turn::Done(Ok(open))
                            },
                            Turn::Done(Err(e)) => {
                                proof {
                                    let words = one_word(first, word);
                                    assert(words + Seq::empty() =~= words);
                                    lemma_reached(entered, opened, words, Seq::empty(), words);
                                }
                                Turn::Done(Err(e))
                            },
                        }
                    },
                }
            },
            DmaWriteStage::Pouring(pouring) => {
                proof {
                    lemma_reached_here(entered, Seq::empty(), Seq::empty());
                }
                let ghost under_way = pouring;
                match self.pour_turn(pouring, length, max_transfer, verdict) {
                    Turn::Wait(next, wait) => Turn::Wait(
                        DmaWriteTxn { address, length, from, stage: DmaWriteStage::Pouring(next) },
                        wait,
                    ),
                    Turn::Done(r) => {
                        proof {
                            if let Err(e) = r {
                                let done = (under_way.to - under_way.from) as usize;
                                let next = chunk_end_at(length as int, under_way.to as int, max_transfer as int)
                                    - under_way.to;
                                if !dma_aborted(entered, self.log(), Direction::Tx, done, verdict, e, false) {
                                    let clean = choose|clean: Seq<Access>| #[trigger]
                                        dma_completed(entered, clean, Direction::Tx, done) && pouring_refused(
                                            clean,
                                            self.log(),
                                            next as usize,
                                            max_transfer,
                                            e,
                                        );
                                    lemma_completed_reached(entered, clean, done);
                                    assert(pouring_refused(clean, self.log(), next as usize, max_transfer, e));
                                }
                            }
                        }
                        Turn::Done(r)
                    },
                }
            },
        }
    }

    /// Gives a DMA write up: a running channel is shut down before the bus is
    /// recovered.
    pub fn cancel_dma_write(&mut self, op: DmaWriteTxn, max_transfer: usize)
        requires
            op.fits(old(self)),
            max_transfer <= u32::MAX,
            old(self).block() <= usize::MAX - 0x070,
        ensures
            final(self).same_setup(old(self)),
            final(self).idle(),
            match op.stage {
                DmaWriteStage::Starting(start) => recovered(old(self).log(), final(self).log(), start.may_clock()),
                DmaWriteStage::Pouring(pouring) => dma_aborted(
                    old(self).log(),
                    final(self).log(),
                    Direction::Tx,
                    (pouring.to - pouring.from) as usize,
                    None,
                    IOError::Timeout,
                    false,
                ),
            },
    {
        match op.stage {
            DmaWriteStage::Starting(start) => self.cancel_start(start),
            DmaWriteStage::Pouring(pouring) => {
                // To the channel and to the bus a dropped transfer is one
                // whose time ran out.
                let _ = self.pour_turn(pouring, op.length, max_transfer, None);
            },
        }
    }
}

} // verus!
