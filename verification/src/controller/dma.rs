//! DMA transfers of the controller. The CPU queues the commands of a read and
//! arms the channel; the bytes then move past it.

use vstd::prelude::*;

use crate::answers::owed;
use crate::controller::{io_error, I2c, IOError};
use crate::controller::asynch::{scrubbed_fault, Turn, Wait};
use crate::controller::blocking::{commands_for, still_owned, whole_chunks};
use crate::controller_registers::{
    active_fault_ran, controller_dma_armed, controller_dma_finished, fault_retained, fifo_entries, packet_over,
    receive_word, status_error, ControllerStatusError,
};
use crate::dma::{chunk_end_at, next_chunk};
use crate::lpi2c_regs::{Access, ControllerPort, Direction, DmaPort};
use crate::session::{
    fault_bound, fault_known, lemma_bound_mirrors, lemma_fault_known, lemma_known_later, mirrors,
    recovered, session_fits, Abort, Session, SessionPhase, SessionView,
};
use crate::ticks::{deadline, deadline_after, ticks_from_millis, TICK_HZ};
use crate::trace::{commands, entry, extends, handed, wire};
use crate::transfer::{
    aborted, carried, cut_short, failed, faulted, found_full, kept_waiting, last_is, lemma_aborted, lemma_carried,
    lemma_failed_earlier, lemma_moved, lemma_moved_carried, lemma_moved_nothing, lemma_partway_words,
    lemma_recovered_weaken, lemma_stalled, lemma_standing, looked, moved, receive_commands, retryable, standing_since,
};
use crate::wait::POLL_LIMIT;
use crate::words::{ControllerCommand, Mier, Mtdr};

verus! {

broadcast use {
    crate::answers::lemma_owed_push,
    crate::trace::group_bounded,
    crate::trace::group_trace,
    crate::transfer::group_wire,
    crate::session::lemma_recovered_wire,
};

/// How many RECEIVE commands a read of `len` bytes takes.
pub open spec fn commands_of(len: int) -> int {
    (len + 255) / 256
}

/// Why a DMA wait ended before its time ran out.
#[derive(Clone, Copy, Debug, PartialEq, Eq, Structural)]
pub enum DmaVerdict {
    Complete,
    Fault(ControllerStatusError),
    /// The bus transaction ended with the transfer incomplete.
    UnexpectedStop,
}

/// What one look at a receive transfer did and returned: completion wins, a
/// fault comes next, and an early end last.
pub open spec fn rx_dma_polled(before: Seq<Access>, after: Seq<Access>, r: Option<DmaVerdict>) -> bool {
    let done = entry(before, after, 0)->DmaIsDone_1;
    let status = entry(before, after, 2)->ReadMsr_0;
    let end = entry(before, after, 3)->ReadMsr_0;
    let asked = before.push(Access::DmaIsDone(Direction::Rx, done));
    let armed = asked.push(Access::WriteMier(Mier::errors())).push(Access::ReadMsr(status));
    if done {
        &&& after == asked
        &&& r == Some(DmaVerdict::Complete)
    } else if status_error(status) is Some {
        &&& after == armed
        &&& r == Some(DmaVerdict::Fault(status_error(status)->Some_0))
    } else {
        &&& after == armed.push(Access::ReadMsr(end))
        &&& r == (if packet_over(end) {
            Some(DmaVerdict::UnexpectedStop)
        } else {
            None
        })
    }
}

/// What one look at a transmit transfer did and returned.
pub open spec fn tx_dma_polled(before: Seq<Access>, after: Seq<Access>, r: Option<DmaVerdict>) -> bool {
    let done = entry(before, after, 0)->DmaIsDone_1;
    let status = entry(before, after, 2)->ReadMsr_0;
    let asked = before.push(Access::DmaIsDone(Direction::Tx, done));
    if done {
        &&& after == asked
        &&& r == Some(DmaVerdict::Complete)
    } else {
        &&& after == asked.push(Access::WriteMier(Mier::errors())).push(Access::ReadMsr(status))
        &&& r == (match status_error(status) {
            Some(fault) => Some(DmaVerdict::Fault(fault)),
            None => None,
        })
    }
}

/// A verdict that names a fault goes by a status snapshot that reports it.
pub open spec fn verdict_seen(log: Seq<Access>, verdict: Option<DmaVerdict>) -> bool {
    verdict matches Some(DmaVerdict::Fault(fault)) ==> fault_known(log, fault_retained(fault))
}

/// The time that a DMA transfer of `length` bytes may take: the transfer
/// timeout and a millisecond for each byte.
pub open spec fn dma_bound(timeout: u64, length: usize) -> u64 {
    deadline(timeout, (length * 1000) as u64)
}

/// How a DMA transfer failed at `log`: the channel, which had moved so many
/// bytes, was shut down first, and the error is that of the verdict, of a wait
/// that ran out, or of a fault that raced the completion.
pub open spec fn dma_failed(
    before: Seq<Access>,
    quiet: Seq<Access>,
    log: Seq<Access>,
    direction: Direction,
    length: usize,
    moved: usize,
    verdict: Option<DmaVerdict>,
    error: IOError,
) -> bool {
    &&& looked(before, log)
    &&& controller_dma_finished(before, quiet, direction, length, moved)
    &&& extends(quiet, log)
    &&& match verdict {
        None => error == IOError::Timeout,
        Some(DmaVerdict::UnexpectedStop) => error == IOError::UnexpectedStop,
        Some(DmaVerdict::Fault(fault)) => error == io_error(fault),
        Some(DmaVerdict::Complete) => faulted(log, error) || scrubbed_fault(log, error),
    }
}

/// A DMA transfer completed: the channel was shut down, and a last look at
/// the status found no fault.
pub open spec fn dma_completed(before: Seq<Access>, after: Seq<Access>, direction: Direction, length: usize) -> bool {
    exists|quiet: Seq<Access>, moved: usize|
        {
            &&& #[trigger] controller_dma_finished(before, quiet, direction, length, moved)
            &&& active_fault_ran(quiet, after, None)
        }
}

/// Behind `before` a channel was shut down before anything else.
pub open spec fn finished_first(before: Seq<Access>, after: Seq<Access>, direction: Direction, length: usize) -> bool {
    exists|quiet: Seq<Access>, moved: usize| #[trigger]
        controller_dma_finished(before, quiet, direction, length, moved) && extends(quiet, after)
}

pub proof fn lemma_finished_later(
    before: Seq<Access>,
    mid: Seq<Access>,
    after: Seq<Access>,
    direction: Direction,
    length: usize,
)
    requires
        finished_first(before, mid, direction, length),
        extends(mid, after),
    ensures
        finished_first(before, after, direction, length),
{
    let (quiet, moved) = choose|quiet: Seq<Access>, moved: usize| #[trigger]
        controller_dma_finished(before, quiet, direction, length, moved) && extends(quiet, mid);
    assert(extends(quiet, after));
}

/// A transfer that completed is the first thing behind `before`.
pub open spec fn completed_first(
    before: Seq<Access>,
    after: Seq<Access>,
    direction: Direction,
    length: usize,
) -> bool {
    exists|clean: Seq<Access>| #[trigger] dma_completed(before, clean, direction, length) && extends(clean, after)
}

/// A transfer was armed behind `before`.
pub open spec fn armed_behind(before: Seq<Access>, log: Seq<Access>, direction: Direction) -> bool {
    exists|i: int|
        {
            &&& before.len() <= i < log.len()
            &&& #[trigger] log[i] matches Access::DmaSetup(way, _, _, _, true) && way == direction
        }
}

pub proof fn lemma_armed_earlier(a: Seq<Access>, b: Seq<Access>, log: Seq<Access>, direction: Direction)
    requires
        extends(a, b),
        armed_behind(b, log, direction),
    ensures
        armed_behind(a, log, direction),
{
    let i = choose|i: int|
        {
            &&& b.len() <= i < log.len()
            &&& #[trigger] log[i] matches Access::DmaSetup(way, _, _, _, true) && way == direction
        };
    assert(a.len() <= i);
}

/// The first RECEIVE is known to have run: the channel moved bytes, or some
/// were found in the FIFO behind it.
pub open spec fn receive_ran(
    quiet: Seq<Access>,
    log: Seq<Access>,
    moved: usize,
    verdict: Option<DmaVerdict>,
) -> bool {
    ||| moved != 0
    ||| verdict == Some(DmaVerdict::Complete)
    ||| {
        &&& log.len() > quiet.len()
        &&& entry(quiet, log, 0) matches Access::ReadMfsr(fifo) && fifo.rxcount != 0
    }
}

/// A DMA transfer failed, and exactly one recovery ran behind its shutdown. It
/// clocks nothing in where the first RECEIVE is known to have run.
pub open spec fn dma_aborted(
    before: Seq<Access>,
    after: Seq<Access>,
    direction: Direction,
    length: usize,
    verdict: Option<DmaVerdict>,
    error: IOError,
    may_clock: bool,
) -> bool {
    exists|quiet: Seq<Access>, log: Seq<Access>, moved: usize|
        {
            &&& #[trigger] dma_failed(before, quiet, log, direction, length, moved, verdict, error)
            &&& recovered(log, after, may_clock && !receive_ran(quiet, log, moved, verdict))
        }
}

/// The engine refused a transfer: the last entry says so, or the length was
/// out of its range and nothing was touched.
pub open spec fn dma_refused(before: Seq<Access>, log: Seq<Access>, length: usize, max_transfer: usize) -> bool {
    if 0 < length <= max_transfer {
        log.len() > 0 && log.last() is DmaSetup && !log.last()->DmaSetup_4
    } else {
        log == before
    }
}

impl<H: ControllerPort + DmaPort> I2c<H> {
    /// A read request is checked before anything touches the bus: nothing
    /// refills the command FIFO while the CPU sleeps, so a read that the FIFO
    /// cannot hold needs the caller's consent to be split.
    pub fn dma_read_preflight(&mut self, length: usize) -> (r: Result<(), IOError>)
        ensures
            final(self).same_setup(old(self)),
            final(self).session_open() == old(self).session_open(),
            ({
                let param = entry(old(self).log(), final(self).log(), 0)->ReadParam_0;
                if length == 0 {
                    &&& r == Err::<(), IOError>(IOError::InvalidReadBufferLength)
                    &&& final(self).log() == old(self).log()
                } else {
                    &&& r == (if commands_of(length as int) > fifo_entries(param) && !old(self).allows_chunks() {
                        Err(IOError::ChunkingRequired)
                    } else {
                        Ok(())
                    })
                    &&& final(self).log() == old(self).log().push(Access::ReadParam(param))
                }
            }),
    {
        if length == 0 {
            return Err(IOError::InvalidReadBufferLength);
        }
        if !self.chain_fits(length) && !self.allow_chunked_reads {
            return Err(IOError::ChunkingRequired);
        }
        Ok(())
    }

    /// Whether the command FIFO can hold a whole read.
    pub fn chain_fits(&mut self, length: usize) -> (r: bool)
        ensures
            final(self).same_setup(old(self)),
            final(self).session_open() == old(self).session_open(),
            ({
                let param = entry(old(self).log(), final(self).log(), 0)->ReadParam_0;
                &&& final(self).log() == old(self).log().push(Access::ReadParam(param))
                &&& r == (commands_of(length as int) <= fifo_entries(param))
            }),
    {
        let capacity: usize = self.regs.tx_fifo_capacity();
        let whole: usize = length / 256;
        if length % 256 == 0 {
            whole <= capacity
        } else {
            whole < capacity
        }
    }

    /// Queues every RECEIVE command of a read up front. A stretched START must
    /// not turn that into an unbounded wait just because no data moves yet.
    #[verifier::rlimit(80)]
    fn queue_receives(&mut self, total: usize, open: &mut Session) -> (r: Result<(), IOError>)
        requires
            old(self).owns(old(open)@),
            old(open)@.phase.addressed(),
            total > 0,
        ensures
            final(self).same_setup(old(self)),
            final(self).session_open(),
            match r {
                Ok(_) => {
                    &&& final(self).owns(final(open)@)
                    &&& final(open)@ == SessionView { phase: SessionPhase::FirstReceivePending, ..old(open)@ }
                    &&& moved(
                        old(self).log(),
                        final(self).log(),
                        receive_commands(total as nat),
                        Seq::empty(),
                    )
                },
                Err(e) => {
                    &&& failed(
                        old(self).log(),
                        final(self).log(),
                        old(self).budget(),
                        receive_commands(total as nat),
                        e,
                    )
                    &&& (e == IOError::Timeout ==> last_is(final(self).log(), ControllerCommand::Receive))
                    &&& still_owned(old(open)@, final(open)@)
                    &&& final(self).keeps(final(open)@)
                },
            },
    {
        let ghost entered = self.log();
        let ghost all = receive_commands(total as nat);
        let ghost none = Seq::<u8>::empty();
        let first: usize = if total < 256 {
            total
        } else {
            256
        };
        match self.enqueue_first_receive(first, open) {
            Ok(_) => {},
            Err(e) => {
                proof {
                    let none = Seq::<Mtdr>::empty();
                    assert(commands(entered) =~= commands(entered) + none);
                    lemma_failed_earlier(entered, entered, self.log(), self.budget(), none, none, all, e);
                }
                return Err(e);
            },
        }
        let ghost begun = self.log();
        let start: u64 = self.regs.now();
        let end: u64 = deadline_after(start, self.timeout);
        let mut asked: usize = first;
        let mut polls: u64 = POLL_LIMIT;
        proof {
            assert(self.log()[begun.len() as int] == Access::Now(start));
            assert(standing_since(entered, self.log(), start));
            assert(commands_for(first as int) == 1);
            assert(all.take(1) =~= seq![receive_word(first as nat)]);
            assert(none + none =~= none);
        }
        while asked < total
            invariant
                self.same_setup(old(self)),
                self.session_open(),
                self.owns(open@),
                open@ == (SessionView { phase: SessionPhase::FirstReceivePending, ..old(open)@ }),
                old(open)@.phase.addressed(),
                entered == old(self).log(),
                none == Seq::<u8>::empty(),
                none + none == none,
                whole_chunks(total as int, asked as int),
                all == receive_commands(total as nat),
                moved(entered, self.log(), all.take(commands_for(asked as int)), none),
                standing_since(entered, self.log(), start),
                end == deadline(start, self.budget()),
                self.log().len() - entered.len() >= POLL_LIMIT - polls,
            decreases total - asked, polls,
        {
            let ghost round = self.log();
            match self.top_up(total, asked, open) {
                Err(e) => {
                    proof {
                        let from = commands_for(asked as int);
                        assert(all.take(from) + all.skip(from) =~= all);
                        lemma_failed_earlier(
                            entered,
                            round,
                            self.log(),
                            self.budget(),
                            all.take(from),
                            all.skip(from),
                            all,
                            e,
                        );
                    }
                    return Err(e);
                },
                Ok(next) => {
                    proof {
                        let from = commands_for(asked as int);
                        let to = commands_for(next as int);
                        lemma_moved(entered, round, self.log(), all.take(from), all.subrange(from, to), none, none);
                        assert(all.take(from) + all.subrange(from, to) =~= all.take(to));
                    }
                    asked = next;
                },
            }
            let ghost filled = self.log();
            if asked < total {
                let now: u64 = self.regs.now();
                if now > end || polls == 0 {
                    proof {
                        lemma_standing(entered, round, self.log(), start);
                        lemma_partway_words(entered, self.log(), all.take(commands_for(asked as int)), all);
                        assert(found_full(filled));
                    }
                    return Err(IOError::Timeout);
                }
                polls = polls - 1;
            }
            proof {
                lemma_standing(entered, round, self.log(), start);
            }
        }
        proof {
            assert(all.take(commands_for(total as int)) =~= all);
        }
        Ok(())
    }

    /// Looks at a receive transfer once: completed, stopped by a fault, or
    /// stopped because the bus transaction ended.
    pub fn poll_rx_dma(&mut self) -> (r: Option<DmaVerdict>)
        ensures
            final(self).same_setup(old(self)),
            final(self).session_open() == old(self).session_open(),
            rx_dma_polled(old(self).log(), final(self).log(), r),
            looked(old(self).log(), final(self).log()),
            owed(old(self).log()) is Live ==> kept_waiting(old(self).log(), final(self).log()),
            verdict_seen(final(self).log(), r),
    {
        if self.regs.dma_done(Direction::Rx) {
            return Some(DmaVerdict::Complete);
        }
        if let Some(fault) = self.regs.error_wake() {
            proof {
                lemma_fault_known(self.log(), self.log(), fault);
            }
            return Some(DmaVerdict::Fault(fault));
        }
        if self.regs.transfer_ended() {
            return Some(DmaVerdict::UnexpectedStop);
        }
        None
    }

    /// Looks at a transmit transfer once: completed, or stopped by a fault.
    pub fn poll_tx_dma(&mut self) -> (r: Option<DmaVerdict>)
        ensures
            final(self).same_setup(old(self)),
            final(self).session_open() == old(self).session_open(),
            tx_dma_polled(old(self).log(), final(self).log(), r),
            looked(old(self).log(), final(self).log()),
            kept_waiting(old(self).log(), final(self).log()),
            verdict_seen(final(self).log(), r),
    {
        if self.regs.dma_done(Direction::Tx) {
            return Some(DmaVerdict::Complete);
        }
        match self.regs.error_wake() {
            Some(fault) => {
                proof {
                    lemma_fault_known(self.log(), self.log(), fault);
                }
                Some(DmaVerdict::Fault(fault))
            },
            None => None,
        }
    }
}

/// The transfers cover the first `len` bytes of a buffer one way, in order,
/// each byte once.
pub open spec fn tiles(way: Direction, transfers: Seq<(Direction, usize, usize)>, len: int) -> bool
    decreases transfers.len(),
{
    if transfers.len() == 0 {
        len == 0
    } else {
        let (direction, offset, length) = transfers.last();
        &&& direction == way
        &&& length > 0
        &&& offset + length == len
        &&& tiles(way, transfers.drop_last(), offset as int)
    }
}

/// The commands `words` went out behind `before`, and the transfers that were
/// handed over there cover the first `len` bytes of the buffer.
pub open spec fn handed_over(
    before: Seq<Access>,
    log: Seq<Access>,
    words: Seq<Mtdr>,
    way: Direction,
    len: int,
) -> bool {
    let transfers = handed(log).skip(handed(before).len() as int);
    &&& carried(before, log, words, transfers)
    &&& tiles(way, transfers, len)
}

pub proof fn lemma_over_nothing(before: Seq<Access>, log: Seq<Access>, words: Seq<Mtdr>, way: Direction)
    requires
        moved(before, log, words, Seq::empty()),
    ensures
        handed_over(before, log, words, way, 0),
{
    lemma_moved_carried(before, log, words);
    assert(handed(log).skip(handed(before).len() as int) =~= Seq::empty());
}

/// The next transfer follows on those before it.
pub proof fn lemma_over_on(
    before: Seq<Access>,
    log: Seq<Access>,
    after: Seq<Access>,
    words: Seq<Mtdr>,
    more: Seq<Mtdr>,
    way: Direction,
    from: usize,
    length: usize,
)
    requires
        handed_over(before, log, words, way, from as int),
        carried(log, after, more, seq![(way, from, length)]),
        length > 0,
    ensures
        handed_over(before, after, words + more, way, from + length),
{
    let known = handed(before).len() as int;
    let transfers = handed(log).skip(known);
    let next = seq![(way, from, length)];
    lemma_carried(before, log, after, words, more, transfers, next);
    assert(handed(after).skip(known) =~= transfers + next);
    assert((transfers + next).drop_last() =~= transfers);
}

/// Commands alone hand nothing over.
pub proof fn lemma_over_moved(
    before: Seq<Access>,
    log: Seq<Access>,
    after: Seq<Access>,
    words: Seq<Mtdr>,
    more: Seq<Mtdr>,
    way: Direction,
    len: int,
)
    requires
        handed_over(before, log, words, way, len),
        moved(log, after, more, Seq::empty()),
    ensures
        handed_over(before, after, words + more, way, len),
{
    let known = handed(before).len() as int;
    let transfers = handed(log).skip(known);
    lemma_moved_carried(log, after, more);
    lemma_carried(before, log, after, words, more, transfers, Seq::empty());
    assert(transfers + Seq::<(Direction, usize, usize)>::empty() =~= transfers);
    assert(handed(after).skip(known) =~= transfers);
}

/// A read whose commands are queued and whose bytes a DMA channel takes in.
pub struct Draining {
    pub session: Session,
    /// The bytes `from..to` of the caller's buffer are being filled.
    pub from: usize,
    pub to: usize,
    /// The history up to the settled START.
    pub begun: Ghost<Seq<Access>>,
}

impl Draining {
    pub open spec fn total(self) -> int {
        self.to - self.from
    }

    /// The operation belongs to the transaction that is open on `i2c`: its
    /// commands were queued, and one transfer for its bytes was handed over.
    pub open spec fn fits<H>(self, i2c: &I2c<H>) -> bool {
        &&& i2c.owns(self.session@)
        &&& self.session@.phase == SessionPhase::FirstReceivePending
        &&& self.from < self.to
        &&& self.drawn(i2c.log())
    }

    /// The commands and the transfer of the operation, and nothing else, stand
    /// behind its START.
    pub open spec fn drawn(self, log: Seq<Access>) -> bool {
        carried(
            self.begun@,
            log,
            receive_commands(self.total() as nat),
            seq![(Direction::Rx, self.from, self.total() as usize)],
        )
    }
}

/// A read queued its commands and armed its channel.
pub open spec fn draining_begun(
    before: Seq<Access>,
    after: Seq<Access>,
    port: usize,
    offset: usize,
    length: usize,
    max_transfer: usize,
) -> bool {
    exists|queued: Seq<Access>|
        {
            &&& #[trigger] moved(before, queued, receive_commands(length as nat), Seq::empty())
            &&& controller_dma_armed(queued, after, Direction::Rx, port, offset, length, max_transfer, true)
        }
}

/// A read failed before its channel ran: its commands could not be queued, or
/// the engine refused the transfer. Exactly one recovery ran.
pub open spec fn draining_aborted(
    before: Seq<Access>,
    after: Seq<Access>,
    timeout: u64,
    length: usize,
    max_transfer: usize,
    error: IOError,
) -> bool {
    ||| {
        &&& aborted(before, after, timeout, receive_commands(length as nat), error, true)
        &&& retryable(error) ==> cut_short(before, after, receive_commands(length as nat), true)
    }
    ||| {
        &&& error == IOError::Other
        &&& exists|queued: Seq<Access>, log: Seq<Access>|
            {
                &&& #[trigger] moved(before, queued, receive_commands(length as nat), Seq::empty())
                &&& #[trigger] dma_refused(queued, log, length, max_transfer)
                &&& looked(queued, log)
                &&& recovered(log, after, true)
            }
    }
}

pub proof fn lemma_armed(
    before: Seq<Access>,
    after: Seq<Access>,
    direction: Direction,
    port: usize,
    offset: usize,
    length: usize,
    max_transfer: usize,
    r: bool,
)
    requires
        controller_dma_armed(before, after, direction, port, offset, length, max_transfer, r),
    ensures
        !r ==> looked(before, after) && dma_refused(before, after, length, max_transfer),
        r ==> carried(before, after, Seq::empty(), seq![(direction, offset, length)]),
        r ==> armed_behind(before, after, direction),
        r ==> length > 0,
{
    if r {
        assert(commands(after) =~= commands(before) + Seq::<Mtdr>::empty());
        assert(handed(after) =~= handed(before) + seq![(direction, offset, length)]);
        assert(after[before.len() as int + 4] == Access::DmaSetup(direction, port, offset, length, true));
    }
}

pub proof fn lemma_finished(before: Seq<Access>, after: Seq<Access>, direction: Direction, total: usize, moved: usize)
    requires
        controller_dma_finished(before, after, direction, total, moved),
    ensures
        looked(before, after),
{
}

proof fn lemma_active_fault(
    before: Seq<Access>,
    seen: Seq<Access>,
    after: Seq<Access>,
    session: SessionView,
    next: SessionView,
    fault: ControllerStatusError,
    error: IOError,
)
    requires
        active_fault_ran(before, seen, Some(fault)),
        fault_bound(seen, after, session, next, fault, error),
    ensures
        faulted(after, error) || scrubbed_fault(after, error),
        looked(before, after),
        still_owned(session, next),
        session.fault is None && mirrors(wire(before), session.phase) ==> session_fits(after, next),
        error != IOError::Timeout,
        error != IOError::UnexpectedStop,
{
    assert(after.drop_last() =~= seen);
    lemma_fault_known(before.push(seen[before.len() as int]), after, fault);
    if session.fault is None && mirrors(wire(before), session.phase) {
        lemma_bound_mirrors(wire(before), session, (after.last()->ReadMfsr_0).rxcount != 0, fault);
    }
    if seen.last() is WriteMsr {
        assert(seen.drop_last() =~= before.push(seen[before.len() as int]));
    }
}

impl<H: ControllerPort + DmaPort> I2c<H> {
    /// Opens the data phase of an addressed read for the bytes `from..to`:
    /// every command is queued, and then the channel is armed.
    pub fn begin_draining(&mut self, open: Session, from: usize, to: usize, max_transfer: usize) -> (r: Turn<
        Draining,
        Result<Session, IOError>,
    >)
        requires
            old(self).owns(open@),
            open@.phase.addressed(),
            from < to,
            max_transfer <= u32::MAX,
            old(self).block() <= usize::MAX - 0x070,
        ensures
            final(self).same_setup(old(self)),
            match r {
                Turn::Wait(op, wait) => {
                    &&& op.fits(final(self))
                    &&& op.from == from
                    &&& op.to == to
                    &&& op.begun@ == old(self).log()
                    &&& to - from <= max_transfer
                    &&& wait == Wait::RxDma(dma_bound(old(self).budget(), (to - from) as usize))
                    &&& draining_begun(
                        old(self).log(),
                        final(self).log(),
                        (old(self).block() + 0x070) as usize,
                        from,
                        (to - from) as usize,
                        max_transfer,
                    )
                },
                Turn::Done(Ok(_)) => false,
                Turn::Done(Err(e)) => {
                    &&& final(self).idle()
                    &&& draining_aborted(
                        old(self).log(),
                        final(self).log(),
                        old(self).budget(),
                        (to - from) as usize,
                        max_transfer,
                        e,
                    )
                },
            },
    {
        let ghost entered = self.log();
        let mut open = open;
        let total: usize = to - from;
        match self.queue_receives(total, &mut open) {
            Err(e) => {
                let ghost log = self.log();
                self.cancel(open);
                proof {
                    let all = receive_commands(total as nat);
                    lemma_aborted(entered, log, self.log(), self.budget(), all, e, open@.phase.clocks(), true);
                    if retryable(e) {
                        lemma_stalled(entered, log, self.log(), self.budget(), all, e, open@.phase.clocks());
                    }
                }
                return Turn::Done(Err(e));
            },
            Ok(_) => {},
        }
        let ghost queued = self.log();
        let ghost port = (self.block() + 0x070) as usize;
        match self.regs.arm_dma(Direction::Rx, from, total, max_transfer) {
            Err(refused) => {
                let ghost log = self.log();
                proof {
                    lemma_armed(queued, log, Direction::Rx, port, from, total, max_transfer, false);
                }
                let error = IOError::from(refused);
                self.cancel(open);
                proof {
                    lemma_recovered_weaken(log, self.log(), open@.phase.clocks(), true);
                }
                Turn::Done(Err(error))
            },
            Ok(_) => {
                proof {
                    let none = Seq::<(Direction, usize, usize)>::empty();
                    let one = seq![(Direction::Rx, from, total)];
                    let words = receive_commands(total as nat);
                    lemma_armed(queued, self.log(), Direction::Rx, port, from, total, max_transfer, true);
                    lemma_moved_carried(entered, queued, words);
                    lemma_carried(entered, queued, self.log(), words, Seq::empty(), none, one);
                    assert(words + Seq::empty() =~= words);
                    assert(none + one =~= one);
                }
                let margin: u64 = ticks_from_millis(total as u64);
                let bound: u64 = deadline_after(self.timeout, margin);
                Turn::Wait(Draining { session: open, from, to, begun: Ghost(entered) }, Wait::RxDma(bound))
            },
        }
    }

    /// Ends a receive transfer: the channel is shut down before anything else,
    /// and a last look at the status catches a fault that raced the
    /// completion. No verdict is a wait that ran out.
    pub fn drain_turn(&mut self, op: Draining, verdict: Option<DmaVerdict>) -> (r: Result<Session, IOError>)
        requires
            op.fits(old(self)),
            verdict_seen(old(self).log(), verdict),
        ensures
            final(self).same_setup(old(self)),
            finished_first(old(self).log(), final(self).log(), Direction::Rx, (op.to - op.from) as usize),
            match r {
                Ok(open) => {
                    &&& verdict == Some(DmaVerdict::Complete)
                    &&& final(self).owns(open@)
                    &&& open@.phase == SessionPhase::Stable(Abort::ReadStreaming)
                    &&& dma_completed(
                        old(self).log(),
                        final(self).log(),
                        Direction::Rx,
                        (op.to - op.from) as usize,
                    )
                    &&& extends(old(self).log(), final(self).log())
                    &&& op.drawn(final(self).log())
                },
                Err(e) => {
                    &&& final(self).idle()
                    &&& dma_aborted(
                        old(self).log(),
                        final(self).log(),
                        Direction::Rx,
                        (op.to - op.from) as usize,
                        verdict,
                        e,
                        true,
                    )
                },
            },
    {
        let ghost entered = self.log();
        let mut open = op.session;
        let total: usize = op.to - op.from;
        let transferred: usize = self.regs.finish_dma(Direction::Rx, total);
        let ghost quiet = self.log();
        proof {
            lemma_finished(entered, quiet, Direction::Rx, total, transferred);
        }
        // A completed transfer moved every byte, whatever its counter says.
        let proved: usize = match verdict {
            Some(DmaVerdict::Complete) => total,
            _ => transferred,
        };
        open.settle_dma_read(&mut self.regs, proved);
        let ghost settled = self.log();
        let ghost session = open@;
        let error = match verdict {
            None => IOError::Timeout,
            Some(DmaVerdict::UnexpectedStop) => IOError::UnexpectedStop,
            Some(DmaVerdict::Fault(fault)) => {
                let error = open.bind_fault(&mut self.regs, fault);
                proof {
                    let data = (self.log().last()->ReadMfsr_0).rxcount != 0;
                    lemma_bound_mirrors(wire(settled), session, data, fault);
                    lemma_known_later(entered, self.log(), fault_retained(fault));
                }
                error
            },
            Some(DmaVerdict::Complete) => {
                match self.regs.take_active_fault() {
                    None => {
                        assert(dma_completed(entered, self.log(), Direction::Rx, total));
                        return Ok(open);
                    },
                    Some(fault) => {
                        let ghost seen = self.log();
                        let error = open.bind_fault(&mut self.regs, fault);
                        proof {
                            lemma_active_fault(settled, seen, self.log(), session, open@, fault, error);
                        }
                        error
                    },
                }
            },
        };
        let ghost log = self.log();
        self.cancel(open);
        proof {
            assert(extends(quiet, log));
            let ran = receive_ran(quiet, log, transferred, verdict);
            assert(dma_failed(entered, quiet, log, Direction::Rx, total, transferred, verdict, error));
            if transferred == 0 && proved == 0 {
                assert(log[quiet.len() as int] == settled.last());
            }
            assert(ran ==> !session.phase.clocks());
            lemma_recovered_weaken(log, self.log(), open@.phase.clocks(), !ran);
        }
        Err(error)
    }
}

/// Bytes that a DMA channel sends out on a write, chunk by chunk.
pub struct Pouring {
    pub session: Session,
    /// The bytes `from..to` of the caller's buffer are on their way.
    pub from: usize,
    pub to: usize,
    /// The history up to the settled START.
    pub begun: Ghost<Seq<Access>>,
}

impl Pouring {
    /// The operation belongs to the transaction that is open on `i2c`: the
    /// bytes before `to` were handed to the channel in order, each of them
    /// once, and the last of them with the transfer that is under way.
    pub open spec fn fits<H>(self, i2c: &I2c<H>, total: int) -> bool {
        &&& i2c.owns(self.session@)
        &&& self.session@.phase.writable()
        &&& self.from < self.to <= total
        &&& handed_over(self.begun@, i2c.log(), Seq::empty(), Direction::Tx, self.to as int)
        &&& handed(i2c.log()).last() == (Direction::Tx, self.from, (self.to - self.from) as usize)
    }
}

/// A transfer of `done` bytes completed, and the next one was armed.
pub open spec fn poured_on(
    before: Seq<Access>,
    after: Seq<Access>,
    done: usize,
    port: usize,
    offset: usize,
    length: usize,
    max_transfer: usize,
) -> bool {
    exists|clean: Seq<Access>|
        {
            &&& #[trigger] dma_completed(before, clean, Direction::Tx, done)
            &&& controller_dma_armed(clean, after, Direction::Tx, port, offset, length, max_transfer, true)
        }
}

/// A write failed because the engine refused a transfer.
pub open spec fn pouring_refused(
    before: Seq<Access>,
    after: Seq<Access>,
    length: usize,
    max_transfer: usize,
    error: IOError,
) -> bool {
    &&& error == IOError::Other
    &&& exists|log: Seq<Access>|
        {
            &&& #[trigger] dma_refused(before, log, length, max_transfer)
            &&& looked(before, log)
            &&& recovered(log, after, false)
        }
}

/// A write failed because the engine refused a transfer, right behind one of
/// `done` bytes that completed.
pub open spec fn refused_behind(
    before: Seq<Access>,
    after: Seq<Access>,
    done: usize,
    length: usize,
    max_transfer: usize,
    error: IOError,
) -> bool {
    exists|clean: Seq<Access>| #[trigger]
        dma_completed(before, clean, Direction::Tx, done) && pouring_refused(
            clean,
            after,
            length,
            max_transfer,
            error,
        )
}

impl<H: ControllerPort + DmaPort> I2c<H> {
    /// Arms the chunk that begins at `from`.
    fn pour_chunk(
        &mut self,
        open: Session,
        begun: Ghost<Seq<Access>>,
        total: usize,
        from: usize,
        max_transfer: usize,
    ) -> (r: Turn<Pouring, Result<Session, IOError>>)
        requires
            old(self).owns(open@),
            open@.phase.writable(),
            from < total,
            max_transfer <= u32::MAX,
            old(self).block() <= usize::MAX - 0x070,
            handed_over(begun@, old(self).log(), Seq::empty(), Direction::Tx, from as int),
        ensures
            final(self).same_setup(old(self)),
            ({
                let to = chunk_end_at(total as int, from as int, max_transfer as int);
                match r {
                    Turn::Wait(op, wait) => {
                        &&& op.fits(final(self), total as int)
                        &&& op.from == from
                        &&& op.to == to
                        &&& op.begun@ == begun@
                        &&& wait == Wait::TxDma(dma_bound(old(self).budget(), (to - from) as usize))
                        &&& controller_dma_armed(
                            old(self).log(),
                            final(self).log(),
                            Direction::Tx,
                            (old(self).block() + 0x060) as usize,
                            from,
                            (to - from) as usize,
                            max_transfer,
                            true,
                        )
                    },
                    Turn::Done(Ok(_)) => false,
                    Turn::Done(Err(e)) => {
                        &&& final(self).idle()
                        &&& pouring_refused(
                            old(self).log(),
                            final(self).log(),
                            (to - from) as usize,
                            max_transfer,
                            e,
                        )
                    },
                }
            }),
    {
        let ghost entered = self.log();
        let (to, _) = next_chunk(total, from, max_transfer);
        let length: usize = to - from;
        let ghost port = (self.block() + 0x060) as usize;
        match self.regs.arm_dma(Direction::Tx, from, length, max_transfer) {
            Err(refused) => {
                let ghost log = self.log();
                proof {
                    lemma_armed(entered, log, Direction::Tx, port, from, length, max_transfer, false);
                }
                let error = IOError::from(refused);
                self.cancel(open);
                Turn::Done(Err(error))
            },
            Ok(_) => {
                proof {
                    lemma_armed(entered, self.log(), Direction::Tx, port, from, length, max_transfer, true);
                    let none = Seq::<Mtdr>::empty();
                    lemma_over_on(begun@, entered, self.log(), none, none, Direction::Tx, from, length);
                    assert(none + none =~= none);
                }
                assert(TICK_HZ / 1000 == 1000 && length <= max_transfer <= u32::MAX);
                let margin: u64 = ticks_from_millis(length as u64);
                let bound: u64 = deadline_after(self.timeout, margin);
                Turn::Wait(Pouring { session: open, from, to, begun }, Wait::TxDma(bound))
            },
        }
    }

    /// Opens the data phase of a write of `total` bytes. An empty write is no
    /// error: it probes whether the address is acknowledged.
    pub fn begin_pouring(&mut self, open: Session, total: usize, max_transfer: usize) -> (r: Turn<
        Pouring,
        Result<Session, IOError>,
    >)
        requires
            old(self).owns(open@),
            open@.phase.writable(),
            max_transfer <= u32::MAX,
            old(self).block() <= usize::MAX - 0x070,
        ensures
            final(self).same_setup(old(self)),
            ({
                let to = chunk_end_at(total as int, 0, max_transfer as int);
                match r {
                    Turn::Wait(op, wait) => {
                        &&& op.fits(final(self), total as int)
                        &&& op.from == 0
                        &&& op.to == to
                        &&& op.begun@ == old(self).log()
                        &&& wait == Wait::TxDma(dma_bound(old(self).budget(), to as usize))
                        &&& controller_dma_armed(
                            old(self).log(),
                            final(self).log(),
                            Direction::Tx,
                            (old(self).block() + 0x060) as usize,
                            0,
                            to as usize,
                            max_transfer,
                            true,
                        )
                    },
                    Turn::Done(Ok(next)) => {
                        &&& total == 0
                        &&& final(self).log() == old(self).log()
                        &&& final(self).owns(next@)
                        &&& next@.phase.writable()
                    },
                    Turn::Done(Err(e)) => {
                        &&& final(self).idle()
                        &&& pouring_refused(
                            old(self).log(),
                            final(self).log(),
                            to as usize,
                            max_transfer,
                            e,
                        )
                    },
                }
            }),
    {
        if total == 0 {
            return Turn::Done(Ok(open));
        }
        let ghost entered = self.log();
        proof {
            lemma_moved_nothing(entered, entered);
            lemma_over_nothing(entered, entered, Seq::empty(), Direction::Tx);
        }
        self.pour_chunk(open, Ghost(entered), total, 0, max_transfer)
    }

    /// Ends one transmit transfer and goes on with the next chunk. The channel
    /// is shut down before anything else, and a last look at the status
    /// catches a fault that raced the completion. No verdict is a wait that
    /// ran out.
    pub fn pour_turn(
        &mut self,
        op: Pouring,
        total: usize,
        max_transfer: usize,
        verdict: Option<DmaVerdict>,
    ) -> (r: Turn<
        Pouring,
        Result<Session, IOError>,
    >)
        requires
            op.fits(old(self), total as int),
            verdict_seen(old(self).log(), verdict),
            max_transfer <= u32::MAX,
            old(self).block() <= usize::MAX - 0x070,
        ensures
            final(self).same_setup(old(self)),
            finished_first(old(self).log(), final(self).log(), Direction::Tx, (op.to - op.from) as usize),
            ({
                let to = chunk_end_at(total as int, op.to as int, max_transfer as int);
                match r {
                    Turn::Wait(next, wait) => {
                        &&& verdict == Some(DmaVerdict::Complete)
                        &&& next.fits(final(self), total as int)
                        &&& next.from == op.to
                        &&& next.to == to
                        &&& next.begun@ == op.begun@
                        &&& extends(old(self).log(), final(self).log())
                        &&& wait == Wait::TxDma(dma_bound(old(self).budget(), (to - op.to) as usize))
                        &&& armed_behind(old(self).log(), final(self).log(), Direction::Tx)
                        &&& completed_first(
                            old(self).log(),
                            final(self).log(),
                            Direction::Tx,
                            (op.to - op.from) as usize,
                        )
                        &&& poured_on(
                            old(self).log(),
                            final(self).log(),
                            (op.to - op.from) as usize,
                            (old(self).block() + 0x060) as usize,
                            op.to,
                            (to - op.to) as usize,
                            max_transfer,
                        )
                    },
                    Turn::Done(Ok(open)) => {
                        &&& verdict == Some(DmaVerdict::Complete)
                        &&& op.to == total
                        &&& final(self).owns(open@)
                        &&& open@.phase.writable()
                        &&& handed_over(op.begun@, final(self).log(), Seq::empty(), Direction::Tx, total as int)
                        &&& dma_completed(
                            old(self).log(),
                            final(self).log(),
                            Direction::Tx,
                            (op.to - op.from) as usize,
                        )
                    },
                    Turn::Done(Err(e)) => {
                        &&& final(self).idle()
                        &&& {
                            ||| dma_aborted(
                                old(self).log(),
                                final(self).log(),
                                Direction::Tx,
                                (op.to - op.from) as usize,
                                verdict,
                                e,
                                false,
                            )
                            ||| verdict == Some(DmaVerdict::Complete) && refused_behind(
                                old(self).log(),
                                final(self).log(),
                                (op.to - op.from) as usize,
                                (to - op.to) as usize,
                                max_transfer,
                                e,
                            )
                        }
                    },
                }
            }),
    {
        let ghost entered = self.log();
        let mut open = op.session;
        let length: usize = op.to - op.from;
        let transferred: usize = self.regs.finish_dma(Direction::Tx, length);
        let ghost quiet = self.log();
        proof {
            lemma_finished(entered, quiet, Direction::Tx, length, transferred);
        }
        let ghost session = open@;
        let error = match verdict {
            None => IOError::Timeout,
            Some(DmaVerdict::UnexpectedStop) => IOError::UnexpectedStop,
            Some(DmaVerdict::Fault(fault)) => {
                let error = open.bind_fault(&mut self.regs, fault);
                proof {
                    let data = (self.log().last()->ReadMfsr_0).rxcount != 0;
                    lemma_bound_mirrors(wire(quiet), session, data, fault);
                    lemma_known_later(entered, self.log(), fault_retained(fault));
                }
                error
            },
            Some(DmaVerdict::Complete) => {
                match self.regs.take_active_fault() {
                    None => {
                        let ghost clean = self.log();
                        proof {
                            assert(dma_completed(entered, clean, Direction::Tx, length));
                            let none = Seq::<Mtdr>::empty();
                            lemma_moved_nothing(entered, clean);
                            lemma_over_moved(
                                op.begun@,
                                entered,
                                clean,
                                none,
                                none,
                                Direction::Tx,
                                op.to as int,
                            );
                            assert(none + none =~= none);
                        }
                        if op.to == total {
                            return Turn::Done(Ok(open));
                        }
                        let r = self.pour_chunk(open, op.begun, total, op.to, max_transfer);
                        proof {
                            if r is Wait {
                                let port = (self.block() + 0x060) as usize;
                                let to = chunk_end_at(total as int, op.to as int, max_transfer as int);
                                let rest = (to - op.to) as usize;
                                lemma_armed(
                                    clean,
                                    self.log(),
                                    Direction::Tx,
                                    port,
                                    op.to,
                                    rest,
                                    max_transfer,
                                    true,
                                );
                                lemma_armed_earlier(entered, clean, self.log(), Direction::Tx);
                            }
                        }
                        return r;
                    },
                    Some(fault) => {
                        let ghost seen = self.log();
                        let error = open.bind_fault(&mut self.regs, fault);
                        proof {
                            lemma_active_fault(quiet, seen, self.log(), session, open@, fault, error);
                        }
                        error
                    },
                }
            },
        };
        let ghost log = self.log();
        self.cancel(open);
        proof {
            assert(extends(quiet, log));
            assert(dma_failed(entered, quiet, log, Direction::Tx, length, transferred, verdict, error));
            lemma_recovered_weaken(log, self.log(), open@.phase.clocks(), false);
        }
        Turn::Done(Err(error))
    }
}

} // verus!
