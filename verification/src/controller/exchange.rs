//! Whole transactions of the interrupt-driven controller: a list of reads and
//! writes, with a repeated START between them and one STOP at the end.

use vstd::prelude::*;

use crate::answers::owed;
use crate::controller::{I2c, IOError};
use crate::controller::asynch::{limit_of_step, on_time, one_word, turn_aborted, wait_error, Limit, StopOp, Turn, Wait};
use crate::controller::blocking::{
    chain_opened, chunked_commands, doomed, exchanged, operation_opened, read_commands, same_request, write_commands,
    Operation, OperationView,
};
use crate::controller::txn::{
    failed_again, lemma_reached_here, lemma_turn_weaken, reached_again, read_turn_aborted, step_aborted, ReadTxn,
    WriteTxn,
};
use crate::controller_registers::{start_word, stop_word};
use crate::lpi2c_regs::{Access, ControllerPort};
use crate::session::{recovered, Abort, Session, SessionPhase};
use crate::trace::extends;
use crate::transfer::{lemma_moved, lemma_moved_nothing, moved, retryable};
use crate::wait::WaitOutcome;
use crate::words::Mtdr;

verus! {

broadcast use {
    crate::answers::lemma_owed_push,
    crate::trace::group_bounded,
    crate::trace::group_trace,
    crate::transfer::group_wire,
    crate::session::lemma_recovered_wire,
};

/// Where an exchange stands.
pub enum Leg {
    /// Nothing was done yet.
    Fresh,
    /// The transaction is open, and the operation at the given place comes
    /// next, or the STOP where there is none.
    Between(Session, usize),
    /// The read at the given place.
    Reading(ReadTxn, usize),
    /// The write at the given place.
    Writing(WriteTxn, usize),
    /// The STOP, and the history before it.
    Stopping(StopOp, Ghost<Seq<Access>>),
}

/// A list of operations that runs as one transaction.
pub struct Exchange {
    pub address: u8,
    /// The history before the first START.
    pub from: Ghost<Seq<Access>>,
    pub leg: Leg,
}

/// The outcome of a turn of an exchange.
pub enum Stride<O> {
    /// Wait for this, and take the next turn with how the wait ended.
    Wait(O, Wait),
    /// An operation is done. The next turn follows without a wait.
    Next(O),
    Done(Result<(), IOError>),
}

/// One step of an exchange gave the transaction up. `closed` is what a closed
/// wait cell means to it.
pub open spec fn leg_aborted(
    before: Seq<Access>,
    after: Seq<Access>,
    waited: Option<WaitOutcome>,
    closed: IOError,
    limit: Limit,
    rest: Seq<Mtdr>,
    error: IOError,
) -> bool {
    ||| step_aborted(before, after, waited, limit, rest, error)
    ||| turn_aborted(before, after, waited, closed, limit, rest, error, true)
}

/// A turn of an exchange failed: at the step that it came with, or, only where
/// a read may be retried, behind a recovery in the same turn. `all` are the
/// commands that were left to it, and `again` those of a second attempt.
pub open spec fn exchange_aborted(
    before: Seq<Access>,
    after: Seq<Access>,
    waited: Option<WaitOutcome>,
    closed: IOError,
    given: Limit,
    budget: u64,
    all: Seq<Mtdr>,
    again: Seq<Mtdr>,
    error: IOError,
    allow_chunks: bool,
) -> bool {
    exists|attempt: Seq<Access>, w: Option<WaitOutcome>, limit: Limit, rest: Seq<Mtdr>|
        {
            &&& #[trigger] leg_aborted(attempt, after, w, closed, limit, rest, error)
            &&& limit_of_step(limit, given, budget)
            &&& (w == waited || w is None)
            &&& reached_again(before, attempt, all, again, rest, allow_chunks)
        }
}

/// The commands of one operation, from its START on.
pub open spec fn operation_commands(op: OperationView, address: u8) -> Seq<Mtdr> {
    match op {
        OperationView::Read(buffer) => read_commands(address, buffer.len()),
        OperationView::Write(buffer) => write_commands(address, buffer),
    }
}

impl Exchange {
    /// The exchange belongs to what is open on `i2c`.
    pub open spec fn fits<H>(self, i2c: &I2c<H>, ops: Seq<Operation>) -> bool {
        let allow = i2c.allows_chunks();
        &&& self.address < 0x80
        &&& ops.len() > 0
        &&& forall|i: int| 0 <= i < ops.len() ==> !doomed(#[trigger] ops[i])
        &&& match self.leg {
            Leg::Fresh => i2c.idle() && i2c.log() == self.from@,
            Leg::Between(open, place) => {
                &&& 0 < place <= ops.len()
                &&& i2c.owns(open@)
                &&& open@.phase.closable()
                &&& chain_opened(self.from@, i2c.log(), ops.take(place as int), self.address, allow)
            },
            Leg::Reading(op, place) => {
                &&& place < ops.len()
                &&& op.address == self.address
                &&& (ops[place as int]@ matches OperationView::Read(buffer) && op.fits(i2c, buffer))
                &&& chain_opened(self.from@, op.attempts@.from, ops.take(place as int), self.address, allow)
            },
            Leg::Writing(op, place) => {
                &&& place < ops.len()
                &&& op.address == self.address
                &&& (ops[place as int]@ matches OperationView::Write(buffer) && op.fits(i2c, buffer))
                &&& chain_opened(self.from@, op.from@, ops.take(place as int), self.address, allow)
            },
            Leg::Stopping(op, opened) => {
                &&& op.fits(i2c)
                &&& chain_opened(self.from@, opened@, ops, self.address, allow)
                &&& moved(opened@, i2c.log(), one_word(!(op is Unqueued), stop_word()), Seq::empty())
            },
        }
    }

    /// The place of the operation that is next or under way; that of the STOP
    /// is behind the last one.
    pub open spec fn place(self, ops: Seq<Operation>) -> int {
        match self.leg {
            Leg::Fresh => 0,
            Leg::Between(_, place) | Leg::Reading(_, place) | Leg::Writing(_, place) => place as int,
            Leg::Stopping(_, _) => ops.len() as int,
        }
    }

    /// What the exchange waits for.
    pub open spec fn waits_for(self, wait: Wait, before: Seq<Access>, log: Seq<Access>, timeout: u64) -> bool {
        match self.leg {
            Leg::Fresh | Leg::Between(_, _) => false,
            Leg::Reading(op, _) => op.waits_for(wait, before, log, timeout),
            Leg::Writing(op, _) => op.waits_for(wait, before, log, timeout),
            Leg::Stopping(op, _) => op.waits_for(wait, before, log, timeout),
        }
    }

    /// The deadline of a queued START or STOP.
    pub open spec fn end(self) -> Option<u64> {
        match self.leg {
            Leg::Fresh | Leg::Between(_, _) => None,
            Leg::Reading(op, _) => op.end(),
            Leg::Writing(op, _) => op.end(),
            Leg::Stopping(op, _) => op.end(),
        }
    }

    /// What bounds the step that a turn begins with.
    pub open spec fn limit(self, budget: u64) -> Limit {
        match self.leg {
            Leg::Fresh | Leg::Between(_, _) => Limit::Untimed,
            Leg::Reading(op, _) => op.limit(budget),
            Leg::Writing(op, _) => op.limit(budget),
            Leg::Stopping(op, _) => op.limit(),
        }
    }

    /// How a turn that goes on took the wait that it came with.
    pub open spec fn heeded(
        self,
        next: Exchange,
        before: Seq<Access>,
        after: Seq<Access>,
        waited: Option<WaitOutcome>,
        allow_chunks: bool,
    ) -> bool {
        match self.leg {
            Leg::Fresh | Leg::Between(_, _) => true,
            Leg::Reading(op, _) => next.leg matches Leg::Reading(later, _) && op.heeded(
                later,
                before,
                after,
                waited,
                allow_chunks,
            ),
            Leg::Writing(op, _) => next.leg matches Leg::Writing(later, _) && op.heeded(later, before, after, waited),
            Leg::Stopping(op, _) => next.leg is Stopping && wait_error(waited, IOError::Other) is None,
        }
    }

    /// The commands that are left to the operation that is next or under way,
    /// or to the STOP.
    pub open spec fn rest(self, ops: Seq<Operation>) -> Seq<Mtdr> {
        let place = self.place(ops);
        match self.leg {
            Leg::Fresh | Leg::Between(_, _) => if place < ops.len() {
                operation_commands(ops[place]@, self.address)
            } else {
                seq![stop_word()]
            },
            Leg::Reading(op, _) => op.rest((ops[place]@->Read_0).len()),
            Leg::Writing(op, _) => op.rest(ops[place]@->Write_0),
            Leg::Stopping(op, _) => one_word(op is Unqueued, stop_word()),
        }
    }

    /// The commands of a second attempt, where the operation is a read.
    pub open spec fn again(self, ops: Seq<Operation>) -> Seq<Mtdr> {
        let place = self.place(ops);
        if place < ops.len() && ops[place]@ is Read {
            chunked_commands(self.address, (ops[place]@->Read_0).len())
        } else {
            Seq::empty()
        }
    }

    /// The error that a closed wait cell means here. A read tells for itself.
    pub open spec fn closed_error(self) -> IOError {
        match self.leg {
            Leg::Writing(op, _) => op.closed_error(),
            _ => IOError::Other,
        }
    }

    /// An exchange whose reads may be retried failed with an error that calls
    /// for it: not in a read, at the START of one, or at its second attempt.
    pub open spec fn failed_twice(
        self,
        before: Seq<Access>,
        after: Seq<Access>,
        waited: Option<WaitOutcome>,
        budget: u64,
        ops: Seq<Operation>,
        error: IOError,
    ) -> bool {
        let place = self.place(ops);
        match self.leg {
            Leg::Reading(op, _) => op.failed_twice(before, after, waited, budget, (ops[place]@->Read_0).len(), error),
            Leg::Fresh | Leg::Between(_, _) => place < ops.len() && ops[place]@ is Read ==> {
                ||| turn_aborted(
                    before,
                    after,
                    None,
                    IOError::Other,
                    Limit::Within(budget),
                    seq![start_word(self.address, true)],
                    error,
                    true,
                )
                ||| failed_again(before, after, budget, self.rest(ops), self.again(ops), error)
            },
            Leg::Writing(_, _) | Leg::Stopping(_, _) => true,
        }
    }

    /// What a turn did and returned.
    pub open spec fn strode<H>(
        self,
        i2c: &I2c<H>,
        next_i2c: &I2c<H>,
        ops: Seq<Operation>,
        next_ops: Seq<Operation>,
        waited: Option<WaitOutcome>,
        r: Stride<Exchange>,
    ) -> bool {
        &&& next_i2c.same_setup(i2c)
        &&& next_ops.len() == ops.len()
        &&& forall|i: int| 0 <= i < ops.len() ==> same_request(ops[i], #[trigger] next_ops[i])
        &&& forall|i: int| 0 <= i < ops.len() && i != self.place(ops) ==> #[trigger] next_ops[i] == ops[i]
        &&& match r {
            Stride::Wait(next, wait) => {
                &&& next.fits(next_i2c, next_ops)
                &&& next.address == self.address
                &&& next.from@ == self.from@
                &&& next.place(next_ops) == self.place(ops)
                &&& next.waits_for(wait, i2c.log(), next_i2c.log(), i2c.budget())
                &&& self.heeded(next, i2c.log(), next_i2c.log(), waited, i2c.allows_chunks())
                &&& extends(i2c.log(), next_i2c.log())
                &&& on_time(i2c.log(), next_i2c.log(), i2c.budget(), self.end(), next.end())
            },
            Stride::Next(next) => {
                &&& next.fits(next_i2c, next_ops)
                &&& next.address == self.address
                &&& next.from@ == self.from@
                &&& next.leg is Between
                &&& owed(next_i2c.log()) is Live
                &&& next.place(next_ops) == self.place(ops) + 1
            },
            Stride::Done(Ok(_)) => {
                &&& next_i2c.idle()
                &&& self.place(ops) == ops.len()
                &&& exchanged(self.from@, next_i2c.log(), next_ops, self.address, i2c.allows_chunks())
            },
            Stride::Done(Err(e)) => {
                &&& next_i2c.idle()
                &&& exchange_aborted(
                    i2c.log(),
                    next_i2c.log(),
                    waited,
                    self.closed_error(),
                    self.limit(i2c.budget()),
                    i2c.budget(),
                    self.rest(ops),
                    self.again(ops),
                    e,
                    i2c.allows_chunks(),
                )
                &&& i2c.allows_chunks() && retryable(e) ==> self.failed_twice(
                    i2c.log(),
                    next_i2c.log(),
                    waited,
                    i2c.budget(),
                    ops,
                    e,
                )
            },
        }
    }
}

impl<H: ControllerPort> I2c<H> {
    /// Checks a list of operations before anything touches the bus: a doomed
    /// read and an address of more than seven bits are rejected, and an empty
    /// list asks for nothing.
    pub fn begin_exchange(&self, address: u8, operations: &Vec<Operation>) -> (r: Result<Option<Exchange>, IOError>)
        requires
            self.idle(),
        ensures
            if exists|i: int| 0 <= i < operations@.len() && #[trigger] doomed(operations@[i]) {
                r == Err::<Option<Exchange>, IOError>(IOError::InvalidReadBufferLength)
            } else if operations@.len() == 0 {
                r == Ok::<Option<Exchange>, IOError>(None)
            } else if address >= 0x80 {
                r == Err::<Option<Exchange>, IOError>(IOError::AddressOutOfRange(address))
            } else {
                r matches Ok(Some(ex)) && {
                    &&& ex.fits(self, operations@)
                    &&& ex.leg is Fresh
                    &&& ex.address == address
                    &&& ex.from@ == self.log()
                }
            },
    {
        let mut place: usize = 0;
        while place < operations.len()
            invariant
                place <= operations@.len(),
                forall|i: int| 0 <= i < place ==> !doomed(#[trigger] operations@[i]),
            decreases operations@.len() - place,
        {
            if let Operation::Read(buffer) = &operations[place] {
                if buffer.len() == 0 {
                    assert(doomed(operations@[place as int]));
                    return Err(IOError::InvalidReadBufferLength);
                }
            }
            place = place + 1;
        }
        if operations.len() == 0 {
            return Ok(None);
        }
        if address >= 0x80 {
            return Err(IOError::AddressOutOfRange(address));
        }
        Ok(Some(Exchange { address, from: Ghost(self.log()), leg: Leg::Fresh }))
    }

    /// One turn of a read within an exchange.
    #[verifier::rlimit(80)]
    fn reading_leg(
        &mut self,
        address: u8,
        from: Ghost<Seq<Access>>,
        op: ReadTxn,
        place: usize,
        operations: &mut Vec<Operation>,
        waited: Option<WaitOutcome>,
    ) -> (r: Stride<Exchange>)
        requires
            (Exchange { address, from, leg: Leg::Reading(op, place) }).fits(old(self), old(operations)@),
        ensures
            (Exchange { address, from, leg: Leg::Reading(op, place) }).strode(
                old(self),
                final(self),
                old(operations)@,
                final(operations)@,
                waited,
                r,
            ),
    {
        let ghost given = operations@;
        let ghost entered = self.log();
        let ghost budget = self.budget();
        let ghost allow = self.allows_chunks();
        let turn = self.read_operation(op, &mut operations[place], waited);
        proof {
            assert(operations@.take(place as int) =~= given.take(place as int));
        }
        match turn {
            Turn::Wait(next, wait) => Stride::Wait(Exchange { address, from, leg: Leg::Reading(next, place) }, wait),
            Turn::Done(Ok(open)) => {
                proof {
                    let grown = operations@.take(place + 1);
                    assert(grown.drop_last() =~= given.take(place as int));
                    assert(operations@.len() == operations.len());
                    assert(operation_opened(op.attempts@.from, self.log(), grown.last()@, address, allow));
                }
                Stride::Next(Exchange { address, from, leg: Leg::Between(open, place + 1) })
            },
            Turn::Done(Err(e)) => {
                proof {
                    let len = (given[place as int]@->Read_0).len();
                    let all = op.rest(len);
                    let again = chunked_commands(address, len);
                    let (attempt, w, limit, rest) = choose|
                        attempt: Seq<Access>,
                        w: Option<WaitOutcome>,
                        limit: Limit,
                        rest: Seq<Mtdr>,
                    |
                        {
                            &&& #[trigger] step_aborted(attempt, self.log(), w, limit, rest, e)
                            &&& limit_of_step(limit, op.limit(budget), budget)
                            &&& (w == waited || w is None)
                            &&& reached_again(entered, attempt, all, again, rest, allow)
                        };
                    assert(leg_aborted(attempt, self.log(), w, IOError::Other, limit, rest, e));
                }
                Stride::Done(Err(e))
            },
        }
    }

    fn read_operation(&mut self, op: ReadTxn, operation: &mut Operation, waited: Option<WaitOutcome>) -> (r: Turn<
        ReadTxn,
        Result<Session, IOError>,
    >)
        requires
            old(operation)@ matches OperationView::Read(buffer) && op.fits(old(self), buffer),
        ensures
            final(self).same_setup(old(self)),
            same_request(*old(operation), *final(operation)),
            ({
                let filled = final(operation)@->Read_0;
                match r {
                    Turn::Wait(next, wait) => {
                        &&& next.fits(final(self), filled)
                        &&& op.followed_by(next, wait, old(self).log(), final(self).log(), old(self).budget())
                        &&& op.heeded(next, old(self).log(), final(self).log(), waited, old(self).allows_chunks())
                    },
                    Turn::Done(Ok(open)) => {
                        &&& final(self).owns(open@)
                        &&& open@.phase == SessionPhase::Stable(Abort::ReadStreaming)
                        &&& operation_opened(
                            op.attempts@.from,
                            final(self).log(),
                            final(operation)@,
                            op.address,
                            old(self).allows_chunks(),
                        )
                    },
                    Turn::Done(Err(e)) => {
                        &&& final(self).idle()
                        &&& read_turn_aborted(
                            old(self).log(),
                            final(self).log(),
                            waited,
                            op.limit(old(self).budget()),
                            old(self).budget(),
                            op.rest((old(operation)@->Read_0).len()),
                            chunked_commands(op.address, (old(operation)@->Read_0).len()),
                            e,
                            old(self).allows_chunks(),
                        )
                        &&& old(self).allows_chunks() && retryable(e) ==> op.failed_twice(
                            old(self).log(),
                            final(self).log(),
                            waited,
                            old(self).budget(),
                            (old(operation)@->Read_0).len(),
                            e,
                        )
                    },
                }
            }),
    {
        match operation {
            Operation::Read(buffer) => self.read_turn(op, buffer.as_mut_slice(), waited),
            // Only a read has a read under way.
            Operation::Write(_) => Turn::Done(Err(IOError::Other)),
        }
    }

    /// One turn of a write within an exchange.
    fn writing_leg(
        &mut self,
        address: u8,
        from: Ghost<Seq<Access>>,
        op: WriteTxn,
        place: usize,
        operations: &Vec<Operation>,
        waited: Option<WaitOutcome>,
    ) -> (r: Stride<Exchange>)
        requires
            (Exchange { address, from, leg: Leg::Writing(op, place) }).fits(old(self), operations@),
        ensures
            (Exchange { address, from, leg: Leg::Writing(op, place) }).strode(
                old(self),
                final(self),
                operations@,
                operations@,
                waited,
                r,
            ),
    {
        let ghost entered = self.log();
        let ghost limit = op.limit(self.budget());
        let turn = match &operations[place] {
            Operation::Write(buffer) => self.write_turn(op, buffer.as_slice(), waited),
            // Only a write has a write under way.
            Operation::Read(_) => Turn::Done(Err(IOError::Other)),
        };
        match turn {
            Turn::Wait(next, wait) => Stride::Wait(Exchange { address, from, leg: Leg::Writing(next, place) }, wait),
            Turn::Done(Ok(open)) => {
                proof {
                    let grown = operations@.take(place + 1);
                    assert(grown.drop_last() =~= operations@.take(place as int));
                    assert(operations@.len() == operations.len());
                    assert(operation_opened(op.from@, self.log(), grown.last()@, address, self.allows_chunks()));
                }
                Stride::Next(Exchange { address, from, leg: Leg::Between(open, place + 1) })
            },
            Turn::Done(Err(e)) => {
                proof {
                    let rest = op.rest(operations@[place as int]@->Write_0);
                    lemma_turn_weaken(
                        entered,
                        self.log(),
                        waited,
                        op.closed_error(),
                        limit,
                        rest,
                        e,
                        op.may_clock(),
                    );
                    assert(leg_aborted(entered, self.log(), waited, op.closed_error(), limit, rest, e));
                    lemma_reached_here(entered, rest, rest);
                }
                Stride::Done(Err(e))
            },
        }
    }

    /// One turn of the STOP of an exchange.
    fn stopping_leg(
        &mut self,
        address: u8,
        from: Ghost<Seq<Access>>,
        op: StopOp,
        opened: Ghost<Seq<Access>>,
        operations: &Vec<Operation>,
        waited: Option<WaitOutcome>,
    ) -> (r: Stride<Exchange>)
        requires
            (Exchange { address, from, leg: Leg::Stopping(op, opened) }).fits(old(self), operations@),
        ensures
            (Exchange { address, from, leg: Leg::Stopping(op, opened) }).strode(
                old(self),
                final(self),
                operations@,
                operations@,
                waited,
                r,
            ),
    {
        let ghost entered = self.log();
        let ghost first = op is Unqueued;
        let ghost none = Seq::<u8>::empty();
        assert(none + none =~= none);
        match self.stop_turn(op, waited) {
            Turn::Wait(next, wait) => {
                proof {
                    let words = one_word(first && !(next is Unqueued), stop_word());
                    lemma_moved(opened@, entered, self.log(), one_word(!first, stop_word()), words, none, none);
                    assert(one_word(!first, stop_word()) + words =~= one_word(!(next is Unqueued), stop_word()));
                }
                Stride::Wait(Exchange { address, from, leg: Leg::Stopping(next, opened) }, wait)
            },
            Turn::Done(Ok(_)) => {
                proof {
                    lemma_moved_nothing(entered, self.log());
                    lemma_moved(
                        opened@,
                        entered,
                        self.log(),
                        seq![stop_word()],
                        Seq::empty(),
                        none,
                        none,
                    );
                    assert(seq![stop_word()] + Seq::empty() =~= seq![stop_word()]);
                }
                Stride::Done(Ok(()))
            },
            Turn::Done(Err(e)) => {
                proof {
                    let rest = one_word(first, stop_word());
                    lemma_turn_weaken(entered, self.log(), waited, IOError::Other, op.limit(), rest, e, false);
                    assert(leg_aborted(entered, self.log(), waited, IOError::Other, op.limit(), rest, e));
                    lemma_reached_here(entered, rest, rest);
                }
                Stride::Done(Err(e))
            },
        }
    }

    /// Begins the operation at `place`, on a fresh transaction or by a repeated
    /// START on the open one.
    #[verifier::rlimit(80)]
    fn next_leg(
        &mut self,
        address: u8,
        from: Ghost<Seq<Access>>,
        open: Option<Session>,
        place: usize,
        operations: &mut Vec<Operation>,
    ) -> (r: Stride<Exchange>)
        requires
            (Exchange {
                address,
                from,
                leg: match open {
                    Some(open) => Leg::Between(open, place),
                    None => Leg::Fresh,
                },
            }).fits(old(self), old(operations)@),
            open is None ==> place == 0,
            place < old(operations)@.len(),
        ensures
            (Exchange {
                address,
                from,
                leg: match open {
                    Some(open) => Leg::Between(open, place),
                    None => Leg::Fresh,
                },
            }).strode(old(self), final(self), old(operations)@, final(operations)@, None, r),
    {
        let ghost entered = self.log();
        proof {
            assert(!doomed(operations@[place as int]));
            assert(operations@.take(0) =~= Seq::<Operation>::empty());
        }
        match &operations[place] {
            Operation::Read(buffer) => {
                let begun = match open {
                    None => self.begin_read(address, buffer.as_slice()),
                    Some(open) => self.begin_read_continue(address, buffer.as_slice(), open),
                };
                match begun {
                    Err(e) => Stride::Done(Err(e)),
                    Ok(op) => {
                        assert(one_word(true, start_word(address, true)) =~= seq![start_word(address, true)]);
                        self.reading_leg(address, from, op, place, operations, None)
                    },
                }
            },
            Operation::Write(buffer) => {
                let begun = match open {
                    None => self.begin_write(address, buffer.as_slice()),
                    Some(open) => self.begin_write_continue(address, buffer.as_slice(), open),
                };
                match begun {
                    Err(e) => Stride::Done(Err(e)),
                    Ok(op) => self.writing_leg(address, from, op, place, operations, None),
                }
            },
        }
    }

    /// One turn of an exchange. `waited` is how the wait that the last turn
    /// asked for ended.
    pub fn exchange_turn(
        &mut self,
        exchange: Exchange,
        operations: &mut Vec<Operation>,
        waited: Option<WaitOutcome>,
    ) -> (r: Stride<Exchange>)
        requires
            exchange.fits(old(self), old(operations)@),
        ensures
            exchange.strode(old(self), final(self), old(operations)@, final(operations)@, waited, r),
    {
        let ghost entered = self.log();
        let address = exchange.address;
        let from = exchange.from;
        match exchange.leg {
            Leg::Fresh => self.next_leg(address, from, None, 0, operations),
            Leg::Between(open, place) => {
                if place < operations.len() {
                    return self.next_leg(address, from, Some(open), place, operations);
                }
                proof {
                    assert(operations@.take(place as int) =~= operations@);
                    lemma_moved_nothing(entered, entered);
                }
                self.stopping_leg(address, from, StopOp::Unqueued(open), Ghost(entered), operations, None)
            },
            Leg::Reading(op, place) => self.reading_leg(address, from, op, place, operations, waited),
            Leg::Writing(op, place) => self.writing_leg(address, from, op, place, operations, waited),
            Leg::Stopping(op, opened) => self.stopping_leg(address, from, op, opened, operations, waited),
        }
    }

    /// Gives an exchange up: whatever it has open recovers.
    pub fn cancel_exchange(&mut self, exchange: Exchange, operations: &Vec<Operation>)
        requires
            exchange.fits(old(self), operations@),
        ensures
            final(self).same_setup(old(self)),
            final(self).idle(),
            match exchange.leg {
                Leg::Fresh => final(self).log() == old(self).log(),
                Leg::Between(_, _) | Leg::Stopping(_, _) => recovered(old(self).log(), final(self).log(), false),
                Leg::Reading(_, _) => recovered(old(self).log(), final(self).log(), true),
                Leg::Writing(op, _) => recovered(old(self).log(), final(self).log(), op.may_clock()),
            },
    {
        match exchange.leg {
            Leg::Fresh => {},
            Leg::Between(open, _) => self.cancel(open),
            Leg::Reading(op, place) => {
                if let Operation::Read(buffer) = &operations[place] {
                    self.cancel_read(op, buffer.as_slice());
                }
            },
            Leg::Writing(op, place) => {
                if let Operation::Write(buffer) = &operations[place] {
                    self.cancel_write(op, buffer.as_slice());
                }
            },
            Leg::Stopping(op, _) => self.cancel_stop(op),
        }
    }
}

} // verus!
