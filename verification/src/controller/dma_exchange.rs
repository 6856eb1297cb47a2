//! Whole transactions of the DMA controller: a list of reads and writes, with
//! a repeated START between them and one STOP at the end.

use vstd::prelude::*;

use crate::controller::{I2c, IOError};
use crate::controller::asynch::{lemma_on_time, on_time, one_word, turn_aborted, wait_error, Limit, StopOp, Turn, Wait};
use crate::controller::dma::{commands_of, dma_aborted, verdict_seen, DmaVerdict};
use crate::controller::dma_txn::{
    chain_too_long, dma_failed_again, dma_read_opened, dma_turn_aborted, dma_write_aborted, dma_write_opened,
    lemma_carries, lemma_later_step, whole_read, DmaReadStage, DmaReadTxn, DmaWriteStage, DmaWriteTxn,
};
use crate::controller::exchange::Stride;
use crate::controller_registers::{fault_retained, fifo_entries, start_word, stop_word};
use crate::lpi2c_regs::{Access, ControllerPort, Direction, DmaPort};
use crate::session::{lemma_known_later, recovered, Session};
use crate::trace::{commands, entry, extends};
use crate::transfer::{lemma_moved, lemma_moved_nothing, lemma_recovered_weaken, looked, moved, retryable};
use crate::wait::WaitOutcome;
use crate::words::Mtdr;

verus! {

broadcast use {
    crate::answers::lemma_owed_push,
    crate::trace::group_bounded,
    crate::trace::group_trace,
    crate::transfer::group_wire,
    crate::session::lemma_recovered_wire,
};

/// One operation of a combined transaction, with the length of its buffer.
#[derive(Clone, Copy, Debug, PartialEq, Eq, Structural)]
pub enum DmaOperation {
    /// Fill the buffer from the device.
    Read(usize),
    /// Send the buffer to the device.
    Write(usize),
}

/// A read was checked against the command FIFO, ran behind its START, and left
/// the transaction open.
pub open spec fn checked_read_opened(
    before: Seq<Access>,
    after: Seq<Access>,
    address: u8,
    length: nat,
    allow_chunks: bool,
) -> bool {
    exists|checked: Seq<Access>|
        {
            &&& looked(before, checked)
            &&& #[trigger] dma_read_opened(checked, after, address, length, allow_chunks)
        }
}

/// One operation ran behind its START and left the transaction open.
pub open spec fn dma_operation_opened(
    before: Seq<Access>,
    after: Seq<Access>,
    op: DmaOperation,
    address: u8,
    allow_chunks: bool,
) -> bool {
    match op {
        DmaOperation::Read(length) => checked_read_opened(before, after, address, length as nat, allow_chunks),
        DmaOperation::Write(length) => dma_write_opened(before, after, address, length as nat),
    }
}

/// The operations ran one behind the other, each behind its own START and
/// with no STOP between them.
pub open spec fn dma_chain_opened(
    before: Seq<Access>,
    after: Seq<Access>,
    ops: Seq<DmaOperation>,
    address: u8,
    allow_chunks: bool,
) -> bool
    decreases ops.len(),
{
    if ops.len() == 0 {
        after == before
    } else {
        exists|mid: Seq<Access>|
            {
                &&& dma_chain_opened(before, mid, ops.drop_last(), address, allow_chunks)
                &&& #[trigger] dma_operation_opened(mid, after, ops.last(), address, allow_chunks)
            }
    }
}

/// The operations ran one behind the other and the transaction was closed.
pub open spec fn dma_exchanged(
    before: Seq<Access>,
    after: Seq<Access>,
    ops: Seq<DmaOperation>,
    address: u8,
    allow_chunks: bool,
) -> bool {
    exists|open: Seq<Access>|
        {
            &&& #[trigger] dma_chain_opened(before, open, ops, address, allow_chunks)
            &&& moved(open, after, seq![stop_word()], Seq::empty())
        }
}

/// A read was found too long for the command FIFO when its turn came: nothing
/// of it was queued, and an open transaction was recovered.
pub open spec fn chain_refused(before: Seq<Access>, after: Seq<Access>, length: int, fresh: bool) -> bool {
    let param = entry(before, after, 0)->ReadParam_0;
    let checked = before.push(Access::ReadParam(param));
    &&& commands_of(length) > fifo_entries(param)
    &&& if fresh {
        after == checked
    } else {
        recovered(checked, after, true)
    }
}

/// Where a DMA exchange stands.
pub enum DmaLeg {
    /// Nothing was done yet.
    Fresh,
    /// The transaction is open, and the operation at the given place comes
    /// next, or the STOP where there is none.
    Between(Session, usize),
    /// The read at the given place, and the history before it.
    Reading(DmaReadTxn, usize, Ghost<Seq<Access>>),
    /// The write at the given place.
    Writing(DmaWriteTxn, usize),
    /// The STOP, and the history before it.
    Stopping(StopOp, Ghost<Seq<Access>>),
}

/// A list of DMA operations that runs as one transaction.
pub struct DmaExchange {
    pub address: u8,
    /// The history before the first START.
    pub from: Ghost<Seq<Access>>,
    pub leg: DmaLeg,
}

impl DmaExchange {
    /// The exchange belongs to what is open on `i2c`.
    pub open spec fn fits<H>(self, i2c: &I2c<H>, ops: Seq<DmaOperation>) -> bool {
        let allow = i2c.allows_chunks();
        &&& self.address < 0x80
        &&& ops.len() > 0
        &&& forall|i: int| 0 <= i < ops.len() ==> #[trigger] ops[i] != DmaOperation::Read(0)
        &&& match self.leg {
            DmaLeg::Fresh => i2c.idle() && i2c.log() == self.from@,
            DmaLeg::Between(open, place) => {
                &&& 0 < place <= ops.len()
                &&& i2c.owns(open@)
                &&& open@.phase.closable()
                &&& dma_chain_opened(self.from@, i2c.log(), ops.take(place as int), self.address, allow)
            },
            DmaLeg::Reading(op, place, before) => {
                &&& place < ops.len()
                &&& op.fits(i2c)
                &&& op.address == self.address
                &&& ops[place as int] == DmaOperation::Read(op.length)
                &&& looked(before@, op.attempts@.from)
                &&& dma_chain_opened(self.from@, before@, ops.take(place as int), self.address, allow)
            },
            DmaLeg::Writing(op, place) => {
                &&& place < ops.len()
                &&& op.fits(i2c)
                &&& op.address == self.address
                &&& ops[place as int] == DmaOperation::Write(op.length)
                &&& dma_chain_opened(self.from@, op.from@, ops.take(place as int), self.address, allow)
            },
            DmaLeg::Stopping(op, opened) => {
                &&& op.fits(i2c)
                &&& dma_chain_opened(self.from@, opened@, ops, self.address, allow)
                &&& moved(opened@, i2c.log(), one_word(!(op is Unqueued), stop_word()), Seq::empty())
            },
        }
    }

    /// The place of the operation that is next or under way; that of the STOP
    /// is behind the last one.
    pub open spec fn place(self, ops: Seq<DmaOperation>) -> int {
        match self.leg {
            DmaLeg::Fresh => 0,
            DmaLeg::Between(_, place) => place as int,
            DmaLeg::Reading(_, place, _) => place as int,
            DmaLeg::Writing(_, place) => place as int,
            DmaLeg::Stopping(_, _) => ops.len() as int,
        }
    }

    /// What the exchange waits for.
    pub open spec fn waits_for(self, wait: Wait, before: Seq<Access>, log: Seq<Access>, timeout: u64) -> bool {
        match self.leg {
            DmaLeg::Fresh | DmaLeg::Between(_, _) => false,
            DmaLeg::Reading(op, _, _) => op.waits_for(wait, before, log, timeout),
            DmaLeg::Writing(op, _) => op.waits_for(wait, before, log, timeout),
            DmaLeg::Stopping(op, _) => op.waits_for(wait, before, log, timeout),
        }
    }

    /// The deadline of a queued START or STOP.
    pub open spec fn end(self) -> Option<u64> {
        match self.leg {
            DmaLeg::Fresh | DmaLeg::Between(_, _) => None,
            DmaLeg::Reading(op, _, _) => op.end(),
            DmaLeg::Writing(op, _) => op.end(),
            DmaLeg::Stopping(op, _) => op.end(),
        }
    }

    /// How a turn that goes on took the wait that it came with, or the verdict
    /// on its transfer.
    pub open spec fn heeded(
        self,
        next: DmaExchange,
        before: Seq<Access>,
        after: Seq<Access>,
        waited: Option<WaitOutcome>,
        verdict: Option<DmaVerdict>,
        allow_chunks: bool,
    ) -> bool {
        match self.leg {
            DmaLeg::Fresh | DmaLeg::Between(_, _) => true,
            DmaLeg::Reading(op, _, _) => next.leg matches DmaLeg::Reading(later, _, _) && op.heeded(
                later,
                waited,
                verdict,
                allow_chunks,
            ),
            DmaLeg::Writing(op, _) => next.leg matches DmaLeg::Writing(later, _) && op.heeded(
                later,
                before,
                after,
                waited,
                verdict,
            ),
            DmaLeg::Stopping(_, _) => next.leg is Stopping && wait_error(waited, IOError::Other) is None,
        }
    }

    /// A turn of the exchange gave the transaction up.
    pub open spec fn left(
        self,
        ops: Seq<DmaOperation>,
        before: Seq<Access>,
        after: Seq<Access>,
        waited: Option<WaitOutcome>,
        verdict: Option<DmaVerdict>,
        budget: u64,
        error: IOError,
        allow_chunks: bool,
    ) -> bool {
        let place = self.place(ops);
        let reads = place < ops.len() && ops[place] is Read;
        match self.leg {
            DmaLeg::Fresh | DmaLeg::Between(_, _) => {
                ||| reads && dma_turn_aborted(
                    before,
                    after,
                    None,
                    verdict,
                    Limit::Untimed,
                    budget,
                    whole_read(self.address, ops[place]->Read_0 as nat, allow_chunks),
                    error,
                )
                ||| {
                    &&& reads
                    &&& error == IOError::ChunkingRequired
                    &&& !allow_chunks
                    &&& chain_refused(before, after, ops[place]->Read_0 as int, self.leg is Fresh)
                }
                ||| !reads && place < ops.len() && dma_write_aborted(
                    before,
                    after,
                    None,
                    verdict,
                    Limit::Within(budget),
                    seq![start_word(self.address, false)],
                    error,
                )
                ||| place == ops.len() && turn_aborted(
                    before,
                    after,
                    None,
                    IOError::Other,
                    Limit::Untimed,
                    seq![stop_word()],
                    error,
                    false,
                )
            },
            DmaLeg::Reading(op, _, _) => dma_turn_aborted(
                before,
                after,
                waited,
                verdict,
                op.limit(budget),
                budget,
                op.left(allow_chunks, verdict),
                error,
            ),
            DmaLeg::Writing(op, _) => dma_write_aborted(
                before,
                after,
                waited,
                verdict,
                op.limit(budget),
                op.rest(),
                error,
            ),
            DmaLeg::Stopping(op, _) => turn_aborted(
                before,
                after,
                waited,
                IOError::Other,
                op.limit(),
                one_word(op is Unqueued, stop_word()),
                error,
                false,
            ),
        }
    }

    /// What a turn did and returned.
    pub open spec fn strode<H>(
        self,
        i2c: &I2c<H>,
        next_i2c: &I2c<H>,
        ops: Seq<DmaOperation>,
        waited: Option<WaitOutcome>,
        verdict: Option<DmaVerdict>,
        r: Stride<DmaExchange>,
    ) -> bool {
        &&& next_i2c.same_setup(i2c)
        &&& match self.leg {
            DmaLeg::Reading(op, _, _) => op.quiets(i2c.log(), next_i2c.log()),
            DmaLeg::Writing(op, _) => op.quiets(i2c.log(), next_i2c.log()),
            _ => true,
        }
        &&& match r {
            Stride::Wait(next, wait) => {
                &&& next.fits(next_i2c, ops)
                &&& next.address == self.address
                &&& next.from@ == self.from@
                &&& next.place(ops) == self.place(ops)
                &&& next.waits_for(wait, i2c.log(), next_i2c.log(), i2c.budget())
                &&& self.heeded(next, i2c.log(), next_i2c.log(), waited, verdict, i2c.allows_chunks())
                &&& extends(i2c.log(), next_i2c.log())
                &&& on_time(i2c.log(), next_i2c.log(), i2c.budget(), self.end(), next.end())
            },
            Stride::Next(next) => {
                &&& next.fits(next_i2c, ops)
                &&& next.address == self.address
                &&& next.from@ == self.from@
                &&& next.leg is Between
                &&& next.place(ops) == self.place(ops) + 1
            },
            Stride::Done(Ok(_)) => {
                &&& next_i2c.idle()
                &&& self.place(ops) == ops.len()
                &&& dma_exchanged(self.from@, next_i2c.log(), ops, self.address, i2c.allows_chunks())
            },
            Stride::Done(Err(e)) => {
                &&& next_i2c.idle()
                &&& self.left(
                    ops,
                    i2c.log(),
                    next_i2c.log(),
                    waited,
                    verdict,
                    i2c.budget(),
                    e,
                    i2c.allows_chunks(),
                )
                &&& i2c.allows_chunks() && retryable(e) ==> self.failed_twice(
                    ops,
                    i2c.log(),
                    next_i2c.log(),
                    waited,
                    verdict,
                    i2c.budget(),
                    e,
                )
            },
        }
    }

    /// An exchange whose reads may be retried failed with an error that calls
    /// for it: not in a read, or in one as [`DmaReadTxn::failed_twice`] says.
    pub open spec fn failed_twice(
        self,
        ops: Seq<DmaOperation>,
        before: Seq<Access>,
        after: Seq<Access>,
        waited: Option<WaitOutcome>,
        verdict: Option<DmaVerdict>,
        budget: u64,
        error: IOError,
    ) -> bool {
        match self.leg {
            DmaLeg::Reading(op, _, _) => op.failed_twice(before, after, waited, verdict, budget, error),
            DmaLeg::Fresh | DmaLeg::Between(_, _) => {
                self.place(ops) < ops.len() && ops[self.place(ops)] is Read ==> exists|checked: Seq<Access>| #[trigger]
                    looked(before, checked) && began_twice(
                        checked,
                        after,
                        verdict,
                        budget,
                        self.address,
                        ops[self.place(ops)]->Read_0,
                        error,
                    )
            },
            DmaLeg::Writing(_, _) | DmaLeg::Stopping(_, _) => true,
        }
    }
}

/// As [`DmaReadTxn::failed_twice`], where the read began with this turn.
pub open spec fn began_twice(
    before: Seq<Access>,
    after: Seq<Access>,
    verdict: Option<DmaVerdict>,
    budget: u64,
    address: u8,
    length: usize,
    error: IOError,
) -> bool {
    ||| turn_aborted(
        before,
        after,
        None,
        IOError::Other,
        Limit::Within(budget),
        seq![start_word(address, true)],
        error,
        true,
    )
    ||| chain_too_long(before, after, length as int)
    ||| dma_failed_again(before, after, verdict, budget, whole_read(address, length as nat, true), error)
}

/// One operation was checked before anything touched the bus: a read needs a
/// buffer, and commands that the FIFO can hold or consent to be split.
pub open spec fn operation_checked(
    before: Seq<Access>,
    after: Seq<Access>,
    op: DmaOperation,
    allow_chunks: bool,
    r: Option<IOError>,
) -> bool {
    let param = entry(before, after, 0)->ReadParam_0;
    match op {
        DmaOperation::Write(_) => after == before && r is None,
        DmaOperation::Read(length) => if length == 0 {
            after == before && r == Some(IOError::InvalidReadBufferLength)
        } else {
            &&& after == before.push(Access::ReadParam(param))
            &&& r == (if commands_of(length as int) > fifo_entries(param) && !allow_chunks {
                Some(IOError::ChunkingRequired)
            } else {
                None
            })
        },
    }
}

/// The operations were checked in order, up to the first one that cannot be
/// served, whose error is `r`.
pub open spec fn preflighted(
    before: Seq<Access>,
    after: Seq<Access>,
    ops: Seq<DmaOperation>,
    allow_chunks: bool,
    r: Option<IOError>,
) -> bool
    decreases ops.len(),
{
    if ops.len() == 0 {
        after == before && r is None
    } else {
        ||| r is Some && preflighted(before, after, ops.drop_last(), allow_chunks, r)
        ||| exists|mid: Seq<Access>|
            {
                &&& preflighted(before, mid, ops.drop_last(), allow_chunks, None)
                &&& #[trigger] operation_checked(mid, after, ops.last(), allow_chunks, r)
            }
    }
}

/// A check that failed early is the check of the whole list.
proof fn lemma_failed_preflight(
    before: Seq<Access>,
    after: Seq<Access>,
    ops: Seq<DmaOperation>,
    place: int,
    allow_chunks: bool,
    r: Option<IOError>,
)
    requires
        0 <= place <= ops.len(),
        r is Some,
        preflighted(before, after, ops.take(place), allow_chunks, r),
    ensures
        preflighted(before, after, ops, allow_chunks, r),
    decreases ops.len() - place,
{
    if place == ops.len() {
        assert(ops.take(place) =~= ops);
    } else {
        assert(ops.take(place + 1).drop_last() =~= ops.take(place));
        lemma_failed_preflight(before, after, ops, place + 1, allow_chunks, r);
    }
}

impl<H: ControllerPort + DmaPort> I2c<H> {
    /// Checks a list of operations before anything touches the bus: a doomed
    /// read, one that would have to be split without consent, and an address
    /// of more than seven bits are rejected, and an empty list asks for
    /// nothing.
    pub fn begin_dma_exchange(&mut self, address: u8, operations: &Vec<DmaOperation>) -> (r: Result<
        Option<DmaExchange>,
        IOError,
    >)
        requires
            old(self).idle(),
        ensures
            final(self).same_setup(old(self)),
            final(self).idle(),
            looked(old(self).log(), final(self).log()),
            ({
                let allow = old(self).allows_chunks();
                match r {
                    Ok(found) => {
                        &&& preflighted(old(self).log(), final(self).log(), operations@, allow, None)
                        &&& match found {
                            None => operations@.len() == 0,
                            Some(ex) => {
                                &&& operations@.len() > 0
                                &&& address < 0x80
                                &&& ex.fits(final(self), operations@)
                                &&& ex.leg is Fresh
                                &&& ex.address == address
                                &&& ex.from@ == final(self).log()
                            },
                        }
                    },
                    Err(e) => {
                        ||| preflighted(old(self).log(), final(self).log(), operations@, allow, Some(e))
                        ||| {
                            &&& preflighted(old(self).log(), final(self).log(), operations@, allow, None)
                            &&& operations@.len() > 0
                            &&& address >= 0x80
                            &&& e == IOError::AddressOutOfRange(address)
                        }
                    },
                }
            }),
    {
        let ghost entered = self.log();
        let mut place: usize = 0;
        while place < operations.len()
            invariant
                place <= operations@.len(),
                self.same_setup(old(self)),
                self.idle(),
                entered == old(self).log(),
                looked(entered, self.log()),
                preflighted(entered, self.log(), operations@.take(place as int), self.allows_chunks(), None),
                forall|i: int| 0 <= i < place ==> #[trigger] operations@[i] != DmaOperation::Read(0),
            decreases operations@.len() - place,
        {
            let ghost round = self.log();
            let ghost grown = operations@.take(place + 1);
            proof {
                assert(grown.drop_last() =~= operations@.take(place as int));
                assert(grown.last() == operations@[place as int]);
            }
            match operations[place] {
                DmaOperation::Read(length) => {
                    match self.dma_read_preflight(length) {
                        Err(e) => {
                            proof {
                                assert(operation_checked(
                                    round,
                                    self.log(),
                                    grown.last(),
                                    self.allows_chunks(),
                                    Some(e),
                                ));
                                lemma_failed_preflight(
                                    entered,
                                    self.log(),
                                    operations@,
                                    place + 1,
                                    self.allows_chunks(),
                                    Some(e),
                                );
                            }
                            return Err(e);
                        },
                        Ok(_) => {},
                    }
                },
                DmaOperation::Write(_) => {},
            }
            assert(operation_checked(round, self.log(), grown.last(), self.allows_chunks(), None));
            place = place + 1;
        }
        assert(operations@.take(place as int) =~= operations@);
        if operations.len() == 0 {
            return Ok(None);
        }
        if address >= 0x80 {
            return Err(IOError::AddressOutOfRange(address));
        }
        Ok(Some(DmaExchange { address, from: Ghost(self.log()), leg: DmaLeg::Fresh }))
    }

    /// One turn of a read within an exchange.
    fn dma_reading_leg(
        &mut self,
        address: u8,
        from: Ghost<Seq<Access>>,
        op: DmaReadTxn,
        place: usize,
        before: Ghost<Seq<Access>>,
        operations: &Vec<DmaOperation>,
        max_transfer: usize,
        waited: Option<WaitOutcome>,
        verdict: Option<DmaVerdict>,
    ) -> (r: Stride<DmaExchange>)
        requires
            verdict_seen(old(self).log(), verdict),
            (DmaExchange { address, from, leg: DmaLeg::Reading(op, place, before) }).fits(old(self), operations@),
            max_transfer <= u32::MAX,
            old(self).block() <= usize::MAX - 0x070,
        ensures
            (DmaExchange { address, from, leg: DmaLeg::Reading(op, place, before) }).strode(
                old(self),
                final(self),
                operations@,
                waited,
                verdict,
                r,
            ),
    {
        match self.dma_read_turn(op, max_transfer, waited, verdict) {
            Turn::Wait(next, wait) => Stride::Wait(
                DmaExchange { address, from, leg: DmaLeg::Reading(next, place, before) },
                wait,
            ),
            Turn::Done(Ok(open)) => {
                proof {
                    let grown = operations@.take(place + 1);
                    assert(grown.drop_last() =~= operations@.take(place as int));
                    assert(dma_operation_opened(before@, self.log(), grown.last(), address, self.allows_chunks()));
                    assert(operations@.len() == operations.len());
                }
                Stride::Next(DmaExchange { address, from, leg: DmaLeg::Between(open, place + 1) })
            },
            Turn::Done(Err(e)) => Stride::Done(Err(e)),
        }
    }

    /// One turn of a write within an exchange.
    fn dma_writing_leg(
        &mut self,
        address: u8,
        from: Ghost<Seq<Access>>,
        op: DmaWriteTxn,
        place: usize,
        operations: &Vec<DmaOperation>,
        max_transfer: usize,
        waited: Option<WaitOutcome>,
        verdict: Option<DmaVerdict>,
    ) -> (r: Stride<DmaExchange>)
        requires
            verdict_seen(old(self).log(), verdict),
            (DmaExchange { address, from, leg: DmaLeg::Writing(op, place) }).fits(old(self), operations@),
            max_transfer <= u32::MAX,
            old(self).block() <= usize::MAX - 0x070,
        ensures
            (DmaExchange { address, from, leg: DmaLeg::Writing(op, place) }).strode(
                old(self),
                final(self),
                operations@,
                waited,
                verdict,
                r,
            ),
    {
        match self.dma_write_turn(op, max_transfer, waited, verdict) {
            Turn::Wait(next, wait) => Stride::Wait(
                DmaExchange { address, from, leg: DmaLeg::Writing(next, place) },
                wait,
            ),
            Turn::Done(Ok(open)) => {
                proof {
                    let grown = operations@.take(place + 1);
                    assert(grown.drop_last() =~= operations@.take(place as int));
                    assert(dma_operation_opened(op.from@, self.log(), grown.last(), address, self.allows_chunks()));
                    assert(operations@.len() == operations.len());
                }
                Stride::Next(DmaExchange { address, from, leg: DmaLeg::Between(open, place + 1) })
            },
            Turn::Done(Err(e)) => Stride::Done(Err(e)),
        }
    }

    /// One turn of the STOP of an exchange.
    fn dma_stopping_leg(
        &mut self,
        address: u8,
        from: Ghost<Seq<Access>>,
        op: StopOp,
        opened: Ghost<Seq<Access>>,
        operations: &Vec<DmaOperation>,
        waited: Option<WaitOutcome>,
        verdict: Option<DmaVerdict>,
    ) -> (r: Stride<DmaExchange>)
        requires
            verdict_seen(old(self).log(), verdict),
            (DmaExchange { address, from, leg: DmaLeg::Stopping(op, opened) }).fits(old(self), operations@),
        ensures
            (DmaExchange { address, from, leg: DmaLeg::Stopping(op, opened) }).strode(
                old(self),
                final(self),
                operations@,
                waited,
                verdict,
                r,
            ),
    {
        let ghost entered = self.log();
        let ghost first = op is Unqueued;
        let ghost none = Seq::<u8>::empty();
        assert(none + none =~= none);
        match self.stop_turn(op, waited) {
            Turn::Wait(next, wait) => {
                proof {
                    let words = one_word(first && !(next is Unqueued), stop_word());
                    lemma_moved(opened@, entered, self.log(), one_word(!first, stop_word()), words, none, none);
                    assert(one_word(!first, stop_word()) + words =~= one_word(!(next is Unqueued), stop_word()));
                }
                Stride::Wait(DmaExchange { address, from, leg: DmaLeg::Stopping(next, opened) }, wait)
            },
            Turn::Done(Ok(_)) => {
                proof {
                    lemma_moved_nothing(entered, self.log());
                    lemma_moved(opened@, entered, self.log(), seq![stop_word()], Seq::empty(), none, none);
                    assert(seq![stop_word()] + Seq::empty() =~= seq![stop_word()]);
                }
                Stride::Done(Ok(()))
            },
            Turn::Done(Err(e)) => Stride::Done(Err(e)),
        }
    }

    /// Begins the operation at `place`, on a fresh transaction or by a repeated
    /// START on the open one.
    #[verifier::rlimit(100)]
    fn next_dma_leg(
        &mut self,
        address: u8,
        from: Ghost<Seq<Access>>,
        open: Option<Session>,
        place: usize,
        operations: &Vec<DmaOperation>,
        max_transfer: usize,
        verdict: Option<DmaVerdict>,
    ) -> (r: Stride<DmaExchange>)
        requires
            verdict_seen(old(self).log(), verdict),
            (DmaExchange {
                address,
                from,
                leg: match open {
                    Some(open) => DmaLeg::Between(open, place),
                    None => DmaLeg::Fresh,
                },
            }).fits(old(self), operations@),
            open is None ==> place == 0,
            place < operations@.len(),
            max_transfer <= u32::MAX,
            old(self).block() <= usize::MAX - 0x070,
        ensures
            (DmaExchange {
                address,
                from,
                leg: match open {
                    Some(open) => DmaLeg::Between(open, place),
                    None => DmaLeg::Fresh,
                },
            }).strode(old(self), final(self), operations@, None, verdict, r),
    {
        let ghost entered = self.log();
        let ghost budget = self.budget();
        assert(operations@.take(0) =~= Seq::<DmaOperation>::empty());
        match operations[place] {
            DmaOperation::Read(length) => {
                assert(operations@[place as int] == DmaOperation::Read(length));
                let begun = match open {
                    None => self.begin_dma_read(address, length),
                    Some(open) => {
                        let begun = self.begin_dma_read_continue(address, length, open);
                        proof {
                            if begun is Err {
                                let param = entry(entered, self.log(), 0)->ReadParam_0;
                                lemma_recovered_weaken(
                                    entered.push(Access::ReadParam(param)),
                                    self.log(),
                                    open@.phase.clocks(),
                                    true,
                                );
                            }
                        }
                        begun
                    },
                };
                match begun {
                    Err(e) => Stride::Done(Err(e)),
                    Ok(op) => {
                        let ghost checked = self.log();
                        assert(looked(entered, checked));
                        proof {
                            if let Some(DmaVerdict::Fault(fault)) = verdict {
                                lemma_known_later(entered, checked, fault_retained(fault));
                            }
                        }
                        let r = self.dma_reading_leg(
                            address,
                            from,
                            op,
                            place,
                            Ghost(entered),
                            operations,
                            max_transfer,
                            None,
                            verdict,
                        );
                        proof {
                            if r is Wait {
                                lemma_on_time(entered, checked, self.log(), budget, None, r->Wait_0.end());
                            }
                            if let Stride::Done(Err(e)) = r {
                                let left = whole_read(address, length as nat, self.allows_chunks());
                                let none = Seq::<Mtdr>::empty();
                                assert(commands(checked) =~= commands(entered) + none);
                                assert(none + left.all =~= left.all);
                                assert(none + left.straight =~= left.straight);
                                lemma_carries(entered, left, checked, none, left);
                                lemma_later_step(
                                    entered,
                                    checked,
                                    self.log(),
                                    None,
                                    verdict,
                                    Limit::Untimed,
                                    budget,
                                    left,
                                    left,
                                    e,
                                );
                            }
                        }
                        r
                    },
                }
            },
            DmaOperation::Write(length) => {
                let begun = match open {
                    None => self.begin_dma_write(address, length),
                    Some(open) => self.begin_dma_write_continue(address, length, open),
                };
                match begun {
                    Err(e) => Stride::Done(Err(e)),
                    Ok(op) => self.dma_writing_leg(
                        address,
                        from,
                        op,
                        place,
                        operations,
                        max_transfer,
                        None,
                        verdict,
                    ),
                }
            },
        }
    }

    /// One turn of a DMA exchange. `waited` and `verdict` are how the wait
    /// that the last turn asked for ended.
    pub fn dma_exchange_turn(
        &mut self,
        exchange: DmaExchange,
        operations: &Vec<DmaOperation>,
        max_transfer: usize,
        waited: Option<WaitOutcome>,
        verdict: Option<DmaVerdict>,
    ) -> (r: Stride<DmaExchange>)
        requires
            verdict_seen(old(self).log(), verdict),
            exchange.fits(old(self), operations@),
            max_transfer <= u32::MAX,
            old(self).block() <= usize::MAX - 0x070,
        ensures
            exchange.strode(old(self), final(self), operations@, waited, verdict, r),
    {
        let ghost entered = self.log();
        let address = exchange.address;
        let from = exchange.from;
        match exchange.leg {
            DmaLeg::Fresh => self.next_dma_leg(address, from, None, 0, operations, max_transfer, verdict),
            DmaLeg::Between(open, place) => {
                if place < operations.len() {
                    return self.next_dma_leg(address, from, Some(open), place, operations, max_transfer, verdict);
                }
                proof {
                    assert(operations@.take(place as int) =~= operations@);
                    lemma_moved_nothing(entered, entered);
                }
                self.dma_stopping_leg(address, from, StopOp::Unqueued(open), Ghost(entered), operations, None, verdict)
            },
            DmaLeg::Reading(op, place, before) => self.dma_reading_leg(
                address,
                from,
                op,
                place,
                before,
                operations,
                max_transfer,
                waited,
                verdict,
            ),
            DmaLeg::Writing(op, place) => self.dma_writing_leg(
                address,
                from,
                op,
                place,
                operations,
                max_transfer,
                waited,
                verdict,
            ),
            DmaLeg::Stopping(op, opened) => self.dma_stopping_leg(
                address,
                from,
                op,
                opened,
                operations,
                waited,
                verdict,
            ),
        }
    }

    /// Gives a DMA exchange up: a running channel is shut down before the bus
    /// is recovered.
    pub fn cancel_dma_exchange(&mut self, exchange: DmaExchange, operations: &Vec<DmaOperation>, max_transfer: usize)
        requires
            exchange.fits(old(self), operations@),
            max_transfer <= u32::MAX,
            old(self).block() <= usize::MAX - 0x070,
        ensures
            final(self).same_setup(old(self)),
            final(self).idle(),
            match exchange.leg {
                DmaLeg::Fresh => final(self).log() == old(self).log(),
                DmaLeg::Reading(op, _, _) => match op.stage {
                    DmaReadStage::Chained(draining) | DmaReadStage::Chunk(draining) => dma_aborted(
                        old(self).log(),
                        final(self).log(),
                        Direction::Rx,
                        (draining.to - draining.from) as usize,
                        None,
                        IOError::Timeout,
                        true,
                    ),
                    _ => recovered(old(self).log(), final(self).log(), true),
                },
                DmaLeg::Writing(op, _) => match op.stage {
                    DmaWriteStage::Pouring(pouring) => dma_aborted(
                        old(self).log(),
                        final(self).log(),
                        Direction::Tx,
                        (pouring.to - pouring.from) as usize,
                        None,
                        IOError::Timeout,
                        false,
                    ),
                    DmaWriteStage::Starting(start) => recovered(
                        old(self).log(),
                        final(self).log(),
                        start.may_clock(),
                    ),
                },
                DmaLeg::Between(_, _) | DmaLeg::Stopping(_, _) => recovered(
                    old(self).log(),
                    final(self).log(),
                    false,
                ),
            },
    {
        match exchange.leg {
            DmaLeg::Fresh => {},
            DmaLeg::Between(open, _) => self.cancel(open),
            DmaLeg::Reading(op, _, _) => self.cancel_dma_read(op),
            DmaLeg::Writing(op, _) => self.cancel_dma_write(op, max_transfer),
            DmaLeg::Stopping(op, _) => self.cancel_stop(op),
        }
    }
}

} // verus!
