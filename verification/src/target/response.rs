//! Responses of a target whose data moves by DMA, chunk by chunk.

use vstd::prelude::*;

use crate::dma::{chunk_end_at, next_chunk, InvalidParameters};
use crate::lpi2c_regs::{Access, Direction, DmaPort, TargetPort};
use crate::target::{
    joined_read, joined_write, read_chunk_done, rx_chunk_ran, tx_chunk_classified, write_chunk_done, I2c, IOError,
    Progress, ReadStatus, RxChunkOutcome, TxChunk, TxChunkOutcome, WriteStatus,
};
use crate::target_registers::{dma_armed, dma_finished, response_aborted};
use crate::wait::WaitOutcome;

verus! {

/// What a response waits for, or its result.
pub enum Pause<O, T> {
    /// The end of the channel's transfer, or of the controller's.
    Dma(O),
    /// Room in the transmit register, or the end of the controller's transfer.
    Settle(O),
    Done(T),
}

/// A response to a read in progress, with the place where its chunk begins and
/// the place where it ends.
#[derive(Clone, Copy, Debug, PartialEq, Eq, Structural)]
pub enum TxResponse {
    /// The channel moves the chunk.
    Moving(usize, usize),
    /// The chunk was exhausted, with this many bytes moved.
    Settling(usize, usize, usize),
}

impl TxResponse {
    pub open spec fn from(self) -> usize {
        match self {
            TxResponse::Moving(from, _) => from,
            TxResponse::Settling(from, _, _) => from,
        }
    }

    pub open spec fn to(self) -> usize {
        match self {
            TxResponse::Moving(_, to) => to,
            TxResponse::Settling(_, to, _) => to,
        }
    }

    /// The chunk is one of a buffer of `total` bytes.
    pub open spec fn fits(self, total: usize) -> bool {
        self.from() < self.to() <= total
    }
}

/// A response to a write in progress: the channel fills the chunk between the
/// two places.
#[derive(Clone, Copy, Debug, PartialEq, Eq, Structural)]
pub struct RxResponse {
    pub from: usize,
    pub to: usize,
}

impl RxResponse {
    /// The chunk is one of a buffer of `total` bytes.
    pub open spec fn fits(self, total: usize) -> bool {
        self.from < self.to <= total
    }
}

/// The transmit channel was armed for the chunk that begins at `from`, or
/// could not be.
pub open spec fn tx_chunk_begun(
    before: Seq<Access>,
    after: Seq<Access>,
    block: usize,
    from: usize,
    total: usize,
    max_transfer: usize,
    r: Pause<TxResponse, Result<ReadStatus, IOError>>,
) -> bool {
    let to = chunk_end_at(total as int, from as int, max_transfer as int);
    dma_armed(
        before,
        after,
        Direction::Tx,
        (block + 0x160) as usize,
        from,
        (to - from) as usize,
        max_transfer,
        if r is Dma {
            Ok(())
        } else {
            Err(InvalidParameters)
        },
    ) && match r {
        Pause::Dma(op) => op == TxResponse::Moving(from, to as usize),
        Pause::Settle(_) => false,
        Pause::Done(r) => r == Err::<ReadStatus, IOError>(IOError::Other),
    }
}

/// How a response to a read goes on behind the classification of the chunk
/// between `from` and `to`.
pub open spec fn tx_went_on(
    before: Seq<Access>,
    after: Seq<Access>,
    block: usize,
    from: usize,
    to: usize,
    total: usize,
    max_transfer: usize,
    chunk: TxChunk,
    r: Pause<TxResponse, Result<ReadStatus, IOError>>,
) -> bool {
    match chunk {
        TxChunk::Settle(moved) => {
            &&& after == before
            &&& r == Pause::<TxResponse, Result<ReadStatus, IOError>>::Settle(TxResponse::Settling(from, to, moved))
        },
        TxChunk::Done(Err(e)) => {
            &&& after == before
            &&& r == Pause::<TxResponse, Result<ReadStatus, IOError>>::Done(Err(e))
        },
        TxChunk::Done(Ok(outcome)) => match joined_read(from, outcome, to == total, total) {
            Progress::Done(status) => {
                &&& after == before
                &&& r == Pause::<TxResponse, Result<ReadStatus, IOError>>::Done(Ok(status))
            },
            Progress::Wait(next) => tx_chunk_begun(before, after, block, next, total, max_transfer, r),
        },
    }
}

/// What one turn of a response to a read did and returned.
pub open spec fn tx_response_ran(
    before: Seq<Access>,
    after: Seq<Access>,
    block: usize,
    op: TxResponse,
    total: usize,
    max_transfer: usize,
    waited: WaitOutcome,
    r: Pause<TxResponse, Result<ReadStatus, IOError>>,
) -> bool {
    match op {
        TxResponse::Moving(from, to) => moving_ran(before, after, block, from, to, total, max_transfer, r),
        TxResponse::Settling(from, to, moved) => if waited == WaitOutcome::Woken {
            settling_ran(before, after, block, from, to, moved, total, max_transfer, r)
        } else {
            &&& after == before
            &&& r == Pause::<TxResponse, Result<ReadStatus, IOError>>::Done(Err(IOError::Other))
        },
    }
}

/// The channel was shut down and the chunk classified.
pub open spec fn moving_ran(
    before: Seq<Access>,
    after: Seq<Access>,
    block: usize,
    from: usize,
    to: usize,
    total: usize,
    max_transfer: usize,
    r: Pause<TxResponse, Result<ReadStatus, IOError>>,
) -> bool {
    exists|quiet: Seq<Access>, moved: usize, classified: Seq<Access>, chunk: TxChunk|
        {
            &&& #[trigger] dma_finished(before, quiet, Direction::Tx, (to - from) as usize, moved)
            &&& #[trigger] tx_chunk_classified(quiet, classified, moved, TxChunk::Settle(moved), chunk)
            &&& tx_went_on(classified, after, block, from, to, total, max_transfer, chunk, r)
        }
}

/// An exhausted chunk was classified.
pub open spec fn settling_ran(
    before: Seq<Access>,
    after: Seq<Access>,
    block: usize,
    from: usize,
    to: usize,
    moved: usize,
    total: usize,
    max_transfer: usize,
    r: Pause<TxResponse, Result<ReadStatus, IOError>>,
) -> bool {
    let rest = TxChunk::Done(Ok(TxChunkOutcome::NeedMore((to - from) as usize)));
    exists|classified: Seq<Access>, chunk: TxChunk|
        {
            &&& #[trigger] tx_chunk_classified(before, classified, moved, rest, chunk)
            &&& tx_went_on(classified, after, block, from, to, total, max_transfer, chunk, r)
        }
}

/// The receive channel was armed for the chunk that begins at `from`, or could
/// not be.
pub open spec fn rx_chunk_begun(
    before: Seq<Access>,
    after: Seq<Access>,
    block: usize,
    from: usize,
    total: usize,
    max_transfer: usize,
    r: Pause<RxResponse, Result<WriteStatus, IOError>>,
) -> bool {
    let to = chunk_end_at(total as int, from as int, max_transfer as int);
    dma_armed(
        before,
        after,
        Direction::Rx,
        (block + 0x170) as usize,
        from,
        (to - from) as usize,
        max_transfer,
        if r is Dma {
            Ok(())
        } else {
            Err(InvalidParameters)
        },
    ) && match r {
        Pause::Dma(op) => op == (RxResponse { from, to: to as usize }),
        Pause::Settle(_) => false,
        Pause::Done(r) => r == Err::<WriteStatus, IOError>(IOError::Other),
    }
}

/// How a response to a write goes on behind the end of the chunk between
/// `from` and `to`.
pub open spec fn rx_went_on(
    before: Seq<Access>,
    after: Seq<Access>,
    block: usize,
    from: usize,
    to: usize,
    total: usize,
    max_transfer: usize,
    chunk: Result<RxChunkOutcome, IOError>,
    r: Pause<RxResponse, Result<WriteStatus, IOError>>,
) -> bool {
    match chunk {
        Err(e) => {
            &&& after == before
            &&& r == Pause::<RxResponse, Result<WriteStatus, IOError>>::Done(Err(e))
        },
        Ok(outcome) => match joined_write(from, outcome, to == total) {
            Progress::Done(status) => {
                &&& after == before
                &&& r == Pause::<RxResponse, Result<WriteStatus, IOError>>::Done(Ok(status))
            },
            Progress::Wait(next) => rx_chunk_begun(before, after, block, next, total, max_transfer, r),
        },
    }
}

/// What one turn of a response to a write did and returned: the channel was
/// shut down, the FIFO drained into the chunk, and the chunk classified. The
/// rest of the buffer is untouched.
pub open spec fn rx_response_ran(
    before: Seq<Access>,
    after: Seq<Access>,
    block: usize,
    op: RxResponse,
    given: Seq<u8>,
    buf: Seq<u8>,
    max_transfer: usize,
    r: Pause<RxResponse, Result<WriteStatus, IOError>>,
) -> bool {
    let from = op.from as int;
    let to = op.to as int;
    let length = (to - from) as usize;
    &&& buf.len() == given.len()
    &&& buf.take(from) == given.take(from)
    &&& buf.skip(to) == given.skip(to)
    &&& exists|ended: Seq<Access>, chunk: Result<RxChunkOutcome, IOError>|
        {
            &&& #[trigger] rx_chunk_ran(
                before,
                ended,
                given.subrange(from, to),
                buf.subrange(from, to),
                length,
                chunk,
            )
            &&& rx_went_on(ended, after, block, op.from, op.to, given.len() as usize, max_transfer, chunk, r)
        }
}

impl<H: TargetPort + DmaPort> I2c<H> {
    fn begin_tx_chunk(&mut self, from: usize, total: usize, max_transfer: usize) -> (r: Pause<
        TxResponse,
        Result<ReadStatus, IOError>,
    >)
        requires
            from < total,
            old(self).block() <= usize::MAX - 0x170,
        ensures
            tx_chunk_begun(old(self).log(), final(self).log(), old(self).block(), from, total, max_transfer, r),
            r matches Pause::Dma(op) ==> op.fits(total),
            final(self).same_setup(old(self)),
    {
        let (to, _) = next_chunk(total, from, max_transfer);
        match self.begin_write_dma_chunk(from, to - from, max_transfer) {
            Ok(_) => Pause::Dma(TxResponse::Moving(from, to)),
            Err(e) => Pause::Done(Err(e)),
        }
    }

    /// Goes on with what the classification of a chunk says.
    fn after_tx_chunk(
        &mut self,
        from: usize,
        to: usize,
        total: usize,
        max_transfer: usize,
        chunk: TxChunk,
    ) -> (r: Pause<
        TxResponse,
        Result<ReadStatus, IOError>,
    >)
        requires
            from < to <= total,
            old(self).block() <= usize::MAX - 0x170,
            chunk matches TxChunk::Done(Ok(TxChunkOutcome::NeedMore(n))) ==> n == to - from,
        ensures
            tx_went_on(
                old(self).log(),
                final(self).log(),
                old(self).block(),
                from,
                to,
                total,
                max_transfer,
                chunk,
                r,
            ),
            (match r {
                Pause::Dma(op) | Pause::Settle(op) => op.fits(total),
                Pause::Done(_) => true,
            }),
            final(self).same_setup(old(self)),
    {
        match chunk {
            TxChunk::Settle(moved) => Pause::Settle(TxResponse::Settling(from, to, moved)),
            TxChunk::Done(Err(e)) => Pause::Done(Err(e)),
            TxChunk::Done(Ok(outcome)) => match read_chunk_done(from, outcome, to == total, total) {
                Progress::Done(status) => Pause::Done(Ok(status)),
                Progress::Wait(next) => self.begin_tx_chunk(next, total, max_transfer),
            },
        }
    }

    /// Begins a response to a read from a lent buffer of `total` bytes. An
    /// empty one needs more at once.
    pub fn begin_dma_read_response(&mut self, total: usize, max_transfer: usize) -> (r: Pause<
        TxResponse,
        Result<ReadStatus, IOError>,
    >)
        requires
            old(self).block() <= usize::MAX - 0x170,
        ensures
            if total == 0 {
                &&& r == Pause::<TxResponse, Result<ReadStatus, IOError>>::Done(Ok(ReadStatus::NeedMore(0)))
                &&& final(self).log() == old(self).log()
            } else {
                tx_chunk_begun(old(self).log(), final(self).log(), old(self).block(), 0, total, max_transfer, r)
            },
            r matches Pause::Dma(op) ==> op.fits(total),
            final(self).same_setup(old(self)),
    {
        if total == 0 {
            return Pause::Done(Ok(ReadStatus::NeedMore(0)));
        }
        self.begin_tx_chunk(0, total, max_transfer)
    }

    /// One turn of a response to a read. `waited` is how the wait of a
    /// settling chunk ended.
    pub fn dma_read_response_turn(
        &mut self,
        op: TxResponse,
        total: usize,
        max_transfer: usize,
        waited: WaitOutcome,
    ) -> (r: Pause<TxResponse, Result<ReadStatus, IOError>>)
        requires
            op.fits(total),
            old(self).block() <= usize::MAX - 0x170,
        ensures
            tx_response_ran(
                old(self).log(),
                final(self).log(),
                old(self).block(),
                op,
                total,
                max_transfer,
                waited,
                r,
            ),
            (match r {
                Pause::Dma(next) | Pause::Settle(next) => next.fits(total),
                Pause::Done(_) => true,
            }),
            final(self).same_setup(old(self)),
    {
        let ghost entered = self.log();
        match op {
            TxResponse::Moving(from, to) => {
                let chunk = self.finish_write_dma_chunk(to - from);
                let ghost classified = self.log();
                let ghost (quiet, moved) = choose|quiet: Seq<Access>, moved: usize|
                    {
                        &&& #[trigger] dma_finished(entered, quiet, Direction::Tx, (to - from) as usize, moved)
                        &&& tx_chunk_classified(quiet, classified, moved, TxChunk::Settle(moved), chunk)
                    };
                proof {
                    assert(dma_finished(entered, quiet, Direction::Tx, (to - from) as usize, moved));
                    assert(tx_chunk_classified(quiet, classified, moved, TxChunk::Settle(moved), chunk));
                }
                self.after_tx_chunk(from, to, total, max_transfer, chunk)
            },
            TxResponse::Settling(from, to, moved) => {
                let chunk = self.settle_write_dma_chunk(to - from, moved, waited);
                let ghost rest = TxChunk::Done(Ok(TxChunkOutcome::NeedMore((to - from) as usize)));
                proof {
                    if waited == WaitOutcome::Woken {
                        assert(tx_chunk_classified(entered, self.log(), moved, rest, chunk));
                    }
                }
                self.after_tx_chunk(from, to, total, max_transfer, chunk)
            },
        }
    }

    /// Gives a response to a read up: a running channel is shut down before
    /// the target is released.
    pub fn cancel_dma_read_response(&mut self, op: TxResponse)
        requires
            op.from() < op.to(),
        ensures
            final(self).same_setup(old(self)),
            match op {
                TxResponse::Moving(from, to) => exists|quiet: Seq<Access>, moved: usize|
                    {
                        &&& #[trigger] dma_finished(
                            old(self).log(),
                            quiet,
                            Direction::Tx,
                            (to - from) as usize,
                            moved,
                        )
                        &&& response_aborted(quiet, final(self).log())
                    },
                TxResponse::Settling(_, _, _) => response_aborted(old(self).log(), final(self).log()),
            },
    {
        let ghost entered = self.log();
        if let TxResponse::Moving(from, to) = op {
            let moved: usize = self.cancel_dma_chunk(Direction::Tx, to - from);
            assert(dma_finished(entered, self.log(), Direction::Tx, (to - from) as usize, moved));
        }
        self.abort_response();
    }

    fn begin_rx_chunk(&mut self, from: usize, total: usize, max_transfer: usize) -> (r: Pause<
        RxResponse,
        Result<WriteStatus, IOError>,
    >)
        requires
            from < total,
            old(self).block() <= usize::MAX - 0x170,
        ensures
            rx_chunk_begun(old(self).log(), final(self).log(), old(self).block(), from, total, max_transfer, r),
            r matches Pause::Dma(op) ==> op.fits(total),
            final(self).same_setup(old(self)),
    {
        let (to, _) = next_chunk(total, from, max_transfer);
        match self.begin_read_dma_chunk(from, to - from, max_transfer) {
            Ok(_) => Pause::Dma(RxResponse { from, to }),
            Err(e) => Pause::Done(Err(e)),
        }
    }

    /// Begins a response to a write into a lent buffer of `total` bytes. An
    /// empty one is full at once.
    pub fn begin_dma_write_response(&mut self, total: usize, max_transfer: usize) -> (r: Pause<
        RxResponse,
        Result<WriteStatus, IOError>,
    >)
        requires
            old(self).block() <= usize::MAX - 0x170,
        ensures
            if total == 0 {
                &&& r == Pause::<RxResponse, Result<WriteStatus, IOError>>::Done(Ok(WriteStatus::BufferFull(0)))
                &&& final(self).log() == old(self).log()
            } else {
                rx_chunk_begun(old(self).log(), final(self).log(), old(self).block(), 0, total, max_transfer, r)
            },
            r matches Pause::Dma(op) ==> op.fits(total),
            final(self).same_setup(old(self)),
    {
        if total == 0 {
            return Pause::Done(Ok(WriteStatus::BufferFull(0)));
        }
        self.begin_rx_chunk(0, total, max_transfer)
    }

    /// One turn of a response to a write, after the wait for its chunk. `buf`
    /// is the whole buffer.
    pub fn dma_write_response_turn(&mut self, op: RxResponse, buf: &mut [u8], max_transfer: usize) -> (r: Pause<
        RxResponse,
        Result<WriteStatus, IOError>,
    >)
        requires
            op.from < op.to <= old(buf)@.len(),
            old(self).block() <= usize::MAX - 0x170,
        ensures
            rx_response_ran(
                old(self).log(),
                final(self).log(),
                old(self).block(),
                op,
                old(buf)@,
                final(buf)@,
                max_transfer,
                r,
            ),
            r matches Pause::Dma(next) ==> next.from < next.to <= final(buf)@.len(),
            final(self).same_setup(old(self)),
    {
        let ghost entered = self.log();
        let ghost given = buf@;
        let total: usize = buf.len();
        let from: usize = op.from;
        let to: usize = op.to;
        let ghost mut filled = Seq::<u8>::empty();
        let chunk = {
            let (_, rest) = buf.split_at_mut(from);
            let (data, _) = rest.split_at_mut(to - from);
            assert(data@ =~= given.subrange(from as int, to as int));
            let chunk = self.finish_read_dma_chunk(data);
            proof {
                filled = data@;
            }
            chunk
        };
        proof {
            assert(buf@.take(from as int) =~= given.take(from as int));
            assert(buf@.skip(to as int) =~= given.skip(to as int));
            assert(buf@.subrange(from as int, to as int) =~= filled);
            assert(rx_chunk_ran(
                entered,
                self.log(),
                given.subrange(from as int, to as int),
                buf@.subrange(from as int, to as int),
                (to - from) as usize,
                chunk,
            ));
        }
        match chunk {
            Err(e) => Pause::Done(Err(e)),
            Ok(outcome) => match write_chunk_done(from, outcome, to == total) {
                Progress::Done(status) => Pause::Done(Ok(status)),
                Progress::Wait(next) => self.begin_rx_chunk(next, total, max_transfer),
            },
        }
    }

    /// Gives a response to a write up: its channel is shut down before the
    /// target is released.
    pub fn cancel_dma_write_response(&mut self, op: RxResponse)
        requires
            op.from < op.to,
        ensures
            final(self).same_setup(old(self)),
            exists|quiet: Seq<Access>, moved: usize|
                {
                    &&& #[trigger] dma_finished(
                        old(self).log(),
                        quiet,
                        Direction::Rx,
                        (op.to - op.from) as usize,
                        moved,
                    )
                    &&& response_aborted(quiet, final(self).log())
                },
    {
        let ghost entered = self.log();
        let moved: usize = self.cancel_dma_chunk(Direction::Rx, op.to - op.from);
        assert(dma_finished(entered, self.log(), Direction::Rx, (op.to - op.from) as usize, moved));
        self.abort_response();
    }
}

} // verus!
