//! What the turns of an operation come to once it is done, interrupt-driven and
//! by DMA. See [`crate::meaning::calls`].

use vstd::prelude::*;

use crate::controller::asynch::{StopOp, Turn};
use crate::controller::blocking::{chunked_commands, read_commands};
use crate::controller::dma::{commands_of, handed_over, DmaVerdict};
use crate::controller::dma_exchange::{dma_chain_opened, dma_operation_opened, DmaExchange, DmaOperation};
use crate::controller::dma_txn::{
    chain_too_long, chunks_begin, dma_read_opened, DmaAttempts, DmaReadTxn, DmaWriteTxn,
};
use crate::controller::exchange::Stride;
use crate::controller::txn::{ReadTxn, WriteTxn};
use crate::controller::{IOError, I2c};
use crate::controller_registers::{fifo_entries, start_word, stop_word};
use crate::lpi2c_regs::{Access, ControllerPort, Direction, DmaPort};
use crate::meaning::commands::{
    a_dma_read_fills_the_whole_buffer, a_dma_read_in_chunks_fills_the_whole_buffer,
    a_dma_write_sends_the_whole_buffer, a_repeated_read_asks_anew, an_open_read_asks_for_its_buffer,
    an_open_write_carries_the_callers_bytes, asks, covers, opens, reads_in_open_chunks, sends,
};
use crate::meaning::flags::{clean, what_settled_left_the_fifo_empty};
use crate::meaning::recovery::a_recovery_only_lets_go;
use crate::session::{recovered, Session};
use crate::trace::{commands, extends, handed, received, recoveries};
use crate::transfer::{
    cut_short, looked, moved, partway, read_chained, read_done, read_retried, receive_commands, steady,
};
use crate::wait::WaitOutcome;
use crate::words::{ControllerCommand, Mtdr};

verus! {

broadcast use crate::trace::group_trace;

/// A write that `begin_write` took on and a turn ended well has addressed the
/// caller's device and sent it the caller's bytes, whole and in order.
pub proof fn a_finished_write_sent_its_bytes<H: ControllerPort>(
    i2c: &mut I2c<H>,
    op: WriteTxn,
    write: &[u8],
    waited: Option<WaitOutcome>,
    open: Session,
)
    requires
        call_ensures(I2c::<H>::write_turn, (i2c, op, write, waited), Turn::Done(Ok::<Session, IOError>(open))),
        op.address < 0x80,
    ensures
        ({
            let words = commands(final(i2c).log());
            let n = commands(op.from@).len() as int;
            &&& words.len() == n + 1 + write@.len()
            &&& opens(words[n], op.address, false)
            &&& sends(words, n + 1, write@)
        }),
{
    an_open_write_carries_the_callers_bytes(op.from@, final(i2c).log(), op.address, write@);
}

/// `begin_write` and `begin_read` are for the caller's device, from where the
/// history stands, and reject what cannot be done without touching the bus.
pub proof fn an_operation_begins_for_its_device<H: ControllerPort>(
    i2c: &mut I2c<H>,
    address: u8,
    buffer: &[u8],
    write: Result<WriteTxn, IOError>,
    read: Result<ReadTxn, IOError>,
)
    ensures
        call_ensures(I2c::<H>::begin_write, (i2c, address, buffer), write) ==> {
            &&& final(i2c).log() == old(i2c).log()
            &&& write is Ok <==> address < 0x80
            &&& write matches Ok(op) ==> op.address == address && op.from@ == old(i2c).log()
            &&& write matches Err(e) ==> e == IOError::AddressOutOfRange(address)
        },
        call_ensures(I2c::<H>::begin_read, (i2c, address, buffer), read) ==> {
            &&& final(i2c).log() == old(i2c).log()
            &&& read is Ok <==> address < 0x80 && buffer@.len() > 0
            &&& read matches Ok(op) ==> op.address == address && op.attempts@.from == old(i2c).log()
            &&& read matches Err(e) ==> e == if buffer@.len() == 0 {
                IOError::InvalidReadBufferLength
            } else {
                IOError::AddressOutOfRange(address)
            }
        },
{
}

/// A read that `begin_read` took on and a turn ended well has addressed the
/// caller's device and asked it for the buffer, where chunks were not allowed,
/// and the buffer holds what came in.
pub proof fn a_finished_read_holds_what_came_in<H: ControllerPort>(
    i2c: &mut I2c<H>,
    op: ReadTxn,
    read: &mut [u8],
    waited: Option<WaitOutcome>,
    open: Session,
)
    requires
        call_ensures(I2c::<H>::read_turn, (i2c, op, read, waited), Turn::Done(Ok::<Session, IOError>(open))),
        op.address < 0x80,
        !old(i2c).allows_chunks(),
    ensures
        ({
            let words = commands(final(i2c).log());
            let n = commands(op.attempts@.from).len() as int;
            &&& words.len() >= n + 2
            &&& opens(words[n], op.address, true)
            &&& asks(words, n + 1, words.len() - n - 1, final(read)@.len() as int)
            &&& received(final(i2c).log()) == received(op.attempts@.from) + final(read)@
        }),
{
    let before = op.attempts@.from;
    let after = final(i2c).log();
    an_open_read_asks_for_its_buffer(before, after, op.address, final(read)@);
    let opened = choose|opened: Seq<Access>|
        {
            &&& #[trigger] moved(
                before,
                opened,
                seq![start_word(op.address, true)],
                Seq::empty(),
            )
            &&& read_chained(opened, after, final(read)@)
        };
    assert(received(opened) =~= received(before));
}

/// A DMA write that a turn ended well has addressed its device and handed the
/// buffer to the channel from its first byte to its last.
pub proof fn a_finished_dma_write_sent_the_buffer<H: ControllerPort + DmaPort>(
    i2c: &mut I2c<H>,
    op: DmaWriteTxn,
    max_transfer: usize,
    waited: Option<WaitOutcome>,
    verdict: Option<DmaVerdict>,
    open: Session,
)
    requires
        call_ensures(
            I2c::<H>::dma_write_turn,
            (i2c, op, max_transfer, waited, verdict),
            Turn::Done(Ok::<Session, IOError>(open)),
        ),
        op.address < 0x80,
    ensures
        ({
            let words = commands(final(i2c).log());
            let n = commands(op.from@).len() as int;
            &&& words.len() == n + 1
            &&& opens(words[n], op.address, false)
            &&& covers(
                handed(final(i2c).log()).skip(handed(op.from@).len() as int),
                Direction::Tx,
                op.length as int,
            )
        }),
{
    a_dma_write_sends_the_whole_buffer(op.from@, final(i2c).log(), op.address, op.length as nat);
}

/// A DMA read that a turn ended well has addressed its device, asked it for the
/// buffer, and had the channel fill it from its first byte to its last, where
/// chunks were neither allowed nor needed.
pub proof fn a_finished_dma_read_filled_the_buffer<H: ControllerPort + DmaPort>(
    i2c: &mut I2c<H>,
    op: DmaReadTxn,
    max_transfer: usize,
    waited: Option<WaitOutcome>,
    verdict: Option<DmaVerdict>,
    open: Session,
)
    requires
        call_ensures(
            I2c::<H>::dma_read_turn,
            (i2c, op, max_transfer, waited, verdict),
            Turn::Done(Ok::<Session, IOError>(open)),
        ),
        op.address < 0x80,
        !old(i2c).allows_chunks(),
        !chain_too_long(op.attempts@.from, final(i2c).log(), op.length as int),
    ensures
        verdict == Some(DmaVerdict::Complete),
        ({
            let words = commands(final(i2c).log());
            let n = commands(op.attempts@.from).len() as int;
            &&& words.len() == n + 1 + (op.length + 255) / 256
            &&& opens(words[n], op.address, true)
            &&& asks(words, n + 1, words.len() - n - 1, op.length as int)
            &&& covers(
                handed(final(i2c).log()).skip(handed(op.attempts@.from).len() as int),
                Direction::Rx,
                op.length as int,
            )
        }),
{
    a_dma_read_fills_the_whole_buffer(op.attempts@.from, final(i2c).log(), op.address, op.length as nat);
}

/// A read that a turn ended well where chunks are allowed, and that was not one
/// transaction, was begun anew: the same device was asked again from the first
/// byte on, in chunks, and the buffer holds what came in behind that.
pub proof fn a_finished_read_was_one_or_in_chunks<H: ControllerPort>(
    i2c: &mut I2c<H>,
    op: ReadTxn,
    read: &mut [u8],
    waited: Option<WaitOutcome>,
    open: Session,
)
    requires
        call_ensures(I2c::<H>::read_turn, (i2c, op, read, waited), Turn::Done(Ok::<Session, IOError>(open))),
        op.address < 0x80,
        final(read)@.len() > 0,
    ensures
        ({
            let words = commands(final(i2c).log());
            let n = commands(op.attempts@.from).len() as int;
            let len = final(read)@.len() as int;
            let all = received(final(i2c).log());
            &&& {
                ||| opens(words[n], op.address, true) && asks(words, n + 1, words.len() - n - 1, len)
                ||| exists|m: int| n < m && #[trigger] reads_in_open_chunks(words, m, op.address, len)
            }
            &&& all.len() >= len
            &&& all.skip(all.len() - len) == final(read)@
        }),
{
    let before = op.attempts@.from;
    let after = final(i2c).log();
    let data = final(read)@;
    let opened = choose|opened: Seq<Access>|
        {
            &&& #[trigger] moved(before, opened, seq![start_word(op.address, true)], Seq::empty())
            &&& read_done(opened, after, op.address, data, old(i2c).allows_chunks())
        };
    if read_chained(opened, after, data) {
        an_open_read_asks_for_its_buffer(before, after, op.address, data);
    } else {
        let retry = choose|retry: Seq<Access>| #[trigger] read_retried(opened, retry, after, op.address, data);
        a_repeated_read_asks_anew(opened, retry, after, op.address, data);
        lemma_cut_short_keeps(opened, retry, receive_commands(data.len()));
        assert(reads_in_open_chunks(
            commands(after),
            commands(retry).len() as int,
            op.address,
            data.len() as int,
        ));
    }
    assert(received(after).skip(received(after).len() - data.len()) =~= data);
}

/// A DMA read that a turn ended well was one transaction, or in chunks, each
/// with the same device; in either case the channel filled the buffer from its
/// first byte to its last.
pub proof fn a_finished_dma_read_was_one_or_in_chunks<H: ControllerPort + DmaPort>(
    i2c: &mut I2c<H>,
    op: DmaReadTxn,
    max_transfer: usize,
    waited: Option<WaitOutcome>,
    verdict: Option<DmaVerdict>,
    open: Session,
)
    requires
        call_ensures(
            I2c::<H>::dma_read_turn,
            (i2c, op, max_transfer, waited, verdict),
            Turn::Done(Ok::<Session, IOError>(open)),
        ),
        op.address < 0x80,
        op.length > 0,
    ensures
        ({
            let words = commands(final(i2c).log());
            let n = commands(op.attempts@.from).len() as int;
            let len = op.length as int;
            &&& {
                ||| opens(words[n], op.address, true) && asks(words, n + 1, words.len() - n - 1, len)
                ||| exists|m: int| #[trigger] reads_in_open_chunks(words, m, op.address, len)
            }
            &&& exists|t: int|
                0 <= t <= handed(final(i2c).log()).len() && covers(
                    #[trigger] handed(final(i2c).log()).skip(t),
                    Direction::Rx,
                    len,
                )
        }),
{
    let before = op.attempts@.from;
    let after = final(i2c).log();
    let len = op.length as nat;
    if handed_over(before, after, read_commands(op.address, len), Direction::Rx, len as int) {
        a_dma_read_fills_the_whole_buffer(before, after, op.address, len);
        assert(covers(handed(after).skip(handed(before).len() as int), Direction::Rx, len as int));
    } else {
        let a = choose|a: DmaAttempts|
            {
                &&& a.from == before
                &&& #[trigger] chunks_begin(a, after, op.address, len as int, old(i2c).allows_chunks())
                &&& handed_over(a.base, after, chunked_commands(op.address, len), Direction::Rx, len as int)
            };
        a_dma_read_in_chunks_fills_the_whole_buffer(a.base, after, op.address, len);
        assert(reads_in_open_chunks(commands(after), commands(a.base).len() as int, op.address, len as int));
        assert(covers(handed(after).skip(handed(a.base).len() as int), Direction::Rx, len as int));
    }
}

proof fn lemma_cut_short_keeps(before: Seq<Access>, after: Seq<Access>, all: Seq<Mtdr>)
    requires
        cut_short(before, after, all, true),
    ensures
        commands(after).len() >= commands(before).len(),
{
    let log = choose|log: Seq<Access>|
        {
            &&& #[trigger] steady(before, log)
            &&& partway(before, log, all)
            &&& recoveries(log) == recoveries(before)
            &&& recovered(log, after, true)
        };
    a_recovery_only_lets_go(log, after, true);
}

/// A STOP that a turn ended well had been queued, and the engine was seen idle
/// with its command FIFO empty and its status clean.
pub proof fn a_finished_stop_left_the_engine_idle<H: ControllerPort>(
    i2c: &mut I2c<H>,
    op: StopOp,
    waited: Option<WaitOutcome>,
)
    requires
        call_ensures(I2c::<H>::stop_turn, (i2c, op, waited), Turn::Done(Ok::<(), IOError>(()))),
    ensures
        !(op is Unqueued),
        !final(i2c).session_open(),
        commands(final(i2c).log()) == commands(old(i2c).log()),
        ({
            let log = final(i2c).log();
            let n = log.len() as int;
            &&& n >= 4
            &&& log[n - 4] matches Access::ReadMsr(status) && clean(status) && !status.mbf
            &&& log[n - 3] matches Access::ReadMfsr(fifo) && fifo.txcount == 0
            &&& log[n - 2] matches Access::ReadMsr(status) && clean(status)
        }),
{
    what_settled_left_the_fifo_empty(final(i2c).log());
}

/// The words from `m` on tell one operation of a DMA list: a START for its
/// direction and, for a read, its questions.
pub open spec fn dma_tells_one(words: Seq<Mtdr>, m: int, op: DmaOperation, address: u8) -> bool {
    &&& opens(words[m], address, op is Read)
    &&& match op {
        DmaOperation::Write(_) => words.len() == m + 1,
        DmaOperation::Read(length) => {
            &&& words.len() == m + 1 + (length + 255) / 256
            &&& asks(words, m + 1, words.len() - m - 1, length as int)
        },
    }
}

/// The words from `from` on tell the operations of a DMA list, and the transfers
/// cover the buffers of each of them in turn.
pub open spec fn dma_tells(
    words: Seq<Mtdr>,
    from: int,
    transfers: Seq<(Direction, usize, usize)>,
    first: int,
    ops: Seq<DmaOperation>,
    address: u8,
) -> bool
    decreases ops.len(),
{
    if ops.len() == 0 {
        words.len() == from && transfers.len() == first
    } else {
        exists|m: int, t: int|
            {
                &&& from <= m < words.len()
                &&& first <= t <= transfers.len()
                &&& #[trigger] dma_tells_one(words, m, ops.last(), address)
                &&& #[trigger] dma_moves_one(transfers, t, ops.last())
                &&& dma_tells(words.take(m), from, transfers.take(t), first, ops.drop_last(), address)
            }
    }
}

/// The transfers from `t` on cover the buffer of one operation.
pub open spec fn dma_moves_one(transfers: Seq<(Direction, usize, usize)>, t: int, op: DmaOperation) -> bool {
    match op {
        DmaOperation::Write(length) => covers(transfers.skip(t), Direction::Tx, length as int),
        DmaOperation::Read(length) => covers(transfers.skip(t), Direction::Rx, length as int),
    }
}

/// No read of the list was found too long for the command FIFO.
pub open spec fn all_fit(before: Seq<Access>, after: Seq<Access>, ops: Seq<DmaOperation>) -> bool {
    forall|i: int|
        0 <= i < ops.len() ==> (#[trigger] ops[i] matches DmaOperation::Read(length) ==> !chain_too_long(
            before,
            after,
            length as int,
        ))
}

proof fn lemma_dma_chain(before: Seq<Access>, after: Seq<Access>, ops: Seq<DmaOperation>, address: u8)
    requires
        dma_chain_opened(before, after, ops, address, false),
        all_fit(before, after, ops),
        address < 0x80,
    ensures
        extends(before, after),
        dma_tells(
            commands(after),
            commands(before).len() as int,
            handed(after),
            handed(before).len() as int,
            ops,
            address,
        ),
        commands(before).len() <= commands(after).len(),
        handed(before).len() <= handed(after).len(),
    decreases ops.len(),
{
    if ops.len() > 0 {
        let mid = choose|mid: Seq<Access>|
            {
                &&& dma_chain_opened(before, mid, ops.drop_last(), address, false)
                &&& #[trigger] dma_operation_opened(mid, after, ops.last(), address, false)
            };
        lemma_dma_operation(mid, after, ops.last(), address);
        assert(all_fit(before, mid, ops.drop_last())) by {
            assert forall|i: int| 0 <= i < ops.drop_last().len() implies (#[trigger] ops.drop_last()[i] matches
            DmaOperation::Read(length) ==> !chain_too_long(before, mid, length as int)) by {
                if let DmaOperation::Read(length) = ops[i] {
                    if chain_too_long(before, mid, length as int) {
                        lemma_too_long_later(before, before, mid, after, length as int);
                    }
                }
            }
        }
        lemma_dma_chain(before, mid, ops.drop_last(), address);
        if let DmaOperation::Read(length) = ops[ops.len() - 1] {
            if chain_too_long(mid, after, length as int) {
                lemma_too_long_later(before, mid, after, after, length as int);
            }
        }
        let m = commands(mid).len() as int;
        let t = handed(mid).len() as int;
        assert(commands(after).take(m) =~= commands(mid));
        assert(handed(after).take(t) =~= handed(mid));
        assert(dma_tells_one(commands(after), m, ops.last(), address));
        assert(dma_moves_one(handed(after), t, ops.last()));
    }
}

proof fn lemma_too_long_later(
    before: Seq<Access>,
    from: Seq<Access>,
    to: Seq<Access>,
    after: Seq<Access>,
    len: int,
)
    requires
        chain_too_long(from, to, len),
        before.len() <= from.len(),
        extends(to, after),
    ensures
        chain_too_long(before, after, len),
{
    let i = choose|i: int|
        {
            &&& from.len() <= i < to.len()
            &&& #[trigger] to[i] is ReadParam
            &&& commands_of(len) > fifo_entries(to[i]->ReadParam_0)
        };
    assert(after[i] == to[i]);
}

proof fn lemma_dma_operation(before: Seq<Access>, after: Seq<Access>, op: DmaOperation, address: u8)
    requires
        dma_operation_opened(before, after, op, address, false),
        address < 0x80,
    ensures
        extends(before, after),
        (op matches DmaOperation::Read(length) && chain_too_long(before, after, length as int)) || {
            let m = commands(before).len() as int;
            let t = handed(before).len() as int;
            &&& m < commands(after).len()
            &&& t <= handed(after).len()
            &&& commands(after).take(m) == commands(before)
            &&& handed(after).take(t) == handed(before)
            &&& dma_tells_one(commands(after), m, op, address)
            &&& dma_moves_one(handed(after), t, op)
        },
{
    let m = commands(before).len() as int;
    let t = handed(before).len() as int;
    match op {
        DmaOperation::Write(length) => {
            a_dma_write_sends_the_whole_buffer(before, after, address, length as nat);
            let opened = choose|opened: Seq<Access>|
                {
                    &&& #[trigger] moved(before, opened, seq![start_word(address, false)], Seq::empty())
                    &&& handed_over(opened, after, Seq::empty(), Direction::Tx, length as int)
                };
            assert(commands(after) =~= commands(opened));
            assert(commands(after).take(m) =~= commands(before));
            assert(handed(after).take(t) =~= handed(before));
        },
        DmaOperation::Read(length) => {
            let checked = choose|checked: Seq<Access>|
                {
                    &&& looked(before, checked)
                    &&& #[trigger] dma_read_opened(checked, after, address, length as nat, false)
                };
            if handed_over(checked, after, read_commands(address, length as nat), Direction::Rx, length as int) {
                a_dma_read_fills_the_whole_buffer(checked, after, address, length as nat);
                assert(commands(after).take(m) =~= commands(before));
                assert(handed(after).take(t) =~= handed(before));
            } else {
                let a = choose|a: DmaAttempts|
                    {
                        &&& a.from == checked
                        &&& #[trigger] chunks_begin(a, after, address, length as int, false)
                        &&& handed_over(
                            a.base,
                            after,
                            chunked_commands(address, length as nat),
                            Direction::Rx,
                            length as int,
                        )
                    };
                assert(extends(a.base, after));
                lemma_too_long_later(before, checked, after, after, length as int);
            }
        },
    }
}

/// `dma_exchange_turn` that ends a DMA exchange well has told the operations of
/// the list to its device, in order and as one transaction, and had the channels
/// move each buffer from its first byte to its last, where chunks were neither
/// allowed nor needed.
pub proof fn a_finished_dma_exchange_told_its_list<H: ControllerPort + DmaPort>(
    i2c: &mut I2c<H>,
    exchange: DmaExchange,
    operations: &Vec<DmaOperation>,
    max_transfer: usize,
    waited: Option<WaitOutcome>,
    verdict: Option<DmaVerdict>,
    r: Stride<DmaExchange>,
)
    requires
        call_ensures(
            I2c::<H>::dma_exchange_turn,
            (i2c, exchange, operations, max_transfer, waited, verdict),
            r,
        ),
        r matches Stride::Done(Ok(_)),
        exchange.address < 0x80,
        !old(i2c).allows_chunks(),
        all_fit(exchange.from@, final(i2c).log(), operations@),
    ensures
        ({
            let words = commands(final(i2c).log());
            &&& words.len() > commands(exchange.from@).len()
            &&& words.last().cmd == ControllerCommand::Stop
            &&& dma_tells(
                words.drop_last(),
                commands(exchange.from@).len() as int,
                handed(final(i2c).log()),
                handed(exchange.from@).len() as int,
                operations@,
                exchange.address,
            )
        }),
{
    let before = exchange.from@;
    let after = final(i2c).log();
    let ops = operations@;
    let open = choose|open: Seq<Access>|
        {
            &&& #[trigger] dma_chain_opened(before, open, ops, exchange.address, false)
            &&& moved(open, after, seq![stop_word()], Seq::empty())
        };
    assert(all_fit(before, open, ops)) by {
        assert forall|i: int| 0 <= i < ops.len() implies (#[trigger] ops[i] matches DmaOperation::Read(length)
            ==> !chain_too_long(before, open, length as int)) by {
            if let DmaOperation::Read(length) = ops[i] {
                if chain_too_long(before, open, length as int) {
                    lemma_too_long_later(before, before, open, after, length as int);
                }
            }
        }
    }
    lemma_dma_chain(before, open, ops, exchange.address);
    assert(commands(after).drop_last() =~= commands(open));
}

} // verus!
