//! What the commands and DMA transfers of a controller come to on the bus, told
//! by their fields.

use vstd::prelude::*;

use crate::controller::blocking::{
    chain_opened, chunked_commands, exchanged, operation_opened, read_opened, Operation, OperationView,
};
use crate::controller::dma::{handed_over, tiles};
use crate::controller::dma_txn::dma_write_opened;
use crate::controller_registers::{receive_word, start_word, stop_word, transmit_word};
use crate::lpi2c_regs::{Access, Direction};
use crate::trace::{commands, handed, received};
use crate::transfer::{
    moved, read_chained, read_retried, read_transaction, receive_commands, receive_size, seamed_commands, seamed_read,
    transmit_commands, write_opened, write_transaction,
};
use crate::words::{ControllerCommand, Mtdr};

verus! {

broadcast use {crate::answers::lemma_owed_push, crate::trace::group_trace};

// Commands.

/// Every command carries its operand: a START the address in its upper seven
/// bits and the direction in its lowest, a RECEIVE one less than the bytes it
/// asks for, a TRANSMIT its byte.
pub proof fn commands_carry_their_operands(address: u8, read: bool, count: nat, byte: u8)
    requires
        address < 0x80,
        1 <= count <= 256,
    ensures
        start_word(address, read).cmd == ControllerCommand::Start,
        start_word(address, read).data / 2 == address,
        start_word(address, read).data % 2 == 1 <==> read,
        receive_word(count).cmd == ControllerCommand::Receive,
        receive_word(count).data + 1 == count,
        transmit_word(byte).cmd == ControllerCommand::Transmit,
        transmit_word(byte).data == byte,
        stop_word().cmd == ControllerCommand::Stop,
        stop_word().data == 0,
{
}

/// The word opens a transaction with the device at `address`.
pub open spec fn opens(word: Mtdr, address: u8, read: bool) -> bool {
    &&& word.cmd == ControllerCommand::Start
    &&& word.data == 2 * address + if read {
        1int
    } else {
        0int
    }
}

/// The words from `from` on ask for `len` bytes: 256 by each of them but the
/// last, and the rest by that one. Only the first `count` of them are there.
pub open spec fn asks(words: Seq<Mtdr>, from: int, count: int, len: int) -> bool {
    forall|i: int|
        from <= i < from + count ==> {
            &&& (#[trigger] words[i]).cmd == ControllerCommand::Receive
            &&& 256 * (i - from) < len
            &&& words[i].data + 1 == if len - 256 * (i - from) < 256 {
                len - 256 * (i - from)
            } else {
                256
            }
        }
}

/// The words from `from` on carry these bytes.
pub open spec fn sends(words: Seq<Mtdr>, from: int, data: Seq<u8>) -> bool {
    forall|i: int|
        from <= i < from + data.len() ==> {
            &&& (#[trigger] words[i]).cmd == ControllerCommand::Transmit
            &&& words[i].data == data[i - from]
        }
}

proof fn lemma_asks(len: nat, count: int)
    requires
        0 <= count <= receive_commands(len).len(),
    ensures
        asks(receive_commands(len), 0, count, len as int),
{
    assert forall|i: int| 0 <= i < count implies {
        &&& (#[trigger] receive_commands(len)[i]).cmd == ControllerCommand::Receive
        &&& 256 * i < len
        &&& receive_commands(len)[i].data + 1 == if len - 256 * i < 256 {
            len - 256 * i
        } else {
            256
        }
    } by {
        assert(receive_commands(len)[i] == receive_word(receive_size(len, i)));
        commands_carry_their_operands(0, false, receive_size(len, i), 0);
    }
}

/// A write addresses its device, sends it the caller's bytes, each of them
/// whole and in order, and closes the transaction.
pub proof fn a_write_carries_the_callers_bytes(before: Seq<Access>, after: Seq<Access>, address: u8, data: Seq<u8>)
    requires
        write_transaction(before, after, address, data),
        address < 0x80,
    ensures
        ({
            let words = commands(after);
            let n = commands(before).len() as int;
            &&& words.len() == n + data.len() + 2
            &&& opens(words[n], address, false)
            &&& sends(words, n + 1, data)
            &&& words.last().cmd == ControllerCommand::Stop
        }),
{
    let words = seq![start_word(address, false)] + transmit_commands(data) + seq![stop_word()];
    let n = commands(before).len() as int;
    assert forall|i: int| n + 1 <= i < n + 1 + data.len() implies #[trigger] commands(after)[i] == transmit_word(
        data[i - n - 1],
    ) by {
        assert(commands(after)[i] == words[i - n]);
    }
    assert(commands(after)[n] == words[0]);
    assert(commands(after).last() == words.last());
}

/// A write that is left open does so too, without the STOP.
pub proof fn an_open_write_carries_the_callers_bytes(
    before: Seq<Access>,
    after: Seq<Access>,
    address: u8,
    data: Seq<u8>,
)
    requires
        write_opened(before, after, address, data),
        address < 0x80,
    ensures
        ({
            let words = commands(after);
            let n = commands(before).len() as int;
            &&& words.len() == n + data.len() + 1
            &&& opens(words[n], address, false)
            &&& sends(words, n + 1, data)
        }),
{
    let words = seq![start_word(address, false)] + transmit_commands(data);
    let n = commands(before).len() as int;
    assert forall|i: int| n + 1 <= i < n + 1 + data.len() implies #[trigger] commands(after)[i] == transmit_word(
        data[i - n - 1],
    ) by {
        assert(commands(after)[i] == words[i - n]);
    }
    assert(commands(after)[n] == words[0]);
}

/// A read addresses its device, asks it for the bytes of the buffer and for no
/// more, and closes the transaction.
pub proof fn a_read_asks_for_its_buffer(before: Seq<Access>, after: Seq<Access>, address: u8, data: Seq<u8>)
    requires
        read_transaction(before, after, address, data),
        address < 0x80,
    ensures
        ({
            let words = commands(after);
            let n = commands(before).len() as int;
            &&& words.len() >= n + 3
            &&& opens(words[n], address, true)
            &&& asks(words, n + 1, words.len() - n - 2, data.len() as int)
            &&& words.last().cmd == ControllerCommand::Stop
        }),
{
    let n = commands(before).len() as int;
    let words = commands(after).skip(n);
    let receives = words.subrange(1, words.len() - 1);
    lemma_asks(data.len(), receives.len() as int);
    assert forall|i: int| n + 1 <= i < commands(after).len() - 1 implies #[trigger] commands(after)[i]
        == receive_commands(data.len())[i - n - 1] by {
        assert(commands(after)[i] == words[i - n]);
        assert(words[i - n] == receives[i - n - 1]);
        assert(receive_commands(data.len()).take(receives.len() as int)[i - n - 1] == receive_commands(
            data.len(),
        )[i - n - 1]);
    }
    assert(commands(after)[n] == words[0]);
    assert(commands(after).last() == words.last());
}

/// A read that is left open does so too, without the STOP.
pub proof fn an_open_read_asks_for_its_buffer(before: Seq<Access>, after: Seq<Access>, address: u8, data: Seq<u8>)
    requires
        read_opened(before, after, address, data, false),
        address < 0x80,
    ensures
        ({
            let words = commands(after);
            let n = commands(before).len() as int;
            &&& words.len() >= n + 2
            &&& opens(words[n], address, true)
            &&& asks(words, n + 1, words.len() - n - 1, data.len() as int)
        }),
{
    let n = commands(before).len() as int;
    let opened = choose|opened: Seq<Access>|
        {
            &&& #[trigger] moved(before, opened, seq![start_word(address, true)], Seq::empty())
            &&& read_chained(opened, after, data)
        };
    let words = commands(after).skip(commands(opened).len() as int);
    lemma_asks(data.len(), words.len() as int);
    assert forall|i: int| n + 1 <= i < commands(after).len() implies #[trigger] commands(after)[i]
        == receive_commands(data.len())[i - n - 1] by {
        assert(commands(after)[i] == words[i - n - 1]);
        assert(receive_commands(data.len()).take(words.len() as int)[i - n - 1] == receive_commands(
            data.len(),
        )[i - n - 1]);
    }
    assert(commands(opened)[n] == start_word(address, true));
    assert(commands(after)[n] == commands(opened)[n]);
}

/// A write and a read of one device are one transaction: the write's address
/// and bytes, a repeated START with the same address for the read, what the
/// read asks for, and one STOP at the very end.
pub proof fn a_write_read_is_one_transaction(
    before: Seq<Access>,
    half: Seq<Access>,
    after: Seq<Access>,
    address: u8,
    written: Seq<u8>,
    data: Seq<u8>,
)
    requires
        write_opened(before, half, address, written),
        read_transaction(half, after, address, data),
        address < 0x80,
    ensures
        ({
            let words = commands(after);
            let n = commands(before).len() as int;
            let again = n + 1 + written.len();
            &&& words.len() >= again + 3
            &&& opens(words[n], address, false)
            &&& sends(words, n + 1, written)
            &&& opens(words[again], address, true)
            &&& asks(words, again + 1, words.len() - again - 2, data.len() as int)
            &&& words.last().cmd == ControllerCommand::Stop
        }),
{
    an_open_write_carries_the_callers_bytes(before, half, address, written);
    a_read_asks_for_its_buffer(half, after, address, data);
    let n = commands(before).len() as int;
    assert forall|i: int| 0 <= i < commands(half).len() implies #[trigger] commands(after)[i] == commands(half)[i] by {
    }
    assert forall|i: int| n + 1 <= i < n + 1 + written.len() implies {
        &&& (#[trigger] commands(after)[i]).cmd == ControllerCommand::Transmit
        &&& commands(after)[i].data == written[i - n - 1]
    } by {
        assert(commands(after)[i] == commands(half)[i]);
    }
    assert(commands(after)[n] == commands(half)[n]);
}

/// The words from `from` on are a read in transactions of 256 bytes: each with
/// its START, one RECEIVE and its STOP.
pub open spec fn reads_in_chunks(words: Seq<Mtdr>, from: int, address: u8, len: int) -> bool {
    &&& words.len() == from + 3 * ((len + 255) / 256)
    &&& forall|i: int|
        from <= i < words.len() ==> {
            let place = (i - from) / 3;
            let left = len - 256 * place;
            if (i - from) % 3 == 0 {
                opens(#[trigger] words[i], address, true)
            } else if (i - from) % 3 == 1 {
                &&& words[i].cmd == ControllerCommand::Receive
                &&& words[i].data + 1 == if left < 256 {
                    left
                } else {
                    256
                }
            } else {
                words[i].cmd == ControllerCommand::Stop
            }
        }
}

proof fn lemma_chunks(address: u8, len: nat)
    requires
        address < 0x80,
        len > 0,
    ensures
        reads_in_chunks(
            seq![start_word(address, true)] + seamed_commands(address, len) + seq![stop_word()],
            0,
            address,
            len as int,
        ),
    decreases len,
{
    let words = seq![start_word(address, true)] + seamed_commands(address, len) + seq![stop_word()];
    if len <= 256 {
        commands_carry_their_operands(address, true, len, 0);
        assert(words =~= seq![start_word(address, true), receive_word(len), stop_word()]);
    } else {
        let rest = (len - 256) as nat;
        let tail = seq![start_word(address, true)] + seamed_commands(address, rest) + seq![stop_word()];
        lemma_chunks(address, rest);
        commands_carry_their_operands(address, true, 256, 0);
        assert(words =~= seq![start_word(address, true), receive_word(256), stop_word()] + tail);
        assert forall|i: int| 3 <= i < words.len() implies #[trigger] words[i] == tail[i - 3] && (i - 3) / 3 == i / 3
            - 1 && (i - 3) % 3 == i % 3 by {
        }
    }
}

/// A read in chunks addresses the same device for each of them and asks for
/// every byte of the buffer once.
pub proof fn a_read_in_chunks_asks_for_its_buffer(
    before: Seq<Access>,
    after: Seq<Access>,
    address: u8,
    data: Seq<u8>,
)
    requires
        seamed_read(before, after, address, data),
        address < 0x80,
        data.len() > 0,
    ensures
        reads_in_chunks(commands(after), commands(before).len() as int, address, data.len() as int),
{
    let words = seq![start_word(address, true)] + seamed_commands(address, data.len()) + seq![stop_word()];
    let n = commands(before).len() as int;
    lemma_chunks(address, data.len());
    assert forall|i: int| n <= i < commands(after).len() implies #[trigger] commands(after)[i] == words[i - n] by {
    }
}

/// The same of a read in chunks whose last STOP is still to come.
pub open spec fn reads_in_open_chunks(words: Seq<Mtdr>, from: int, address: u8, len: int) -> bool {
    reads_in_chunks(words.push(Mtdr { data: 0, cmd: ControllerCommand::Stop }), from, address, len)
}

proof fn lemma_open_chunks(words: Seq<Mtdr>, from: int, address: u8, len: nat)
    requires
        0 <= from <= words.len(),
        words.skip(from) == seq![start_word(address, true)] + seamed_commands(address, len),
        address < 0x80,
        len > 0,
    ensures
        reads_in_open_chunks(words, from, address, len as int),
{
    let tail = seq![start_word(address, true)] + seamed_commands(address, len) + seq![stop_word()];
    let all = words.push(Mtdr { data: 0, cmd: ControllerCommand::Stop });
    lemma_chunks(address, len);
    assert forall|i: int| from <= i < all.len() implies {
        &&& (#[trigger] all[i]).cmd == tail[i - from].cmd
        &&& i < words.len() ==> all[i] == tail[i - from]
    } by {
        if i < words.len() {
            assert(all[i] == words.skip(from)[i - from]);
        }
    }
    assert(all.len() == from + tail.len());
}

/// A read that was begun anew asks the same device again, in chunks, from its
/// first byte on, and what the buffer holds came in behind that.
pub proof fn a_repeated_read_asks_anew(
    before: Seq<Access>,
    retry: Seq<Access>,
    after: Seq<Access>,
    address: u8,
    data: Seq<u8>,
)
    requires
        read_retried(before, retry, after, address, data),
        address < 0x80,
        data.len() > 0,
    ensures
        reads_in_open_chunks(commands(after), commands(retry).len() as int, address, data.len() as int),
        received(after) == received(retry) + data,
{
    let n = commands(retry).len() as int;
    assert(commands(after).skip(n) =~= seq![start_word(address, true)] + seamed_commands(address, data.len()));
    lemma_open_chunks(commands(after), n, address, data.len());
}

/// A DMA read in chunks asks in the same way, and has the channel fill the
/// buffer from its first byte to its last.
pub proof fn a_dma_read_in_chunks_fills_the_whole_buffer(
    before: Seq<Access>,
    after: Seq<Access>,
    address: u8,
    len: nat,
)
    requires
        handed_over(before, after, chunked_commands(address, len), Direction::Rx, len as int),
        address < 0x80,
        len > 0,
    ensures
        reads_in_open_chunks(commands(after), commands(before).len() as int, address, len as int),
        covers(handed(after).skip(handed(before).len() as int), Direction::Rx, len as int),
{
    let n = commands(before).len() as int;
    lemma_covers(Direction::Rx, handed(after).skip(handed(before).len() as int), len as int);
    assert(commands(after).skip(n) =~= seq![start_word(address, true)] + seamed_commands(address, len));
    lemma_open_chunks(commands(after), n, address, len);
}

/// An operation of a list begins with a START for its own direction and holds
/// no STOP.
pub proof fn an_operation_opens_for_its_direction(
    before: Seq<Access>,
    after: Seq<Access>,
    op: OperationView,
    address: u8,
)
    requires
        operation_opened(before, after, op, address, false),
        address < 0x80,
    ensures
        ({
            let words = commands(after);
            let n = commands(before).len() as int;
            &&& words.len() > n
            &&& opens(words[n], address, op is Read)
            &&& match op {
                OperationView::Write(data) => words.len() == n + 1 + data.len() && sends(words, n + 1, data),
                OperationView::Read(data) => asks(words, n + 1, words.len() - n - 1, data.len() as int),
            }
            &&& forall|i: int| 0 <= i < n ==> #[trigger] words[i] == commands(before)[i]
        }),
{
    match op {
        OperationView::Write(data) => {
            an_open_write_carries_the_callers_bytes(before, after, address, data);
        },
        OperationView::Read(data) => {
            an_open_read_asks_for_its_buffer(before, after, address, data);
            let opened = choose|opened: Seq<Access>|
                {
                    &&& #[trigger] moved(before, opened, seq![start_word(address, true)], Seq::empty())
                    &&& read_chained(opened, after, data)
                };
            assert forall|i: int| 0 <= i < commands(before).len() implies #[trigger] commands(after)[i] == commands(
                before,
            )[i] by {
                assert(commands(opened)[i] == commands(before)[i]);
            }
        },
    }
}

proof fn lemma_chain_holds_no_stop(before: Seq<Access>, after: Seq<Access>, ops: Seq<Operation>, address: u8)
    requires
        chain_opened(before, after, ops, address, false),
        address < 0x80,
    ensures
        commands(after).len() >= commands(before).len() + ops.len(),
        forall|i: int|
            commands(before).len() <= i < commands(after).len() ==> (#[trigger] commands(after)[i]).cmd
                != ControllerCommand::Stop,
    decreases ops.len(),
{
    if ops.len() > 0 {
        let mid = choose|mid: Seq<Access>|
            {
                &&& chain_opened(before, mid, ops.drop_last(), address, false)
                &&& #[trigger] operation_opened(mid, after, ops.last()@, address, false)
            };
        lemma_chain_holds_no_stop(before, mid, ops.drop_last(), address);
        an_operation_opens_for_its_direction(mid, after, ops.last()@, address);
        assert forall|i: int| commands(before).len() <= i < commands(after).len() implies (#[trigger] commands(
            after,
        )[i]).cmd != ControllerCommand::Stop by {
            if i < commands(mid).len() {
                assert(commands(after)[i] == commands(mid)[i]);
            }
        }
    }
}

/// A list of operations is one transaction: its only STOP is its last command.
pub proof fn a_list_is_closed_once(before: Seq<Access>, after: Seq<Access>, ops: Seq<Operation>, address: u8)
    requires
        exchanged(before, after, ops, address, false),
        address < 0x80,
    ensures
        commands(after).len() > commands(before).len() + ops.len(),
        forall|i: int|
            commands(before).len() <= i < commands(after).len() ==> ((#[trigger] commands(after)[i]).cmd
                == ControllerCommand::Stop <==> i == commands(after).len() - 1),
{
    let open = choose|open: Seq<Access>|
        {
            &&& #[trigger] chain_opened(before, open, ops, address, false)
            &&& moved(open, after, seq![stop_word()], Seq::empty())
        };
    lemma_chain_holds_no_stop(before, open, ops, address);
    assert forall|i: int| commands(before).len() <= i < commands(after).len() implies ((#[trigger] commands(
        after,
    )[i]).cmd == ControllerCommand::Stop <==> i == commands(after).len() - 1) by {
        if i < commands(open).len() {
            assert(commands(after)[i] == commands(open)[i]);
        }
    }
}

/// The words from `m` on tell one operation: a START for its direction, and its
/// bytes or its questions.
pub open spec fn tells_one(words: Seq<Mtdr>, m: int, op: OperationView, address: u8) -> bool {
    &&& opens(words[m], address, op is Read)
    &&& match op {
        OperationView::Write(data) => words.len() == m + 1 + data.len() && sends(words, m + 1, data),
        OperationView::Read(data) => asks(words, m + 1, words.len() - m - 1, data.len() as int),
    }
}

/// The words from `from` on tell these operations, one behind the other.
pub open spec fn tells(words: Seq<Mtdr>, from: int, ops: Seq<OperationView>, address: u8) -> bool
    decreases ops.len(),
{
    if ops.len() == 0 {
        words.len() == from
    } else {
        exists|m: int|
            {
                &&& from <= m < words.len()
                &&& #[trigger] tells_one(words, m, ops.last(), address)
                &&& tells(words.take(m), from, ops.drop_last(), address)
            }
    }
}

/// The bytes that the reads of a list hold, one behind the other.
pub open spec fn heard(ops: Seq<OperationView>) -> Seq<u8>
    decreases ops.len(),
{
    if ops.len() == 0 {
        Seq::empty()
    } else {
        match ops.last() {
            OperationView::Read(data) => heard(ops.drop_last()) + data,
            OperationView::Write(_) => heard(ops.drop_last()),
        }
    }
}

/// What the operations of a list ask for.
pub open spec fn views(ops: Seq<Operation>) -> Seq<OperationView> {
    ops.map_values(|op: Operation| op@)
}

/// A list that is left open told its operations in order, and its reads hold
/// what came in.
pub proof fn a_list_tells_its_operations(before: Seq<Access>, after: Seq<Access>, ops: Seq<Operation>, address: u8)
    requires
        chain_opened(before, after, ops, address, false),
        address < 0x80,
    ensures
        tells(commands(after), commands(before).len() as int, views(ops), address),
        received(after) == received(before) + heard(views(ops)),
    decreases ops.len(),
{
    if ops.len() == 0 {
        assert(received(after) =~= received(before) + heard(views(ops)));
    } else {
        let mid = choose|mid: Seq<Access>|
            {
                &&& chain_opened(before, mid, ops.drop_last(), address, false)
                &&& #[trigger] operation_opened(mid, after, ops.last()@, address, false)
            };
        a_list_tells_its_operations(before, mid, ops.drop_last(), address);
        an_operation_opens_for_its_direction(mid, after, ops.last()@, address);
        lemma_chain_holds_no_stop(before, mid, ops.drop_last(), address);
        assert(views(ops).drop_last() =~= views(ops.drop_last()));
        assert(views(ops).last() == ops.last()@);
        let m = commands(mid).len() as int;
        assert(commands(after).take(m) =~= commands(mid));
        assert(tells(commands(after).take(m), commands(before).len() as int, views(ops).drop_last(), address));
        assert(tells_one(commands(after), m, views(ops).last(), address));
        let heard_before = heard(views(ops).drop_last());
        match ops.last()@ {
            OperationView::Write(data) => {
                assert(received(after) =~= received(mid));
            },
            OperationView::Read(data) => {
                let opened = choose|opened: Seq<Access>|
                    {
                        &&& #[trigger] moved(mid, opened, seq![start_word(address, true)], Seq::empty())
                        &&& read_chained(opened, after, data)
                    };
                assert(received(opened) =~= received(mid));
                assert(received(before) + heard_before + data =~= received(before) + (heard_before + data));
            },
        }
    }
}

// DMA.

/// The transfers follow each other through the buffer from its first byte to
/// its `len`-th, all one way.
pub open spec fn covers(transfers: Seq<(Direction, usize, usize)>, way: Direction, len: int) -> bool {
    &&& forall|i: int| 0 <= i < transfers.len() ==> (#[trigger] transfers[i]).0 == way && transfers[i].2 > 0
    &&& forall|i: int, j: int|
        0 <= i < transfers.len() && j == i + 1 && j < transfers.len() ==> (#[trigger] transfers[i]).1 + transfers[i].2
            == (#[trigger] transfers[j]).1
    &&& if transfers.len() > 0 {
        &&& transfers[0].1 == 0
        &&& transfers.last().1 + transfers.last().2 == len
    } else {
        len == 0
    }
}

proof fn lemma_covers(way: Direction, transfers: Seq<(Direction, usize, usize)>, len: int)
    requires
        tiles(way, transfers, len),
    ensures
        covers(transfers, way, len),
    decreases transfers.len(),
{
    if transfers.len() > 0 {
        let rest = transfers.drop_last();
        lemma_covers(way, rest, transfers.last().1 as int);
        assert forall|i: int| 0 <= i < rest.len() implies #[trigger] rest[i] == transfers[i] by {
        }
        assert forall|i: int| 0 <= i < transfers.len() implies (#[trigger] transfers[i]).0 == way && transfers[i].2
            > 0 by {
            if i < rest.len() {
                assert(rest[i] == transfers[i]);
            }
        }
        assert forall|i: int, j: int| 0 <= i < transfers.len() && j == i + 1 && j < transfers.len() implies (
        #[trigger] transfers[i]).1 + transfers[i].2 == (#[trigger] transfers[j]).1 by {
            assert(rest[i] == transfers[i]);
            if j < rest.len() {
                assert(rest[j] == transfers[j]);
            }
        }
        if rest.len() > 0 {
            assert(rest[0] == transfers[0]);
        }
    }
}

/// A DMA write addresses its device and hands the buffer to the channel from
/// its first byte to its last.
pub proof fn a_dma_write_sends_the_whole_buffer(before: Seq<Access>, after: Seq<Access>, address: u8, len: nat)
    requires
        dma_write_opened(before, after, address, len),
        address < 0x80,
    ensures
        ({
            let words = commands(after);
            let n = commands(before).len() as int;
            &&& words.len() == n + 1
            &&& opens(words[n], address, false)
            &&& covers(handed(after).skip(handed(before).len() as int), Direction::Tx, len as int)
        }),
{
    let opened = choose|opened: Seq<Access>|
        {
            &&& #[trigger] moved(before, opened, seq![start_word(address, false)], Seq::empty())
            &&& handed_over(opened, after, Seq::empty(), Direction::Tx, len as int)
        };
    lemma_covers(Direction::Tx, handed(after).skip(handed(opened).len() as int), len as int);
    assert(commands(after) =~= commands(opened));
    assert(commands(opened)[commands(before).len() as int] == start_word(address, false));
}

/// A DMA read as one transaction addresses its device, asks it for the bytes
/// of the buffer, and has the channel fill it from its first byte to its last.
pub proof fn a_dma_read_fills_the_whole_buffer(before: Seq<Access>, after: Seq<Access>, address: u8, len: nat)
    requires
        handed_over(
            before,
            after,
            seq![start_word(address, true)] + receive_commands(len),
            Direction::Rx,
            len as int,
        ),
        address < 0x80,
    ensures
        ({
            let words = commands(after);
            let n = commands(before).len() as int;
            &&& words.len() == n + 1 + (len + 255) / 256
            &&& opens(words[n], address, true)
            &&& asks(words, n + 1, words.len() - n - 1, len as int)
            &&& covers(handed(after).skip(handed(before).len() as int), Direction::Rx, len as int)
        }),
{
    let n = commands(before).len() as int;
    let all = seq![start_word(address, true)] + receive_commands(len);
    lemma_covers(Direction::Rx, handed(after).skip(handed(before).len() as int), len as int);
    lemma_asks(len, receive_commands(len).len() as int);
    assert forall|i: int| n + 1 <= i < commands(after).len() implies #[trigger] commands(after)[i]
        == receive_commands(len)[i - n - 1] by {
        assert(commands(after)[i] == all[i - n]);
    }
    assert(commands(after)[n] == all[0]);
}

} // verus!
