//! What the calls of the driver do, told by what they were given, what they
//! return, and what reached the bus. A law here speaks of a call by
//! `call_ensures`: it holds of whatever that call can return.

use vstd::prelude::*;

use crate::controller::asynch::StartOp;
use crate::controller::blocking::{
    chain_opened, doomed, exchanged, read_closed, same_request, write_commands, Operation, OperationView,
};
use crate::controller::exchange::{Exchange, Stride};
use crate::controller::{IOError, I2c};
use crate::controller_registers::{start_word, stop_word};
use crate::laws::a_read_returns_what_came_in;
use crate::lpi2c_regs::{Access, ControllerPort};
use crate::meaning::commands::{
    a_list_is_closed_once, a_list_tells_its_operations, a_read_asks_for_its_buffer,
    a_read_in_chunks_asks_for_its_buffer, a_write_carries_the_callers_bytes, a_write_read_is_one_transaction,
    an_open_write_carries_the_callers_bytes, asks, heard, opens, reads_in_chunks, sends, tells, views,
};
use crate::meaning::flags::a_fault_goes_by_its_own_name;
use crate::meaning::recovery::a_recovery_only_lets_go;
use crate::session::{recovered, taken_over};
use crate::trace::{bounded_by, commands, extends, received, recoveries};
use crate::transfer::{
    aborted, aborting_recovers_once, cut_short, failed, fault_seen, faulted, moved, partway, read_transaction,
    receive_commands, seamed_read, steady, write_opened,
};
use crate::wait::WaitOutcome;
use crate::words::{ControllerCommand, Mtdr};

verus! {

broadcast use crate::trace::group_trace;

/// `blocking_write` sends the caller's bytes to the caller's device, whole and
/// in order, between one START and one STOP, takes nothing in, and rejects an
/// address of more than seven bits without touching the bus.
pub proof fn blocking_write_sends_the_bytes<H: ControllerPort>(
    i2c: &mut I2c<H>,
    address: u8,
    write: &[u8],
    r: Result<(), IOError>,
)
    requires
        call_ensures(I2c::<H>::blocking_write, (i2c, address, write), r),
    ensures
        address >= 0x80 ==> r == Err::<(), IOError>(IOError::AddressOutOfRange(address)),
        address >= 0x80 ==> final(i2c).log() == old(i2c).log(),
        r is Ok ==> {
            let words = commands(final(i2c).log());
            let n = commands(old(i2c).log()).len() as int;
            &&& address < 0x80
            &&& words.len() == n + write@.len() + 2
            &&& forall|i: int| 0 <= i < n ==> #[trigger] words[i] == commands(old(i2c).log())[i]
            &&& opens(words[n], address, false)
            &&& sends(words, n + 1, write@)
            &&& words.last().cmd == ControllerCommand::Stop
            &&& received(final(i2c).log()) == received(old(i2c).log())
            &&& recoveries(final(i2c).log()) == recoveries(old(i2c).log())
        },
        r matches Err(e) ==> address < 0x80 ==> {
            &&& recoveries(final(i2c).log()).len() == recoveries(old(i2c).log()).len() + 1
            &&& blamed(final(i2c).log(), e)
        },
{
    let before = old(i2c).log();
    let after = final(i2c).log();
    if address < 0x80 {
        match r {
            Ok(_) => {
                a_write_carries_the_callers_bytes(before, after, address, write@);
                assert(received(after) =~= received(before));
            },
            Err(e) => {
                let all = write_commands(address, write@) + seq![stop_word()];
                aborting_recovers_once(before, after, old(i2c).budget(), all, e, false);
                lemma_blamed(before, after, old(i2c).budget(), all, e, false);
            },
        }
    }
}

/// Every recovery of a blocking call has the time that the driver was set up
/// with, and no call changes that time.
pub proof fn recoveries_have_the_drivers_time<H: ControllerPort>(
    i2c: &mut I2c<H>,
    address: u8,
    write: &[u8],
    read: &mut [u8],
    r: Result<(), IOError>,
)
    requires
        call_ensures(I2c::<H>::blocking_write, (i2c, address, write), r) || call_ensures(
            I2c::<H>::blocking_read,
            (i2c, address, read),
            r,
        ) || call_ensures(I2c::<H>::blocking_write_read, (i2c, address, write, read), r),
    ensures
        final(i2c).budget() == old(i2c).budget(),
        ({
            let earlier = recoveries(old(i2c).log());
            let later = recoveries(final(i2c).log());
            &&& later.len() >= earlier.len()
            &&& later.take(earlier.len() as int) == earlier
            &&& forall|i: int| earlier.len() <= i < later.len() ==> #[trigger] later[i] == old(i2c).budget()
        }),
{
    reveal(bounded_by);
    let earlier = recoveries(old(i2c).log());
    let later = recoveries(final(i2c).log());
    assert(later.take(earlier.len() as int) =~= earlier);
}

/// A fault that an error names was seen: a status showed its flag, and none that
/// outranks it.
pub open spec fn blamed(after: Seq<Access>, error: IOError) -> bool {
    &&& error == IOError::AddressNack ==> exists|i: int|
        0 <= i < after.len() && (#[trigger] after[i] matches Access::ReadMsr(status) && status.ndf)
    &&& error == IOError::ArbitrationLoss ==> exists|i: int|
        0 <= i < after.len() && (#[trigger] after[i] matches Access::ReadMsr(status) && !status.ndf
            && status.alf)
    &&& error == IOError::FifoError ==> exists|i: int|
        0 <= i < after.len() && (#[trigger] after[i] matches Access::ReadMsr(status) && !status.ndf
            && !status.alf && status.fef)
    &&& error == IOError::PinLowTimeout ==> exists|i: int|
        0 <= i < after.len() && (#[trigger] after[i] matches Access::ReadMsr(status) && !status.ndf
            && !status.alf && !status.fef && status.pltf)
}

proof fn lemma_blamed(
    before: Seq<Access>,
    after: Seq<Access>,
    timeout: u64,
    all: Seq<Mtdr>,
    error: IOError,
    may_clock: bool,
)
    requires
        aborted(before, after, timeout, all, error, may_clock),
    ensures
        blamed(after, error),
{
    let log = choose|log: Seq<Access>| #[trigger]
        failed(before, log, timeout, all, error) && recovered(log, after, may_clock);
    assert(extends(taken_over(log, after), after));
    lemma_seen(log, after, error);
}

proof fn lemma_seen(log: Seq<Access>, after: Seq<Access>, error: IOError)
    requires
        extends(log, after),
        faulted(log, error) || error == IOError::Timeout || error == IOError::UnexpectedStop || error == IOError::Other,
    ensures
        blamed(after, error),
{
    if faulted(log, error) {
        let i: int = if fault_seen(log, error) {
            log.len() - 1
        } else {
            log.len() - 2
        };
        if !fault_seen(log, error) {
            assert(log.drop_last().last() == log[i]);
        }
        assert(after[i] == log[i]);
        a_fault_goes_by_its_own_name(log[i]->ReadMsr_0);
    }
}

/// `blocking_read` without consent to chunks asks the caller's device for the
/// bytes of the buffer, between one START and one STOP, and leaves in it what
/// came in. An empty buffer and an address of more than seven bits are rejected
/// without touching the bus.
pub proof fn blocking_read_holds_what_came_in<H: ControllerPort>(
    i2c: &mut I2c<H>,
    address: u8,
    read: &mut [u8],
    r: Result<(), IOError>,
)
    requires
        call_ensures(I2c::<H>::blocking_read, (i2c, address, read), r),
    ensures
        final(read)@.len() == old(read)@.len(),
        old(read)@.len() == 0 ==> r == Err::<(), IOError>(IOError::InvalidReadBufferLength),
        old(read)@.len() > 0 && address >= 0x80 ==> r == Err::<(), IOError>(IOError::AddressOutOfRange(address)),
        old(read)@.len() == 0 || address >= 0x80 ==> final(i2c).log() == old(i2c).log() && final(read)@ == old(read)@,
        r is Ok && !old(i2c).allows_chunks() ==> {
            let words = commands(final(i2c).log());
            let n = commands(old(i2c).log()).len() as int;
            &&& words.len() >= n + 3
            &&& opens(words[n], address, true)
            &&& asks(words, n + 1, words.len() - n - 2, final(read)@.len() as int)
            &&& words.last().cmd == ControllerCommand::Stop
            &&& received(final(i2c).log()) == received(old(i2c).log()) + final(read)@
            &&& recoveries(final(i2c).log()) == recoveries(old(i2c).log())
        },
        r is Ok ==> {
            let all = received(final(i2c).log());
            &&& all.len() >= final(read)@.len()
            &&& all.skip(all.len() - final(read)@.len()) == final(read)@
        },
{
    let before = old(i2c).log();
    let after = final(i2c).log();
    if r is Ok {
        if !old(i2c).allows_chunks() {
            a_read_asks_for_its_buffer(before, after, address, final(read)@);
        }
        a_read_returns_what_came_in(before, after, address, final(read)@, old(i2c).allows_chunks());
    }
}

/// The words behind the first `n` are a read of `len` bytes as one transaction,
/// or end with one in chunks, each with the same device.
pub open spec fn read_whole_or_in_chunks(words: Seq<Mtdr>, n: int, address: u8, len: int) -> bool {
    ||| {
        &&& opens(words[n], address, true)
        &&& asks(words, n + 1, words.len() - n - 2, len)
        &&& words.last().cmd == ControllerCommand::Stop
    }
    ||| exists|m: int| #[trigger] reads_in_chunks(words, m, address, len)
}

proof fn lemma_read_closed(before: Seq<Access>, after: Seq<Access>, address: u8, data: Seq<u8>, allow_chunks: bool)
    requires
        read_closed(before, after, address, data, allow_chunks),
        address < 0x80,
        data.len() > 0,
    ensures
        read_whole_or_in_chunks(commands(after), commands(before).len() as int, address, data.len() as int),
{
    if read_transaction(before, after, address, data) {
        a_read_asks_for_its_buffer(before, after, address, data);
    } else {
        let retry = choose|retry: Seq<Access>|
            {
                &&& cut_short(before, retry, seq![start_word(address, true)] + receive_commands(data.len()), true)
                &&& #[trigger] seamed_read(retry, after, address, data)
            };
        a_read_in_chunks_asks_for_its_buffer(retry, after, address, data);
        assert(reads_in_chunks(commands(after), commands(retry).len() as int, address, data.len() as int));
    }
}

/// Whether or not chunks are allowed, `blocking_read` and the read of
/// `blocking_write_read` ask the caller's device for every byte of the buffer.
pub proof fn blocking_reads_are_whole_or_in_chunks<H: ControllerPort>(
    i2c: &mut I2c<H>,
    address: u8,
    write: &[u8],
    read: &mut [u8],
)
    ensures
        old(read)@.len() > 0 && address < 0x80 ==> {
            let words = commands(final(i2c).log());
            let n = commands(old(i2c).log()).len() as int;
            let len = final(read)@.len() as int;
            &&& call_ensures(I2c::<H>::blocking_read, (i2c, address, read), Ok::<(), IOError>(()))
                ==> read_whole_or_in_chunks(words, n, address, len)
            &&& call_ensures(I2c::<H>::blocking_write_read, (i2c, address, write, read), Ok::<(), IOError>(()))
                ==> opens(words[n], address, false) && sends(words, n + 1, write@) && read_whole_or_in_chunks(
                words,
                n + 1 + write@.len(),
                address,
                len,
            )
        },
{
    let before = old(i2c).log();
    let after = final(i2c).log();
    let data = final(read)@;
    let allowed = old(i2c).allows_chunks();
    if old(read)@.len() > 0 && address < 0x80 {
        if call_ensures(I2c::<H>::blocking_read, (i2c, address, read), Ok::<(), IOError>(())) {
            lemma_read_closed(before, after, address, data, allowed);
        }
        if call_ensures(I2c::<H>::blocking_write_read, (i2c, address, write, read), Ok::<(), IOError>(())) {
            let half = choose|half: Seq<Access>|
                {
                    &&& #[trigger] write_opened(before, half, address, write@)
                    &&& read_closed(half, after, address, data, allowed)
                };
            an_open_write_carries_the_callers_bytes(before, half, address, write@);
            lemma_read_closed(half, after, address, data, allowed);
            lemma_read_keeps(half, after, address, data, allowed);
            let n = commands(before).len() as int;
            assert(commands(after)[n] == commands(half)[n]);
            assert forall|i: int| n + 1 <= i < n + 1 + write@.len() implies {
                &&& (#[trigger] commands(after)[i]).cmd == ControllerCommand::Transmit
                &&& commands(after)[i].data == write@[i - n - 1]
            } by {
                assert(commands(after)[i] == commands(half)[i]);
            }
        }
    }
}

proof fn lemma_read_keeps(before: Seq<Access>, after: Seq<Access>, address: u8, data: Seq<u8>, allow_chunks: bool)
    requires
        read_closed(before, after, address, data, allow_chunks),
    ensures
        commands(after).len() >= commands(before).len(),
        forall|i: int| 0 <= i < commands(before).len() ==> commands(after)[i] == #[trigger] commands(before)[i],
{
    if !read_transaction(before, after, address, data) {
        let all = seq![start_word(address, true)] + receive_commands(data.len());
        let retry = choose|retry: Seq<Access>|
            {
                &&& cut_short(before, retry, all, true)
                &&& #[trigger] seamed_read(retry, after, address, data)
            };
        let log = choose|log: Seq<Access>|
            {
                &&& #[trigger] steady(before, log)
                &&& partway(before, log, all)
                &&& recoveries(log) == recoveries(before)
                &&& recovered(log, retry, true)
            };
        a_recovery_only_lets_go(log, retry, true);
        assert forall|i: int| 0 <= i < commands(before).len() implies commands(after)[i] == #[trigger] commands(
            before,
        )[i] by {
            assert(commands(log)[i] == commands(before)[i]);
            assert(commands(retry).take(commands(log).len() as int)[i] == commands(retry)[i]);
            assert(commands(after)[i] == commands(retry)[i]);
        }
    }
}

/// `blocking_write_read` without consent to chunks is one transaction with the
/// caller's device: its address and the caller's bytes, a repeated START with
/// the same address, the questions for the buffer, and one STOP. The buffer
/// holds what came in.
pub proof fn blocking_write_read_is_one_transaction<H: ControllerPort>(
    i2c: &mut I2c<H>,
    address: u8,
    write: &[u8],
    read: &mut [u8],
    r: Result<(), IOError>,
)
    requires
        call_ensures(I2c::<H>::blocking_write_read, (i2c, address, write, read), r),
    ensures
        final(read)@.len() == old(read)@.len(),
        old(read)@.len() == 0 ==> r == Err::<(), IOError>(IOError::InvalidReadBufferLength),
        old(read)@.len() > 0 && address >= 0x80 ==> r == Err::<(), IOError>(IOError::AddressOutOfRange(address)),
        old(read)@.len() == 0 || address >= 0x80 ==> final(i2c).log() == old(i2c).log() && final(read)@ == old(read)@,
        r is Ok && !old(i2c).allows_chunks() ==> {
            let words = commands(final(i2c).log());
            let n = commands(old(i2c).log()).len() as int;
            let again = n + 1 + write@.len();
            &&& words.len() >= again + 3
            &&& opens(words[n], address, false)
            &&& sends(words, n + 1, write@)
            &&& opens(words[again], address, true)
            &&& asks(words, again + 1, words.len() - again - 2, final(read)@.len() as int)
            &&& words.last().cmd == ControllerCommand::Stop
            &&& received(final(i2c).log()) == received(old(i2c).log()) + final(read)@
        },
{
    let before = old(i2c).log();
    let after = final(i2c).log();
    if r is Ok && !old(i2c).allows_chunks() {
        let half = choose|half: Seq<Access>|
            {
                &&& #[trigger] write_opened(before, half, address, write@)
                &&& read_closed(half, after, address, final(read)@, false)
            };
        a_write_read_is_one_transaction(before, half, after, address, write@, final(read)@);
        assert(received(half) =~= received(before));
    }
}

/// `transaction` without consent to chunks tells the operations of the list to
/// the caller's device, in order and as one transaction, and its reads hold
/// what came in. What is written stays as it was.
pub proof fn transaction_tells_its_list<H: ControllerPort>(
    i2c: &mut I2c<H>,
    address: u8,
    operations: &mut Vec<Operation>,
    r: Result<(), IOError>,
)
    requires
        call_ensures(I2c::<H>::transaction, (i2c, address, operations), r),
    ensures
        final(operations)@.len() == old(operations)@.len(),
        forall|i: int|
            0 <= i < old(operations)@.len() ==> match old(operations)@[i]@ {
                OperationView::Write(_) => (#[trigger] final(operations)@[i])@ == old(operations)@[i]@,
                OperationView::Read(buffer) => final(operations)@[i]@ matches OperationView::Read(filled)
                    && filled.len() == buffer.len(),
            },
        old(operations)@.len() == 0 ==> r is Ok && final(i2c).log() == old(i2c).log(),
        r is Ok && old(operations)@.len() > 0 && !old(i2c).allows_chunks() ==> {
            let words = commands(final(i2c).log());
            let n = commands(old(i2c).log()).len() as int;
            &&& address < 0x80
            &&& words.len() > n
            &&& tells(words.drop_last(), n, views(final(operations)@), address)
            &&& words.last().cmd == ControllerCommand::Stop
            &&& received(final(i2c).log()) == received(old(i2c).log()) + heard(views(final(operations)@))
        },
{
    let before = old(i2c).log();
    let after = final(i2c).log();
    let ops = final(operations)@;
    assert forall|i: int| 0 <= i < old(operations)@.len() implies match old(operations)@[i]@ {
        OperationView::Write(_) => (#[trigger] ops[i])@ == old(operations)@[i]@,
        OperationView::Read(buffer) => ops[i]@ matches OperationView::Read(filled) && filled.len() == buffer.len(),
    } by {
        assert(same_request(old(operations)@[i], ops[i]));
    }
    if r is Ok && old(operations)@.len() > 0 && !old(i2c).allows_chunks() {
        lemma_exchanged(before, after, ops, address);
    }
}

proof fn lemma_exchanged(before: Seq<Access>, after: Seq<Access>, ops: Seq<Operation>, address: u8)
    requires
        exchanged(before, after, ops, address, false),
        address < 0x80,
    ensures
        ({
            let words = commands(after);
            let n = commands(before).len() as int;
            &&& words.len() > n
            &&& tells(words.drop_last(), n, views(ops), address)
            &&& words.last().cmd == ControllerCommand::Stop
            &&& received(after) == received(before) + heard(views(ops))
        }),
{
    let open = choose|open: Seq<Access>|
        {
            &&& #[trigger] chain_opened(before, open, ops, address, false)
            &&& moved(open, after, seq![stop_word()], Seq::empty())
        };
    a_list_tells_its_operations(before, open, ops, address);
    a_list_is_closed_once(before, after, ops, address);
    assert(commands(after).drop_last() =~= commands(open));
    assert(received(after) =~= received(open));
}

/// `exchange_turn` that ends an exchange well has told the operations of the
/// list to its device, in order and as one transaction, where chunks were not
/// allowed, and the reads hold what came in.
pub proof fn a_finished_exchange_told_its_list<H: ControllerPort>(
    i2c: &mut I2c<H>,
    exchange: Exchange,
    operations: &mut Vec<Operation>,
    waited: Option<WaitOutcome>,
    r: Stride<Exchange>,
)
    requires
        exchange.fits(old(i2c), old(operations)@),
        call_ensures(I2c::<H>::exchange_turn, (i2c, exchange, operations, waited), r),
        r matches Stride::Done(Ok(_)),
        !old(i2c).allows_chunks(),
    ensures
        ({
            let words = commands(final(i2c).log());
            let n = commands(exchange.from@).len() as int;
            &&& words.len() > n
            &&& tells(words.drop_last(), n, views(final(operations)@), exchange.address)
            &&& words.last().cmd == ControllerCommand::Stop
            &&& received(final(i2c).log()) == received(exchange.from@) + heard(views(final(operations)@))
        }),
{
    lemma_exchanged(exchange.from@, final(i2c).log(), final(operations)@, exchange.address);
}

/// `begin_exchange` takes the list on for the caller's device, from where the
/// history stands.
pub proof fn begin_exchange_is_for_its_device<H: ControllerPort>(
    i2c: &I2c<H>,
    address: u8,
    operations: &Vec<Operation>,
    r: Result<Option<Exchange>, IOError>,
)
    requires
        call_ensures(I2c::<H>::begin_exchange, (i2c, address, operations), r),
    ensures
        r matches Ok(Some(exchange)) ==> address < 0x80 && exchange.address == address && exchange.from@ == i2c.log(),
        r matches Ok(None) ==> operations@.len() == 0,
        r matches Err(e) ==> e == IOError::InvalidReadBufferLength || e == IOError::AddressOutOfRange(address),
        r == Err::<Option<Exchange>, IOError>(IOError::AddressOutOfRange(address)) ==> address >= 0x80,
        r == Err::<Option<Exchange>, IOError>(IOError::InvalidReadBufferLength) ==> exists|i: int|
            0 <= i < operations@.len() && ((#[trigger] operations@[i])@ matches OperationView::Read(buffer)
                && buffer.len() == 0),
{
    if exists|i: int| 0 <= i < operations@.len() && #[trigger] doomed(operations@[i]) {
        let i = choose|i: int| 0 <= i < operations@.len() && #[trigger] doomed(operations@[i]);
        assert(operations@[i]@ matches OperationView::Read(buffer) && buffer.len() == 0);
    }
}

/// `begin_start` is for the caller's device and direction, and queues the START
/// that says so.
pub proof fn a_start_is_for_its_device<H: ControllerPort>(
    i2c: &mut I2c<H>,
    address: u8,
    read: bool,
    r: Result<StartOp, IOError>,
)
    requires
        call_ensures(I2c::<H>::begin_start, (i2c, address, read), r),
    ensures
        address >= 0x80 ==> r is Err,
        r matches Err(e) ==> address >= 0x80 ==> e == IOError::AddressOutOfRange(address),
        r matches Ok(op) ==> address < 0x80 && opens(op.word(), address, read),
{
}

} // verus!
