//! What a controller transfer puts on the bus, and why one fails.

use vstd::prelude::*;

use crate::answers::{owed, Owed};
use crate::controller::{io_error, IOError};
use crate::controller_registers::{
    arbitration_scrub, fifo_entries, packet_over, receive_word, rx_step_ran, start_word, status_error, stop_word,
    transmit_word,
};
use crate::lpi2c_regs::{Access, Direction};
use crate::session::{recovered, taken_over};
use crate::ticks::deadline;
use crate::trace::{commands, extends, handed, lemma_wire_grows, received, recoveries, wire};
use crate::wait::POLL_LIMIT;
use crate::words::{ControllerCommand, Mtdr};

verus! {

/// How many bytes the RECEIVE at place `i` of a read of `len` bytes asks for.
pub open spec fn receive_size(len: nat, i: int) -> nat {
    if len - 256 * i < 256 {
        (len - 256 * i) as nat
    } else {
        256
    }
}

/// The RECEIVE commands of one read: 256 bytes each, and the rest.
pub open spec fn receive_commands(len: nat) -> Seq<Mtdr> {
    Seq::new(((len + 255) / 256) as nat, |i: int| receive_word(receive_size(len, i)))
}

/// The TRANSMIT commands of one write.
pub open spec fn transmit_commands(bytes: Seq<u8>) -> Seq<Mtdr> {
    Seq::new(bytes.len(), |i: int| transmit_word(bytes[i]))
}

/// The commands of a read that is split into transactions of 256 bytes, past
/// its first START and before its last STOP.
pub open spec fn seamed_commands(address: u8, len: nat) -> Seq<Mtdr>
    decreases len,
{
    if len <= 256 {
        seq![receive_word(len)]
    } else {
        seq![receive_word(256), stop_word(), start_word(address, true)] + seamed_commands(address, (len - 256) as nat)
    }
}

/// An access that neither moves anything nor touches the engine: a look at a
/// register, the clock or a DMA channel, an interrupt mask, the plumbing of a
/// DMA channel, or a status write that clears no fault, except that an
/// arbitration loss alone may be cleared.
pub open spec fn is_look(a: Access) -> bool {
    match a {
        Access::Now(_)
        | Access::ReadParam(_)
        | Access::ReadMsr(_)
        | Access::ReadMfsr(_)
        | Access::ReadMier(_)
        | Access::WriteMier(_)
        | Access::ReadMder(_)
        | Access::WriteMder(_)
        | Access::DmaDisableRequest(_)
        | Access::DmaClearDone(_)
        | Access::DmaClearInterrupt(_)
        | Access::DmaSetRequestSource(_)
        | Access::DmaSetup(_, _, _, _, _)
        | Access::DmaEnableRequest(_)
        | Access::DmaBarrier
        | Access::DmaQuiesce(_, _)
        | Access::DmaTransferredBytes(_, _)
        | Access::DmaIsDone(_, _) => true,
        Access::WriteMsr(word) => status_error(word) is None || word == arbitration_scrub(),
        _ => false,
    }
}

/// The look that ends at place `n` found no fault, and room in the command
/// FIFO.
pub open spec fn room_at(log: Seq<Access>, n: int) -> bool {
    &&& 3 <= n <= log.len()
    &&& log[n - 3] is ReadMsr
    &&& status_error(log[n - 3]->ReadMsr_0) is None
    &&& log[n - 2] is ReadMfsr
    &&& log[n - 1] is ReadParam
    &&& (log[n - 2]->ReadMfsr_0).txcount < fifo_entries(log[n - 1]->ReadParam_0)
}

/// The look that ends at place `n` found data in the receive FIFO.
pub open spec fn data_at(log: Seq<Access>, n: int) -> bool {
    &&& 1 <= n <= log.len()
    &&& log[n - 1] is ReadMfsr
    &&& (log[n - 1]->ReadMfsr_0).rxcount != 0
}

/// `after` goes on from `before` with looks, commands and popped bytes alone.
/// A command goes in only right behind a look that found no fault, and room;
/// a byte is popped only right behind a look that found data.
pub open spec fn steady(before: Seq<Access>, after: Seq<Access>) -> bool {
    &&& extends(before, after)
    &&& forall|i: int|
        before.len() <= i < after.len() ==> is_look(#[trigger] after[i]) || after[i] is WriteMtdr
            || after[i] is ReadMrdr
    &&& forall|i: int|
        before.len() <= i < after.len() && #[trigger] after[i] is WriteMtdr ==> before.len() + 3 <= i && room_at(
            after,
            i,
        )
    &&& forall|i: int|
        before.len() <= i < after.len() && #[trigger] after[i] is ReadMrdr ==> before.len() + 1 <= i && data_at(
            after,
            i,
        )
}

/// `after` extends `before` by looks alone; see [`is_look`].
pub open spec fn looked(before: Seq<Access>, after: Seq<Access>) -> bool {
    &&& extends(before, after)
    &&& forall|i: int| before.len() <= i < after.len() ==> is_look(#[trigger] after[i])
    &&& commands(after) == commands(before)
    &&& received(after) == received(before)
    &&& handed(after) == handed(before)
    &&& recoveries(after) == recoveries(before)
}

/// `after` extends `before` by looks and by exactly the given commands and
/// bytes.
pub open spec fn moved(before: Seq<Access>, after: Seq<Access>, words: Seq<Mtdr>, bytes: Seq<u8>) -> bool {
    &&& steady(before, after)
    &&& commands(after) == commands(before) + words
    &&& received(after) == received(before) + bytes
    &&& handed(after) == handed(before)
    &&& recoveries(after) == recoveries(before)
}

/// `after` extends `before` by looks, by exactly the given commands, and by
/// exactly the given transfers.
pub open spec fn carried(
    before: Seq<Access>,
    after: Seq<Access>,
    words: Seq<Mtdr>,
    transfers: Seq<(Direction, usize, usize)>,
) -> bool {
    &&& steady(before, after)
    &&& commands(after) == commands(before) + words
    &&& received(after) == received(before)
    &&& handed(after) == handed(before) + transfers
    &&& recoveries(after) == recoveries(before)
}

/// The last snapshot in the log reports the fault behind this error.
pub open spec fn fault_seen(log: Seq<Access>, error: IOError) -> bool {
    let status = log.last()->ReadMsr_0;
    &&& log.len() > 0
    &&& log.last() is ReadMsr
    &&& status_error(status) is Some
    &&& error == io_error(status_error(status)->Some_0)
}

/// A fault was seen, and perhaps bound to a session, which looks at the
/// receive FIFO once.
pub open spec fn faulted(log: Seq<Access>, error: IOError) -> bool {
    ||| fault_seen(log, error)
    ||| log.len() > 0 && log.last() is ReadMfsr && fault_seen(log.drop_last(), error)
}

/// An access that is no progress: it pops nothing and queues nothing, except
/// that a RECEIVE may be queued ahead of the data.
pub open spec fn stands_still(a: Access) -> bool {
    &&& !(a is ReadMrdr)
    &&& a matches Access::WriteMtdr(word) ==> word.cmd == ControllerCommand::Receive
}

/// `after` goes on from `before` without progress.
pub open spec fn stood_still(before: Seq<Access>, after: Seq<Access>) -> bool {
    &&& extends(before, after)
    &&& forall|i: int| before.len() <= i < after.len() ==> stands_still(#[trigger] after[i])
}

/// There was no progress from place `i` on.
pub open spec fn still_from(log: Seq<Access>, i: int) -> bool {
    forall|j: int| i <= j < log.len() ==> stands_still(#[trigger] log[j])
}

/// This tick was read behind `before`, and there was no progress since.
pub open spec fn standing_since(before: Seq<Access>, log: Seq<Access>, start: u64) -> bool {
    exists|i: int| before.len() <= i < log.len() && #[trigger] log[i] == Access::Now(start) && still_from(log, i)
}

pub proof fn lemma_standing(before: Seq<Access>, mid: Seq<Access>, log: Seq<Access>, start: u64)
    requires
        standing_since(before, mid, start),
        looked(mid, log) || stood_still(mid, log),
    ensures
        standing_since(before, log, start),
{
    let i = choose|i: int|
        before.len() <= i < mid.len() && #[trigger] mid[i] == Access::Now(start) && still_from(mid, i);
    assert(log[i] == Access::Now(start));
    assert forall|j: int| i <= j < log.len() implies stands_still(#[trigger] log[j]) by {
        if j < mid.len() {
            assert(log[j] == mid[j]);
        }
    }
}

/// A wait of `timeout` ticks that began behind `before` ran out: the last
/// tick read lies past the deadline of one since which there was no progress,
/// or the wait was polled to its limit.
pub open spec fn gave_up(before: Seq<Access>, log: Seq<Access>, timeout: u64) -> bool {
    let now = log.last()->Now_0;
    &&& log.len() > before.len()
    &&& log.last() is Now
    &&& {
        ||| exists|start: u64| #[trigger] standing_since(before, log, start) && now > deadline(start, timeout)
        ||| log.len() - before.len() >= POLL_LIMIT
    }
}

/// The last command of the open transaction is one of these.
pub open spec fn last_is(log: Seq<Access>, cmd: ControllerCommand) -> bool {
    wire(log).len() > 0 && wire(log).last().cmd == cmd
}

/// Behind a RECEIVE the last look found no data, no fault, and the packet
/// ended.
pub open spec fn ended_early(log: Seq<Access>) -> bool {
    let n = log.len();
    &&& nothing_came(log, n as int)
    &&& packet_over(log[n - 1]->ReadMsr_0)
}

/// Behind a RECEIVE the look that ends at place `n` found no data and no
/// fault, and then looked whether the packet was over.
pub open spec fn nothing_came(log: Seq<Access>, n: int) -> bool {
    &&& last_is(log, ControllerCommand::Receive)
    &&& 3 <= n <= log.len()
    &&& log[n - 3] is ReadMfsr
    &&& (log[n - 3]->ReadMfsr_0).rxcount == 0
    &&& log[n - 2] is ReadMsr
    &&& status_error(log[n - 2]->ReadMsr_0) is None
    &&& log[n - 1] is ReadMsr
}

/// Behind a START the command FIFO had no room for the first RECEIVE.
pub open spec fn refused(log: Seq<Access>) -> bool {
    let n = log.len();
    &&& last_is(log, ControllerCommand::Start)
    &&& n >= 2
    &&& log[n - 2] is ReadMfsr
    &&& log[n - 1] is ReadParam
    &&& (log[n - 2]->ReadMfsr_0).txcount >= fifo_entries(log[n - 1]->ReadParam_0)
}

/// `some` is how `all` begins.
pub open spec fn begins(all: Seq<Mtdr>, some: Seq<Mtdr>) -> bool {
    &&& some.len() <= all.len()
    &&& forall|i: int| 0 <= i < some.len() ==> #[trigger] some[i] == all[i]
}

/// The commands behind those of `before` are the first ones of `all`.
pub open spec fn partway(before: Seq<Access>, log: Seq<Access>, all: Seq<Mtdr>) -> bool {
    let some = commands(log).skip(commands(before).len() as int);
    &&& commands(log) == commands(before) + some
    &&& begins(all, some)
}

/// The last look found the command FIFO full, and no fault.
pub open spec fn found_full(log: Seq<Access>) -> bool {
    full_at(log, log.len() as int)
}

/// The look that ends at place `n` found the command FIFO full, and no fault.
pub open spec fn full_at(log: Seq<Access>, n: int) -> bool {
    &&& 3 <= n <= log.len()
    &&& log[n - 3] is ReadMsr
    &&& status_error(log[n - 3]->ReadMsr_0) is None
    &&& log[n - 2] is ReadMfsr
    &&& log[n - 1] is ReadParam
    &&& (log[n - 2]->ReadMfsr_0).txcount >= fifo_entries(log[n - 1]->ReadParam_0)
}

/// Behind a START or a STOP the look that ends at place `n` found no fault,
/// and commands still queued, or, behind a STOP, the engine still busy.
pub open spec fn pending_at(log: Seq<Access>, n: int) -> bool {
    &&& 2 <= n <= log.len()
    &&& log[n - 2] is ReadMsr
    &&& status_error(log[n - 2]->ReadMsr_0) is None
    &&& log[n - 1] is ReadMfsr
    &&& {
        ||| last_is(log, ControllerCommand::Start) && (log[n - 1]->ReadMfsr_0).txcount > 0
        ||| last_is(log, ControllerCommand::Stop) && ((log[n - 1]->ReadMfsr_0).txcount > 0
            || (log[n - 2]->ReadMsr_0).mbf)
    }
}

/// Behind a RECEIVE the look that ends at place `n` found no data, no fault,
/// and the packet going on.
pub open spec fn empty_at(log: Seq<Access>, n: int) -> bool {
    nothing_came(log, n) && !packet_over(log[n - 1]->ReadMsr_0)
}

/// The clock was read right behind a look that found what was waited for not
/// there: no room for a command, a command not yet run, or no data.
pub open spec fn unmet(log: Seq<Access>) -> bool {
    let n = log.len() as int;
    let looks = if n > 1 && log[n - 2] is Now {
        n - 2
    } else {
        n - 1
    };
    &&& n > 0
    &&& log[n - 1] is Now
    &&& full_at(log, looks) || pending_at(log, looks) || empty_at(log, looks)
}

/// As [`found_full`], by a look behind `before`.
pub open spec fn found_full_behind(before: Seq<Access>, log: Seq<Access>) -> bool {
    found_full(log) && before.len() + 3 <= log.len()
}

/// As [`unmet`], by a look behind `before`.
pub open spec fn unmet_behind(before: Seq<Access>, log: Seq<Access>) -> bool {
    let n = log.len() as int;
    let looks = if n > 1 && log[n - 2] is Now {
        n - 2
    } else {
        n - 1
    };
    unmet(log) && before.len() + 2 <= looks
}

/// A byte was popped behind `before`.
pub open spec fn popped_behind(before: Seq<Access>, log: Seq<Access>) -> bool {
    exists|i: int| before.len() <= i < log.len() && #[trigger] log[i] is ReadMrdr
}

pub proof fn lemma_popped_later(before: Seq<Access>, mid: Seq<Access>, log: Seq<Access>)
    requires
        popped_behind(before, mid),
        extends(mid, log),
    ensures
        popped_behind(before, log),
{
    let i = choose|i: int| before.len() <= i < mid.len() && #[trigger] mid[i] is ReadMrdr;
    assert(log[i] == mid[i]);
}

/// Behind `before` a look for data found none, no fault, and the packet going
/// on.
pub open spec fn nothing_behind(before: Seq<Access>, log: Seq<Access>) -> bool {
    exists|a: Seq<Access>, b: Seq<Access>|
        extends(before, a) && #[trigger] rx_step_ran(a, b, None) && extends(b, log)
}

/// A transfer that began at `before` came to `log` and failed there, for the
/// reason that the error names. It had queued the first of its own commands,
/// `all`, and nothing else.
pub open spec fn failed(
    before: Seq<Access>,
    log: Seq<Access>,
    timeout: u64,
    all: Seq<Mtdr>,
    error: IOError,
) -> bool {
    &&& steady(before, log)
    &&& partway(before, log, all)
    &&& recoveries(log) == recoveries(before)
    &&& match error {
        IOError::Timeout => gave_up(before, log, timeout) && unmet(log),
        IOError::UnexpectedStop => ended_early(log),
        IOError::Other => refused(log),
        IOError::AddressNack | IOError::ArbitrationLoss | IOError::FifoError | IOError::PinLowTimeout => faulted(
            log,
            error,
        ),
        _ => false,
    }
}

/// A transfer that began at `before` failed, and exactly one recovery ran.
pub open spec fn aborted(
    before: Seq<Access>,
    after: Seq<Access>,
    timeout: u64,
    all: Seq<Mtdr>,
    error: IOError,
    may_clock: bool,
) -> bool {
    exists|log: Seq<Access>| #[trigger] failed(before, log, timeout, all, error) && recovered(log, after, may_clock)
}

/// The error allows a second attempt in chunks.
pub open spec fn retryable(error: IOError) -> bool {
    error == IOError::UnexpectedStop || error == IOError::Timeout
}

/// Behind a RECEIVE the last look found the packet ended early, or what was
/// waited for still not there.
pub open spec fn stalled(log: Seq<Access>) -> bool {
    &&& last_is(log, ControllerCommand::Receive)
    &&& ended_early(log) || unmet(log) || empty_at(log, log.len() as int)
}

/// A transfer with the commands `all` that began at `before` was cut short
/// and recovered. Where it is `told`, it had stalled.
pub open spec fn cut_short(before: Seq<Access>, after: Seq<Access>, all: Seq<Mtdr>, told: bool) -> bool {
    exists|log: Seq<Access>|
        {
            &&& #[trigger] steady(before, log)
            &&& partway(before, log, all)
            &&& recoveries(log) == recoveries(before)
            &&& told ==> stalled(log)
            &&& recovered(log, after, true)
        }
}

/// The last command queued behind `before` is a RECEIVE.
pub open spec fn asked_behind(before: Seq<Access>, log: Seq<Access>) -> bool {
    &&& commands(log).len() > commands(before).len()
    &&& commands(log).last().cmd == ControllerCommand::Receive
}

/// As [`aborted`], and for good: where the caller allowed a second attempt in
/// chunks, no RECEIVE had been queued yet, or the error calls for none.
pub open spec fn aborted_for_good(
    before: Seq<Access>,
    after: Seq<Access>,
    timeout: u64,
    all: Seq<Mtdr>,
    error: IOError,
    allow_chunks: bool,
) -> bool {
    exists|log: Seq<Access>|
        {
            &&& #[trigger] failed(before, log, timeout, all, error)
            &&& recovered(log, after, true)
            &&& !(allow_chunks && retryable(error) && asked_behind(before, log))
        }
}

/// A read failed at its first attempt, whose commands are `all`, or, exactly
/// where the caller allowed it and the data of the first one failed to come,
/// at a second one in chunks.
pub open spec fn read_aborted(
    before: Seq<Access>,
    after: Seq<Access>,
    timeout: u64,
    all: Seq<Mtdr>,
    chunked: Seq<Mtdr>,
    error: IOError,
    allow_chunks: bool,
) -> bool {
    ||| aborted_for_good(before, after, timeout, all, error, allow_chunks)
    ||| allow_chunks && exists|retry: Seq<Access>| #[trigger]
        cut_short(before, retry, all, true) && aborted(retry, after, timeout, chunked, error, true)
}

/// A read ran as one addressed transaction: its RECEIVE commands were queued
/// from the first one on, and every byte that came in was handed out.
///
/// The driver asks for all bytes but cannot make a device wait for the
/// question: the last commands are left out only where the FIFO was full up
/// to the last byte, which takes a device that answers more than it was asked
/// for.
pub open spec fn read_chained(before: Seq<Access>, after: Seq<Access>, data: Seq<u8>) -> bool {
    let words = commands(after).skip(commands(before).len() as int);
    &&& moved(before, after, words, data)
    &&& 1 <= words.len() <= receive_commands(data.len()).len()
    &&& words == receive_commands(data.len()).take(words.len() as int)
    &&& words.len() == receive_commands(data.len()).len() || held_back(before, after, 1)
}

/// Behind the last command, and with at most `popped` bytes popped since, a
/// look found the command FIFO full.
pub open spec fn held_back(before: Seq<Access>, after: Seq<Access>, popped: nat) -> bool {
    exists|log: Seq<Access>|
        {
            &&& #[trigger] found_full(log)
            &&& extends(before, log)
            &&& extends(log, after)
            &&& commands(log) == commands(after)
            &&& received(after).len() <= received(log).len() + popped
        }
}

pub proof fn lemma_held_earlier(a: Seq<Access>, b: Seq<Access>, after: Seq<Access>, popped: nat)
    requires
        extends(a, b),
        held_back(b, after, popped),
    ensures
        held_back(a, after, popped),
{
    let full = choose|full: Seq<Access>|
        {
            &&& #[trigger] found_full(full)
            &&& extends(b, full)
            &&& extends(full, after)
            &&& commands(full) == commands(after)
            &&& received(after).len() <= received(full).len() + popped
        };
    assert(found_full(full));
    assert(extends(a, full));
}

pub proof fn lemma_held_back(before: Seq<Access>, log: Seq<Access>, after: Seq<Access>, popped: nat, more: nat)
    requires
        held_back(before, log, popped),
        extends(log, after),
        commands(after) == commands(log),
        received(after).len() <= received(log).len() + more,
    ensures
        held_back(before, after, popped + more),
{
    let full = choose|full: Seq<Access>|
        {
            &&& #[trigger] found_full(full)
            &&& extends(before, full)
            &&& extends(full, log)
            &&& commands(full) == commands(log)
            &&& received(log).len() <= received(full).len() + popped
        };
    assert(found_full(full));
    assert(extends(full, after));
}

/// A first attempt at a read was cut short, and the read then ran in
/// transactions of 256 bytes behind `retry`.
pub open spec fn read_retried(
    before: Seq<Access>,
    retry: Seq<Access>,
    after: Seq<Access>,
    address: u8,
    data: Seq<u8>,
) -> bool {
    &&& cut_short(before, retry, receive_commands(data.len()), true)
    &&& moved(retry, after, seq![start_word(address, true)] + seamed_commands(address, data.len()), data)
}

/// A read past its START handed out exactly the bytes that came in: as one
/// transaction, or, only where the caller allowed it, in chunks.
pub open spec fn read_done(
    before: Seq<Access>,
    after: Seq<Access>,
    address: u8,
    data: Seq<u8>,
    allow_chunks: bool,
) -> bool {
    ||| read_chained(before, after, data)
    ||| allow_chunks && exists|retry: Seq<Access>| #[trigger] read_retried(before, retry, after, address, data)
}

/// A whole read as one transaction: START, its RECEIVE commands from the
/// first one on (see [`read_chained`]), STOP, and every byte that came in.
pub open spec fn read_transaction(before: Seq<Access>, after: Seq<Access>, address: u8, data: Seq<u8>) -> bool {
    let words = commands(after).skip(commands(before).len() as int);
    let receives = words.subrange(1, words.len() - 1);
    &&& moved(before, after, words, data)
    &&& words.len() >= 3
    &&& words[0] == start_word(address, true)
    &&& words.last() == stop_word()
    &&& receives.len() <= receive_commands(data.len()).len()
    &&& receives == receive_commands(data.len()).take(receives.len() as int)
    &&& receives.len() == receive_commands(data.len()).len() || held_back_to_the_stop(before, after)
}

/// Only the STOP was queued behind a look that found the command FIFO full up
/// to the last byte; see [`read_chained`].
pub open spec fn held_back_to_the_stop(before: Seq<Access>, after: Seq<Access>) -> bool {
    exists|open: Seq<Access>|
        {
            &&& #[trigger] held_back(before, open, 1)
            &&& extends(open, after)
            &&& commands(after) == commands(open).push(stop_word())
            &&& received(after) == received(open)
        }
}

/// A whole read that was split into transactions of 256 bytes each.
pub open spec fn seamed_read(before: Seq<Access>, after: Seq<Access>, address: u8, data: Seq<u8>) -> bool {
    moved(
        before,
        after,
        seq![start_word(address, true)] + seamed_commands(address, data.len()) + seq![stop_word()],
        data,
    )
}

/// A whole read whose first attempt was cut short before it was split.
pub open spec fn read_repeated(before: Seq<Access>, after: Seq<Access>, address: u8, data: Seq<u8>) -> bool {
    exists|retry: Seq<Access>|
        {
            &&& cut_short(before, retry, seq![start_word(address, true)] + receive_commands(data.len()), true)
            &&& #[trigger] seamed_read(retry, after, address, data)
        }
}

/// A whole write: START, one TRANSMIT for each byte, STOP.
pub open spec fn write_transaction(before: Seq<Access>, after: Seq<Access>, address: u8, data: Seq<u8>) -> bool {
    moved(
        before,
        after,
        seq![start_word(address, false)] + transmit_commands(data) + seq![stop_word()],
        Seq::empty(),
    )
}

/// A write half without its STOP.
pub open spec fn write_opened(before: Seq<Access>, after: Seq<Access>, address: u8, data: Seq<u8>) -> bool {
    moved(before, after, seq![start_word(address, false)] + transmit_commands(data), Seq::empty())
}

/// Nothing but waiting happened between `before` and `after`: looks that leave
/// what is owed as it is, except that one may have found no fault behind a
/// byte that was sent.
pub open spec fn kept_waiting(before: Seq<Access>, after: Seq<Access>) -> bool {
    &&& looked(before, after)
    &&& {
        ||| owed(after) == owed(before)
        ||| {
            &&& owed(before) matches Owed::Answer(word) && word.cmd == ControllerCommand::Transmit
            &&& owed(after) is Live
        }
    }
}

/// Looks leave the open transaction as it is.
pub broadcast proof fn lemma_looked_wire(before: Seq<Access>, after: Seq<Access>)
    ensures
        #[trigger] looked(before, after) ==> wire(after) == wire(before),
{
    if looked(before, after) {
        lemma_wire_grows(before, after);
        assert(wire(before) + commands(after).skip(commands(before).len() as int) =~= wire(before));
    }
}

/// Commands extend the open transaction.
pub broadcast proof fn lemma_moved_wire(before: Seq<Access>, after: Seq<Access>, words: Seq<Mtdr>, bytes: Seq<u8>)
    ensures
        #[trigger] moved(before, after, words, bytes) ==> wire(after) == wire(before) + words,
{
    if moved(before, after, words, bytes) {
        lemma_wire_grows(before, after);
        assert(commands(after).skip(commands(before).len() as int) =~= words);
    }
}

/// So do commands beside transfers.
pub broadcast proof fn lemma_carried_wire(
    before: Seq<Access>,
    after: Seq<Access>,
    words: Seq<Mtdr>,
    transfers: Seq<(Direction, usize, usize)>,
)
    ensures
        #[trigger] carried(before, after, words, transfers) ==> wire(after) == wire(before) + words,
{
    if carried(before, after, words, transfers) {
        lemma_wire_grows(before, after);
        assert(commands(after).skip(commands(before).len() as int) =~= words);
    }
}

pub broadcast group group_wire {
    lemma_carried_wire,
    lemma_looked_wire,
    lemma_moved_wire,
}

pub proof fn lemma_moved(
    a: Seq<Access>,
    b: Seq<Access>,
    c: Seq<Access>,
    words: Seq<Mtdr>,
    more_words: Seq<Mtdr>,
    bytes: Seq<u8>,
    more_bytes: Seq<u8>,
)
    requires
        moved(a, b, words, bytes),
        moved(b, c, more_words, more_bytes),
    ensures
        moved(a, c, words + more_words, bytes + more_bytes),
{
    assert((commands(a) + words) + more_words =~= commands(a) + (words + more_words));
    assert((received(a) + bytes) + more_bytes =~= received(a) + (bytes + more_bytes));
}

pub proof fn lemma_carried(
    a: Seq<Access>,
    b: Seq<Access>,
    c: Seq<Access>,
    words: Seq<Mtdr>,
    more_words: Seq<Mtdr>,
    transfers: Seq<(Direction, usize, usize)>,
    more_transfers: Seq<(Direction, usize, usize)>,
)
    requires
        carried(a, b, words, transfers),
        carried(b, c, more_words, more_transfers),
    ensures
        carried(a, c, words + more_words, transfers + more_transfers),
{
    assert((commands(a) + words) + more_words =~= commands(a) + (words + more_words));
    assert((handed(a) + transfers) + more_transfers =~= handed(a) + (transfers + more_transfers));
}

pub proof fn lemma_moved_carried(a: Seq<Access>, b: Seq<Access>, words: Seq<Mtdr>)
    requires
        moved(a, b, words, Seq::empty()),
    ensures
        carried(a, b, words, Seq::empty()),
{
    assert(received(a) + Seq::<u8>::empty() =~= received(a));
    assert(handed(a) + Seq::<(Direction, usize, usize)>::empty() =~= handed(a));
}

pub proof fn lemma_moved_nothing(a: Seq<Access>, b: Seq<Access>)
    requires
        looked(a, b),
    ensures
        moved(a, b, Seq::empty(), Seq::empty()),
{
    assert(commands(b) =~= commands(a) + Seq::<Mtdr>::empty());
    assert(received(b) =~= received(a) + Seq::<u8>::empty());
}

pub proof fn lemma_standing_earlier(a: Seq<Access>, b: Seq<Access>, log: Seq<Access>, t: u64)
    requires
        extends(a, b),
        standing_since(b, log, t),
    ensures
        standing_since(a, log, t),
{
    let i = choose|i: int|
        b.len() <= i < log.len() && #[trigger] log[i] == Access::Now(t) && still_from(log, i);
    assert(log[i] == Access::Now(t));
}

/// What began earlier and queued `words` before it failed with the commands
/// `rest` before it, failed with the commands `all` before it.
pub proof fn lemma_partway_earlier(
    a: Seq<Access>,
    b: Seq<Access>,
    log: Seq<Access>,
    words: Seq<Mtdr>,
    rest: Seq<Mtdr>,
    all: Seq<Mtdr>,
)
    requires
        commands(b) == commands(a) + words,
        partway(b, log, rest),
        begins(all, words + rest),
    ensures
        partway(a, log, all),
{
    let some = commands(log).skip(commands(b).len() as int);
    let every = commands(log).skip(commands(a).len() as int);
    assert(every =~= words + some);
    assert(commands(log) =~= commands(a) + every);
    assert forall|i: int| 0 <= i < every.len() implies #[trigger] every[i] == all[i] by {
        assert((words + rest)[i] == all[i]);
        if i >= words.len() {
            assert(some[i - words.len()] == rest[i - words.len()]);
        }
    }
}

pub proof fn lemma_partway_words(before: Seq<Access>, log: Seq<Access>, words: Seq<Mtdr>, all: Seq<Mtdr>)
    requires
        commands(log) == commands(before) + words,
        begins(all, words),
    ensures
        partway(before, log, all),
{
    assert(commands(log).skip(commands(before).len() as int) =~= words);
}

pub proof fn lemma_partway_nothing(before: Seq<Access>, log: Seq<Access>, all: Seq<Mtdr>)
    requires
        commands(log) == commands(before),
    ensures
        partway(before, log, all),
{
    let some = commands(log).skip(commands(before).len() as int);
    assert(some =~= Seq::empty());
    assert(commands(log) =~= commands(before) + some);
}

pub proof fn lemma_failed_earlier(
    a: Seq<Access>,
    b: Seq<Access>,
    log: Seq<Access>,
    timeout: u64,
    words: Seq<Mtdr>,
    rest: Seq<Mtdr>,
    all: Seq<Mtdr>,
    error: IOError,
)
    requires
        steady(a, b),
        recoveries(b) == recoveries(a),
        commands(b) == commands(a) + words,
        begins(all, words + rest),
        failed(b, log, timeout, rest, error),
    ensures
        failed(a, log, timeout, all, error),
{
    lemma_partway_earlier(a, b, log, words, rest, all);
    if error == IOError::Timeout && log.len() - b.len() < POLL_LIMIT {
        let start = choose|start: u64|
            #[trigger] standing_since(b, log, start) && log.last()->Now_0 > deadline(start, timeout);
        lemma_standing_earlier(a, b, log, start);
    }
}

pub proof fn lemma_aborted_earlier(
    a: Seq<Access>,
    b: Seq<Access>,
    after: Seq<Access>,
    timeout: u64,
    words: Seq<Mtdr>,
    rest: Seq<Mtdr>,
    all: Seq<Mtdr>,
    error: IOError,
    may_clock: bool,
)
    requires
        steady(a, b),
        recoveries(b) == recoveries(a),
        commands(b) == commands(a) + words,
        begins(all, words + rest),
        aborted(b, after, timeout, rest, error, may_clock),
    ensures
        aborted(a, after, timeout, all, error, may_clock),
{
    let log = choose|log: Seq<Access>|
        #[trigger] failed(b, log, timeout, rest, error) && recovered(log, after, may_clock);
    lemma_failed_earlier(a, b, log, timeout, words, rest, all, error);
}

pub proof fn lemma_aborted_weaken(
    before: Seq<Access>,
    after: Seq<Access>,
    timeout: u64,
    rest: Seq<Mtdr>,
    all: Seq<Mtdr>,
    error: IOError,
    clocks: bool,
    may_clock: bool,
)
    requires
        aborted(before, after, timeout, rest, error, clocks),
        begins(all, rest),
        clocks ==> may_clock,
    ensures
        aborted(before, after, timeout, all, error, may_clock),
{
    let log = choose|log: Seq<Access>|
        #[trigger] failed(before, log, timeout, rest, error) && recovered(log, after, clocks);
    let none = Seq::<Mtdr>::empty();
    assert(none + rest =~= rest);
    assert(commands(before) =~= commands(before) + none);
    lemma_failed_earlier(before, before, log, timeout, none, rest, all, error);
    assert(recovered(log, after, may_clock));
}

/// What queued no RECEIVE of its own failed for good.
pub proof fn lemma_good_weaken(
    before: Seq<Access>,
    after: Seq<Access>,
    timeout: u64,
    rest: Seq<Mtdr>,
    all: Seq<Mtdr>,
    error: IOError,
    allow_chunks: bool,
)
    requires
        aborted(before, after, timeout, rest, error, true),
        begins(all, rest),
        forall|i: int| 0 <= i < rest.len() ==> (#[trigger] rest[i]).cmd != ControllerCommand::Receive,
    ensures
        aborted_for_good(before, after, timeout, all, error, allow_chunks),
{
    let log = choose|log: Seq<Access>|
        #[trigger] failed(before, log, timeout, rest, error) && recovered(log, after, true);
    let none = Seq::<Mtdr>::empty();
    assert(none + rest =~= rest);
    assert(commands(before) =~= commands(before) + none);
    lemma_failed_earlier(before, before, log, timeout, none, rest, all, error);
    let some = commands(log).skip(commands(before).len() as int);
    if commands(log).len() > commands(before).len() {
        assert(commands(log).last() == some.last());
        assert(some[some.len() - 1] == rest[some.len() - 1]);
    }
}

/// What failed for good began perhaps earlier.
pub proof fn lemma_good_earlier(
    a: Seq<Access>,
    b: Seq<Access>,
    after: Seq<Access>,
    timeout: u64,
    words: Seq<Mtdr>,
    rest: Seq<Mtdr>,
    all: Seq<Mtdr>,
    error: IOError,
    allow_chunks: bool,
)
    requires
        steady(a, b),
        recoveries(b) == recoveries(a),
        commands(b) == commands(a) + words,
        words.len() > 0 ==> words.last().cmd != ControllerCommand::Receive,
        begins(all, words + rest),
        aborted_for_good(b, after, timeout, rest, error, allow_chunks),
    ensures
        aborted_for_good(a, after, timeout, all, error, allow_chunks),
{
    let log = choose|log: Seq<Access>|
        {
            &&& #[trigger] failed(b, log, timeout, rest, error)
            &&& recovered(log, after, true)
            &&& !(allow_chunks && retryable(error) && asked_behind(b, log))
        };
    lemma_failed_earlier(a, b, log, timeout, words, rest, all, error);
    if commands(log).len() == commands(b).len() {
        assert(commands(log) =~= commands(b));
    }
}

/// A transfer that failed was cut short.
pub proof fn lemma_cut_short(
    a: Seq<Access>,
    b: Seq<Access>,
    after: Seq<Access>,
    timeout: u64,
    words: Seq<Mtdr>,
    rest: Seq<Mtdr>,
    all: Seq<Mtdr>,
    error: IOError,
    may_clock: bool,
)
    requires
        steady(a, b),
        recoveries(b) == recoveries(a),
        commands(b) == commands(a) + words,
        begins(all, words + rest),
        aborted(b, after, timeout, rest, error, may_clock),
    ensures
        cut_short(a, after, all, false),
{
    let log = choose|log: Seq<Access>|
        #[trigger] failed(b, log, timeout, rest, error) && recovered(log, after, may_clock);
    lemma_failed_earlier(a, b, log, timeout, words, rest, all, error);
    lemma_recovered_weaken(log, after, may_clock, true);
    assert(steady(a, log));
}

/// A transfer that was cut short began perhaps earlier.
pub proof fn lemma_cut_earlier(
    a: Seq<Access>,
    b: Seq<Access>,
    after: Seq<Access>,
    words: Seq<Mtdr>,
    rest: Seq<Mtdr>,
    all: Seq<Mtdr>,
    told: bool,
)
    requires
        steady(a, b),
        recoveries(b) == recoveries(a),
        commands(b) == commands(a) + words,
        begins(all, words + rest),
        cut_short(b, after, rest, told),
    ensures
        cut_short(a, after, all, told),
{
    let log = choose|log: Seq<Access>|
        {
            &&& #[trigger] steady(b, log)
            &&& partway(b, log, rest)
            &&& recoveries(log) == recoveries(b)
            &&& told ==> stalled(log)
            &&& recovered(log, after, true)
        };
    lemma_partway_earlier(a, b, log, words, rest, all);
    assert(steady(a, log));
}

/// A transfer that was cut short was recovered exactly once.
pub proof fn lemma_cut_recovers(before: Seq<Access>, after: Seq<Access>, all: Seq<Mtdr>, told: bool)
    requires
        cut_short(before, after, all, told),
    ensures
        extends(before, after),
        recoveries(after).len() == recoveries(before).len() + 1,
{
    broadcast use crate::trace::group_trace;

    let log = choose|log: Seq<Access>|
        {
            &&& #[trigger] steady(before, log)
            &&& partway(before, log, all)
            &&& recoveries(log) == recoveries(before)
            &&& told ==> stalled(log)
            &&& recovered(log, after, true)
        };
    assert(extends(log, taken_over(log, after)));
}

/// A transfer that stalled was cut short.
pub proof fn lemma_stalled(
    before: Seq<Access>,
    log: Seq<Access>,
    after: Seq<Access>,
    timeout: u64,
    all: Seq<Mtdr>,
    error: IOError,
    clocks: bool,
)
    requires
        failed(before, log, timeout, all, error),
        retryable(error),
        error == IOError::Timeout ==> last_is(log, ControllerCommand::Receive),
        recovered(log, after, clocks),
    ensures
        cut_short(before, after, all, true),
{
    lemma_recovered_weaken(log, after, clocks, true);
    assert(steady(before, log));
}

/// What is told of a transfer that was cut short may be left out.
pub proof fn lemma_cut_untold(before: Seq<Access>, after: Seq<Access>, all: Seq<Mtdr>, told: bool)
    requires
        cut_short(before, after, all, told),
    ensures
        cut_short(before, after, all, false),
{
}

pub proof fn lemma_recovered_weaken(log: Seq<Access>, after: Seq<Access>, a: bool, b: bool)
    requires
        recovered(log, after, a),
        a ==> b,
    ensures
        recovered(log, after, b),
{
}

pub proof fn lemma_aborted(
    before: Seq<Access>,
    log: Seq<Access>,
    after: Seq<Access>,
    timeout: u64,
    all: Seq<Mtdr>,
    error: IOError,
    clocks: bool,
    may_clock: bool,
)
    requires
        failed(before, log, timeout, all, error),
        recovered(log, after, clocks),
        clocks ==> may_clock,
    ensures
        aborted(before, after, timeout, all, error, may_clock),
{
    lemma_recovered_weaken(log, after, clocks, may_clock);
}

/// A failed transfer is recovered exactly once.
pub proof fn aborting_recovers_once(
    before: Seq<Access>,
    after: Seq<Access>,
    timeout: u64,
    all: Seq<Mtdr>,
    error: IOError,
    may_clock: bool,
)
    requires
        aborted(before, after, timeout, all, error, may_clock),
    ensures
        recoveries(after).len() == recoveries(before).len() + 1,
        extends(before, after),
{
    broadcast use crate::trace::group_trace;

    let log = choose|log: Seq<Access>|
        #[trigger] failed(before, log, timeout, all, error) && recovered(log, after, may_clock);
    assert(extends(log, taken_over(log, after)));
}

/// A device that answers only what it was asked for gets asked for all of
/// it: once the RECEIVE commands of a chained read ask for as many bytes as
/// were handed out, they are all of the read's commands.
pub proof fn chained_read_asks_for_everything(before: Seq<Access>, after: Seq<Access>, data: Seq<u8>)
    requires
        read_chained(before, after, data),
        256 * commands(after).skip(commands(before).len() as int).len() >= data.len(),
    ensures
        moved(before, after, receive_commands(data.len()), data),
{
    let words = commands(after).skip(commands(before).len() as int);
    assert(words =~= receive_commands(data.len()));
}

} // verus!
