//! What a target is programmed to answer, and what it makes of what it sees,
//! told by flags and fields.

use vstd::prelude::*;

use crate::lpi2c_regs::{layout_agrees, Access, Direction, MappedAddresses};
use crate::target::response::{rx_chunk_begun, tx_chunk_begun, Pause, RxResponse, TxResponse};
use crate::target::{
    addressed_request, data_valid_delay, event_of, fault_error, joined, joined_read, joined_write, listen_over,
    listened, read_answered, read_step_ran, request_of, rx_chunk_classified, tx_chunk_classified, write_answered,
    write_step_ran, Address, Event, IOError, Progress, ReadStatus, Request, RxChunkOutcome, TxChunk, TxChunkOutcome,
    WriteStatus,
};
use crate::target_registers::{
    chunk_end_of, configured, dma_armed, dma_finished, dma_wakes, fault_of, listen_event_ran, listen_wakes, planned,
    response_aborted, rx_chunk_end_of, rx_drained, rx_event_ran, rx_wakes, tx_step_of, tx_wakes, ChunkEnd, ListenEvent,
    RxChunkEnd, TargetFault, TargetPlan, TargetRxEvent, TargetTxStep,
};
use crate::dma::InvalidParameters;
use crate::trace::{entry, extends, taken};
use crate::wait::{WaitOutcome, POLL_LIMIT};
use crate::words::{Addrcfg, Samr, Sier, Ssr};

verus! {

// Which addresses a target answers.

/// The address `a` is one that the caller described.
pub open spec fn described(address: Address, a: int) -> bool {
    match address {
        Address::Single(one) => a == one,
        Address::Dual(one, two) => a == one || a == two,
        Address::Range(range) => range.start <= a < range.end,
    }
}

/// The address `a` is one that the hardware matches: the first one of the match
/// word, either one, or any from the first to the second, by the mode.
pub open spec fn matched(word: Samr, mode: Addrcfg, a: int) -> bool {
    match mode {
        Addrcfg::AddressMatch07Bit | Addrcfg::AddressMatch010Bit => a == word.addr0,
        Addrcfg::AddressMatch07BitOrAddressMatch17Bit | Addrcfg::AddressMatch010BitOrAddressMatch110Bit => a
            == word.addr0 || a == word.addr1,
        Addrcfg::FromAddressMatch07BitToAddressMatch17Bit | Addrcfg::FromAddressMatch010BitToAddressMatch110Bit => {
            word.addr0 <= a <= word.addr1
        },
        Addrcfg::Unused => false,
    }
}

/// The mode matches ten-bit addresses.
pub open spec fn matches_ten_bits(mode: Addrcfg) -> bool {
    ||| mode == Addrcfg::AddressMatch010Bit
    ||| mode == Addrcfg::AddressMatch010BitOrAddressMatch110Bit
    ||| mode == Addrcfg::FromAddressMatch010BitToAddressMatch110Bit
}

/// A target is programmed to answer exactly the addresses that its caller
/// described, in the width that they have.
pub proof fn a_target_answers_its_addresses(
    before: Seq<Access>,
    after: Seq<Access>,
    address: Address,
    plan: TargetPlan,
    a: int,
)
    requires
        address.plan() == Some(plan.address),
        planned(before, after, plan),
    ensures
        after.len() == before.len() + 7,
        entry(before, after, 4) is WriteSamr,
        entry(before, after, 6) is WriteScfgr1,
        ({
            let word = entry(before, after, 4)->WriteSamr_0;
            let mode = (entry(before, after, 6)->WriteScfgr1_0).addrcfg;
            &&& matched(word, mode, a) <==> described(address, a)
            &&& matched(word, mode, a) ==> (matches_ten_bits(mode) <==> a > 0x7f)
            &&& matched(word, mode, a) ==> 0 <= a <= 0x3ff
            &&& address matches Address::Single(one) ==> word.addr0 == one && word.addr1 == 0
            &&& address matches Address::Dual(one, two) ==> word.addr0 == one && word.addr1 == two
        }),
{
}

/// A target is set up in this order: it is disabled and reset, it is
/// programmed, with its clock stretching on and with general calls and alerts
/// as its caller chose, it is enabled, and what was latched before is cleared.
pub proof fn a_target_is_set_up_before_it_is_enabled(before: Seq<Access>, after: Seq<Access>, plan: TargetPlan)
    requires
        configured(before, after, plan),
    ensures
        after.len() == before.len() + 20,
        entry(before, after, 1) matches Access::WriteScr(word) && !word.sen,
        entry(before, after, 3) matches Access::WriteScr(word) && word.rtf && word.rrf,
        entry(before, after, 5) matches Access::WriteScr(word) && word.rst,
        entry(before, after, 7) matches Access::WriteScr(word) && !word.rst,
        entry(before, after, 9) matches Access::WriteScr(word) && word.filtdz && !word.filten,
        entry(before, after, 11) matches Access::WriteScfgr1(word) && word.rxstall && word.txdstall && word.adrstall
            && word.gcen == plan.general_call && word.saen == plan.smbus_alert,
        entry(before, after, 13) matches Access::WriteScfgr2(word) && word.datavd == plan.datavd,
        entry(before, after, 14) is WriteSamr,
        entry(before, after, 16) is WriteScfgr1,
        entry(before, after, 18) matches Access::WriteScr(word) && word.sen,
        entry(before, after, 19) matches Access::WriteSsr(word) && word.rsf && word.sdf && word.bef && word.fef,
        planned(after.take(before.len() as int + 10), after.take(before.len() as int + 17), plan),
{
    let n = before.len() as int;
    let quiet = after.take(n + 10);
    let ready = after.take(n + 17);
    let disabled = quiet.take(n + 2);
    let emptied = quiet.take(n + 4);
    let reset = quiet.take(n + 6);
    let running = quiet.take(n + 8);
    assert(quiet.len() == n + 10);
    assert(ready.len() == n + 17);
    assert(after[n + 1] == disabled[n + 1]);
    assert(after[n + 3] == emptied[n + 3]);
    assert(after[n + 5] == reset[n + 5]);
    assert(after[n + 7] == running[n + 7]);
    assert(after[n + 9] == quiet[n + 9]);
    assert(after[n + 11] == ready[n + 11]);
    assert(after[n + 13] == ready[n + 13]);
    assert(after[n + 14] == ready[n + 14]);
    assert(after[n + 16] == ready[n + 16]);
}

/// Programming changes what it is for and hands every other bit on as it was
/// read.
pub proof fn a_setup_keeps_the_bits_it_does_not_own(before: Seq<Access>, after: Seq<Access>, plan: TargetPlan)
    requires
        planned(before, after, plan),
    ensures
        entry(before, after, 0) is ReadScfgr1,
        entry(before, after, 2) is ReadScfgr2,
        entry(before, after, 5) is ReadScfgr1,
        (entry(before, after, 1)->WriteScfgr1_0).addrcfg == (entry(before, after, 0)->ReadScfgr1_0).addrcfg,
        (entry(before, after, 1)->WriteScfgr1_0).rest == (entry(before, after, 0)->ReadScfgr1_0).rest,
        (entry(before, after, 3)->WriteScfgr2_0).rest == (entry(before, after, 2)->ReadScfgr2_0).rest,
        ({
            let read = entry(before, after, 5)->ReadScfgr1_0;
            let written = entry(before, after, 6)->WriteScfgr1_0;
            &&& written.rest == read.rest
            &&& written.rxstall == read.rxstall
            &&& written.txdstall == read.txdstall
            &&& written.adrstall == read.adrstall
            &&& written.gcen == read.gcen
            &&& written.saen == read.saen
        }),
{
}

/// The data-valid delay lasts about a microsecond: so many whole cycles of the
/// clock as fit into one, but at least one cycle and no more than its field
/// holds.
pub proof fn the_data_valid_delay_is_a_microsecond(frequency: u32)
    ensures
        ({
            let cycles = data_valid_delay(frequency);
            &&& 1 <= cycles <= 63
            &&& cycles > 1 ==> cycles * 1_000_000 <= frequency
            &&& cycles < 63 ==> frequency < (cycles + 1) * 1_000_000
        }),
{
}

// What a target makes of what it sees.

/// The word that announces the address `a` with its lowest bit clear announces
/// a write to it, and with its lowest bit set a read from it.
pub proof fn the_lowest_bit_is_the_direction(a: u16)
    requires
        a < 0x8000,
    ensures
        addressed_request((2 * a) as u16) == Request::Write(a),
        addressed_request((2 * a + 1) as u16) == Request::Read(a),
        request_of(Ok(Event::AddressValid((2 * a) as u16))) == Ok::<Request, IOError>(Request::Write(a)),
        request_of(Ok(Event::AddressValid((2 * a + 1) as u16))) == Ok::<Request, IOError>(Request::Read(a)),
        request_of(Ok(Event::RepeatedStart((2 * a) as u16))) == Ok::<Request, IOError>(Request::Write(a)),
        request_of(Ok(Event::RepeatedStart((2 * a + 1) as u16))) == Ok::<Request, IOError>(Request::Read(a)),
        request_of(Ok(Event::Stop((2 * a) as u16))) == Ok::<Request, IOError>(Request::Stop(a)),
        request_of(Ok(Event::Stop((2 * a + 1) as u16))) == Ok::<Request, IOError>(Request::Stop(a)),
{
}

/// A snapshot without a fault.
pub open spec fn sound(ssr: Ssr) -> bool {
    !ssr.bef && !ssr.fef
}

/// A snapshot without a fault and without an address.
pub open spec fn unaddressed(ssr: Ssr) -> bool {
    sound(ssr) && !ssr.avf && !ssr.gcf && !ssr.sarf
}

/// A listen reports what the controller did, and for which address: a fault
/// first, then a general call, an alert, an address that was matched, a
/// repeated START, and a STOP.
pub proof fn a_listen_reports_what_the_controller_did(
    before: Seq<Access>,
    after: Seq<Access>,
    event: ListenEvent,
    a: u16,
)
    requires
        listen_event_ran(before, after, event),
        a < 0x8000,
    ensures
        entry(before, after, 0) is ReadSsr,
        ({
            let saw = entry(before, after, 0)->ReadSsr_0;
            let word = (entry(before, after, 2)->ReadSasr_0).raddr;
            let r = request_of(event_of(event));
            let matched = sound(saw) && !saw.gcf && !saw.sarf && saw.avf;
            let restarted = unaddressed(saw) && !saw.taf && saw.rsf;
            let stopped = unaddressed(saw) && !saw.taf && !saw.rsf && saw.sdf;
            &&& saw.bef ==> r == Err::<Request, IOError>(IOError::BitError)
            &&& !saw.bef && saw.fef ==> r == Err::<Request, IOError>(IOError::FifoError)
            &&& sound(saw) && saw.gcf ==> r == Ok::<Request, IOError>(Request::GeneralCall)
            &&& sound(saw) && !saw.gcf && saw.sarf ==> r == Ok::<Request, IOError>(Request::SmbusAlert)
            &&& matched || restarted || stopped ==> entry(before, after, 2) is ReadSasr
            &&& (matched || restarted) && word == 2 * a ==> r == Ok::<Request, IOError>(Request::Write(a))
            &&& (matched || restarted) && word == 2 * a + 1 ==> r == Ok::<Request, IOError>(Request::Read(a))
            &&& stopped && word / 2 == a ==> r == Ok::<Request, IOError>(Request::Stop(a))
            &&& unaddressed(saw) && saw.taf ==> r == Err::<Request, IOError>(IOError::Other)
        }),
{
    the_lowest_bit_is_the_direction(a);
}

/// A listen looks until an address was matched, a general call, an alert or a
/// STOP came, or a fault, and reports by the look that follows.
pub proof fn a_listen_waits_for_the_controller(before: Seq<Access>, after: Seq<Access>, r: Result<Request, IOError>)
    requires
        listened(before, after, r),
        after.len() - before.len() < POLL_LIMIT,
    ensures
        entry(before, after, 0) matches Access::WriteSsr(word) && word.rsf && word.sdf && word.bef && word.fef,
        exists|ready: Seq<Access>, event: ListenEvent|
            {
                &&& #[trigger] listen_event_ran(ready, after, event)
                &&& r == request_of(event_of(event))
                &&& ready.len() > before.len() + 1
                &&& ready.last() matches Access::ReadSsr(saw) && (saw.avf || saw.gcf || saw.sarf || saw.sdf || saw.bef
                    || saw.fef)
                &&& forall|i: int|
                    before.len() < i < ready.len() - 1 ==> (#[trigger] ready[i] matches Access::ReadSsr(saw)
                        && unaddressed(saw) && !saw.sdf)
            },
{
    let cleared = before.push(Access::WriteSsr(Ssr::all_events()));
    let (ready, event) = choose|ready: Seq<Access>, event: ListenEvent|
        {
            &&& #[trigger] listen_event_ran(ready, after, event)
            &&& listen_over(cleared, ready)
            &&& r == request_of(event_of(event))
        };
    let waited = ready.drop_last();
    assert forall|i: int| before.len() < i < ready.len() - 1 implies (#[trigger] ready[i] matches Access::ReadSsr(saw)
        && unaddressed(saw) && !saw.sdf) by {
        assert(waited[i] == ready[i]);
    }
    assert(waited[before.len() as int] == cleared[before.len() as int]);
    assert(ready[before.len() as int] == waited[before.len() as int]);
    assert(extends(ready, after));
    assert(after[before.len() as int] == ready[before.len() as int]);
}

/// Every flag of a snapshot is told by its own name, a bit error before a FIFO
/// error and either before everything but data.
pub proof fn a_target_tells_each_flag(ssr: Ssr, full: bool)
    ensures
        ssr.bef ==> fault_of(ssr) == Some(TargetFault::Bit),
        !ssr.bef && ssr.fef ==> fault_of(ssr) == Some(TargetFault::Fifo),
        sound(ssr) ==> fault_of(ssr) is None,
        fault_error(TargetFault::Bit) == IOError::BitError,
        fault_error(TargetFault::Fifo) == IOError::FifoError,
        sound(ssr) && (ssr.sdf || ssr.rsf) ==> tx_step_of(ssr) == Some(TargetTxStep::Ended),
        sound(ssr) && !ssr.sdf && !ssr.rsf && ssr.tdf ==> tx_step_of(ssr) == Some(TargetTxStep::Room),
        sound(ssr) && !ssr.sdf && !ssr.rsf && !ssr.tdf ==> tx_step_of(ssr) is None,
        fault_of(ssr) matches Some(fault) ==> {
            &&& tx_step_of(ssr) == Some(TargetTxStep::Fault(fault))
            &&& chunk_end_of(ssr) == ChunkEnd::Fault(fault)
            &&& rx_chunk_end_of(ssr, full) == RxChunkEnd::Fault(fault)
        },
        sound(ssr) && ssr.sdf ==> chunk_end_of(ssr) == ChunkEnd::Stopped,
        sound(ssr) && !ssr.sdf && ssr.rsf ==> chunk_end_of(ssr) == ChunkEnd::Restarted,
        sound(ssr) && !ssr.sdf && !ssr.rsf ==> chunk_end_of(ssr) == ChunkEnd::Continue,
        sound(ssr) && full && ssr.rdf ==> rx_chunk_end_of(ssr, full) == RxChunkEnd::ResiduePending,
        sound(ssr) && !(full && ssr.rdf) && ssr.sdf ==> rx_chunk_end_of(ssr, full) == RxChunkEnd::Stopped,
        sound(ssr) && !(full && ssr.rdf) && !ssr.sdf && ssr.rsf ==> rx_chunk_end_of(ssr, full)
            == RxChunkEnd::Restarted,
        sound(ssr) && !(full && ssr.rdf) && !ssr.sdf && !ssr.rsf ==> rx_chunk_end_of(ssr, full)
            == RxChunkEnd::Continue,
{
}

/// A look for received data hands the byte out that it popped, and otherwise
/// tells a fault, a STOP or a repeated START.
pub proof fn a_look_for_data_tells_what_it_saw(before: Seq<Access>, after: Seq<Access>, r: Option<TargetRxEvent>)
    requires
        rx_event_ran(before, after, r),
    ensures
        entry(before, after, 0) is ReadSsr,
        ({
            let saw = entry(before, after, 0)->ReadSsr_0;
            &&& saw.rdf ==> entry(before, after, 1) is ReadSrdr && r == Some(
                TargetRxEvent::Byte((entry(before, after, 1)->ReadSrdr_0).data),
            )
            &&& !saw.rdf && saw.bef ==> r == Some(TargetRxEvent::Fault(TargetFault::Bit))
            &&& !saw.rdf && !saw.bef && saw.fef ==> r == Some(TargetRxEvent::Fault(TargetFault::Fifo))
            &&& !saw.rdf && sound(saw) && saw.sdf ==> r == Some(TargetRxEvent::Stopped)
            &&& !saw.rdf && sound(saw) && !saw.sdf && saw.rsf ==> r == Some(TargetRxEvent::Restarted)
            &&& !saw.rdf && sound(saw) && !saw.sdf && !saw.rsf ==> r is None
            &&& after.len() == before.len() + if saw.rdf {
                2int
            } else {
                1int
            }
        }),
{
}

/// Every wait of a target ends for a fault and for a STOP, each for what it
/// waits for, and for nothing else.
pub proof fn target_waits_end_for_what_they_wait_for(ssr: Ssr)
    ensures
        !sound(ssr) || ssr.sdf ==> rx_wakes(ssr) && tx_wakes(ssr) && listen_wakes(ssr) && dma_wakes(ssr),
        sound(ssr) && !ssr.sdf ==> {
            &&& rx_wakes(ssr) <==> ssr.rdf || ssr.rsf
            &&& tx_wakes(ssr) <==> ssr.tdf || ssr.rsf
            &&& dma_wakes(ssr) <==> ssr.rsf
            &&& listen_wakes(ssr) <==> ssr.avf || ssr.gcf || ssr.sarf
        },
{
}

/// The interrupt sources of each wait, one by one.
pub proof fn target_waits_arm_their_sources(general_call: bool, smbus_alert: bool)
    ensures
        forall|armed: Sier|
            armed == Sier::receive() || armed == Sier::transmit() || armed == Sier::terminations() || armed
                == #[trigger] Sier::listen(general_call, smbus_alert) ==> {
                &&& armed.beie && armed.feie && armed.sdie
                &&& !armed.am0ie && !armed.am1ie
                &&& armed.rest == 0
                &&& armed.rdie <==> armed == Sier::receive()
                &&& armed.tdie <==> armed == Sier::transmit()
                &&& armed.rsie <==> armed != Sier::listen(general_call, smbus_alert)
                &&& armed.avie <==> armed == Sier::listen(general_call, smbus_alert)
            },
        Sier::listen(general_call, smbus_alert).gcie == general_call,
        Sier::listen(general_call, smbus_alert).sarie == smbus_alert,
        !Sier::receive().gcie && !Sier::transmit().gcie && !Sier::terminations().gcie,
        !Sier::receive().sarie && !Sier::transmit().sarie && !Sier::terminations().sarie,
        Sier::none() == (Sier {
            tdie: false,
            rdie: false,
            avie: false,
            rsie: false,
            sdie: false,
            beie: false,
            feie: false,
            am0ie: false,
            am1ie: false,
            gcie: false,
            sarie: false,
            rest: 0,
        }),
{
    assert(Sier::receive().rdie && !Sier::transmit().rdie && !Sier::terminations().rdie);
    assert(Sier::transmit().tdie && !Sier::receive().tdie && !Sier::terminations().tdie);
    assert(Sier::listen(general_call, smbus_alert).avie);
}

// How a response ends.

/// A response to a read that ended tells how many bytes it queued, and why it
/// ended: by a STOP or a repeated START, or for want of more bytes.
pub proof fn a_response_to_a_read_tells_how_it_ended(
    before: Seq<Access>,
    after: Seq<Access>,
    buf: Seq<u8>,
    r: Result<ReadStatus, IOError>,
)
    requires
        read_answered(before, after, buf, r),
        after.len() - before.len() < POLL_LIMIT,
    ensures
        match r {
            Ok(ReadStatus::EarlyStop(n)) => {
                &&& n < buf.len()
                &&& after.last() matches Access::ReadSsr(saw) && sound(saw) && (saw.sdf || saw.rsf)
            },
            Ok(ReadStatus::Complete(n)) => {
                &&& n == buf.len()
                &&& after.last() matches Access::ReadSsr(saw) && sound(saw) && (saw.sdf || saw.rsf)
            },
            Ok(ReadStatus::NeedMore(n)) => {
                &&& n == buf.len()
                &&& after.last() matches Access::ReadSsr(saw) && sound(saw) && !saw.sdf && !saw.rsf && saw.tdf
            },
            Err(e) => {
                &&& after.len() >= 3
                &&& after[after.len() - 1] matches Access::WriteScr(word) && word.rtf && word.rrf
                &&& after[after.len() - 3] matches Access::ReadSsr(saw) && !sound(saw) && e == if saw.bef {
                    IOError::BitError
                } else {
                    IOError::FifoError
                }
            },
        },
{
    if let Err(e) = r {
        let seen = after.take(after.len() - 2);
        assert(seen.last() == after[after.len() - 3]);
    }
}

/// A response to a write that ended tells how many bytes it took, and why it
/// ended: by a STOP, by a repeated START, or with a full buffer.
pub proof fn a_response_to_a_write_tells_how_it_ended(
    before: Seq<Access>,
    after: Seq<Access>,
    given: Seq<u8>,
    buf: Seq<u8>,
    r: Result<WriteStatus, IOError>,
)
    requires
        write_answered(before, after, given, buf, r),
        after.len() - before.len() < POLL_LIMIT,
    ensures
        match r {
            Ok(WriteStatus::Stopped(n)) => {
                &&& n < buf.len()
                &&& after.last() matches Access::ReadSsr(saw) && !saw.rdf && sound(saw) && saw.sdf
            },
            Ok(WriteStatus::Restarted(n)) => {
                &&& n < buf.len()
                &&& after.last() matches Access::ReadSsr(saw) && !saw.rdf && sound(saw) && !saw.sdf && saw.rsf
            },
            Ok(WriteStatus::BufferFull(n)) => n == buf.len(),
            Err(e) => {
                &&& after.len() >= 3
                &&& after[after.len() - 1] matches Access::WriteScr(word) && word.rtf && word.rrf
                &&& after[after.len() - 3] matches Access::ReadSsr(saw) && !sound(saw) && e == if saw.bef {
                    IOError::BitError
                } else {
                    IOError::FifoError
                }
            },
        },
{
    if let Err(e) = r {
        let seen = after.take(after.len() - 2);
        assert(seen.last() == after[after.len() - 3]);
    }
}

/// The bytes of the chunks add up, and a response goes on exactly where a chunk
/// was used up, the controller has not ended the transfer, and the buffer has
/// more.
pub proof fn the_bytes_of_the_chunks_add_up(count: usize, n: usize, is_last: bool, total: usize)
    requires
        count + n <= usize::MAX,
    ensures
        joined(count, n) == count + n,
        joined_read(count, TxChunkOutcome::NeedMore(n), false, total) == Progress::<ReadStatus>::Wait(
            (count + n) as usize,
        ),
        joined_read(count, TxChunkOutcome::NeedMore(n), true, total) == Progress::Done(
            ReadStatus::NeedMore((count + n) as usize),
        ),
        forall|ended: TxChunkOutcome|
            ended == TxChunkOutcome::Stopped(n) || ended == TxChunkOutcome::Restarted(n) ==> #[trigger] joined_read(
                count,
                ended,
                is_last,
                total,
            ) == Progress::Done(
                if is_last && count + n == total {
                    ReadStatus::Complete((count + n) as usize)
                } else {
                    ReadStatus::EarlyStop((count + n) as usize)
                },
            ),
        joined_write(count, RxChunkOutcome::Stopped(n), is_last) == Progress::Done(
            WriteStatus::Stopped((count + n) as usize),
        ),
        joined_write(count, RxChunkOutcome::Restarted(n), is_last) == Progress::Done(
            WriteStatus::Restarted((count + n) as usize),
        ),
        joined_write(count, RxChunkOutcome::Filled(n), true) == Progress::Done(
            WriteStatus::BufferFull((count + n) as usize),
        ),
        joined_write(count, RxChunkOutcome::Filled(n), false) == Progress::<WriteStatus>::Wait((count + n) as usize),
{
}

/// A finished receive chunk is told by the last look: a fault, how many bytes
/// it holds where the controller ended the transfer and left none behind, or
/// that it is full.
pub proof fn a_receive_chunk_tells_how_it_ended(
    before: Seq<Access>,
    after: Seq<Access>,
    bytes: usize,
    length: usize,
    r: Result<RxChunkOutcome, IOError>,
)
    requires
        rx_chunk_classified(before, after, bytes, length, r),
    ensures
        entry(before, after, 0) is ReadSsr,
        ({
            let saw = entry(before, after, 0)->ReadSsr_0;
            let behind = saw.rdf && bytes == length;
            &&& !sound(saw) ==> r == Err::<RxChunkOutcome, IOError>(
                if saw.bef {
                    IOError::BitError
                } else {
                    IOError::FifoError
                },
            )
            &&& sound(saw) && !behind && saw.sdf ==> r == Ok::<RxChunkOutcome, IOError>(RxChunkOutcome::Stopped(bytes))
            &&& sound(saw) && !behind && !saw.sdf && saw.rsf ==> r == Ok::<RxChunkOutcome, IOError>(
                RxChunkOutcome::Restarted(bytes),
            )
            &&& sound(saw) && (behind || !saw.sdf && !saw.rsf) ==> r == Ok::<RxChunkOutcome, IOError>(
                RxChunkOutcome::Filled(length),
            )
        }),
{
}

/// A transmit chunk is told by the last look in the same way.
pub proof fn a_transmit_chunk_tells_how_it_ended(
    before: Seq<Access>,
    after: Seq<Access>,
    bytes: usize,
    rest: TxChunk,
    r: TxChunk,
)
    requires
        tx_chunk_classified(before, after, bytes, rest, r),
    ensures
        entry(before, after, 0) is ReadSsr,
        ({
            let saw = entry(before, after, 0)->ReadSsr_0;
            &&& !sound(saw) ==> r == TxChunk::Done(
                Err(
                    if saw.bef {
                        IOError::BitError
                    } else {
                        IOError::FifoError
                    },
                ),
            )
            &&& sound(saw) && saw.sdf ==> r == TxChunk::Done(Ok(TxChunkOutcome::Stopped(bytes)))
            &&& sound(saw) && !saw.sdf && saw.rsf ==> r == TxChunk::Done(Ok(TxChunkOutcome::Restarted(bytes)))
            &&& sound(saw) && !saw.sdf && !saw.rsf ==> r == rest
        }),
{
}

/// Arming a channel of the target enables the request of its own direction,
/// behind the setup and before the channel, and only for a transfer that the
/// engine took.
pub proof fn an_armed_target_channel_has_its_request(
    before: Seq<Access>,
    after: Seq<Access>,
    direction: Direction,
    port: usize,
    offset: usize,
    length: usize,
    max_transfer: usize,
    r: Result<(), InvalidParameters>,
)
    requires
        dma_armed(before, after, direction, port, offset, length, max_transfer, r),
    ensures
        r is Ok ==> 0 < length <= max_transfer,
        r is Ok ==> entry(before, after, 4) == Access::DmaSetup(direction, port, offset, length, true),
        r is Ok ==> after.last() == Access::DmaEnableRequest(direction),
        r is Ok ==> after[after.len() - 2] is WriteSder && ({
            let on = after[after.len() - 2]->WriteSder_0;
            let was = after[after.len() - 3]->ReadSder_0;
            &&& direction == Direction::Rx ==> on.rdde && on.tdde == was.tdde
            &&& direction == Direction::Tx ==> on.tdde && on.rdde == was.rdde
            &&& on.rest == was.rest
        }),
        r is Err ==> forall|i: int|
            before.len() <= i < after.len() ==> !(#[trigger] after[i] is WriteSder) && !(after[i] is DmaEnableRequest),
{
}

/// Shutting a channel of the target down disables the request of its own
/// direction and every interrupt source before the channel is waited for, and
/// reports what the channel moved.
pub proof fn a_finished_target_channel_has_no_request(
    before: Seq<Access>,
    after: Seq<Access>,
    direction: Direction,
    total: usize,
    moved: usize,
)
    requires
        dma_finished(before, after, direction, total, moved),
    ensures
        entry(before, after, 2) matches Access::WriteSder(off) && (direction == Direction::Rx ==> !off.rdde) && (
        direction == Direction::Tx ==> !off.tdde),
        entry(before, after, 3) == Access::WriteSier(Sier::none()),
        entry(before, after, 4) matches Access::DmaQuiesce(way, complete) && way == direction && (complete ==> moved
            == total) && (!complete ==> after.last() == Access::DmaTransferredBytes(direction, moved)),
{
}

/// A response that is abandoned leaves no interrupt source and no DMA request
/// on, empties the FIFOs while the target is disabled, and enables it again.
pub proof fn an_aborted_response_leaves_a_clean_target(before: Seq<Access>, after: Seq<Access>)
    requires
        response_aborted(before, after),
    ensures
        after.len() == before.len() + 10,
        entry(before, after, 0) == Access::WriteSier(Sier::none()),
        entry(before, after, 2) matches Access::WriteSder(off) && !off.tdde && !off.rdde,
        entry(before, after, 4) matches Access::WriteScr(word) && !word.sen && word.rest == (entry(
            before,
            after,
            3,
        )->ReadScr_0).rest,
        entry(before, after, 6) matches Access::WriteScr(word) && word.rtf && word.rrf && word.rest == (entry(
            before,
            after,
            5,
        )->ReadScr_0).rest,
        entry(before, after, 8) matches Access::WriteScr(word) && word.sen && word.rest == (entry(
            before,
            after,
            7,
        )->ReadScr_0).rest,
        entry(before, after, 9) matches Access::WriteSsr(word) && word.rsf && word.sdf && word.bef && word.fef,
{
    let n = before.len() as int;
    let masked = after.take(n + 3);
    let disabled = after.take(n + 5);
    let emptied = after.take(n + 7);
    assert(masked.len() == n + 3 && disabled.len() == n + 5 && emptied.len() == n + 7);
    assert(after[n] == masked[n]);
    assert(after[n + 2] == masked[n + 2]);
    assert(after[n + 4] == disabled[n + 4]);
    assert(after[n + 6] == emptied[n + 6]);
    assert(after[n + 3] == disabled[n + 3]);
    assert(after[n + 5] == emptied[n + 5]);
}

/// A response by DMA has its channel work between the buffer, from where the
/// last chunk ended, and the data register of its direction: one chunk, as long
/// as the engine can take and no longer than the buffer.
pub proof fn a_response_has_its_channel_at_the_data_register(
    before: Seq<Access>,
    after: Seq<Access>,
    block: usize,
    pac: MappedAddresses,
    from: usize,
    total: usize,
    max_transfer: usize,
    tx: Pause<TxResponse, Result<ReadStatus, IOError>>,
    rx: Pause<RxResponse, Result<WriteStatus, IOError>>,
)
    requires
        layout_agrees(block, pac),
        from < total,
        max_transfer > 0,
    ensures
        tx_chunk_begun(before, after, block, from, total, max_transfer, tx) && tx is Dma ==> {
            let to = if total - from <= max_transfer {
                total as int
            } else {
                from + max_transfer
            };
            &&& tx == Pause::<TxResponse, Result<ReadStatus, IOError>>::Dma(TxResponse::Moving(from, to as usize))
            &&& entry(before, after, 4) == Access::DmaSetup(Direction::Tx, pac.stdr, from, (to - from) as usize, true)
        },
        rx_chunk_begun(before, after, block, from, total, max_transfer, rx) && rx is Dma ==> {
            let to = if total - from <= max_transfer {
                total as int
            } else {
                from + max_transfer
            };
            &&& rx == Pause::<RxResponse, Result<WriteStatus, IOError>>::Dma(RxResponse { from, to: to as usize })
            &&& entry(before, after, 4) == Access::DmaSetup(Direction::Rx, pac.srdr, from, (to - from) as usize, true)
        },
{
}

/// A step of an interrupt-driven response to a read that was woken goes by what
/// it saw: it queues the next byte of the buffer where there is room, and tells
/// how the transfer ended or that it needs more.
pub proof fn a_step_of_a_read_goes_by_what_it_saw(
    before: Seq<Access>,
    after: Seq<Access>,
    buf: Seq<u8>,
    count: usize,
    r: Progress<Result<ReadStatus, IOError>>,
)
    requires
        read_step_ran(before, after, buf, count as int, Some(WaitOutcome::Woken), r),
        count <= buf.len() <= usize::MAX,
    ensures
        entry(before, after, 0) is ReadSsr,
        ({
            let saw = entry(before, after, 0)->ReadSsr_0;
            let over = saw.sdf || saw.rsf;
            &&& !sound(saw) ==> r == Progress::Done(
                Err::<ReadStatus, IOError>(
                    if saw.bef {
                        IOError::BitError
                    } else {
                        IOError::FifoError
                    },
                ),
            )
            &&& sound(saw) && over && count < buf.len() ==> r == Progress::Done(
                Ok::<ReadStatus, IOError>(ReadStatus::EarlyStop(count)),
            )
            &&& sound(saw) && over && count == buf.len() ==> r == Progress::Done(
                Ok::<ReadStatus, IOError>(ReadStatus::Complete(count)),
            )
            &&& sound(saw) && !over && saw.tdf && count < buf.len() ==> {
                &&& after.len() == before.len() + 2
                &&& after.last() matches Access::WriteStdr(word) && word.data == buf[count as int]
                &&& r == Progress::<Result<ReadStatus, IOError>>::Wait((count + 1) as usize)
            }
            &&& sound(saw) && !over && saw.tdf && count == buf.len() ==> r == Progress::Done(
                Ok::<ReadStatus, IOError>(ReadStatus::NeedMore(count)),
            )
            &&& sound(saw) && !over && !saw.tdf ==> after.len() == before.len() + 1 && r
                == Progress::<Result<ReadStatus, IOError>>::Wait(count)
        }),
{
}

/// A step of an interrupt-driven response to a write that was woken goes by
/// what it saw: it puts the byte that came in behind those before it, and tells
/// how the transfer ended or that the buffer is full.
pub proof fn a_step_of_a_write_goes_by_what_it_saw(
    before: Seq<Access>,
    after: Seq<Access>,
    given: Seq<u8>,
    buf: Seq<u8>,
    count: usize,
    r: Progress<Result<WriteStatus, IOError>>,
)
    requires
        write_step_ran(before, after, given, buf, count as int, Some(WaitOutcome::Woken), r),
        count < given.len() <= usize::MAX,
    ensures
        entry(before, after, 0) is ReadSsr,
        buf.len() == given.len(),
        forall|i: int| 0 <= i < buf.len() && i != count ==> #[trigger] buf[i] == given[i],
        ({
            let saw = entry(before, after, 0)->ReadSsr_0;
            &&& saw.rdf ==> {
                &&& after.last() matches Access::ReadSrdr(word) && buf[count as int] == word.data
                &&& count + 1 < buf.len() ==> r == Progress::<Result<WriteStatus, IOError>>::Wait((count + 1) as usize)
                &&& count + 1 == buf.len() ==> r == Progress::Done(
                    Ok::<WriteStatus, IOError>(WriteStatus::BufferFull((count + 1) as usize)),
                )
            }
            &&& !saw.rdf ==> buf[count as int] == given[count as int]
            &&& !saw.rdf && !sound(saw) ==> r == Progress::Done(
                Err::<WriteStatus, IOError>(
                    if saw.bef {
                        IOError::BitError
                    } else {
                        IOError::FifoError
                    },
                ),
            )
            &&& !saw.rdf && sound(saw) && saw.sdf ==> r == Progress::Done(
                Ok::<WriteStatus, IOError>(WriteStatus::Stopped(count)),
            )
            &&& !saw.rdf && sound(saw) && !saw.sdf && saw.rsf ==> r == Progress::Done(
                Ok::<WriteStatus, IOError>(WriteStatus::Restarted(count)),
            )
            &&& !saw.rdf && sound(saw) && !saw.sdf && !saw.rsf ==> r == Progress::<Result<WriteStatus, IOError>>::Wait(
                count,
            )
        }),
{
}

/// A drain puts the bytes that it popped into the buffer, from `from` on and in
/// order, and leaves the rest as it was.
pub proof fn a_drain_keeps_what_it_popped(
    before: Seq<Access>,
    after: Seq<Access>,
    given: Seq<u8>,
    data: Seq<u8>,
    from: usize,
    r: usize,
    i: int,
)
    requires
        rx_drained(before, after, given, data, from, r),
        0 <= i < data.len(),
    ensures
        data.len() == given.len(),
        from <= r,
        from <= i < r ==> data[i] == taken(after)[taken(before).len() + i - from],
        i < from || r <= i ==> data[i] == given[i],
{
    if from < given.len() {
        if from <= i < r {
            assert(data.subrange(from as int, r as int)[i - from] == data[i]);
        } else if i < from {
            assert(data.take(from as int)[i] == given.take(from as int)[i]);
        } else {
            assert(data.skip(r as int)[i - r] == given.skip(r as int)[i - r]);
        }
    }
}

} // verus!
