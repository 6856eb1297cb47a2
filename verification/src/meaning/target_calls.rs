//! What the calls of a target do, told by what they were given, what they return,
//! and what its registers were given and held. See [`crate::meaning::calls`].

use vstd::prelude::*;

use crate::clocks::ClockError;
use crate::lpi2c_regs::{layout_agrees, Access, Direction, DmaPort, TargetPort};
use crate::meaning::target::{
    a_listen_reports_what_the_controller_did, a_listen_waits_for_the_controller,
    a_response_to_a_read_tells_how_it_ended, a_response_to_a_write_tells_how_it_ended,
    a_step_of_a_read_goes_by_what_it_saw, a_step_of_a_write_goes_by_what_it_saw, a_target_answers_its_addresses,
    a_target_is_set_up_before_it_is_enabled, described, matched, matches_ten_bits, sound,
    the_data_valid_delay_is_a_microsecond, the_lowest_bit_is_the_direction, unaddressed,
};
use crate::target::{
    data_valid_delay, event_of, queued_count, request_for, request_of, taken_count, Address, Config, Event, IOError,
    I2c, Progress, ReadStatus, Request, SetupError, Status, TargetSetup, ValidatedAddress, WriteStatus,
};
use crate::target_registers::{listen_event_ran, ListenEvent, TargetPlan, TargetRegisters};
use crate::trace::{entry, sent, taken};
use crate::wait::{WaitOutcome, POLL_LIMIT};
use crate::words::Ssr;

verus! {

broadcast use crate::trace::group_trace;

// Setting up.

/// `validate` accepts addresses of one representable width and rejects all
/// others; `new_inner` then programs the target to answer exactly those, with
/// general calls and alerts as the caller chose, and enables it last.
pub proof fn a_new_target_answers_its_addresses<H: TargetPort>(
    regs: TargetRegisters<H>,
    config: Config,
    address: Address,
    plan: ValidatedAddress,
    setup: TargetSetup,
    inst: I2c<H>,
    a: int,
)
    requires
        call_ensures(Address::validate, (&address,), Ok(plan)),
        call_ensures(I2c::<H>::new_inner, (regs, &config, plan, setup), Ok(inst)),
    ensures
        ({
            let log = inst.log();
            let n = regs.log().len() as int;
            let word = log[n + 14]->WriteSamr_0;
            let first = log[n + 11]->WriteScfgr1_0;
            let mode = (log[n + 16]->WriteScfgr1_0).addrcfg;
            let cycles = (log[n + 13]->WriteScfgr2_0).datavd;
            &&& log.len() == n + 20
            &&& log[n + 14] is WriteSamr && log[n + 11] is WriteScfgr1 && log[n + 16] is WriteScfgr1
            &&& matched(word, mode, a) <==> described(address, a)
            &&& matched(word, mode, a) ==> (matches_ten_bits(mode) <==> a > 0x7f)
            &&& first.gcen <==> config.general_call == Status::Enabled
            &&& first.saen <==> config.smbus_alert == Status::Enabled
            &&& first.rxstall && first.txdstall && first.adrstall
            &&& log[n + 13] is WriteScfgr2
            &&& 1 <= cycles <= 63
            &&& cycles > 1 ==> cycles * 1_000_000 <= setup.frequency
            &&& cycles < 63 ==> setup.frequency < (cycles + 1) * 1_000_000
            &&& log[n + 1] matches Access::WriteScr(word) && !word.sen
            &&& log[n + 18] matches Access::WriteScr(word) && word.sen
        }),
{
    let programmed = TargetPlan {
        address: plan,
        general_call: config.general_call == Status::Enabled,
        smbus_alert: config.smbus_alert == Status::Enabled,
        datavd: data_valid_delay(setup.frequency) as u8,
    };
    let n = regs.log().len() as int;
    let log = inst.log();
    a_target_is_set_up_before_it_is_enabled(regs.log(), log, programmed);
    let quiet = log.take(n + 10);
    let ready = log.take(n + 17);
    a_target_answers_its_addresses(quiet, ready, address, programmed, a);
    assert(ready[n + 14] == log[n + 14]);
    assert(ready[n + 16] == log[n + 16]);
    the_data_valid_delay_is_a_microsecond(setup.frequency);
}

/// `validate` rejects what cannot be represented, and ranges and pairs of two
/// widths.
pub proof fn validate_rejects_what_cannot_be_matched(address: Address, r: Result<ValidatedAddress, SetupError>)
    requires
        call_ensures(Address::validate, (&address,), r),
    ensures
        r matches Err(e) ==> e == SetupError::InvalidAddress,
        r is Ok ==> forall|a: int| #[trigger] described(address, a) ==> 0 <= a <= 0x3ff,
        r is Ok ==> forall|a: int, b: int| #[trigger]
            described(address, a) && #[trigger] described(address, b) ==> (a <= 0x7f <==> b <= 0x7f),
        r is Ok ==> exists|a: int| described(address, a),
        r is Err ==> {
            ||| exists|a: int| #[trigger] described(address, a) && a > 0x3ff
            ||| exists|a: int, b: int| #[trigger]
                described(address, a) && #[trigger] described(address, b) && a <= 0x7f < b
            ||| forall|a: int| !described(address, a)
        },
{
    match address {
        Address::Single(one) => {
            assert(described(address, one as int));
        },
        Address::Dual(one, two) => {
            assert(described(address, one as int));
            assert(described(address, two as int));
        },
        Address::Range(range) => {
            if range.start < range.end {
                assert(described(address, range.start as int));
                assert(described(address, range.end - 1));
            }
        },
    }
}

/// `construction_setup` takes the clock over that the clock tree reports, and
/// no other.
pub proof fn construction_setup_takes_the_clock_over<H: TargetPort>(
    clock: Option<Result<u32, ClockError>>,
    r: Result<TargetSetup, SetupError>,
)
    requires
        call_ensures(I2c::<H>::construction_setup, (clock,), r),
    ensures
        r matches Ok(setup) ==> clock == Some(Ok::<u32, ClockError>(setup.frequency)) && setup.frequency
            > 0,
        clock matches Some(Ok(hz)) ==> (r is Ok <==> hz > 0),
        clock matches Some(Ok(hz)) ==> hz == 0 ==> r == Err::<TargetSetup, SetupError>(SetupError::NoFunctionalClock),
        clock matches Some(Err(e)) ==> r == Err::<TargetSetup, SetupError>(SetupError::ClockSetup(e)),
        clock is None ==> r == Err::<TargetSetup, SetupError>(
            SetupError::ClockSetup(ClockError::NeverInitialized),
        ),
{
}

// Listening.

/// `request_for` announces a write for the word `2 a` and a read for the word
/// `2 a + 1`, a STOP for either, and calls and alerts by their names.
pub proof fn request_for_tells_direction_and_address(event: Event, a: u16, r: Result<Request, IOError>)
    requires
        call_ensures(request_for, (event,), r),
        a < 0x8000,
    ensures
        event == Event::AddressValid((2 * a) as u16) || event == Event::RepeatedStart((2 * a) as u16) ==> r == Ok::<
            Request,
            IOError,
        >(Request::Write(a)),
        event == Event::AddressValid((2 * a + 1) as u16) || event == Event::RepeatedStart((2 * a + 1) as u16) ==> r
            == Ok::<Request, IOError>(Request::Read(a)),
        event == Event::Stop((2 * a) as u16) || event == Event::Stop((2 * a + 1) as u16) ==> r == Ok::<
            Request,
            IOError,
        >(Request::Stop(a)),
        event == Event::GeneralCall ==> r == Ok::<Request, IOError>(Request::GeneralCall),
        event == Event::SmbusAlert ==> r == Ok::<Request, IOError>(Request::SmbusAlert),
{
    the_lowest_bit_is_the_direction(a);
}

/// What a look that found `saw`, and the address word read behind it, have a
/// listen report.
pub open spec fn reported(saw: Ssr, word: u16, r: Result<Request, IOError>) -> bool {
    let addressed = sound(saw) && !saw.gcf && !saw.sarf && saw.avf;
    let restarted = unaddressed(saw) && !saw.taf && saw.rsf;
    let stopped = unaddressed(saw) && !saw.taf && !saw.rsf && saw.sdf;
    &&& saw.bef ==> r == Err::<Request, IOError>(IOError::BitError)
    &&& !saw.bef && saw.fef ==> r == Err::<Request, IOError>(IOError::FifoError)
    &&& sound(saw) && saw.gcf ==> r == Ok::<Request, IOError>(Request::GeneralCall)
    &&& sound(saw) && !saw.gcf && saw.sarf ==> r == Ok::<Request, IOError>(Request::SmbusAlert)
    &&& addressed || restarted ==> (r matches Ok(request) && match request {
        Request::Write(a) => word == 2 * a,
        Request::Read(a) => word == 2 * a + 1,
        _ => false,
    })
    &&& stopped ==> (r matches Ok(Request::Stop(a)) && (word == 2 * a || word == 2 * a + 1))
}

proof fn lemma_reported(before: Seq<Access>, after: Seq<Access>, event: ListenEvent)
    requires
        listen_event_ran(before, after, event),
    ensures
        entry(before, after, 0) is ReadSsr,
        reported(
            entry(before, after, 0)->ReadSsr_0,
            (entry(before, after, 2)->ReadSasr_0).raddr,
            request_of(event_of(event)),
        ),
{
    let word = (entry(before, after, 2)->ReadSasr_0).raddr;
    let a = word / 2;
    assert(word == 2 * a || word == 2 * a + 1);
    a_listen_reports_what_the_controller_did(before, after, event, a);
}

/// `blocking_listen` reports what the controller did by one look and by the
/// address word read behind it.
pub proof fn blocking_listen_reports_what_it_saw<H: TargetPort>(i2c: &mut I2c<H>, r: Result<Request, IOError>)
    requires
        call_ensures(I2c::<H>::blocking_listen, (i2c,), r),
        final(i2c).log().len() - old(i2c).log().len() < POLL_LIMIT,
    ensures
        exists|n: int|
            {
                &&& old(i2c).log().len() < n < final(i2c).log().len()
                &&& #[trigger] final(i2c).log()[n] is ReadSsr
                &&& reported(
                    final(i2c).log()[n]->ReadSsr_0,
                    (final(i2c).log()[n + 2]->ReadSasr_0).raddr,
                    r,
                )
            },
{
    let before = old(i2c).log();
    let after = final(i2c).log();
    a_listen_waits_for_the_controller(before, after, r);
    let (ready, event) = choose|ready: Seq<Access>, event: ListenEvent|
        {
            &&& #[trigger] listen_event_ran(ready, after, event)
            &&& r == request_of(event_of(event))
            &&& ready.len() > before.len() + 1
        };
    lemma_reported(ready, after, event);
    let n = ready.len() as int;
    assert(after[n] is ReadSsr);
}

/// `finish_listen` does so too, once its wait was woken, and otherwise touches
/// nothing.
pub proof fn finish_listen_reports_what_it_saw<H: TargetPort>(
    i2c: &mut I2c<H>,
    waited: WaitOutcome,
    r: Result<Request, IOError>,
)
    requires
        call_ensures(I2c::<H>::finish_listen, (i2c, waited), r),
    ensures
        waited == WaitOutcome::Woken ==> entry(old(i2c).log(), final(i2c).log(), 0) is ReadSsr && reported(
            entry(old(i2c).log(), final(i2c).log(), 0)->ReadSsr_0,
            (entry(old(i2c).log(), final(i2c).log(), 2)->ReadSasr_0).raddr,
            r,
        ),
        waited != WaitOutcome::Woken ==> r == Err::<Request, IOError>(IOError::Other) && final(i2c).log()
            == old(i2c).log(),
{
    if waited == WaitOutcome::Woken {
        let event = choose|event: ListenEvent|
            {
                &&& #[trigger] listen_event_ran(old(i2c).log(), final(i2c).log(), event)
                &&& r == request_of(event_of(event))
            };
        lemma_reported(old(i2c).log(), final(i2c).log(), event);
    }
}

/// `listen_wake` arms the address, STOP and fault sources, and calls and alerts
/// as the caller chose, and ends the wait for any of them.
pub proof fn listen_wake_arms_and_looks<H: TargetPort>(i2c: &mut I2c<H>, r: bool)
    requires
        call_ensures(I2c::<H>::listen_wake, (i2c,), r),
    ensures
        ({
            let n = old(i2c).log().len() as int;
            let log = final(i2c).log();
            let armed = log[n]->WriteSier_0;
            &&& log.len() == n + 2
            &&& log[n] is WriteSier
            &&& armed.avie && armed.sdie && armed.beie && armed.feie
            &&& !armed.rdie && !armed.tdie && !armed.rsie && !armed.am0ie && !armed.am1ie
            &&& armed.gcie <==> old(i2c).general_calls() == Status::Enabled
            &&& armed.sarie <==> old(i2c).alerts() == Status::Enabled
            &&& log[n + 1] matches Access::ReadSsr(saw) && (r <==> saw.avf || saw.gcf || saw.sarf || saw.sdf || saw.bef
                || saw.fef)
        }),
{
}

// Responding.

/// `blocking_respond_to_read` queues the first bytes of the buffer, in order,
/// and tells how many and why it ended.
pub proof fn blocking_respond_to_read_sends_the_buffer<H: TargetPort>(
    i2c: &mut I2c<H>,
    buf: &[u8],
    r: Result<ReadStatus, IOError>,
)
    requires
        call_ensures(I2c::<H>::blocking_respond_to_read, (i2c, buf), r),
        final(i2c).log().len() - old(i2c).log().len() < POLL_LIMIT,
    ensures
        ({
            let before = sent(old(i2c).log());
            let after = sent(final(i2c).log());
            let count = after.len() - before.len();
            &&& 0 <= count <= buf@.len()
            &&& forall|i: int| before.len() <= i < after.len() ==> #[trigger] after[i] == buf@[i - before.len()]
            &&& taken(final(i2c).log()) == taken(old(i2c).log())
            &&& r matches Ok(ReadStatus::EarlyStop(n)) ==> n == count && n < buf@.len()
            &&& r matches Ok(ReadStatus::Complete(n)) ==> n == count && n == buf@.len()
            &&& r matches Ok(ReadStatus::NeedMore(n)) ==> n == count && n == buf@.len()
        }),
        r matches Ok(ReadStatus::NeedMore(_)) ==> (final(i2c).log().last() matches Access::ReadSsr(saw) && sound(saw)
            && !saw.sdf && !saw.rsf && saw.tdf),
        r matches Ok(ReadStatus::Complete(_)) ==> (final(i2c).log().last() matches Access::ReadSsr(saw) && sound(saw)
            && (saw.sdf || saw.rsf)),
        r matches Ok(ReadStatus::EarlyStop(_)) ==> (final(i2c).log().last() matches Access::ReadSsr(saw) && sound(saw)
            && (saw.sdf || saw.rsf)),
        r matches Err(e) ==> e == IOError::BitError || e == IOError::FifoError,
{
    a_response_to_a_read_tells_how_it_ended(old(i2c).log(), final(i2c).log(), buf@, r);
    let count = queued_count(old(i2c).log(), final(i2c).log());
    assert(sent(final(i2c).log()) == sent(old(i2c).log()) + buf@.take(count));
}

/// `blocking_respond_to_write` puts what came in into the first bytes of the
/// buffer, in order, leaves the rest as it was, and tells how many and why it
/// ended.
pub proof fn blocking_respond_to_write_fills_the_buffer<H: TargetPort>(
    i2c: &mut I2c<H>,
    buf: &mut [u8],
    r: Result<WriteStatus, IOError>,
)
    requires
        call_ensures(I2c::<H>::blocking_respond_to_write, (i2c, buf), r),
        final(i2c).log().len() - old(i2c).log().len() < POLL_LIMIT,
    ensures
        ({
            let before = taken(old(i2c).log());
            let after = taken(final(i2c).log());
            let count = after.len() - before.len();
            let data = final(buf)@;
            &&& data.len() == old(buf)@.len()
            &&& 0 <= count <= data.len()
            &&& forall|i: int| 0 <= i < count ==> #[trigger] data[i] == after[before.len() + i]
            &&& forall|i: int| count <= i < data.len() ==> #[trigger] data[i] == old(buf)@[i]
            &&& sent(final(i2c).log()) == sent(old(i2c).log())
            &&& r matches Ok(WriteStatus::Stopped(n)) ==> n == count && n < data.len()
            &&& r matches Ok(WriteStatus::Restarted(n)) ==> n == count && n < data.len()
            &&& r matches Ok(WriteStatus::BufferFull(n)) ==> n == count && n == data.len()
        }),
        r matches Ok(WriteStatus::Stopped(_)) ==> (final(i2c).log().last() matches Access::ReadSsr(saw) && !saw.rdf
            && sound(saw) && saw.sdf),
        r matches Ok(WriteStatus::Restarted(_)) ==> (final(i2c).log().last() matches Access::ReadSsr(saw) && !saw.rdf
            && sound(saw) && !saw.sdf && saw.rsf),
        r matches Err(e) ==> e == IOError::BitError || e == IOError::FifoError,
{
    a_response_to_a_write_tells_how_it_ended(old(i2c).log(), final(i2c).log(), old(buf)@, final(buf)@, r);
    let data = final(buf)@;
    let given = old(buf)@;
    let count = taken_count(old(i2c).log(), final(i2c).log());
    assert forall|i: int| 0 <= i < count implies #[trigger] data[i] == taken(final(i2c).log())[taken(
        old(i2c).log(),
    ).len() + i] by {
        assert(data.take(count)[i] == data[i]);
    }
    assert forall|i: int| count <= i < data.len() implies #[trigger] data[i] == given[i] by {
        assert(data.skip(count)[i - count] == given.skip(count)[i - count]);
    }
}

/// `respond_to_read_step` that was woken goes by what it saw.
pub proof fn respond_to_read_step_goes_by_what_it_saw<H: TargetPort>(
    i2c: &mut I2c<H>,
    buf: &[u8],
    count: usize,
    r: Progress<Result<ReadStatus, IOError>>,
)
    requires
        call_ensures(I2c::<H>::respond_to_read_step, (i2c, buf, count, Some(WaitOutcome::Woken)), r),
        count <= buf@.len() <= usize::MAX,
    ensures
        ({
            let n = old(i2c).log().len() as int;
            let log = final(i2c).log();
            let saw = log[n]->ReadSsr_0;
            let over = saw.sdf || saw.rsf;
            &&& log[n] is ReadSsr
            &&& sound(saw) && !over && saw.tdf && count < buf@.len() ==> {
                &&& log.len() == n + 2
                &&& log[n + 1] matches Access::WriteStdr(word) && word.data == buf@[count as int]
                &&& r == Progress::<Result<ReadStatus, IOError>>::Wait((count + 1) as usize)
            }
            &&& sound(saw) && !over && saw.tdf && count == buf@.len() ==> r == Progress::Done(
                Ok::<ReadStatus, IOError>(ReadStatus::NeedMore(count)),
            )
            &&& sound(saw) && over ==> r == Progress::Done(
                Ok::<ReadStatus, IOError>(
                    if count < buf@.len() {
                        ReadStatus::EarlyStop(count)
                    } else {
                        ReadStatus::Complete(count)
                    },
                ),
            )
            &&& sound(saw) && !over && !saw.tdf ==> r == Progress::<Result<ReadStatus, IOError>>::Wait(count)
            &&& !sound(saw) ==> r == Progress::Done(
                Err::<ReadStatus, IOError>(
                    if saw.bef {
                        IOError::BitError
                    } else {
                        IOError::FifoError
                    },
                ),
            )
        }),
{
    a_step_of_a_read_goes_by_what_it_saw(old(i2c).log(), final(i2c).log(), buf@, count, r);
}

/// `respond_to_write_step` that was woken goes by what it saw.
pub proof fn respond_to_write_step_goes_by_what_it_saw<H: TargetPort>(
    i2c: &mut I2c<H>,
    buf: &mut [u8],
    count: usize,
    r: Progress<Result<WriteStatus, IOError>>,
)
    requires
        call_ensures(I2c::<H>::respond_to_write_step, (i2c, buf, count, Some(WaitOutcome::Woken)), r),
        count < old(buf)@.len() <= usize::MAX,
    ensures
        final(buf)@.len() == old(buf)@.len(),
        forall|i: int| 0 <= i < final(buf)@.len() && i != count ==> #[trigger] final(buf)@[i] == old(buf)@[i],
        ({
            let n = old(i2c).log().len() as int;
            let log = final(i2c).log();
            let saw = log[n]->ReadSsr_0;
            &&& log[n] is ReadSsr
            &&& saw.rdf ==> {
                &&& log.last() matches Access::ReadSrdr(word) && final(buf)@[count as int] == word.data
                &&& r == (if count + 1 < final(buf)@.len() {
                    Progress::Wait((count + 1) as usize)
                } else {
                    Progress::Done(Ok::<WriteStatus, IOError>(WriteStatus::BufferFull((count + 1) as usize)))
                })
            }
            &&& !saw.rdf ==> final(buf)@[count as int] == old(buf)@[count as int]
            &&& !saw.rdf && sound(saw) && saw.sdf ==> r == Progress::Done(
                Ok::<WriteStatus, IOError>(WriteStatus::Stopped(count)),
            )
            &&& !saw.rdf && sound(saw) && !saw.sdf && saw.rsf ==> r == Progress::Done(
                Ok::<WriteStatus, IOError>(WriteStatus::Restarted(count)),
            )
            &&& !saw.rdf && sound(saw) && !saw.sdf && !saw.rsf ==> r == Progress::<Result<WriteStatus, IOError>>::Wait(
                count,
            )
            &&& !saw.rdf && !sound(saw) ==> r == Progress::Done(
                Err::<WriteStatus, IOError>(
                    if saw.bef {
                        IOError::BitError
                    } else {
                        IOError::FifoError
                    },
                ),
            )
        }),
{
    a_step_of_a_write_goes_by_what_it_saw(old(i2c).log(), final(i2c).log(), old(buf)@, final(buf)@, count, r);
}

/// A chunk of a target's DMA transfer is handed to the channel of its direction
/// at its data register, from its place in the buffer and for its length.
pub proof fn a_chunk_is_handed_to_its_channel<H: TargetPort + DmaPort>(
    i2c: &mut I2c<H>,
    offset: usize,
    length: usize,
    max_transfer: usize,
    r: Result<(), IOError>,
)
    requires
        layout_agrees(old(i2c).block(), old(i2c).layout()),
    ensures
        call_ensures(I2c::<H>::begin_read_dma_chunk, (i2c, offset, length, max_transfer), r) && r is Ok ==> {
            &&& 0 < length <= max_transfer
            &&& entry(old(i2c).log(), final(i2c).log(), 4) == Access::DmaSetup(
                Direction::Rx,
                old(i2c).layout().srdr,
                offset,
                length,
                true,
            )
            &&& final(i2c).log().last() == Access::DmaEnableRequest(Direction::Rx)
        },
        call_ensures(I2c::<H>::begin_write_dma_chunk, (i2c, offset, length, max_transfer), r) && r is Ok ==> {
            &&& 0 < length <= max_transfer
            &&& entry(old(i2c).log(), final(i2c).log(), 4) == Access::DmaSetup(
                Direction::Tx,
                old(i2c).layout().stdr,
                offset,
                length,
                true,
            )
            &&& final(i2c).log().last() == Access::DmaEnableRequest(Direction::Tx)
        },
{
}

} // verus!
