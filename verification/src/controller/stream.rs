//! The data phase of the interrupt-driven transfers of the controller.

use vstd::prelude::*;

use crate::controller::{I2c, IOError};
use crate::controller::asynch::{
    found_and_left, lemma_failed_look, lemma_found_earlier, lemma_one_word, lemma_then_looked, lemma_turn_aborted,
    one_word, scrubbed_fault, turn_aborted, turn_failed, wait_error, Limit, Turn, Wait,
};
use crate::controller::blocking::{commands_for, lemma_rx_fails, whole_chunks};
use crate::controller_registers::{
    active_fault_ran, receive_word, rx_step_ran, status_error, transmit_word, ControllerAction,
};
use crate::lpi2c_regs::{Access, ControllerPort};
use crate::session::{lemma_fault_known, recovered, Abort, Session, SessionPhase, SessionRxStep};
use crate::trace::{commands, entry, extends, received};
use crate::transfer::{
    found_full, found_full_behind, held_back, lemma_held_back, lemma_moved, lemma_moved_nothing, lemma_partway_nothing,
    moved, nothing_behind, popped_behind, read_chained, receive_commands, steady, transmit_commands,
};
use crate::wait::WaitOutcome;
use crate::words::Mtdr;

verus! {

broadcast use {
    crate::answers::lemma_owed_push,
    crate::trace::group_bounded,
    crate::trace::group_trace,
    crate::transfer::group_wire,
    crate::session::lemma_recovered_wire,
};

/// Bytes coming in on an addressed read.
pub struct Receiving {
    pub session: Session,
    /// The bytes `from..to` of the caller's buffer are being filled.
    pub from: usize,
    pub to: usize,
    /// How many bytes the queued commands ask for.
    pub asked: usize,
    /// Where the next byte goes.
    pub place: usize,
    /// The history up to the settled START.
    pub begun: Ghost<Seq<Access>>,
}

impl Receiving {
    pub open spec fn total(self) -> int {
        self.to - self.from
    }

    /// The operation belongs to the transaction that is open on `i2c`, and all
    /// bytes were asked for, unless the last look found the FIFO full.
    pub open spec fn fits<H>(self, i2c: &I2c<H>, read: Seq<u8>) -> bool {
        &&& self.stands(i2c, read)
        &&& self.asked == self.total() || held_back(self.begun@, i2c.log(), 0)
    }

    /// The commands that are still to be queued.
    pub open spec fn rest(self) -> Seq<Mtdr> {
        receive_commands(self.total() as nat).skip(commands_for(self.asked as int))
    }

    /// The operation belongs to the transaction that is open on `i2c`: the
    /// queued commands ask for the first `asked` bytes, and what came in so
    /// far stands in the buffer.
    pub open spec fn stands<H>(self, i2c: &I2c<H>, read: Seq<u8>) -> bool {
        &&& i2c.owns(self.session@)
        &&& self.from <= self.place < self.to <= read.len()
        &&& self.session@.phase == (if self.place == self.from {
            SessionPhase::FirstReceivePending
        } else {
            SessionPhase::Stable(Abort::ReadStreaming)
        })
        &&& whole_chunks(self.total(), self.asked as int)
        &&& moved(
            self.begun@,
            i2c.log(),
            receive_commands(self.total() as nat).take(commands_for(self.asked as int)),
            read.subrange(self.from as int, self.place as int),
        )
    }

    /// The same read, perhaps one byte further.
    pub open spec fn followed_by(self, next: Receiving) -> bool {
        &&& next.from == self.from
        &&& next.to == self.to
        &&& next.begun@ == self.begun@
        &&& self.place <= next.place <= self.place + 1
    }
}

/// A receive turn gave its transaction up: its wait cell was closed, nothing
/// was there at the end of a full wait, or because of what it found.
pub open spec fn receive_aborted(
    before: Seq<Access>,
    after: Seq<Access>,
    waited: WaitOutcome,
    all: Seq<Mtdr>,
    error: IOError,
    may_clock: bool,
) -> bool {
    if waited == WaitOutcome::Closed {
        error == IOError::ReadFail && recovered(before, after, may_clock)
    } else if error == IOError::Timeout {
        &&& waited == WaitOutcome::TimedOut
        &&& exists|log: Seq<Access>| #[trigger] rx_step_ran(before, log, None) && recovered(log, after, may_clock)
    } else {
        found_and_left(before, after, Limit::Untimed, all, error, may_clock)
    }
}

/// The first entry behind `before` is a status snapshot without a fault.
pub open spec fn cleared_first(before: Seq<Access>, after: Seq<Access>) -> bool {
    &&& after.len() > before.len()
    &&& entry(before, after, 0) is ReadMsr
    &&& status_error(entry(before, after, 0)->ReadMsr_0) is None
}

/// At most the byte at `place` changed.
pub open spec fn only_touched(before: Seq<u8>, after: Seq<u8>, place: int) -> bool {
    &&& after.len() == before.len()
    &&& forall|i: int| 0 <= i < before.len() && i != place ==> #[trigger] after[i] == before[i]
}

impl<H: ControllerPort> I2c<H> {
    /// Tops the command pipeline up and goes back to waiting for data.
    fn refill(&mut self, op: Receiving, read: &[u8]) -> (r: Turn<Receiving, Result<Session, IOError>>)
        requires
            op.stands(old(self), read@),
        ensures
            final(self).same_setup(old(self)),
            match r {
                Turn::Wait(next, wait) => {
                    &&& next.fits(final(self), read@)
                    &&& op.followed_by(next)
                    &&& next.place == op.place
                    &&& extends(old(self).log(), final(self).log())
                    &&& wait == Wait::Rx(old(self).budget())
                },
                Turn::Done(Ok(_)) => false,
                Turn::Done(Err(e)) => {
                    &&& final(self).idle()
                    &&& e != IOError::Timeout
                    &&& found_and_left(
                        old(self).log(),
                        final(self).log(),
                        Limit::Untimed,
                        op.rest(),
                        e,
                        op.session@.phase.clocks(),
                    )
                },
            },
    {
        let ghost entered = self.log();
        let ghost clocks = op.session@.phase.clocks();
        let ghost rest = op.rest();
        let mut op = op;
        let total: usize = op.to - op.from;
        match self.top_up(total, op.asked, &mut op.session) {
            Err(e) => {
                let ghost log = self.log();
                self.cancel(op.session);
                proof {
                    lemma_failed_look(entered, log, self.budget(), Limit::Untimed, rest, rest, e);
                    lemma_turn_aborted(
                        entered,
                        log,
                        self.log(),
                        Limit::Untimed,
                        rest,
                        e,
                        op.session@.phase.clocks(),
                        clocks,
                    );
                }
                Turn::Done(Err(e))
            },
            Ok(asked) => {
                proof {
                    let all = receive_commands(total as nat);
                    let first = commands_for(op.asked as int);
                    let last = commands_for(asked as int);
                    let bytes = read@.subrange(op.from as int, op.place as int);
                    lemma_moved(
                        op.begun@,
                        entered,
                        self.log(),
                        all.take(first),
                        all.subrange(first, last),
                        bytes,
                        Seq::empty(),
                    );
                    assert(all.take(first) + all.subrange(first, last) =~= all.take(last));
                    assert(bytes + Seq::<u8>::empty() =~= bytes);
                    if asked < total {
                        assert(found_full(self.log()));
                        assert(held_back(op.begun@, self.log(), 0));
                    }
                }
                op.asked = asked;
                Turn::Wait(op, Wait::Rx(self.timeout))
            },
        }
    }

    /// Opens the data phase of an addressed read for the bytes `from..to`: the
    /// first RECEIVE goes in unconditionally, and as many more as there is
    /// room for.
    pub fn begin_receiving(&mut self, open: Session, read: &[u8], from: usize, to: usize) -> (r: Turn<
        Receiving,
        Result<Session, IOError>,
    >)
        requires
            old(self).owns(open@),
            open@.phase.addressed(),
            from < to <= read@.len(),
        ensures
            final(self).same_setup(old(self)),
            match r {
                Turn::Wait(op, wait) => {
                    &&& op.fits(final(self), read@)
                    &&& op.from == from
                    &&& op.to == to
                    &&& op.place == from
                    &&& op.begun@ == old(self).log()
                    &&& wait == Wait::Rx(old(self).budget())
                },
                Turn::Done(Ok(_)) => false,
                Turn::Done(Err(e)) => {
                    &&& final(self).idle()
                    &&& e != IOError::Timeout
                    &&& found_and_left(
                        old(self).log(),
                        final(self).log(),
                        Limit::Untimed,
                        receive_commands((to - from) as nat),
                        e,
                        true,
                    )
                },
            },
    {
        let ghost entered = self.log();
        let mut open = open;
        let total: usize = to - from;
        let ghost all = receive_commands(total as nat);
        let first: usize = if total < 256 {
            total
        } else {
            256
        };
        match self.enqueue_first_receive(first, &mut open) {
            Err(e) => {
                let ghost log = self.log();
                self.cancel(open);
                proof {
                    lemma_failed_look(entered, log, self.budget(), Limit::Untimed, Seq::empty(), all, e);
                    lemma_turn_aborted(entered, log, self.log(), Limit::Untimed, all, e, open@.phase.clocks(), true);
                }
                Turn::Done(Err(e))
            },
            Ok(_) => {
                let ghost pushed = self.log();
                proof {
                    assert(commands_for(first as int) == 1);
                    assert(all.take(1) =~= seq![receive_word(first as nat)]);
                    assert(read@.subrange(from as int, from as int) =~= Seq::<u8>::empty());
                }
                let op = Receiving { session: open, from, to, asked: first, place: from, begun: Ghost(entered) };
                let r = self.refill(op, read);
                proof {
                    if let Turn::Done(Err(e)) = r {
                        assert(all.take(1) + all.skip(1) =~= all);
                        lemma_found_earlier(
                            entered,
                            pushed,
                            self.log(),
                            Limit::Untimed,
                            all.take(1),
                            all.skip(1),
                            all,
                            e,
                            open@.phase.clocks(),
                            true,
                        );
                    }
                }
                r
            },
        }
    }

    /// One turn of a read: takes one byte, and tops the command pipeline up
    /// before it waits again. A wait that ran out is fatal only where nothing
    /// was there; a spurious wake simply waits again.
    #[verifier::rlimit(100)]
    pub fn receive_turn(&mut self, op: Receiving, read: &mut [u8], waited: WaitOutcome) -> (r: Turn<
        Receiving,
        Result<Session, IOError>,
    >)
        requires
            op.fits(old(self), old(read)@),
        ensures
            final(self).same_setup(old(self)),
            only_touched(old(read)@, final(read)@, op.place as int),
            match r {
                Turn::Wait(next, wait) => {
                    &&& waited != WaitOutcome::Closed
                    &&& next.fits(final(self), final(read)@)
                    &&& op.followed_by(next)
                    &&& extends(old(self).log(), final(self).log())
                    &&& (next.place == op.place ==> waited == WaitOutcome::Woken && nothing_behind(
                        old(self).log(),
                        final(self).log(),
                    ))
                    &&& (next.place != op.place ==> popped_behind(old(self).log(), final(self).log()))
                    &&& wait == Wait::Rx(old(self).budget())
                },
                Turn::Done(Ok(open)) => {
                    &&& waited != WaitOutcome::Closed
                    &&& popped_behind(old(self).log(), final(self).log())
                    &&& op.place + 1 == op.to
                    &&& final(self).owns(open@)
                    &&& open@.phase == SessionPhase::Stable(Abort::ReadStreaming)
                    &&& steady(old(self).log(), final(self).log())
                    &&& read_chained(
                        op.begun@,
                        final(self).log(),
                        final(read)@.subrange(op.from as int, op.to as int),
                    )
                },
                Turn::Done(Err(e)) => {
                    &&& final(self).idle()
                    &&& receive_aborted(
                        old(self).log(),
                        final(self).log(),
                        waited,
                        op.rest(),
                        e,
                        op.session@.phase.clocks(),
                    )
                },
            },
    {
        let ghost entered = self.log();
        let ghost session = op.session@;
        let ghost clocks = session.phase.clocks();
        let ghost began = op;
        let ghost rest = op.rest();
        let ghost none = Seq::<Mtdr>::empty();
        let mut op = op;
        proof {
            assert(none + rest =~= rest);
        }
        if let WaitOutcome::Closed = waited {
            self.cancel(op.session);
            return Turn::Done(Err(IOError::ReadFail));
        }
        match op.session.rx_step(&mut self.regs) {
            Err(e) => {
                let ghost log = self.log();
                proof {
                    lemma_partway_nothing(entered, entered, rest);
                    lemma_rx_fails(entered, entered, log, session, op.session@, e, self.budget(), rest);
                }
                self.cancel(op.session);
                proof {
                    lemma_failed_look(entered, log, self.budget(), Limit::Untimed, rest, rest, e);
                    lemma_turn_aborted(
                        entered,
                        log,
                        self.log(),
                        Limit::Untimed,
                        rest,
                        e,
                        op.session@.phase.clocks(),
                        clocks,
                    );
                }
                Turn::Done(Err(e))
            },
            Ok(Some(SessionRxStep::Ended)) => {
                let ghost log = self.log();
                self.cancel(op.session);
                proof {
                    lemma_partway_nothing(entered, log, rest);
                    lemma_turn_aborted(
                        entered,
                        log,
                        self.log(),
                        Limit::Untimed,
                        rest,
                        IOError::UnexpectedStop,
                        clocks,
                        clocks,
                    );
                }
                Turn::Done(Err(IOError::UnexpectedStop))
            },
            Ok(None) => {
                let ghost looked_at = self.log();
                if let WaitOutcome::TimedOut = waited {
                    self.cancel(op.session);
                    assert(rx_step_ran(entered, looked_at, None));
                    return Turn::Done(Err(IOError::Timeout));
                }
                let r = self.refill(op, read);
                proof {
                    assert(extends(entered, entered) && rx_step_ran(entered, looked_at, None));
                    if let Turn::Done(Err(e)) = r {
                        assert(commands(looked_at) =~= commands(entered) + none);
                        lemma_found_earlier(
                            entered,
                            looked_at,
                            self.log(),
                            Limit::Untimed,
                            none,
                            rest,
                            rest,
                            e,
                            clocks,
                            clocks,
                        );
                    }
                }
                r
            },
            Ok(Some(SessionRxStep::Byte(byte))) => {
                let ghost popped = self.log();
                let ghost earlier = read@.subrange(op.from as int, op.place as int);
                read[op.place] = byte;
                proof {
                    let all = receive_commands(op.total() as nat);
                    assert(read@.subrange(op.from as int, op.place + 1) =~= earlier.push(byte));
                    assert(commands(popped) == commands(entered));
                    assert(received(popped) =~= received(op.begun@) + earlier.push(byte));
                    assert(moved(
                        op.begun@,
                        popped,
                        all.take(commands_for(op.asked as int)),
                        read@.subrange(op.from as int, op.place + 1),
                    ));
                }
                op.place = op.place + 1;
                if op.place == op.to {
                    proof {
                        let words = commands(popped).skip(commands(op.begun@).len() as int);
                        if op.asked < op.total() {
                            lemma_held_back(op.begun@, entered, popped, 0, 1);
                        }
                        assert(words =~= receive_commands(op.total() as nat).take(commands_for(op.asked as int)));
                        assert(popped[popped.len() - 1] is ReadMrdr);
                    }
                    return Turn::Done(Ok(op.session));
                }
                let r = self.refill(op, read);
                proof {
                    if r is Wait {
                        assert(self.log()[popped.len() - 1] == popped.last());
                    }
                    if let Turn::Done(Err(e)) = r {
                        assert(commands(popped) =~= commands(entered) + none);
                        lemma_found_earlier(
                            entered,
                            popped,
                            self.log(),
                            Limit::Untimed,
                            none,
                            rest,
                            rest,
                            e,
                            op.session@.phase.clocks(),
                            clocks,
                        );
                    }
                }
                r
            },
        }
    }
}

/// Bytes going out on a write.
pub struct Sending {
    pub session: Session,
    /// The byte that is on its way.
    pub place: usize,
    /// It is queued and being watched.
    pub queued: bool,
    /// The history up to the settled START.
    pub begun: Ghost<Seq<Access>>,
}

impl Sending {
    /// The operation belongs to the transaction that is open on `i2c`.
    pub open spec fn fits<H>(self, i2c: &I2c<H>, write: Seq<u8>) -> bool {
        let pushed: int = if self.queued {
            self.place + 1
        } else {
            self.place as int
        };
        &&& i2c.owns(self.session@)
        &&& self.session@.phase.writable()
        &&& self.place < write.len()
        &&& moved(self.begun@, i2c.log(), transmit_commands(write.take(pushed)), Seq::empty())
    }

    /// The commands that are still to be queued.
    pub open spec fn rest(self, write: Seq<u8>) -> Seq<Mtdr> {
        transmit_commands(
            write.skip(
                if self.queued {
                    self.place + 1
                } else {
                    self.place as int
                },
            ),
        )
    }

    /// What the operation waits for at `log`: that its byte, queued behind
    /// `before`, leaves the FIFO, or room for it, which a look behind `before`
    /// found missing.
    pub open spec fn waits_for(self, wait: Wait, before: Seq<Access>, log: Seq<Access>, timeout: u64) -> bool {
        if self.queued {
            &&& wait == Wait::TxSettle(timeout)
            &&& before.len() < log.len()
            &&& log.last() is WriteMtdr
        } else {
            wait == Wait::TxRoom(timeout) && found_full_behind(before, log)
        }
    }

    /// The error that a closed wait cell means here.
    pub open spec fn closed_error(self) -> IOError {
        if self.queued {
            IOError::WriteFail
        } else {
            IOError::Other
        }
    }
}

impl<H: ControllerPort> I2c<H> {
    /// Queues the byte at the operation's place, or waits for room.
    fn send_byte(&mut self, op: Sending, write: &[u8]) -> (r: Turn<Sending, Result<Session, IOError>>)
        requires
            op.fits(old(self), write@),
            !op.queued,
        ensures
            final(self).same_setup(old(self)),
            match r {
                Turn::Wait(next, wait) => {
                    &&& next.fits(final(self), write@)
                    &&& next.begun@ == op.begun@
                    &&& next.place == op.place
                    &&& extends(old(self).log(), final(self).log())
                    &&& next.waits_for(wait, old(self).log(), final(self).log(), old(self).budget())
                },
                Turn::Done(Ok(_)) => false,
                Turn::Done(Err(e)) => {
                    &&& final(self).idle()
                    &&& e != IOError::Timeout
                    &&& found_and_left(
                        old(self).log(),
                        final(self).log(),
                        Limit::Untimed,
                        op.rest(write@),
                        e,
                        false,
                    )
                },
            },
    {
        let ghost entered = self.log();
        let ghost rest = op.rest(write@);
        let mut op = op;
        let byte: u8 = write[op.place];
        match self.try_enqueue_session(ControllerAction::transmit(byte), &mut op.session) {
            Err(e) => {
                let ghost log = self.log();
                self.cancel(op.session);
                proof {
                    lemma_failed_look(entered, log, self.budget(), Limit::Untimed, Seq::empty(), rest, e);
                    lemma_turn_aborted(
                        entered,
                        log,
                        self.log(),
                        Limit::Untimed,
                        rest,
                        e,
                        op.session@.phase.clocks(),
                        false,
                    );
                }
                Turn::Done(Err(e))
            },
            Ok(queued) => {
                proof {
                    let gone = transmit_commands(write@.take(op.place as int));
                    lemma_one_word(entered, self.log(), transmit_word(byte), queued);
                    lemma_moved(
                        op.begun@,
                        entered,
                        self.log(),
                        gone,
                        one_word(queued, transmit_word(byte)),
                        Seq::empty(),
                        Seq::empty(),
                    );
                    assert(Seq::<u8>::empty() + Seq::<u8>::empty() =~= Seq::<u8>::empty());
                    if queued {
                        assert(gone + one_word(queued, transmit_word(byte)) =~= transmit_commands(
                            write@.take(op.place + 1),
                        ));
                    } else {
                        assert(gone + one_word(queued, transmit_word(byte)) =~= gone);
                    }
                }
                op.queued = queued;
                if queued {
                    Turn::Wait(op, Wait::TxSettle(self.timeout))
                } else {
                    Turn::Wait(op, Wait::TxRoom(self.timeout))
                }
            },
        }
    }

    /// Opens the data phase of a write. An empty write is no error: it probes
    /// whether the address is acknowledged.
    pub fn begin_sending(&mut self, open: Session, write: &[u8]) -> (r: Turn<Sending, Result<Session, IOError>>)
        requires
            old(self).owns(open@),
            open@.phase.writable(),
        ensures
            final(self).same_setup(old(self)),
            match r {
                Turn::Wait(op, wait) => {
                    &&& op.fits(final(self), write@)
                    &&& op.begun@ == old(self).log()
                    &&& op.place == 0
                    &&& op.waits_for(wait, old(self).log(), final(self).log(), old(self).budget())
                },
                Turn::Done(Ok(next)) => {
                    &&& write@.len() == 0
                    &&& final(self).log() == old(self).log()
                    &&& final(self).owns(next@)
                    &&& next@.phase.writable()
                },
                Turn::Done(Err(e)) => {
                    &&& final(self).idle()
                    &&& e != IOError::Timeout
                    &&& found_and_left(
                        old(self).log(),
                        final(self).log(),
                        Limit::Untimed,
                        transmit_commands(write@),
                        e,
                        false,
                    )
                },
            },
    {
        if write.len() == 0 {
            return Turn::Done(Ok(open));
        }
        proof {
            lemma_moved_nothing(self.log(), self.log());
            assert(transmit_commands(write@.take(0)) =~= Seq::<Mtdr>::empty());
            assert(write@.skip(0) =~= write@);
        }
        let ghost entered = self.log();
        self.send_byte(Sending { session: open, place: 0, queued: false, begun: Ghost(entered) }, write)
    }

    /// One turn of a write: once a queued byte left the FIFO, its status is
    /// classified before the next one is queued. The classification does not
    /// clear a halt, so that bytes behind a NACK stay frozen until the
    /// recovery discards them.
    #[verifier::rlimit(80)]
    pub fn send_turn(&mut self, op: Sending, write: &[u8], waited: Option<WaitOutcome>) -> (r: Turn<
        Sending,
        Result<Session, IOError>,
    >)
        requires
            op.fits(old(self), write@),
        ensures
            final(self).same_setup(old(self)),
            match r {
                Turn::Wait(next, wait) => {
                    &&& wait_error(waited, op.closed_error()) is None
                    &&& next.fits(final(self), write@)
                    &&& next.begun@ == op.begun@
                    &&& extends(old(self).log(), final(self).log())
                    &&& (op.queued ==> cleared_first(old(self).log(), final(self).log()))
                    &&& next.place == (if op.queued {
                        op.place + 1
                    } else {
                        op.place as int
                    })
                    &&& next.waits_for(wait, old(self).log(), final(self).log(), old(self).budget())
                },
                Turn::Done(Ok(open)) => {
                    &&& wait_error(waited, op.closed_error()) is None
                    &&& op.queued
                    &&& op.place + 1 == write@.len()
                    &&& final(self).owns(open@)
                    &&& open@.phase.writable()
                    &&& moved(op.begun@, final(self).log(), transmit_commands(write@), Seq::empty())
                    &&& active_fault_ran(old(self).log(), final(self).log(), None)
                },
                Turn::Done(Err(e)) => {
                    &&& final(self).idle()
                    &&& turn_aborted(
                        old(self).log(),
                        final(self).log(),
                        waited,
                        op.closed_error(),
                        Limit::Untimed,
                        op.rest(write@),
                        e,
                        false,
                    )
                },
            },
    {
        let ghost entered = self.log();
        let ghost rest = op.rest(write@);
        let mut op = op;
        let closed = if op.queued {
            IOError::WriteFail
        } else {
            IOError::Other
        };
        match waited {
            Some(WaitOutcome::Closed) => {
                self.cancel(op.session);
                return Turn::Done(Err(closed));
            },
            Some(WaitOutcome::TimedOut) => {
                self.cancel(op.session);
                return Turn::Done(Err(IOError::Timeout));
            },
            _ => {},
        }
        if !op.queued {
            return self.send_byte(op, write);
        }
        let ghost session = op.session@;
        if let Some(fault) = self.regs.take_active_fault() {
            let ghost seen = self.log();
            let error = op.session.bind_fault(&mut self.regs, fault);
            let ghost log = self.log();
            proof {
                lemma_fault_known(entered.push(seen[entered.len() as int]), log, fault);
            }
            self.cancel(op.session);
            proof {
                assert(log.drop_last() =~= seen);
                if log.drop_last().last() is WriteMsr {
                    assert(seen.drop_last() =~= entered.push(seen[entered.len() as int]));
                    assert(scrubbed_fault(log, error));
                }
                lemma_partway_nothing(entered, log, rest);
                assert(turn_failed(entered, log, Limit::Untimed, rest, error));
                lemma_turn_aborted(
                    entered,
                    log,
                    self.log(),
                    Limit::Untimed,
                    rest,
                    error,
                    op.session@.phase.clocks(),
                    false,
                );
            }
            return Turn::Done(Err(error));
        }
        let ghost clean = self.log();
        proof {
            lemma_then_looked(
                op.begun@,
                entered,
                clean,
                transmit_commands(write@.take(op.place + 1)),
                Seq::empty(),
            );
        }
        let count: usize = write.len();
        op.place = op.place + 1;
        op.queued = false;
        if op.place == count {
            assert(write@.take(op.place as int) =~= write@);
            return Turn::Done(Ok(op.session));
        }
        let r = self.send_byte(op, write);
        proof {
            if let Turn::Done(Err(e)) = r {
                let none = Seq::<Mtdr>::empty();
                assert(none + rest =~= rest);
                assert(commands(clean) =~= commands(entered) + none);
                lemma_found_earlier(
                    entered,
                    clean,
                    self.log(),
                    Limit::Untimed,
                    none,
                    rest,
                    rest,
                    e,
                    false,
                    false,
                );
            }
        }
        r
    }
}

} // verus!
