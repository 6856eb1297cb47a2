//! The blocking transfer engine of the controller.

use vstd::prelude::*;

use crate::answers::{ends_completed, ends_settled, owed, Owed};
use crate::controller::{I2c, IOError};
use crate::controller_registers::{
    enqueue_ran, receive_word, rx_step_ran, start_word, status_error, stop_word, transmit_word, CommandStep,
    ControllerAction, ControllerStatusError, RxStep, StartAction, StartDrainStep, StopAction, StopStep, StopVerdict,
};
use crate::lpi2c_regs::{Access, ControllerPort};
use crate::punctual::{
    held_up, kept_time, lemma_command_tried, lemma_data_looked_for,
    lemma_kept_behind_recovery, lemma_kept_nothing, lemma_kept_on, lemma_start_polled, lemma_status_finished,
    lemma_stop_polled, lemma_wait_begins, waiting,
};
use crate::session::{
    fault_bound, lemma_bound_mirrors, lemma_fault_known, mirrors, opens_read,
    recover_before_session_fault, recovered, remediate_before_session, session_fits, session_rx_ran, Abort,
    Session, SessionPhase, SessionRxStep, SessionView, StartReservation,
};
use crate::ticks::{deadline, deadline_after};
use crate::trace::{commands, extends, handed, lemma_wire_grows, received, recoveries, wire};
use crate::transfer::{
    aborted, aborted_for_good, begins, cut_short, failed, found_full, held_back, last_is, lemma_aborted,
    lemma_aborted_earlier, lemma_aborted_weaken, lemma_cut_earlier, lemma_cut_recovers, lemma_failed_earlier,
    lemma_good_earlier, lemma_good_weaken, lemma_held_earlier, lemma_moved, lemma_moved_nothing, lemma_partway_nothing,
    lemma_partway_words, lemma_stalled, lemma_standing, looked, moved, partway, read_aborted, read_chained, read_done,
    read_repeated, read_retried, read_transaction, receive_commands, retryable, seamed_commands, seamed_read, stalled,
    standing_since, steady, stood_still, transmit_commands, write_opened, write_transaction,
};
use crate::wait::POLL_LIMIT;
use crate::words::{ControllerCommand, Mtdr};

verus! {

broadcast use {
    crate::answers::lemma_owed_push,
    crate::trace::group_bounded,
    crate::trace::group_trace,
    crate::transfer::group_wire,
    crate::session::lemma_recovered_wire,
};

/// The session may only lose recovery obligations on a failing path.
pub open spec fn still_owned(session: SessionView, next: SessionView) -> bool {
    &&& next.owner == session.owner
    &&& (next.phase.clocks() ==> session.phase.clocks())
}

pub proof fn lemma_bound_fails(
    before: Seq<Access>,
    seen: Seq<Access>,
    after: Seq<Access>,
    session: SessionView,
    next: SessionView,
    fault: ControllerStatusError,
    error: IOError,
    timeout: u64,
    all: Seq<Mtdr>,
)
    requires
        steady(before, seen),
        commands(seen) == commands(before) || partway(before, seen, all),
        recoveries(seen) == recoveries(before),
        seen.len() > 0,
        seen.last() is ReadMsr,
        status_error(seen.last()->ReadMsr_0) == Some(fault),
        fault_bound(seen, after, session, next, fault, error),
    ensures
        failed(before, after, timeout, all, error),
        looked(seen, after),
        still_owned(session, next),
        session.fault is None && mirrors(wire(seen), session.phase) ==> session_fits(after, next),
{
    assert(after.drop_last() =~= seen);
    if commands(seen) == commands(before) {
        lemma_partway_nothing(before, after, all);
    }
    lemma_fault_known(seen, after, fault);
    if session.fault is None && mirrors(wire(seen), session.phase) {
        lemma_bound_mirrors(wire(seen), session, (after.last()->ReadMfsr_0).rxcount != 0, fault);
    }
}

impl<H: ControllerPort> I2c<H> {
    /// Drives the terminal sequence of a queued START in blocking mode: polls
    /// until the command FIFO has drained without a fault, then takes the
    /// final status.
    fn settle_start_blocking(&mut self, open: &mut Session) -> (r: Result<(), IOError>)
        requires
            old(self).owns(old(open)@),
            old(open)@.phase is StartPending,
        ensures
            final(self).same_setup(old(self)),
            final(self).session_open(),
            commands(final(self).log()) == commands(old(self).log()),
            received(final(self).log()) == received(old(self).log()),
            match r {
                Ok(_) => {
                    &&& final(self).owns(final(open)@)
                    &&& looked(old(self).log(), final(self).log())
                    &&& kept_time(old(self).log(), final(self).log(), old(self).budget())
                    &&& ends_settled(final(self).log())
                    &&& final(open)@ == SessionView {
                        phase: SessionPhase::Stable(old(open)@.phase->StartPending_after),
                        ..old(open)@
                    }
                },
                Err(e) => {
                    &&& failed(old(self).log(), final(self).log(), old(self).budget(), Seq::empty(), e)
                    &&& still_owned(old(open)@, final(open)@)
                    &&& final(self).keeps(final(open)@)
                },
            },
    {
        let ghost entered = self.log();
        let start: u64 = self.regs.now();
        let end: u64 = deadline_after(start, self.timeout);
        let mut polls: u64 = POLL_LIMIT;
        assert(standing_since(entered, self.log(), start)) by {
            assert(self.log()[entered.len() as int] == Access::Now(start));
        }
        proof {
            lemma_kept_nothing(entered, self.budget());
            lemma_wait_begins(entered, entered, start, self.budget());
        }
        loop
            invariant
                self.same_setup(old(self)),
                self.session_open(),
                self.owns(open@),
                open@ == old(open)@,
                open@.phase is StartPending,
                entered == old(self).log(),
                looked(entered, self.log()),
                standing_since(entered, self.log(), start),
                end == deadline(start, self.budget()),
                waiting(entered, self.log(), start, self.budget()),
                self.log().len() - entered.len() >= POLL_LIMIT - polls,
            decreases polls,
        {
            let ghost round = self.log();
            let step = {
                let permit = open.start_status_permit();
                self.regs.poll_start_drain(&permit)
            };
            assert(looked(round, self.log()));
            let ghost seen = self.log();
            proof {
                lemma_start_polled(entered, round, seen, step, start, self.budget());
            }
            match step {
                StartDrainStep::Pending => {
                    let now: u64 = self.regs.now();
                    proof {
                        lemma_standing(entered, round, self.log(), start);
                    }
                    if now > end || polls == 0 {
                        proof {
                            lemma_partway_nothing(entered, self.log(), Seq::empty());
                        }
                        return Err(IOError::Timeout);
                    }
                    polls = polls - 1;
                },
                StartDrainStep::Fault(fault) => {
                    let error = open.bind_fault(&mut self.regs, fault);
                    proof {
                        lemma_bound_fails(
                            entered,
                            seen,
                            self.log(),
                            old(open)@,
                            open@,
                            fault,
                            error,
                            self.budget(),
                            Seq::empty(),
                        );
                    }
                    return Err(error);
                },
                StartDrainStep::Drained => {
                    let settled = {
                        let permit = open.start_status_permit();
                        self.regs.finish_start_status(permit)
                    };
                    assert(looked(seen, self.log()));
                    let ghost checked = self.log();
                    match settled {
                        Ok(_) => {
                            proof {
                                lemma_status_finished(entered, seen, checked, start, self.budget());
                            }
                            return Ok(());
                        },
                        Err(fault) => {
                            let error = open.bind_fault(&mut self.regs, fault);
                            proof {
                                lemma_bound_fails(
                                    entered,
                                    checked,
                                    self.log(),
                                    old(open)@,
                                    open@,
                                    fault,
                                    error,
                                    self.budget(),
                                    Seq::empty(),
                                );
                            }
                            return Err(error);
                        },
                    }
                },
            }
        }
    }

    /// Forms a START once the address was checked.
    fn start_action(&self, address: u8, read: bool) -> (r: StartAction)
        requires
            address < 0x80,
        ensures
            r.target() == address,
            r.reads() == read,
    {
        StartAction::new(address, read).unwrap()
    }

    /// Attempts one ordinary command on a live session. `Ok(false)` is a full
    /// FIFO.
    pub(crate) fn try_enqueue_session(
        &mut self,
        action: ControllerAction,
        open: &mut Session,
    ) -> (r: Result<bool, IOError>)
        requires
            old(self).owns(old(open)@),
            old(open)@.phase.writable(),
        ensures
            final(self).same_setup(old(self)),
            final(self).session_open(),
            final(self).log().len() > old(self).log().len(),
            match r {
                Ok(queued) => {
                    &&& final(self).owns(final(open)@)
                    &&& final(open)@ == old(open)@
                    &&& enqueue_ran(
                        old(self).log(),
                        final(self).log(),
                        transmit_word(action.byte()),
                        if queued {
                            CommandStep::Queued
                        } else {
                            CommandStep::Full
                        },
                    )
                },
                Err(e) => {
                    &&& e != IOError::Timeout
                    &&& failed(old(self).log(), final(self).log(), old(self).budget(), Seq::empty(), e)
                    &&& looked(old(self).log(), final(self).log())
                    &&& still_owned(old(open)@, final(open)@)
                    &&& final(self).keeps(final(open)@)
                },
            },
    {
        let ghost entered = self.log();
        let step = {
            let permit = open.command_permit();
            self.regs.try_enqueue_active(permit, action)
        };
        let ghost seen = self.log();
        match step {
            CommandStep::Queued => Ok(true),
            CommandStep::Full => Ok(false),
            CommandStep::Fault(fault) => {
                let error = open.bind_fault(&mut self.regs, fault);
                proof {
                    lemma_bound_fails(
                        entered,
                        seen,
                        self.log(),
                        old(open)@,
                        open@,
                        fault,
                        error,
                        self.budget(),
                        Seq::empty(),
                    );
                }
                Err(error)
            },
        }
    }

    /// Attempts a START through the only path that commits the pending phase
    /// when the command enters the FIFO.
    pub(crate) fn try_enqueue_start_session(
        &mut self,
        action: StartAction,
        open: &mut Session,
    ) -> (r: Result<bool, IOError>)
        requires
            old(self).owns(old(open)@),
            old(open)@.phase is Stable,
            action.target() < 0x80,
        ensures
            final(self).same_setup(old(self)),
            final(self).session_open(),
            final(self).log().len() > old(self).log().len(),
            match r {
                Ok(queued) => {
                    &&& final(self).owns(final(open)@)
                    &&& final(open)@ == SessionView {
                        phase: if queued {
                            SessionPhase::StartPending {
                                before: old(open)@.phase->Stable_0,
                                after: SessionPhase::start_shape(action.reads()),
                            }
                        } else {
                            old(open)@.phase
                        },
                        ..old(open)@
                    }
                    &&& enqueue_ran(
                        old(self).log(),
                        final(self).log(),
                        start_word(action.target(), action.reads()),
                        if queued {
                            CommandStep::Queued
                        } else {
                            CommandStep::Full
                        },
                    )
                },
                Err(e) => {
                    &&& e != IOError::Timeout
                    &&& failed(old(self).log(), final(self).log(), old(self).budget(), Seq::empty(), e)
                    &&& looked(old(self).log(), final(self).log())
                    &&& still_owned(old(open)@, final(open)@)
                    &&& final(self).keeps(final(open)@)
                },
            },
    {
        let ghost entered = self.log();
        let step = {
            let permit = open.start_transition_permit();
            self.regs.try_enqueue_start(permit, action)
        };
        let ghost seen = self.log();
        match step {
            CommandStep::Queued => {
                assert(wire(seen).drop_last() =~= wire(entered));
                Ok(true)
            },
            CommandStep::Full => Ok(false),
            CommandStep::Fault(fault) => {
                let error = open.bind_fault(&mut self.regs, fault);
                proof {
                    lemma_bound_fails(
                        entered,
                        seen,
                        self.log(),
                        old(open)@,
                        open@,
                        fault,
                        error,
                        self.budget(),
                        Seq::empty(),
                    );
                }
                Err(error)
            },
        }
    }

    /// Attempts a normal trailing STOP through the only gate that commits the
    /// pending phase.
    pub(crate) fn try_enqueue_stop_session(
        &mut self,
        action: StopAction,
        open: &mut Session,
    ) -> (r: Result<bool, IOError>)
        requires
            old(self).owns(old(open)@),
            old(open)@.phase.closable(),
        ensures
            final(self).same_setup(old(self)),
            final(self).session_open(),
            final(self).log().len() > old(self).log().len(),
            match r {
                Ok(queued) => {
                    &&& final(self).owns(final(open)@)
                    &&& final(open)@ == SessionView {
                        phase: if queued {
                            SessionPhase::StopPending { before: old(open)@.phase->Stable_0 }
                        } else {
                            old(open)@.phase
                        },
                        ..old(open)@
                    }
                    &&& enqueue_ran(
                        old(self).log(),
                        final(self).log(),
                        stop_word(),
                        if queued {
                            CommandStep::Queued
                        } else {
                            CommandStep::Full
                        },
                    )
                },
                Err(e) => {
                    &&& e != IOError::Timeout
                    &&& failed(old(self).log(), final(self).log(), old(self).budget(), Seq::empty(), e)
                    &&& looked(old(self).log(), final(self).log())
                    &&& still_owned(old(open)@, final(open)@)
                    &&& final(self).keeps(final(open)@)
                },
            },
    {
        let ghost entered = self.log();
        let step = {
            let permit = open.stop_transition_permit();
            self.regs.try_enqueue_stop(permit, action)
        };
        let ghost seen = self.log();
        match step {
            CommandStep::Queued => Ok(true),
            CommandStep::Full => Ok(false),
            CommandStep::Fault(fault) => {
                let error = open.bind_fault(&mut self.regs, fault);
                proof {
                    lemma_bound_fails(
                        entered,
                        seen,
                        self.log(),
                        old(open)@,
                        open@,
                        fault,
                        error,
                        self.budget(),
                        Seq::empty(),
                    );
                }
                Err(error)
            },
        }
    }

    /// Bounded enqueue before a session exists. It owns recovery because no
    /// live session can retain a halt yet.
    fn enqueue_before_start(&mut self, action: StartAction, reservation: &mut StartReservation) -> (r: Result<
        (),
        IOError,
    >)
        requires
            old(self).session_open(),
            old(reservation).owner() == old(self).block(),
            old(reservation).phase() == SessionPhase::Stable(Abort::General),
            !opens_read(wire(old(self).log())),
            owed(old(self).log()) is Idle,
        ensures
            final(self).same_setup(old(self)),
            final(self).session_open(),
            final(reservation).owner() == old(reservation).owner(),
            match r {
                Ok(_) => {
                    &&& owed(final(self).log()) == Owed::Answer(start_word(action.target(), action.reads()))
                    &&& final(reservation).phase() == SessionPhase::StartPending {
                        before: Abort::General,
                        after: SessionPhase::start_shape(action.reads()),
                    }
                    &&& moved(
                        old(self).log(),
                        final(self).log(),
                        seq![start_word(action.target(), action.reads())],
                        Seq::empty(),
                    )
                    &&& kept_time(old(self).log(), final(self).log(), old(self).budget())
                },
                Err(e) => aborted(
                    old(self).log(),
                    final(self).log(),
                    old(self).budget(),
                    Seq::empty(),
                    e,
                    false,
                ),
            },
    {
        let ghost entered = self.log();
        let start: u64 = self.regs.now();
        let end: u64 = deadline_after(start, self.timeout);
        let mut polls: u64 = POLL_LIMIT;
        assert(standing_since(entered, self.log(), start)) by {
            assert(self.log()[entered.len() as int] == Access::Now(start));
        }
        proof {
            lemma_kept_nothing(entered, self.budget());
            lemma_wait_begins(entered, entered, start, self.budget());
        }
        loop
            invariant
                self.same_setup(old(self)),
                self.session_open(),
                reservation.owner() == old(reservation).owner(),
                reservation.owner() == self.block(),
                reservation.phase() == SessionPhase::Stable(Abort::General),
                !opens_read(wire(entered)),
                owed(self.log()) is Idle,
                entered == old(self).log(),
                looked(entered, self.log()),
                standing_since(entered, self.log(), start),
                end == deadline(start, self.budget()),
                waiting(entered, self.log(), start, self.budget()),
                self.log().last() is Now,
                self.log().len() - entered.len() >= POLL_LIMIT - polls,
            decreases polls,
        {
            let ghost round = self.log();
            let step = {
                let permit = reservation.start_transition_permit();
                self.regs.try_enqueue_start(permit, action)
            };
            let ghost seen = self.log();
            proof {
                if !(step is Fault) {
                    lemma_command_tried(
                        entered,
                        round,
                        seen,
                        start_word(action.target(), action.reads()),
                        step,
                        start,
                        self.budget(),
                    );
                }
            }
            match step {
                CommandStep::Queued => {
                    proof {
                        assert(commands(seen) =~= commands(entered) + seq![start_word(
                            action.target(),
                            action.reads(),
                        )]);
                        assert(received(seen) =~= received(entered) + Seq::<u8>::empty());
                    }
                    return Ok(());
                },
                CommandStep::Fault(fault) => {
                    let error = recover_before_session_fault(&mut self.regs, self.timeout, fault);
                    proof {
                        lemma_partway_nothing(entered, seen, Seq::empty());
                        assert(failed(entered, seen, self.budget(), Seq::empty(), error));
                    }
                    return Err(error);
                },
                CommandStep::Full => {
                    assert(looked(round, self.log()));
                    let now: u64 = self.regs.now();
                    proof {
                        lemma_standing(entered, round, self.log(), start);
                    }
                    if now > end || polls == 0 {
                        let ghost late = self.log();
                        proof {
                            lemma_partway_nothing(entered, late, Seq::empty());
                            assert(failed(entered, late, self.budget(), Seq::empty(), IOError::Timeout));
                        }
                        remediate_before_session(&mut self.regs, self.timeout);
                        return Err(IOError::Timeout);
                    }
                    polls = polls - 1;
                },
            }
        }
    }

    /// Bounded enqueue of one byte on a live session. Errors leave the
    /// session live, so whoever abandons it remains the single recovery owner.
    fn enqueue_session_blocking(&mut self, action: ControllerAction, open: &mut Session) -> (r: Result<(), IOError>)
        requires
            old(self).owns(old(open)@),
            old(open)@.phase.writable(),
        ensures
            final(self).same_setup(old(self)),
            final(self).session_open(),
            match r {
                Ok(_) => {
                    &&& final(self).owns(final(open)@)
                    &&& final(open)@ == old(open)@
                    &&& moved(old(self).log(), final(self).log(), seq![transmit_word(action.byte())], Seq::empty())
                    &&& kept_time(old(self).log(), final(self).log(), old(self).budget())
                },
                Err(e) => {
                    &&& failed(old(self).log(), final(self).log(), old(self).budget(), Seq::empty(), e)
                    &&& looked(old(self).log(), final(self).log())
                    &&& still_owned(old(open)@, final(open)@)
                    &&& final(self).keeps(final(open)@)
                },
            },
    {
        let ghost entered = self.log();
        let ghost none = Seq::<Mtdr>::empty();
        let start: u64 = self.regs.now();
        let end: u64 = deadline_after(start, self.timeout);
        let mut polls: u64 = POLL_LIMIT;
        assert(standing_since(entered, self.log(), start)) by {
            assert(self.log()[entered.len() as int] == Access::Now(start));
        }
        proof {
            lemma_kept_nothing(entered, self.budget());
            lemma_wait_begins(entered, entered, start, self.budget());
        }
        proof {
            assert(none + none =~= none);
            assert(commands(self.log()) =~= commands(entered) + none);
        }
        loop
            invariant
                self.same_setup(old(self)),
                self.session_open(),
                self.owns(open@),
                open@ == old(open)@,
                open@.phase.writable(),
                none == Seq::<Mtdr>::empty(),
                none + none == none,
                begins(none, none),
                commands(self.log()) == commands(entered) + none,
                entered == old(self).log(),
                looked(entered, self.log()),
                standing_since(entered, self.log(), start),
                end == deadline(start, self.budget()),
                waiting(entered, self.log(), start, self.budget()),
                self.log().last() is Now,
                self.log().len() - entered.len() >= POLL_LIMIT - polls,
            decreases polls,
        {
            let ghost round = self.log();
            match self.try_enqueue_session(action, open) {
                Ok(queued) => {
                    proof {
                        let step = if queued {
                            CommandStep::Queued
                        } else {
                            CommandStep::Full
                        };
                        let word = transmit_word(action.byte());
                        lemma_command_tried(entered, round, self.log(), word, step, start, self.budget());
                    }
                    if queued {
                        proof {
                            assert(commands(self.log()) =~= commands(entered) + seq![transmit_word(action.byte())]);
                            assert(received(self.log()) =~= received(entered) + Seq::<u8>::empty());
                        }
                        return Ok(());
                    }
                },
                Err(e) => {
                    proof {
                        lemma_failed_earlier(entered, round, self.log(), self.budget(), none, none, none, e);
                    }
                    return Err(e);
                },
            }
            assert(looked(round, self.log()));
            let now: u64 = self.regs.now();
            proof {
                lemma_standing(entered, round, self.log(), start);
            }
            if now > end || polls == 0 {
                proof {
                    lemma_partway_nothing(entered, self.log(), none);
                }
                return Err(IOError::Timeout);
            }
            polls = polls - 1;
        }
    }

    /// Bounded START enqueue for an existing session.
    fn enqueue_start_session_blocking(&mut self, action: StartAction, open: &mut Session) -> (r: Result<(), IOError>)
        requires
            old(self).owns(old(open)@),
            old(open)@.phase is Stable,
            action.target() < 0x80,
        ensures
            final(self).same_setup(old(self)),
            final(self).session_open(),
            match r {
                Ok(_) => {
                    &&& final(self).owns(final(open)@)
                    &&& final(open)@ == SessionView {
                        phase: SessionPhase::StartPending {
                            before: old(open)@.phase->Stable_0,
                            after: SessionPhase::start_shape(action.reads()),
                        },
                        ..old(open)@
                    }
                    &&& moved(
                        old(self).log(),
                        final(self).log(),
                        seq![start_word(action.target(), action.reads())],
                        Seq::empty(),
                    )
                    &&& kept_time(old(self).log(), final(self).log(), old(self).budget())
                },
                Err(e) => {
                    &&& failed(old(self).log(), final(self).log(), old(self).budget(), Seq::empty(), e)
                    &&& looked(old(self).log(), final(self).log())
                    &&& still_owned(old(open)@, final(open)@)
                    &&& final(self).keeps(final(open)@)
                },
            },
    {
        let ghost entered = self.log();
        let ghost none = Seq::<Mtdr>::empty();
        let start: u64 = self.regs.now();
        let end: u64 = deadline_after(start, self.timeout);
        let mut polls: u64 = POLL_LIMIT;
        assert(standing_since(entered, self.log(), start)) by {
            assert(self.log()[entered.len() as int] == Access::Now(start));
        }
        proof {
            lemma_kept_nothing(entered, self.budget());
            lemma_wait_begins(entered, entered, start, self.budget());
        }
        proof {
            assert(none + none =~= none);
            assert(commands(self.log()) =~= commands(entered) + none);
        }
        loop
            invariant
                self.same_setup(old(self)),
                self.session_open(),
                self.owns(open@),
                open@ == old(open)@,
                open@.phase is Stable,
                action.target() < 0x80,
                none == Seq::<Mtdr>::empty(),
                none + none == none,
                begins(none, none),
                commands(self.log()) == commands(entered) + none,
                entered == old(self).log(),
                looked(entered, self.log()),
                standing_since(entered, self.log(), start),
                end == deadline(start, self.budget()),
                waiting(entered, self.log(), start, self.budget()),
                self.log().last() is Now,
                self.log().len() - entered.len() >= POLL_LIMIT - polls,
            decreases polls,
        {
            let ghost round = self.log();
            match self.try_enqueue_start_session(action, open) {
                Ok(queued) => {
                    proof {
                        let step = if queued {
                            CommandStep::Queued
                        } else {
                            CommandStep::Full
                        };
                        let word = start_word(action.target(), action.reads());
                        lemma_command_tried(entered, round, self.log(), word, step, start, self.budget());
                    }
                    if queued {
                        proof {
                            assert(commands(self.log()) =~= commands(entered) + seq![start_word(
                                action.target(),
                                action.reads(),
                            )]);
                            assert(received(self.log()) =~= received(entered) + Seq::<u8>::empty());
                        }
                        return Ok(());
                    }
                },
                Err(e) => {
                    proof {
                        lemma_failed_earlier(entered, round, self.log(), self.budget(), none, none, none, e);
                    }
                    return Err(e);
                },
            }
            assert(looked(round, self.log()));
            let now: u64 = self.regs.now();
            proof {
                lemma_standing(entered, round, self.log(), start);
            }
            if now > end || polls == 0 {
                proof {
                    lemma_partway_nothing(entered, self.log(), none);
                }
                return Err(IOError::Timeout);
            }
            polls = polls - 1;
        }
    }

    /// Bounded normal-STOP gate.
    fn enqueue_stop_session_blocking(&mut self, action: StopAction, open: &mut Session) -> (r: Result<(), IOError>)
        requires
            old(self).owns(old(open)@),
            old(open)@.phase.closable(),
        ensures
            final(self).same_setup(old(self)),
            final(self).session_open(),
            match r {
                Ok(_) => {
                    &&& final(self).owns(final(open)@)
                    &&& final(open)@ == SessionView {
                        phase: SessionPhase::StopPending { before: old(open)@.phase->Stable_0 },
                        ..old(open)@
                    }
                    &&& moved(old(self).log(), final(self).log(), seq![stop_word()], Seq::empty())
                    &&& kept_time(old(self).log(), final(self).log(), old(self).budget())
                },
                Err(e) => {
                    &&& failed(old(self).log(), final(self).log(), old(self).budget(), Seq::empty(), e)
                    &&& looked(old(self).log(), final(self).log())
                    &&& still_owned(old(open)@, final(open)@)
                    &&& final(self).keeps(final(open)@)
                },
            },
    {
        let ghost entered = self.log();
        let ghost none = Seq::<Mtdr>::empty();
        let start: u64 = self.regs.now();
        let end: u64 = deadline_after(start, self.timeout);
        let mut polls: u64 = POLL_LIMIT;
        assert(standing_since(entered, self.log(), start)) by {
            assert(self.log()[entered.len() as int] == Access::Now(start));
        }
        proof {
            lemma_kept_nothing(entered, self.budget());
            lemma_wait_begins(entered, entered, start, self.budget());
        }
        proof {
            assert(none + none =~= none);
            assert(commands(self.log()) =~= commands(entered) + none);
        }
        loop
            invariant
                self.same_setup(old(self)),
                self.session_open(),
                self.owns(open@),
                open@ == old(open)@,
                open@.phase.closable(),
                none == Seq::<Mtdr>::empty(),
                none + none == none,
                begins(none, none),
                commands(self.log()) == commands(entered) + none,
                entered == old(self).log(),
                looked(entered, self.log()),
                standing_since(entered, self.log(), start),
                end == deadline(start, self.budget()),
                waiting(entered, self.log(), start, self.budget()),
                self.log().last() is Now,
                self.log().len() - entered.len() >= POLL_LIMIT - polls,
            decreases polls,
        {
            let ghost round = self.log();
            match self.try_enqueue_stop_session(action, open) {
                Ok(queued) => {
                    proof {
                        let step = if queued {
                            CommandStep::Queued
                        } else {
                            CommandStep::Full
                        };
                        lemma_command_tried(entered, round, self.log(), stop_word(), step, start, self.budget());
                    }
                    if queued {
                        proof {
                            assert(commands(self.log()) =~= commands(entered) + seq![stop_word()]);
                            assert(received(self.log()) =~= received(entered) + Seq::<u8>::empty());
                        }
                        return Ok(());
                    }
                },
                Err(e) => {
                    proof {
                        lemma_failed_earlier(entered, round, self.log(), self.budget(), none, none, none, e);
                    }
                    return Err(e);
                },
            }
            assert(looked(round, self.log()));
            let now: u64 = self.regs.now();
            proof {
                lemma_standing(entered, round, self.log(), start);
            }
            if now > end || polls == 0 {
                proof {
                    lemma_partway_nothing(entered, self.log(), none);
                }
                return Err(IOError::Timeout);
            }
            polls = polls - 1;
        }
    }

    /// Emits the first RECEIVE immediately after a read START. If it cannot
    /// be queued, the session remains addressed, so that its recovery uses
    /// the only safe no-data close.
    pub(crate) fn enqueue_first_receive(&mut self, bytes: usize, open: &mut Session) -> (r: Result<(), IOError>)
        requires
            old(self).owns(old(open)@),
            old(open)@.phase.addressed(),
            1 <= bytes <= 256,
        ensures
            final(self).same_setup(old(self)),
            final(self).session_open(),
            match r {
                Ok(_) => {
                    &&& final(self).owns(final(open)@)
                    &&& final(open)@ == SessionView { phase: SessionPhase::FirstReceivePending, ..old(open)@ }
                    &&& moved(old(self).log(), final(self).log(), seq![receive_word(bytes as nat)], Seq::empty())
                    &&& kept_time(old(self).log(), final(self).log(), old(self).budget())
                },
                Err(e) => {
                    &&& e != IOError::Timeout
                    &&& failed(old(self).log(), final(self).log(), old(self).budget(), Seq::empty(), e)
                    &&& looked(old(self).log(), final(self).log())
                    &&& still_owned(old(open)@, final(open)@)
                    &&& final(self).keeps(final(open)@)
                },
            },
    {
        let ghost entered = self.log();
        let step = {
            let permit = open.first_receive_permit();
            self.regs.try_enqueue_first_receive(permit, bytes)
        };
        let ghost seen = self.log();
        match step {
            CommandStep::Queued => {
                proof {
                    lemma_kept_nothing(entered, self.budget());
                    lemma_command_tried(
                        entered,
                        entered,
                        seen,
                        receive_word(bytes as nat),
                        step,
                        0,
                        self.budget(),
                    );
                    assert(commands(seen) =~= commands(entered) + seq![receive_word(bytes as nat)]);
                    assert(received(seen) =~= received(entered) + Seq::<u8>::empty());
                }
                Ok(())
            },
            CommandStep::Full => {
                proof {
                    lemma_partway_nothing(entered, seen, Seq::empty());
                }
                Err(IOError::Other)
            },
            CommandStep::Fault(fault) => {
                let error = open.bind_fault(&mut self.regs, fault);
                proof {
                    lemma_bound_fails(
                        entered,
                        seen,
                        self.log(),
                        old(open)@,
                        open@,
                        fault,
                        error,
                        self.budget(),
                        Seq::empty(),
                    );
                }
                Err(error)
            },
        }
    }

    /// Attempts a later RECEIVE, once the first one was queued. `Ok(false)`
    /// is a full FIFO.
    pub(crate) fn try_enqueue_read_receive(&mut self, bytes: usize, open: &mut Session) -> (r: Result<bool, IOError>)
        requires
            old(self).owns(old(open)@),
            old(open)@.phase.reading(),
            1 <= bytes <= 256,
        ensures
            final(self).same_setup(old(self)),
            final(self).session_open(),
            final(self).log().len() > old(self).log().len(),
            match r {
                Ok(queued) => {
                    &&& final(self).owns(final(open)@)
                    &&& final(open)@ == old(open)@
                    &&& enqueue_ran(
                        old(self).log(),
                        final(self).log(),
                        receive_word(bytes as nat),
                        if queued {
                            CommandStep::Queued
                        } else {
                            CommandStep::Full
                        },
                    )
                    &&& if queued {
                        &&& moved(old(self).log(), final(self).log(), seq![receive_word(bytes as nat)], Seq::empty())
                        &&& stood_still(old(self).log(), final(self).log())
                    } else {
                        looked(old(self).log(), final(self).log()) && found_full(final(self).log())
                    }
                },
                Err(e) => {
                    &&& e != IOError::Timeout
                    &&& failed(old(self).log(), final(self).log(), old(self).budget(), Seq::empty(), e)
                    &&& looked(old(self).log(), final(self).log())
                    &&& still_owned(old(open)@, final(open)@)
                    &&& final(self).keeps(final(open)@)
                },
            },
    {
        let ghost entered = self.log();
        let step = {
            let permit = open.read_receive_permit();
            self.regs.try_enqueue_read_receive(permit, bytes)
        };
        let ghost seen = self.log();
        match step {
            CommandStep::Queued => {
                proof {
                    assert(commands(seen) =~= commands(entered) + seq![receive_word(bytes as nat)]);
                    assert(received(seen) =~= received(entered) + Seq::<u8>::empty());
                }
                Ok(true)
            },
            CommandStep::Full => Ok(false),
            CommandStep::Fault(fault) => {
                let error = open.bind_fault(&mut self.regs, fault);
                proof {
                    lemma_bound_fails(
                        entered,
                        seen,
                        self.log(),
                        old(open)@,
                        open@,
                        fault,
                        error,
                        self.budget(),
                        Seq::empty(),
                    );
                }
                Err(error)
            },
        }
    }
}

impl<H: ControllerPort> I2c<H> {
    /// Opens a fresh transaction. No session may be live.
    pub(crate) fn start_fresh(&mut self, address: u8, read: bool) -> (r: Result<Session, IOError>)
        requires
            old(self).idle(),
        ensures
            final(self).same_setup(old(self)),
            match r {
                Ok(open) => {
                    &&& address < 0x80
                    &&& final(self).owns(open@)
                    &&& open@.phase == SessionPhase::Stable(SessionPhase::start_shape(read))
                    &&& moved(old(self).log(), final(self).log(), seq![start_word(address, read)], Seq::empty())
                    &&& ends_settled(final(self).log())
                    &&& kept_time(old(self).log(), final(self).log(), old(self).budget())
                },
                Err(e) => {
                    &&& final(self).idle()
                    &&& if address >= 0x80 {
                        e == IOError::AddressOutOfRange(address) && final(self).log() == old(self).log()
                    } else {
                        aborted(
                            old(self).log(),
                            final(self).log(),
                            old(self).budget(),
                            seq![start_word(address, read)],
                            e,
                            read,
                        )
                    }
                },
            },
    {
        if address >= 0x80 {
            return Err(IOError::AddressOutOfRange(address));
        }
        self.start_raw(address, read)
    }

    fn start_raw(&mut self, address: u8, read: bool) -> (r: Result<Session, IOError>)
        requires
            old(self).idle(),
            address < 0x80,
        ensures
            final(self).same_setup(old(self)),
            match r {
                Ok(open) => {
                    &&& final(self).owns(open@)
                    &&& open@.phase == SessionPhase::Stable(SessionPhase::start_shape(read))
                    &&& moved(old(self).log(), final(self).log(), seq![start_word(address, read)], Seq::empty())
                    &&& ends_settled(final(self).log())
                    &&& kept_time(old(self).log(), final(self).log(), old(self).budget())
                },
                Err(e) => {
                    &&& final(self).idle()
                    &&& aborted(
                        old(self).log(),
                        final(self).log(),
                        old(self).budget(),
                        seq![start_word(address, read)],
                        e,
                        read,
                    )
                },
            },
    {
        let ghost entered = self.log();
        // The reservation precedes the START going on the wire.
        let mut reservation = StartReservation::acquire(&self.regs, &mut self.info);
        let action = self.start_action(address, read);
        match self.enqueue_before_start(action, &mut reservation) {
            Err(e) => {
                reservation.release(&mut self.info);
                proof {
                    lemma_aborted_weaken(
                        entered,
                        self.log(),
                        self.budget(),
                        Seq::empty(),
                        seq![start_word(address, read)],
                        e,
                        false,
                        read,
                    );
                }
                return Err(e);
            },
            Ok(_) => {},
        }
        let ghost queued = self.log();
        // The queued START now has a live recovery owner.
        let mut open = reservation.into_pending_session(self.timeout);
        match self.settle_start_blocking(&mut open) {
            Ok(_) => {
                proof {
                    lemma_kept_on(entered, queued, self.log(), self.budget());
                    assert(commands(self.log()) =~= commands(entered) + seq![start_word(address, read)]);
                    assert(received(self.log()) =~= received(entered) + Seq::<u8>::empty());
                }
                Ok(open)
            },
            Err(e) => {
                let ghost log = self.log();
                open.abandon(&mut self.regs, &mut self.info);
                proof {
                    let words = seq![start_word(address, read)];
                    lemma_failed_earlier(entered, queued, log, self.budget(), words, Seq::empty(), words, e);
                    lemma_aborted(entered, log, self.log(), self.budget(), words, e, open@.phase.clocks(), read);
                }
                Err(e)
            },
        }
    }

    /// Continues an open transaction with a repeated START. The session
    /// stays live until the START is accepted into the FIFO, then is
    /// retargeted in place.
    fn start_continue(&mut self, address: u8, read: bool, open: Session) -> (r: Result<Session, IOError>)
        requires
            old(self).owns(open@),
            open@.phase is Stable,
        ensures
            final(self).same_setup(old(self)),
            match r {
                Ok(next) => {
                    &&& address < 0x80
                    &&& final(self).owns(next@)
                    &&& next@.phase == SessionPhase::Stable(SessionPhase::start_shape(read))
                    &&& moved(old(self).log(), final(self).log(), seq![start_word(address, read)], Seq::empty())
                    &&& ends_settled(final(self).log())
                    &&& kept_time(old(self).log(), final(self).log(), old(self).budget())
                },
                Err(e) => {
                    &&& final(self).idle()
                    &&& if address >= 0x80 {
                        e == IOError::AddressOutOfRange(address) && recovered(
                            old(self).log(),
                            final(self).log(),
                            open@.phase.clocks(),
                        )
                    } else {
                        aborted(
                            old(self).log(),
                            final(self).log(),
                            old(self).budget(),
                            seq![start_word(address, read)],
                            e,
                            read || open@.phase.clocks(),
                        )
                    }
                },
            },
    {
        let ghost entered = self.log();
        let mut open = open;
        let ghost first = open@;
        if address >= 0x80 {
            open.abandon(&mut self.regs, &mut self.info);
            return Err(IOError::AddressOutOfRange(address));
        }
        let action = self.start_action(address, read);
        match self.enqueue_start_session_blocking(action, &mut open) {
            Ok(_) => {},
            Err(e) => {
                let ghost log = self.log();
                open.abandon(&mut self.regs, &mut self.info);
                proof {
                    let words = seq![start_word(address, read)];
                    let none = Seq::<Mtdr>::empty();
                    assert(commands(entered) =~= commands(entered) + none);
                    lemma_failed_earlier(entered, entered, log, self.budget(), none, none, words, e);
                    lemma_aborted(
                        entered,
                        log,
                        self.log(),
                        self.budget(),
                        words,
                        e,
                        open@.phase.clocks(),
                        read || first.phase.clocks(),
                    );
                }
                return Err(e);
            },
        }
        let ghost queued = self.log();
        match self.settle_start_blocking(&mut open) {
            Ok(_) => {
                proof {
                    lemma_kept_on(entered, queued, self.log(), self.budget());
                    assert(commands(self.log()) =~= commands(entered) + seq![start_word(address, read)]);
                    assert(received(self.log()) =~= received(entered) + Seq::<u8>::empty());
                }
                Ok(open)
            },
            Err(e) => {
                let ghost log = self.log();
                open.abandon(&mut self.regs, &mut self.info);
                proof {
                    let words = seq![start_word(address, read)];
                    lemma_failed_earlier(entered, queued, log, self.budget(), words, Seq::empty(), words, e);
                    lemma_aborted(
                        entered,
                        log,
                        self.log(),
                        self.budget(),
                        words,
                        e,
                        open@.phase.clocks(),
                        read || first.phase.clocks(),
                    );
                }
                Err(e)
            },
        }
    }

    /// Puts a STOP on the bus and waits for it to physically complete:
    /// command FIFO empty and the engine idle. The session stays live until
    /// then, so every error recovers exactly once.
    fn stop(&mut self, open: Session) -> (r: Result<(), IOError>)
        requires
            old(self).owns(open@),
            open@.phase.closable(),
        ensures
            final(self).same_setup(old(self)),
            final(self).idle(),
            match r {
                Ok(_) => {
                    &&& moved(old(self).log(), final(self).log(), seq![stop_word()], Seq::empty())
                    &&& ends_completed(final(self).log())
                    &&& kept_time(old(self).log(), final(self).log(), old(self).budget())
                },
                Err(e) => aborted(
                    old(self).log(),
                    final(self).log(),
                    old(self).budget(),
                    seq![stop_word()],
                    e,
                    false,
                ),
            },
    {
        let ghost entered = self.log();
        let ghost words = seq![stop_word()];
        let ghost none = Seq::<Mtdr>::empty();
        let mut open = open;
        match self.enqueue_stop_session_blocking(StopAction::new(), &mut open) {
            Ok(_) => {},
            Err(e) => {
                let ghost log = self.log();
                open.abandon(&mut self.regs, &mut self.info);
                proof {
                    assert(commands(entered) =~= commands(entered) + none);
                    lemma_failed_earlier(entered, entered, log, self.budget(), none, none, words, e);
                    lemma_aborted(entered, log, self.log(), self.budget(), words, e, open@.phase.clocks(), false);
                }
                return Err(e);
            },
        }
        let ghost queued = self.log();
        let ghost pending = open@;
        // Every value below owns this same session.
        let mut stop = open.into_stop_wait();
        let start: u64 = self.regs.now();
        let end: u64 = deadline_after(start, self.timeout);
        let mut polls: u64 = POLL_LIMIT;
        assert(standing_since(queued, self.log(), start)) by {
            assert(self.log()[queued.len() as int] == Access::Now(start));
        }
        proof {
            lemma_wait_begins(entered, queued, start, self.budget());
            assert(words + none =~= words);
            assert(commands(self.log()).skip(commands(entered).len() as int) =~= words);
        }
        loop
            invariant
                self.same_setup(old(self)),
                self.session_open(),
                self.owns(stop@),
                stop@ == pending,
                pending.phase is StopPending,
                !pending.phase.clocks(),
                pending.owner == self.block(),
                entered == old(self).log(),
                moved(entered, queued, words, Seq::empty()),
                words == seq![stop_word()],
                none == Seq::<Mtdr>::empty(),
                words + none == words,
                begins(words, words),
                partway(entered, self.log(), words),
                looked(queued, self.log()),
                standing_since(queued, self.log(), start),
                end == deadline(start, self.budget()),
                waiting(entered, self.log(), start, self.budget()),
                self.log().len() - queued.len() >= POLL_LIMIT - polls,
            decreases polls,
        {
            let ghost round = self.log();
            match self.regs.stop_step(stop) {
                StopStep::Completed(completed) => {
                    assert(looked(round, self.log()));
                    let ghost done = self.log();
                    assert(owed(done) == owed(round));
                    proof {
                        lemma_stop_polled(entered, round, done, StopVerdict::Completed, start, self.budget());
                    }
                    // One final snapshot both classifies a fault that latched
                    // in the last poll gap as this transaction's own, and
                    // clears the STOP's residual flags.
                    match self.regs.finish_stop(completed) {
                        Ok(finalized) => {
                            finalized.defuse(&mut self.info);
                            proof {
                                lemma_status_finished(entered, done, self.log(), start, self.budget());
                                assert(looked(done, self.log()));
                                assert(owed(self.log()) is Idle);
                                assert(commands(self.log()) =~= commands(entered) + seq![stop_word()]);
                                assert(received(self.log()) =~= received(entered) + Seq::<u8>::empty());
                            }
                            return Ok(());
                        },
                        Err(fault) => {
                            let ghost seen = self.log();
                            let (session, error) = fault.into_error(&mut self.regs);
                            let ghost log = self.log();
                            proof {
                                lemma_bound_fails(
                                    entered,
                                    seen,
                                    log,
                                    pending,
                                    session@,
                                    fault.fault(),
                                    error,
                                    self.budget(),
                                    words,
                                );
                            }
                            session.abandon(&mut self.regs, &mut self.info);
                            proof {
                                lemma_aborted(
                                    entered,
                                    log,
                                    self.log(),
                                    self.budget(),
                                    words,
                                    error,
                                    session@.phase.clocks(),
                                    false,
                                );
                            }
                            return Err(error);
                        },
                    }
                },
                StopStep::Fault(fault) => {
                    let ghost seen = self.log();
                    let (session, error) = fault.into_error(&mut self.regs);
                    let ghost log = self.log();
                    proof {
                        lemma_bound_fails(
                            entered,
                            seen,
                            log,
                            pending,
                            session@,
                            fault.fault(),
                            error,
                            self.budget(),
                            words,
                        );
                    }
                    session.abandon(&mut self.regs, &mut self.info);
                    proof {
                        lemma_aborted(
                            entered,
                            log,
                            self.log(),
                            self.budget(),
                            words,
                            error,
                            session@.phase.clocks(),
                            false,
                        );
                    }
                    return Err(error);
                },
                StopStep::Pending(next) => {
                    assert(looked(round, self.log()));
                    proof {
                        lemma_stop_polled(entered, round, self.log(), StopVerdict::Pending, start, self.budget());
                    }
                    let now: u64 = self.regs.now();
                    proof {
                        lemma_standing(queued, round, self.log(), start);
                    }
                    if now > end || polls == 0 {
                        let ghost log = self.log();
                        let session = next.into_session();
                        session.abandon(&mut self.regs, &mut self.info);
                        proof {
                            lemma_partway_nothing(queued, log, none);
                            assert(failed(queued, log, self.budget(), none, IOError::Timeout));
                            lemma_failed_earlier(
                                entered,
                                queued,
                                log,
                                self.budget(),
                                words,
                                none,
                                words,
                                IOError::Timeout,
                            );
                            lemma_aborted(
                                entered,
                                log,
                                self.log(),
                                self.budget(),
                                words,
                                IOError::Timeout,
                                pending.phase.clocks(),
                                false,
                            );
                        }
                        return Err(IOError::Timeout);
                    }
                    polls = polls - 1;
                    stop = next;
                },
            }
        }
    }
}

/// A read is under way, and the last look was no status look.
pub open spec fn asking(log: Seq<Access>) -> bool {
    last_is(log, ControllerCommand::Receive) && !(log.last() is ReadMsr)
}

/// How many RECEIVE commands ask for the first `queued` bytes of a read.
pub open spec fn commands_for(queued: int) -> int {
    (queued + 255) / 256
}

/// The RECEIVE commands of a read end at whole chunks or at its end.
pub open spec fn whole_chunks(total: int, queued: int) -> bool {
    0 < queued <= total && (queued % 256 == 0 || queued == total)
}

pub proof fn lemma_rx_fails(
    before: Seq<Access>,
    round: Seq<Access>,
    after: Seq<Access>,
    session: SessionView,
    next: SessionView,
    error: IOError,
    timeout: u64,
    all: Seq<Mtdr>,
)
    requires
        steady(before, round),
        partway(before, round, all),
        recoveries(round) == recoveries(before),
        session_rx_ran(round, after, session, next, Err(error)),
    ensures
        failed(before, after, timeout, all, error),
        still_owned(session, next),
        session.fault is None && mirrors(wire(round), session.phase) ==> session_fits(after, next),
{
    let seen = after.drop_last();
    let fault = choose|fault: ControllerStatusError|
        {
            &&& #[trigger] rx_step_ran(round, seen, Some(RxStep::Fault(fault)))
            &&& fault_bound(seen, after, session, next, fault, error)
        };
    lemma_bound_fails(before, seen, after, session, next, fault, error, timeout, all);
}

/// A second attempt that kept the time keeps it for the whole read.
proof fn lemma_retry_kept(
    before: Seq<Access>,
    retry: Seq<Access>,
    after: Seq<Access>,
    address: u8,
    data: Seq<u8>,
    budget: u64,
)
    requires
        read_retried(before, retry, after, address, data),
        kept_time(retry, after, budget),
    ensures
        kept_time(before, after, budget),
{
    let all = receive_commands(data.len());
    let word = start_word(address, true);
    let words = seq![word] + seamed_commands(address, data.len());
    let log = choose|log: Seq<Access>|
        {
            &&& #[trigger] steady(before, log)
            &&& partway(before, log, all)
            &&& recoveries(log) == recoveries(before)
            &&& stalled(log)
            &&& recovered(log, retry, true)
        };
    assert(commands(after)[commands(retry).len() as int] == words[0]);
    lemma_kept_behind_recovery(before, log, retry, after, word, true, budget);
}

impl<H: ControllerPort> I2c<H> {
    /// Tops the command pipeline up while there is room: the controller ACKs
    /// across a command boundary only when the next command is already
    /// queued. Returns how many bytes have been asked for: all of them, unless
    /// the last attempt found the FIFO full.
    pub(crate) fn top_up(&mut self, total: usize, queued: usize, open: &mut Session) -> (r: Result<usize, IOError>)
        requires
            old(self).owns(old(open)@),
            old(open)@.phase.reading(),
            whole_chunks(total as int, queued as int),
        ensures
            final(self).same_setup(old(self)),
            final(self).session_open(),
            match r {
                Ok(asked) => {
                    &&& queued <= asked
                    &&& whole_chunks(total as int, asked as int)
                    &&& asked == total || found_full(final(self).log())
                    &&& final(self).owns(final(open)@)
                    &&& final(open)@ == old(open)@
                    &&& moved(
                        old(self).log(),
                        final(self).log(),
                        receive_commands(total as nat).subrange(
                            commands_for(queued as int),
                            commands_for(asked as int),
                        ),
                        Seq::empty(),
                    )
                    &&& stood_still(old(self).log(), final(self).log())
                    &&& asking(old(self).log()) ==> forall|before: Seq<Access>, start: u64| #[trigger]
                        waiting(before, old(self).log(), start, old(self).budget()) ==> {
                            if asked == total {
                                waiting(before, final(self).log(), start, old(self).budget())
                            } else {
                                held_up(before, final(self).log(), start, old(self).budget())
                            }
                        }
                },
                Err(e) => {
                    &&& e != IOError::Timeout
                    &&& failed(
                        old(self).log(),
                        final(self).log(),
                        old(self).budget(),
                        receive_commands(total as nat).skip(commands_for(queued as int)),
                        e,
                    )
                    &&& still_owned(old(open)@, final(open)@)
                    &&& final(self).keeps(final(open)@)
                },
            },
    {
        let ghost entered = self.log();
        let ghost all = receive_commands(total as nat);
        let ghost first = commands_for(queued as int);
        let mut asked: usize = queued;
        proof {
            lemma_moved_nothing(entered, self.log());
            assert(all.subrange(first, first) =~= Seq::<Mtdr>::empty());
        }
        while asked < total
            invariant
                self.same_setup(old(self)),
                self.session_open(),
                self.owns(open@),
                open@ == old(open)@,
                open@.phase.reading(),
                entered == old(self).log(),
                queued <= asked,
                whole_chunks(total as int, queued as int),
                whole_chunks(total as int, asked as int),
                all == receive_commands(total as nat),
                first == commands_for(queued as int),
                moved(entered, self.log(), all.subrange(first, commands_for(asked as int)), Seq::empty()),
                stood_still(entered, self.log()),
                asking(entered) ==> asking(self.log()),
                asking(entered) ==> forall|before: Seq<Access>, start: u64| #[trigger]
                    waiting(before, entered, start, self.budget()) ==> waiting(
                        before,
                        self.log(),
                        start,
                        self.budget(),
                    ),
            decreases total - asked,
        {
            let rest: usize = total - asked;
            let chunk: usize = if rest < 256 {
                rest
            } else {
                256
            };
            let ghost round = self.log();
            match self.try_enqueue_read_receive(chunk, open) {
                Ok(queued_one) => {
                    proof {
                        let step = if queued_one {
                            CommandStep::Queued
                        } else {
                            CommandStep::Full
                        };
                        if asking(entered) {
                            assert forall|before: Seq<Access>, start: u64| #[trigger]
                                waiting(before, entered, start, self.budget()) implies {
                                if queued_one {
                                    waiting(before, self.log(), start, self.budget())
                                } else {
                                    held_up(before, self.log(), start, self.budget())
                                }
                            } by {
                                lemma_command_tried(
                                    before,
                                    round,
                                    self.log(),
                                    receive_word(chunk as nat),
                                    step,
                                    start,
                                    self.budget(),
                                );
                            }
                        }
                    }
                    if !queued_one {
                        // Plenty is queued ahead of the data.
                        proof {
                            lemma_moved_nothing(round, self.log());
                            lemma_moved(
                                entered,
                                round,
                                self.log(),
                                all.subrange(first, commands_for(asked as int)),
                                Seq::empty(),
                                Seq::empty(),
                                Seq::empty(),
                            );
                            assert(all.subrange(first, commands_for(asked as int)) + Seq::<Mtdr>::empty()
                                =~= all.subrange(first, commands_for(asked as int)));
                            assert(Seq::<u8>::empty() + Seq::<u8>::empty() =~= Seq::<u8>::empty());
                        }
                        return Ok(asked);
                    }
                    proof {
                        let place = commands_for(asked as int);
                        assert(place * 256 == asked);
                        assert(commands_for(asked + chunk) == place + 1);
                        assert(all[place] == receive_word(chunk as nat));
                        lemma_moved(
                            entered,
                            round,
                            self.log(),
                            all.subrange(first, place),
                            seq![receive_word(chunk as nat)],
                            Seq::empty(),
                            Seq::empty(),
                        );
                        assert(all.subrange(first, place) + seq![receive_word(chunk as nat)] =~= all.subrange(
                            first,
                            place + 1,
                        ));
                        assert(Seq::<u8>::empty() + Seq::<u8>::empty() =~= Seq::<u8>::empty());
                    }
                    asked = asked + chunk;
                },
                Err(e) => {
                    proof {
                        let none = Seq::<Mtdr>::empty();
                        let some = all.subrange(first, commands_for(asked as int));
                        assert(some + none =~= some);
                        lemma_failed_earlier(
                            entered,
                            round,
                            self.log(),
                            self.budget(),
                            some,
                            none,
                            all.skip(first),
                            e,
                        );
                    }
                    return Err(e);
                },
            }
        }
        Ok(asked)
    }

    /// The body of [`Self::blocking_read_chained`], which leaves the session
    /// to its caller.
    #[verifier::rlimit(100)]
    fn read_chained_body(&mut self, read: &mut [u8], open: &mut Session) -> (r: Result<(), IOError>)
        requires
            old(self).owns(old(open)@),
            old(open)@.phase.addressed(),
            old(read)@.len() > 0,
        ensures
            final(self).same_setup(old(self)),
            final(self).session_open(),
            final(read)@.len() == old(read)@.len(),
            match r {
                Ok(_) => {
                    &&& final(self).owns(final(open)@)
                    &&& final(open)@ == SessionView {
                        phase: SessionPhase::Stable(Abort::ReadStreaming),
                        ..old(open)@
                    }
                    &&& read_chained(old(self).log(), final(self).log(), final(read)@)
                    &&& kept_time(old(self).log(), final(self).log(), old(self).budget())
                },
                Err(e) => {
                    &&& failed(
                        old(self).log(),
                        final(self).log(),
                        old(self).budget(),
                        receive_commands(old(read)@.len()),
                        e,
                    )
                    &&& (e == IOError::Timeout ==> last_is(final(self).log(), ControllerCommand::Receive))
                    &&& still_owned(old(open)@, final(open)@)
                    &&& final(self).keeps(final(open)@)
                },
            },
    {
        let ghost entered = self.log();
        let total: usize = read.len();
        let ghost all = receive_commands(total as nat);
        // The first command goes in unconditionally: the START returned only
        // after the command FIFO drained, and a read session must not exist
        // without a data command behind it.
        let first: usize = if total < 256 {
            total
        } else {
            256
        };
        match self.enqueue_first_receive(first, open) {
            Ok(_) => {},
            Err(e) => {
                proof {
                    let none = Seq::<Mtdr>::empty();
                    assert(commands(entered) =~= commands(entered) + none);
                    lemma_failed_earlier(entered, entered, self.log(), self.budget(), none, none, all, e);
                }
                return Err(e);
            },
        }
        let mut queued: usize = first;
        let mut drained: usize = 0;
        let ghost begun = self.log();
        let mut start: u64 = self.regs.now();
        let mut end: u64 = deadline_after(start, self.timeout);
        let mut polls: u64 = POLL_LIMIT;
        let ghost mut mark: nat = self.log().len();
        proof {
            assert(self.log()[begun.len() as int] == Access::Now(start));
            assert(standing_since(entered, self.log(), start));
            lemma_wait_begins(entered, begun, start, self.budget());
            assert(commands_for(first as int) == 1);
            assert(all.take(1) =~= seq![receive_word(first as nat)]);
            assert(commands(self.log()) == commands(entered) + all.take(1));
            assert(read@.take(0) =~= Seq::<u8>::empty());
        }
        while drained < total
            invariant
                self.same_setup(old(self)),
                self.session_open(),
                self.owns(open@),
                open@ == (SessionView {
                    phase: if drained == 0 {
                        SessionPhase::FirstReceivePending
                    } else {
                        SessionPhase::Stable(Abort::ReadStreaming)
                    },
                    ..old(open)@
                }),
                old(open)@.phase.addressed(),
                entered == old(self).log(),
                read@.len() == total,
                total == old(read)@.len(),
                drained <= total,
                whole_chunks(total as int, queued as int),
                all == receive_commands(total as nat),
                steady(entered, self.log()),
                commands(self.log()) == commands(entered) + all.take(commands_for(queued as int)),
                received(self.log()) == received(entered) + read@.take(drained as int),
                handed(self.log()) == handed(entered),
                drained == total ==> queued == total || held_back(entered, self.log(), 1),
                recoveries(self.log()) == recoveries(entered),
                standing_since(entered, self.log(), start),
                end == deadline(start, self.budget()),
                waiting(entered, self.log(), start, self.budget()),
                drained == total ==> kept_time(entered, self.log(), self.budget()),
                self.log().last() is Now,
                last_is(self.log(), ControllerCommand::Receive),
                entered.len() <= mark,
                self.log().len() - mark >= POLL_LIMIT - polls,
            decreases total - drained, polls,
        {
            let ghost round = self.log();
            match self.top_up(total, queued, open) {
                Ok(asked) => {
                    proof {
                        let from = commands_for(queued as int);
                        let to = commands_for(asked as int);
                        assert(all.take(from) + all.subrange(from, to) =~= all.take(to));
                        assert((commands(entered) + all.take(from)) + all.subrange(from, to) =~= commands(entered) + (
                        all.take(from) + all.subrange(from, to)));
                        assert(received(self.log()) =~= received(round));
                    }
                    queued = asked;
                },
                Err(e) => {
                    proof {
                        let from = commands_for(queued as int);
                        assert(all.take(from) + all.skip(from) =~= all);
                        lemma_failed_earlier(
                            entered,
                            round,
                            self.log(),
                            self.budget(),
                            all.take(from),
                            all.skip(from),
                            all,
                            e,
                        );
                    }
                    return Err(e);
                },
            }
            proof {
                lemma_standing(entered, round, self.log(), start);
            }
            let ghost filled = self.log();
            let ghost session = open@;
            proof {
                let gone = all.take(commands_for(queued as int));
                lemma_partway_words(entered, filled, gone, all);
                lemma_wire_grows(entered, filled);
                assert(commands(filled).skip(commands(entered).len() as int) =~= gone);
                assert(gone.last().cmd == ControllerCommand::Receive);
                assert(last_is(filled, ControllerCommand::Receive));
            }
            match open.rx_step(&mut self.regs) {
                Ok(Some(SessionRxStep::Byte(byte))) => {
                    proof {
                        lemma_data_looked_for(
                            entered,
                            filled,
                            self.log(),
                            Some(RxStep::Byte(byte)),
                            start,
                            self.budget(),
                        );
                    }
                    let ghost taken = read@.take(drained as int);
                    read[drained] = byte;
                    proof {
                        assert(read@.take(drained as int) =~= taken);
                        assert(read@.take(drained + 1) =~= taken.push(byte));
                        assert(received(self.log()) =~= received(entered) + read@.take(drained + 1));
                    }
                    drained = drained + 1;
                    let ghost popped = self.log();
                    start = self.regs.now();
                    end = deadline_after(start, self.timeout);
                    polls = POLL_LIMIT;
                    proof {
                        assert(self.log()[popped.len() as int] == Access::Now(start));
                        assert(standing_since(entered, self.log(), start));
                        lemma_wait_begins(entered, popped, start, self.budget());
                        mark = self.log().len();
                        if queued < total {
                            assert(found_full(filled));
                            assert(held_back(entered, self.log(), 1));
                        }
                    }
                },
                Ok(Some(SessionRxStep::Ended)) => {
                    return Err(IOError::UnexpectedStop);
                },
                Ok(None) => {
                    // No progress for a full timeout window: the transfer
                    // died without a flag.
                    proof {
                        lemma_data_looked_for(entered, filled, self.log(), None, start, self.budget());
                    }
                    let now: u64 = self.regs.now();
                    proof {
                        lemma_standing(entered, filled, self.log(), start);
                    }
                    if now > end || polls == 0 {
                        return Err(IOError::Timeout);
                    }
                    polls = polls - 1;
                },
                Err(e) => {
                    proof {
                        lemma_rx_fails(entered, filled, self.log(), session, open@, e, self.budget(), all);
                    }
                    return Err(e);
                },
            }
        }
        proof {
            assert(read@.take(total as int) =~= read@);
            let words = commands(self.log()).skip(commands(entered).len() as int);
            assert(words =~= all.take(commands_for(queued as int)));
        }
        Ok(())
    }

    /// One read as a single addressed transaction with chained RECEIVE
    /// commands on the already open transaction. Does not send the trailing
    /// STOP. Every error recovers.
    fn blocking_read_chained(&mut self, read: &mut [u8], open: Session) -> (r: Result<Session, IOError>)
        requires
            old(self).owns(open@),
            open@.phase.addressed(),
            old(read)@.len() > 0,
        ensures
            final(self).same_setup(old(self)),
            final(read)@.len() == old(read)@.len(),
            match r {
                Ok(next) => {
                    &&& final(self).owns(next@)
                    &&& next@.phase == SessionPhase::Stable(Abort::ReadStreaming)
                    &&& read_chained(old(self).log(), final(self).log(), final(read)@)
                    &&& kept_time(old(self).log(), final(self).log(), old(self).budget())
                },
                Err(e) => {
                    &&& final(self).idle()
                    &&& aborted(
                        old(self).log(),
                        final(self).log(),
                        old(self).budget(),
                        receive_commands(old(read)@.len()),
                        e,
                        true,
                    )
                    &&& (retryable(e) ==> cut_short(
                        old(self).log(),
                        final(self).log(),
                        receive_commands(old(read)@.len()),
                        true,
                    ))
                },
            },
    {
        let ghost entered = self.log();
        let ghost all = receive_commands(read@.len());
        let mut open = open;
        match self.read_chained_body(read, &mut open) {
            Ok(_) => Ok(open),
            Err(e) => {
                let ghost log = self.log();
                open.abandon(&mut self.regs, &mut self.info);
                proof {
                    lemma_aborted(entered, log, self.log(), self.budget(), all, e, open@.phase.clocks(), true);
                    if retryable(e) {
                        lemma_stalled(entered, log, self.log(), self.budget(), all, e, open@.phase.clocks());
                    }
                }
                Err(e)
            },
        }
    }

    /// The body of [`Self::blocking_read_seam_chunk`], which leaves the
    /// session to its caller.
    fn seam_chunk_body(&mut self, read: &mut [u8], from: usize, to: usize, open: &mut Session) -> (r: Result<
        (),
        IOError,
    >)
        requires
            old(self).owns(old(open)@),
            old(open)@.phase.addressed(),
            from < to <= old(read)@.len(),
            to - from <= 256,
        ensures
            final(self).same_setup(old(self)),
            final(self).session_open(),
            final(read)@.len() == old(read)@.len(),
            final(read)@.take(from as int) == old(read)@.take(from as int),
            match r {
                Ok(_) => {
                    &&& final(self).owns(final(open)@)
                    &&& final(open)@ == SessionView {
                        phase: SessionPhase::Stable(Abort::ReadStreaming),
                        ..old(open)@
                    }
                    &&& moved(
                        old(self).log(),
                        final(self).log(),
                        seq![receive_word((to - from) as nat)],
                        final(read)@.subrange(from as int, to as int),
                    )
                    &&& kept_time(old(self).log(), final(self).log(), old(self).budget())
                },
                Err(e) => {
                    &&& failed(
                        old(self).log(),
                        final(self).log(),
                        old(self).budget(),
                        seq![receive_word((to - from) as nat)],
                        e,
                    )
                    &&& still_owned(old(open)@, final(open)@)
                    &&& final(self).keeps(final(open)@)
                },
            },
    {
        let ghost entered = self.log();
        let ghost words = seq![receive_word((to - from) as nat)];
        match self.enqueue_first_receive(to - from, open) {
            Ok(_) => {},
            Err(e) => {
                proof {
                    let none = Seq::<Mtdr>::empty();
                    assert(commands(entered) =~= commands(entered) + none);
                    lemma_failed_earlier(entered, entered, self.log(), self.budget(), none, none, words, e);
                }
                return Err(e);
            },
        }
        let ghost begun = self.log();
        let mut start: u64 = self.regs.now();
        let mut end: u64 = deadline_after(start, self.timeout);
        let mut polls: u64 = POLL_LIMIT;
        let mut place: usize = from;
        let ghost mut mark: nat = self.log().len();
        proof {
            assert(self.log()[begun.len() as int] == Access::Now(start));
            assert(standing_since(entered, self.log(), start));
            lemma_wait_begins(entered, begun, start, self.budget());
            assert(read@.subrange(from as int, from as int) =~= Seq::<u8>::empty());
        }
        while place < to
            invariant
                self.same_setup(old(self)),
                self.session_open(),
                self.owns(open@),
                open@ == (SessionView {
                    phase: if place == from {
                        SessionPhase::FirstReceivePending
                    } else {
                        SessionPhase::Stable(Abort::ReadStreaming)
                    },
                    ..old(open)@
                }),
                old(open)@.phase.addressed(),
                entered == old(self).log(),
                read@.len() == old(read)@.len(),
                read@.take(from as int) == old(read)@.take(from as int),
                from <= place <= to <= read@.len(),
                words == seq![receive_word((to - from) as nat)],
                moved(entered, self.log(), words, read@.subrange(from as int, place as int)),
                standing_since(entered, self.log(), start),
                end == deadline(start, self.budget()),
                waiting(entered, self.log(), start, self.budget()),
                place == to ==> kept_time(entered, self.log(), self.budget()),
                entered.len() <= mark,
                self.log().len() - mark >= POLL_LIMIT - polls,
            decreases to - place, polls,
        {
            let ghost round = self.log();
            let ghost session = open@;
            proof {
                lemma_partway_words(entered, round, words, words);
            }
            match open.rx_step(&mut self.regs) {
                Ok(Some(SessionRxStep::Byte(byte))) => {
                    proof {
                        lemma_data_looked_for(
                            entered,
                            round,
                            self.log(),
                            Some(RxStep::Byte(byte)),
                            start,
                            self.budget(),
                        );
                    }
                    let ghost taken = read@.subrange(from as int, place as int);
                    let ghost untouched = read@.take(from as int);
                    read[place] = byte;
                    proof {
                        assert(read@.take(from as int) =~= untouched);
                        assert(read@.subrange(from as int, place + 1) =~= taken.push(byte));
                        assert(received(self.log()) =~= received(entered) + read@.subrange(from as int, place + 1));
                    }
                    place = place + 1;
                    let ghost popped = self.log();
                    start = self.regs.now();
                    end = deadline_after(start, self.timeout);
                    polls = POLL_LIMIT;
                    proof {
                        assert(self.log()[popped.len() as int] == Access::Now(start));
                        assert(standing_since(entered, self.log(), start));
                        lemma_wait_begins(entered, popped, start, self.budget());
                        mark = self.log().len();
                    }
                },
                Ok(Some(SessionRxStep::Ended)) => {
                    proof {
                        lemma_partway_words(entered, self.log(), words, words);
                    }
                    return Err(IOError::UnexpectedStop);
                },
                Ok(None) => {
                    proof {
                        lemma_data_looked_for(entered, round, self.log(), None, start, self.budget());
                    }
                    let now: u64 = self.regs.now();
                    proof {
                        lemma_standing(entered, round, self.log(), start);
                        lemma_partway_words(entered, self.log(), words, words);
                    }
                    if now > end || polls == 0 {
                        return Err(IOError::Timeout);
                    }
                    polls = polls - 1;
                },
                Err(e) => {
                    proof {
                        lemma_rx_fails(entered, round, self.log(), session, open@, e, self.budget(), words);
                    }
                    return Err(e);
                },
            }
        }
        Ok(())
    }

    /// Drains one seam chunk, `read[from..to]` (at most 256 bytes, one
    /// RECEIVE command), on the open transaction. Errors recover.
    fn blocking_read_seam_chunk(&mut self, read: &mut [u8], from: usize, to: usize, open: Session) -> (r: Result<
        Session,
        IOError,
    >)
        requires
            old(self).owns(open@),
            open@.phase.addressed(),
            from < to <= old(read)@.len(),
            to - from <= 256,
        ensures
            final(self).same_setup(old(self)),
            final(read)@.len() == old(read)@.len(),
            final(read)@.take(from as int) == old(read)@.take(from as int),
            match r {
                Ok(next) => {
                    &&& final(self).owns(next@)
                    &&& next@.phase == SessionPhase::Stable(Abort::ReadStreaming)
                    &&& moved(
                        old(self).log(),
                        final(self).log(),
                        seq![receive_word((to - from) as nat)],
                        final(read)@.subrange(from as int, to as int),
                    )
                    &&& kept_time(old(self).log(), final(self).log(), old(self).budget())
                },
                Err(e) => {
                    &&& final(self).idle()
                    &&& aborted(
                        old(self).log(),
                        final(self).log(),
                        old(self).budget(),
                        seq![receive_word((to - from) as nat)],
                        e,
                        true,
                    )
                },
            },
    {
        let ghost entered = self.log();
        let ghost all = seq![receive_word((to - from) as nat)];
        let mut open = open;
        match self.seam_chunk_body(read, from, to, &mut open) {
            Ok(_) => Ok(open),
            Err(e) => {
                let ghost log = self.log();
                open.abandon(&mut self.regs, &mut self.info);
                proof {
                    lemma_aborted(entered, log, self.log(), self.budget(), all, e, open@.phase.clocks(), true);
                }
                Err(e)
            },
        }
    }

    /// One read as re-addressed 256-byte chunks, each ended with a STOP. Not
    /// atomic. `open` is the first chunk's already open transaction; the
    /// final chunk's is returned open.
    fn blocking_read_seamed(&mut self, address: u8, read: &mut [u8], open: Session) -> (r: Result<Session, IOError>)
        requires
            old(self).owns(open@),
            open@.phase.addressed(),
            address < 0x80,
            old(read)@.len() > 0,
        ensures
            final(self).same_setup(old(self)),
            final(read)@.len() == old(read)@.len(),
            match r {
                Ok(next) => {
                    &&& final(self).owns(next@)
                    &&& next@.phase == SessionPhase::Stable(Abort::ReadStreaming)
                    &&& moved(
                        old(self).log(),
                        final(self).log(),
                        seamed_commands(address, old(read)@.len()),
                        final(read)@,
                    )
                    &&& kept_time(old(self).log(), final(self).log(), old(self).budget())
                },
                Err(e) => {
                    &&& final(self).idle()
                    &&& aborted(
                        old(self).log(),
                        final(self).log(),
                        old(self).budget(),
                        seamed_commands(address, old(read)@.len()),
                        e,
                        true,
                    )
                },
            },
    {
        let ghost entered = self.log();
        let total: usize = read.len();
        let ghost all = seamed_commands(address, total as nat);
        let ghost mut words: Seq<Mtdr> = Seq::empty();
        let mut open = open;
        let mut from: usize = 0;
        proof {
            lemma_moved_nothing(entered, self.log());
            lemma_kept_nothing(entered, self.budget());
            assert(read@.take(0) =~= Seq::<u8>::empty());
            assert(words + all =~= all);
        }
        while total - from > 256
            invariant
                self.same_setup(old(self)),
                self.owns(open@),
                open@.phase.addressed(),
                address < 0x80,
                entered == old(self).log(),
                read@.len() == total,
                total == old(read)@.len(),
                from < total,
                all == seamed_commands(address, total as nat),
                words + seamed_commands(address, (total - from) as nat) == all,
                moved(entered, self.log(), words, read@.take(from as int)),
                kept_time(entered, self.log(), self.budget()),
            decreases total - from,
        {
            let ghost round = self.log();
            let ghost before = read@.take(from as int);
            match self.blocking_read_seam_chunk(read, from, from + 256, open) {
                Err(e) => {
                    proof {
                        let rest = seq![receive_word(256)];
                        assert forall|i: int| 0 <= i < (words + rest).len() implies #[trigger] (words + rest)[i]
                            == all[i] by {
                            assert(all[i] == (words + seamed_commands(address, (total - from) as nat))[i]);
                        }
                        lemma_aborted_earlier(
                            entered,
                            round,
                            self.log(),
                            self.budget(),
                            words,
                            rest,
                            all,
                            e,
                            true,
                        );
                    }
                    return Err(e);
                },
                Ok(drained) => {
                    let ghost chunk = read@.subrange(from as int, from + 256);
                    let ghost one = self.log();
                    proof {
                        lemma_moved(entered, round, one, words, seq![receive_word(256)], before, chunk);
                        lemma_kept_on(entered, round, one, self.budget());
                        assert(before + chunk =~= read@.take(from + 256));
                    }
                    // A repeated START right after the automatic NACK of a
                    // consumed RECEIVE is not reliably accepted, so every
                    // chunk but the last ends with a STOP.
                    match self.stop(drained) {
                        Err(e) => {
                            proof {
                                let done = words + seq![receive_word(256)];
                                let rest = seq![stop_word()];
                                assert forall|i: int| 0 <= i < (done + rest).len() implies #[trigger] (done
                                    + rest)[i] == all[i] by {
                                    assert(all[i] == (words + seamed_commands(address, (total - from) as nat))[i]);
                                }
                                lemma_aborted_earlier(
                                    entered,
                                    one,
                                    self.log(),
                                    self.budget(),
                                    done,
                                    rest,
                                    all,
                                    e,
                                    false,
                                );
                                lemma_aborted_weaken(entered, self.log(), self.budget(), all, all, e, false, true);
                            }
                            return Err(e);
                        },
                        Ok(_) => {},
                    }
                    let ghost two = self.log();
                    proof {
                        lemma_kept_on(entered, one, two, self.budget());
                        lemma_moved(
                            entered,
                            one,
                            two,
                            words + seq![receive_word(256)],
                            seq![stop_word()],
                            read@.take(from + 256),
                            Seq::empty(),
                        );
                    }
                    match self.start_fresh(address, true) {
                        Err(e) => {
                            proof {
                                let done = words + seq![receive_word(256)] + seq![stop_word()];
                                let rest = seq![start_word(address, true)];
                                assert forall|i: int| 0 <= i < (done + rest).len() implies #[trigger] (done
                                    + rest)[i] == all[i] by {
                                    assert(all[i] == (words + seamed_commands(address, (total - from) as nat))[i]);
                                }
                                lemma_aborted_earlier(
                                    entered,
                                    two,
                                    self.log(),
                                    self.budget(),
                                    done,
                                    rest,
                                    all,
                                    e,
                                    true,
                                );
                            }
                            return Err(e);
                        },
                        Ok(next) => {
                            open = next;
                        },
                    }
                    proof {
                        lemma_kept_on(entered, two, self.log(), self.budget());
                        lemma_moved(
                            entered,
                            two,
                            self.log(),
                            words + seq![receive_word(256)] + seq![stop_word()],
                            seq![start_word(address, true)],
                            read@.take(from + 256) + Seq::<u8>::empty(),
                            Seq::empty(),
                        );
                        assert(read@.take(from + 256) + Seq::<u8>::empty() + Seq::<u8>::empty() =~= read@.take(
                            from + 256,
                        ));
                        let rest = seamed_commands(address, (total - from - 256) as nat);
                        let seam = seq![receive_word(256), stop_word(), start_word(address, true)];
                        assert(words + seq![receive_word(256)] + seq![stop_word()] + seq![start_word(address, true)]
                            =~= words + seam);
                        assert((words + seam) + rest =~= words + (seam + rest));
                        words = words + seam;
                    }
                    from = from + 256;
                },
            }
        }
        let ghost round = self.log();
        let ghost before = read@.take(from as int);
        match self.blocking_read_seam_chunk(read, from, total, open) {
            Err(e) => {
                proof {
                    let rest = seq![receive_word((total - from) as nat)];
                    assert(words + rest =~= all);
                    lemma_aborted_earlier(entered, round, self.log(), self.budget(), words, rest, all, e, true);
                }
                Err(e)
            },
            Ok(next) => {
                proof {
                    let tail = read@.subrange(from as int, total as int);
                    lemma_kept_on(entered, round, self.log(), self.budget());
                    lemma_moved(
                        entered,
                        round,
                        self.log(),
                        words,
                        seq![receive_word((total - from) as nat)],
                        before,
                        tail,
                    );
                    assert(before + tail =~= read@);
                }
                Ok(next)
            },
        }
    }

    /// The read engine past the address phase: drains the open transaction
    /// with chained RECEIVE commands, falling back, only when the caller opted
    /// in, to re-addressed chunks. A chained read that died leaves the device
    /// in an unknown state, so re-reading would return shifted data as
    /// success.
    #[verifier::rlimit(80)]
    fn blocking_read_resume(&mut self, address: u8, read: &mut [u8], open: Session) -> (r: Result<Session, IOError>)
        requires
            old(self).owns(open@),
            open@.phase.addressed(),
            address < 0x80,
            old(read)@.len() > 0,
        ensures
            final(self).same_setup(old(self)),
            final(read)@.len() == old(read)@.len(),
            match r {
                Ok(next) => {
                    &&& final(self).owns(next@)
                    &&& next@.phase == SessionPhase::Stable(Abort::ReadStreaming)
                    &&& read_done(
                        old(self).log(),
                        final(self).log(),
                        address,
                        final(read)@,
                        old(self).allows_chunks(),
                    )
                    &&& kept_time(old(self).log(), final(self).log(), old(self).budget())
                },
                Err(e) => {
                    &&& final(self).idle()
                    &&& read_aborted(
                        old(self).log(),
                        final(self).log(),
                        old(self).budget(),
                        receive_commands(old(read)@.len()),
                        seq![start_word(address, true)] + seamed_commands(address, old(read)@.len()),
                        e,
                        old(self).allows_chunks(),
                    )
                    &&& old(self).allows_chunks() && retryable(e) ==> exists|retry: Seq<Access>| #[trigger]
                        cut_short(old(self).log(), retry, receive_commands(old(read)@.len()), true) && aborted(
                            retry,
                            final(self).log(),
                            old(self).budget(),
                            seq![start_word(address, true)] + seamed_commands(address, old(read)@.len()),
                            e,
                            true,
                        )
                },
            },
    {
        let ghost entered = self.log();
        let ghost all = receive_commands(read@.len());
        let ghost first = seq![start_word(address, true)];
        let ghost seams = seamed_commands(address, read@.len());
        match self.blocking_read_chained(read, open) {
            Ok(next) => Ok(next),
            Err(e) => {
                let ghost retry = self.log();
                if self.allow_chunked_reads && (e == IOError::UnexpectedStop || e == IOError::Timeout) {
                    // The failed attempt was recovered, so the fallback starts
                    // fresh.
                    match self.start_fresh(address, true) {
                        Err(e) => {
                            proof {
                                lemma_aborted_weaken(
                                    retry,
                                    self.log(),
                                    self.budget(),
                                    first,
                                    first + seams,
                                    e,
                                    true,
                                    true,
                                );
                            }
                            Err(e)
                        },
                        Ok(open) => {
                            let ghost opened = self.log();
                            match self.blocking_read_seamed(address, read, open) {
                                Ok(next) => {
                                    proof {
                                        lemma_moved(
                                            retry,
                                            opened,
                                            self.log(),
                                            first,
                                            seamed_commands(address, read@.len()),
                                            Seq::empty(),
                                            read@,
                                        );
                                        assert(Seq::<u8>::empty() + read@ =~= read@);
                                        assert(read_retried(entered, retry, self.log(), address, read@));
                                        lemma_kept_on(retry, opened, self.log(), self.budget());
                                        lemma_retry_kept(entered, retry, self.log(), address, read@, self.budget());
                                    }
                                    Ok(next)
                                },
                                Err(e) => {
                                    proof {
                                        lemma_aborted_earlier(
                                            retry,
                                            opened,
                                            self.log(),
                                            self.budget(),
                                            first,
                                            seams,
                                            first + seams,
                                            e,
                                            true,
                                        );
                                    }
                                    Err(e)
                                },
                            }
                        },
                    }
                } else {
                    Err(e)
                }
            },
        }
    }
}

/// The commands of a write, but for its STOP.
pub open spec fn write_commands(address: u8, data: Seq<u8>) -> Seq<Mtdr> {
    seq![start_word(address, false)] + transmit_commands(data)
}

/// The commands of a read as one transaction, but for its STOP.
pub open spec fn read_commands(address: u8, len: nat) -> Seq<Mtdr> {
    seq![start_word(address, true)] + receive_commands(len)
}

/// The commands of a read in chunks, but for its last STOP.
pub open spec fn chunked_commands(address: u8, len: nat) -> Seq<Mtdr> {
    seq![start_word(address, true)] + seamed_commands(address, len)
}

/// A read failed before its transaction was left open.
pub open spec fn read_txn_aborted(
    before: Seq<Access>,
    after: Seq<Access>,
    timeout: u64,
    address: u8,
    len: nat,
    error: IOError,
    allow_chunks: bool,
) -> bool {
    read_aborted(
        before,
        after,
        timeout,
        read_commands(address, len),
        chunked_commands(address, len),
        error,
        allow_chunks,
    )
}

/// A read failed whose START failed.
proof fn lemma_start_aborted(
    before: Seq<Access>,
    after: Seq<Access>,
    timeout: u64,
    address: u8,
    len: nat,
    error: IOError,
)
    requires
        aborted(before, after, timeout, seq![start_word(address, true)], error, true),
    ensures
        read_txn_aborted(before, after, timeout, address, len, error, false),
        read_txn_aborted(before, after, timeout, address, len, error, true),
{
    let first = seq![start_word(address, true)];
    lemma_good_weaken(before, after, timeout, first, read_commands(address, len), error, false);
    lemma_good_weaken(before, after, timeout, first, read_commands(address, len), error, true);
}

/// A read failed that failed past its START.
proof fn lemma_read_aborted(
    before: Seq<Access>,
    opened: Seq<Access>,
    after: Seq<Access>,
    timeout: u64,
    address: u8,
    len: nat,
    error: IOError,
    allow_chunks: bool,
)
    requires
        moved(before, opened, seq![start_word(address, true)], Seq::empty()),
        read_aborted(
            opened,
            after,
            timeout,
            receive_commands(len),
            chunked_commands(address, len),
            error,
            allow_chunks,
        ),
    ensures
        read_txn_aborted(before, after, timeout, address, len, error, allow_chunks),
{
    let first = seq![start_word(address, true)];
    let rest = receive_commands(len);
    if aborted_for_good(opened, after, timeout, rest, error, allow_chunks) {
        lemma_good_earlier(before, opened, after, timeout, first, rest, first + rest, error, allow_chunks);
    } else {
        let retry = choose|retry: Seq<Access>| #[trigger]
            cut_short(opened, retry, rest, true) && aborted(
                retry,
                after,
                timeout,
                chunked_commands(address, len),
                error,
                true,
            );
        lemma_cut_earlier(before, opened, retry, first, rest, first + rest, true);
    }
}

/// One read opened by its START and not yet closed.
pub open spec fn read_opened(
    before: Seq<Access>,
    after: Seq<Access>,
    address: u8,
    data: Seq<u8>,
    allow_chunks: bool,
) -> bool {
    exists|opened: Seq<Access>|
        {
            &&& #[trigger] moved(before, opened, seq![start_word(address, true)], Seq::empty())
            &&& read_done(opened, after, address, data, allow_chunks)
        }
}

/// A read failed: before its transaction was left open, or at its STOP.
pub open spec fn read_failed(
    before: Seq<Access>,
    after: Seq<Access>,
    timeout: u64,
    address: u8,
    data: Seq<u8>,
    error: IOError,
    allow_chunks: bool,
) -> bool {
    ||| read_txn_aborted(before, after, timeout, address, data.len(), error, allow_chunks)
    ||| exists|open: Seq<Access>|
        {
            &&& #[trigger] read_opened(before, open, address, data, allow_chunks)
            &&& aborted(open, after, timeout, seq![stop_word()], error, false)
        }
}

/// A read from its START to its STOP: one transaction, or, only where the
/// caller allowed it, a repeated one in chunks.
pub open spec fn read_closed(
    before: Seq<Access>,
    after: Seq<Access>,
    address: u8,
    data: Seq<u8>,
    allow_chunks: bool,
) -> bool {
    ||| read_transaction(before, after, address, data)
    ||| allow_chunks && read_repeated(before, after, address, data)
}

pub proof fn lemma_read_closed(
    before: Seq<Access>,
    open: Seq<Access>,
    after: Seq<Access>,
    address: u8,
    data: Seq<u8>,
    allow_chunks: bool,
)
    requires
        data.len() > 0,
        read_opened(before, open, address, data, allow_chunks),
        moved(open, after, seq![stop_word()], Seq::empty()),
    ensures
        read_closed(before, after, address, data, allow_chunks),
{
    let start = seq![start_word(address, true)];
    let stop = seq![stop_word()];
    let none = Seq::<u8>::empty();
    let opened = choose|opened: Seq<Access>|
        {
            &&& #[trigger] moved(before, opened, start, Seq::empty())
            &&& read_done(opened, open, address, data, allow_chunks)
        };
    assert(none + data + none =~= data);
    if read_chained(opened, open, data) {
        let receives = commands(open).skip(commands(opened).len() as int);
        lemma_moved(before, opened, open, start, receives, none, data);
        lemma_moved(before, open, after, start + receives, stop, none + data, none);
        let words = commands(after).skip(commands(before).len() as int);
        assert(words =~= start + receives + stop);
        assert(words.subrange(1, words.len() - 1) =~= receives);
        if receives.len() != receive_commands(data.len()).len() {
            lemma_held_earlier(before, opened, open, 1);
            assert(commands(after) =~= commands(open).push(stop_word()));
            assert(received(after) =~= received(open));
        }
        assert(read_transaction(before, after, address, data));
    } else {
        let retry = choose|retry: Seq<Access>| #[trigger] read_retried(opened, retry, open, address, data);
        let receives = receive_commands(data.len());
        lemma_cut_earlier(before, opened, retry, start, receives, start + receives, true);
        let seamed = start + seamed_commands(address, data.len());
        lemma_moved(retry, open, after, seamed, stop, data, none);
        assert(data + none =~= data);
        assert(seamed_read(retry, after, address, data));
    }
}

impl<H: ControllerPort> I2c<H> {
    /// Reads on a fresh transaction, leaving it open.
    fn blocking_read_txn_fresh(&mut self, address: u8, read: &mut [u8]) -> (r: Result<Session, IOError>)
        requires
            old(self).idle(),
        ensures
            final(self).same_setup(old(self)),
            final(read)@.len() == old(read)@.len(),
            match r {
                Ok(open) => {
                    &&& old(read)@.len() > 0
                    &&& address < 0x80
                    &&& final(self).owns(open@)
                    &&& open@.phase == SessionPhase::Stable(Abort::ReadStreaming)
                    &&& read_opened(
                        old(self).log(),
                        final(self).log(),
                        address,
                        final(read)@,
                        old(self).allows_chunks(),
                    )
                    &&& kept_time(old(self).log(), final(self).log(), old(self).budget())
                },
                Err(e) => {
                    &&& final(self).idle()
                    &&& if old(read)@.len() == 0 || address >= 0x80 {
                        &&& e == (if old(read)@.len() == 0 {
                            IOError::InvalidReadBufferLength
                        } else {
                            IOError::AddressOutOfRange(address)
                        })
                        &&& final(self).log() == old(self).log()
                        &&& final(read)@ == old(read)@
                    } else {
                        read_txn_aborted(
                            old(self).log(),
                            final(self).log(),
                            old(self).budget(),
                            address,
                            old(read)@.len(),
                            e,
                            old(self).allows_chunks(),
                        )
                    }
                },
            },
    {
        let ghost entered = self.log();
        if read.len() == 0 {
            return Err(IOError::InvalidReadBufferLength);
        }
        match self.start_fresh(address, true) {
            Err(e) => {
                proof {
                    if address < 0x80 {
                        lemma_start_aborted(entered, self.log(), self.budget(), address, read@.len(), e);
                    }
                }
                Err(e)
            },
            Ok(open) => {
                let ghost opened = self.log();
                match self.blocking_read_resume(address, read, open) {
                    Ok(next) => {
                        proof {
                            lemma_kept_on(entered, opened, self.log(), self.budget());
                        }
                        Ok(next)
                    },
                    Err(e) => {
                        proof {
                            lemma_read_aborted(
                                entered,
                                opened,
                                self.log(),
                                self.budget(),
                                address,
                                read@.len(),
                                e,
                                self.allows_chunks(),
                            );
                        }
                        Err(e)
                    },
                }
            },
        }
    }

    /// Reads continuing an open transaction by a repeated START, leaving the
    /// successor open.
    fn blocking_read_txn_continue(&mut self, address: u8, read: &mut [u8], open: Session) -> (r: Result<
        Session,
        IOError,
    >)
        requires
            old(self).owns(open@),
            open@.phase is Stable,
        ensures
            final(self).same_setup(old(self)),
            final(read)@.len() == old(read)@.len(),
            match r {
                Ok(next) => {
                    &&& old(read)@.len() > 0
                    &&& address < 0x80
                    &&& final(self).owns(next@)
                    &&& next@.phase == SessionPhase::Stable(Abort::ReadStreaming)
                    &&& read_opened(
                        old(self).log(),
                        final(self).log(),
                        address,
                        final(read)@,
                        old(self).allows_chunks(),
                    )
                    &&& kept_time(old(self).log(), final(self).log(), old(self).budget())
                },
                Err(e) => {
                    &&& final(self).idle()
                    &&& if old(read)@.len() == 0 || address >= 0x80 {
                        &&& e == (if old(read)@.len() == 0 {
                            IOError::InvalidReadBufferLength
                        } else {
                            IOError::AddressOutOfRange(address)
                        })
                        &&& recovered(old(self).log(), final(self).log(), open@.phase.clocks())
                        &&& final(read)@ == old(read)@
                    } else {
                        read_txn_aborted(
                            old(self).log(),
                            final(self).log(),
                            old(self).budget(),
                            address,
                            old(read)@.len(),
                            e,
                            old(self).allows_chunks(),
                        )
                    }
                },
            },
    {
        let ghost entered = self.log();
        if read.len() == 0 {
            // Recovers the open transaction rather than silently abandoning
            // it.
            open.abandon(&mut self.regs, &mut self.info);
            return Err(IOError::InvalidReadBufferLength);
        }
        match self.start_continue(address, true, open) {
            Err(e) => {
                proof {
                    if address < 0x80 {
                        lemma_start_aborted(entered, self.log(), self.budget(), address, read@.len(), e);
                    }
                }
                Err(e)
            },
            Ok(open) => {
                let ghost opened = self.log();
                match self.blocking_read_resume(address, read, open) {
                    Ok(next) => {
                        proof {
                            lemma_kept_on(entered, opened, self.log(), self.budget());
                        }
                        Ok(next)
                    },
                    Err(e) => {
                        proof {
                            lemma_read_aborted(
                                entered,
                                opened,
                                self.log(),
                                self.budget(),
                                address,
                                read@.len(),
                                e,
                                self.allows_chunks(),
                            );
                        }
                        Err(e)
                    },
                }
            },
        }
    }

    /// The body of [`Self::blocking_write_body`], which leaves the session to
    /// its caller.
    fn write_bytes(&mut self, write: &[u8], open: &mut Session) -> (r: Result<(), IOError>)
        requires
            old(self).owns(old(open)@),
            old(open)@.phase.writable(),
        ensures
            final(self).same_setup(old(self)),
            final(self).session_open(),
            match r {
                Ok(_) => {
                    &&& final(self).owns(final(open)@)
                    &&& final(open)@ == old(open)@
                    &&& moved(old(self).log(), final(self).log(), transmit_commands(write@), Seq::empty())
                    &&& kept_time(old(self).log(), final(self).log(), old(self).budget())
                },
                Err(e) => {
                    &&& failed(
                        old(self).log(),
                        final(self).log(),
                        old(self).budget(),
                        transmit_commands(write@),
                        e,
                    )
                    &&& still_owned(old(open)@, final(open)@)
                    &&& final(self).keeps(final(open)@)
                },
            },
    {
        let ghost entered = self.log();
        let mut place: usize = 0;
        proof {
            lemma_moved_nothing(entered, self.log());
            lemma_kept_nothing(entered, self.budget());
            assert(transmit_commands(write@.take(0)) =~= Seq::<Mtdr>::empty());
        }
        while place < write.len()
            invariant
                self.same_setup(old(self)),
                self.session_open(),
                self.owns(open@),
                open@ == old(open)@,
                open@.phase.writable(),
                entered == old(self).log(),
                place <= write@.len(),
                moved(entered, self.log(), transmit_commands(write@.take(place as int)), Seq::empty()),
                kept_time(entered, self.log(), self.budget()),
            decreases write@.len() - place,
        {
            let ghost round = self.log();
            let byte: u8 = write[place];
            match self.enqueue_session_blocking(ControllerAction::transmit(byte), open) {
                Ok(_) => {},
                Err(e) => {
                    proof {
                        let gone = transmit_commands(write@.take(place as int));
                        lemma_failed_earlier(
                            entered,
                            round,
                            self.log(),
                            self.budget(),
                            gone,
                            Seq::empty(),
                            transmit_commands(write@),
                            e,
                        );
                    }
                    return Err(e);
                },
            }
            proof {
                lemma_kept_on(entered, round, self.log(), self.budget());
                lemma_moved(
                    entered,
                    round,
                    self.log(),
                    transmit_commands(write@.take(place as int)),
                    seq![transmit_word(byte)],
                    Seq::empty(),
                    Seq::empty(),
                );
                assert(transmit_commands(write@.take(place as int)) + seq![transmit_word(byte)] =~= transmit_commands(
                    write@.take(place + 1),
                ));
                assert(Seq::<u8>::empty() + Seq::<u8>::empty() =~= Seq::<u8>::empty());
            }
            place = place + 1;
        }
        assert(write@.take(place as int) =~= write@);
        Ok(())
    }

    /// The write engine past the address phase. An empty write is no error:
    /// it probes whether the address is acknowledged. Errors recover.
    fn blocking_write_body(&mut self, write: &[u8], open: Session) -> (r: Result<Session, IOError>)
        requires
            old(self).owns(open@),
            open@.phase.writable(),
        ensures
            final(self).same_setup(old(self)),
            match r {
                Ok(next) => {
                    &&& final(self).owns(next@)
                    &&& next@.phase.writable()
                    &&& moved(old(self).log(), final(self).log(), transmit_commands(write@), Seq::empty())
                    &&& kept_time(old(self).log(), final(self).log(), old(self).budget())
                },
                Err(e) => {
                    &&& final(self).idle()
                    &&& aborted(
                        old(self).log(),
                        final(self).log(),
                        old(self).budget(),
                        transmit_commands(write@),
                        e,
                        false,
                    )
                },
            },
    {
        let ghost entered = self.log();
        let mut open = open;
        match self.write_bytes(write, &mut open) {
            Ok(_) => Ok(open),
            Err(e) => {
                let ghost log = self.log();
                open.abandon(&mut self.regs, &mut self.info);
                proof {
                    lemma_aborted(
                        entered,
                        log,
                        self.log(),
                        self.budget(),
                        transmit_commands(write@),
                        e,
                        open@.phase.clocks(),
                        false,
                    );
                }
                Err(e)
            },
        }
    }

    /// Writes on a fresh transaction, leaving it open.
    fn blocking_write_txn_fresh(&mut self, address: u8, write: &[u8]) -> (r: Result<Session, IOError>)
        requires
            old(self).idle(),
        ensures
            final(self).same_setup(old(self)),
            match r {
                Ok(open) => {
                    &&& address < 0x80
                    &&& final(self).owns(open@)
                    &&& open@.phase.writable()
                    &&& write_opened(old(self).log(), final(self).log(), address, write@)
                    &&& kept_time(old(self).log(), final(self).log(), old(self).budget())
                },
                Err(e) => {
                    &&& final(self).idle()
                    &&& if address >= 0x80 {
                        e == IOError::AddressOutOfRange(address) && final(self).log() == old(self).log()
                    } else {
                        aborted(
                            old(self).log(),
                            final(self).log(),
                            old(self).budget(),
                            write_commands(address, write@),
                            e,
                            false,
                        )
                    }
                },
            },
    {
        let ghost entered = self.log();
        let ghost first = seq![start_word(address, false)];
        let ghost all = write_commands(address, write@);
        match self.start_fresh(address, false) {
            Err(e) => {
                proof {
                    if address < 0x80 {
                        lemma_aborted_weaken(entered, self.log(), self.budget(), first, all, e, false, false);
                    }
                }
                Err(e)
            },
            Ok(open) => {
                let ghost opened = self.log();
                match self.blocking_write_body(write, open) {
                    Ok(next) => {
                        proof {
                            lemma_kept_on(entered, opened, self.log(), self.budget());
                            lemma_moved(
                                entered,
                                opened,
                                self.log(),
                                seq![start_word(address, false)],
                                transmit_commands(write@),
                                Seq::empty(),
                                Seq::empty(),
                            );
                            assert(Seq::<u8>::empty() + Seq::<u8>::empty() =~= Seq::<u8>::empty());
                        }
                        Ok(next)
                    },
                    Err(e) => {
                        proof {
                            lemma_aborted_earlier(
                                entered,
                                opened,
                                self.log(),
                                self.budget(),
                                first,
                                transmit_commands(write@),
                                all,
                                e,
                                false,
                            );
                        }
                        Err(e)
                    },
                }
            },
        }
    }

    /// Writes continuing an open transaction, leaving the successor open.
    fn blocking_write_txn_continue(&mut self, address: u8, write: &[u8], open: Session) -> (r: Result<Session, IOError>)
        requires
            old(self).owns(open@),
            open@.phase is Stable,
        ensures
            final(self).same_setup(old(self)),
            match r {
                Ok(next) => {
                    &&& address < 0x80
                    &&& final(self).owns(next@)
                    &&& next@.phase.writable()
                    &&& write_opened(old(self).log(), final(self).log(), address, write@)
                    &&& kept_time(old(self).log(), final(self).log(), old(self).budget())
                },
                Err(e) => {
                    &&& final(self).idle()
                    &&& if address >= 0x80 {
                        e == IOError::AddressOutOfRange(address) && recovered(
                            old(self).log(),
                            final(self).log(),
                            open@.phase.clocks(),
                        )
                    } else {
                        aborted(
                            old(self).log(),
                            final(self).log(),
                            old(self).budget(),
                            write_commands(address, write@),
                            e,
                            open@.phase.clocks(),
                        )
                    }
                },
            },
    {
        let ghost entered = self.log();
        let ghost clocks = open@.phase.clocks();
        let ghost first = seq![start_word(address, false)];
        let ghost all = write_commands(address, write@);
        match self.start_continue(address, false, open) {
            Err(e) => {
                proof {
                    if address < 0x80 {
                        lemma_aborted_weaken(entered, self.log(), self.budget(), first, all, e, clocks, clocks);
                    }
                }
                Err(e)
            },
            Ok(open) => {
                let ghost opened = self.log();
                match self.blocking_write_body(write, open) {
                    Ok(next) => {
                        proof {
                            lemma_kept_on(entered, opened, self.log(), self.budget());
                            lemma_moved(
                                entered,
                                opened,
                                self.log(),
                                seq![start_word(address, false)],
                                transmit_commands(write@),
                                Seq::empty(),
                                Seq::empty(),
                            );
                            assert(Seq::<u8>::empty() + Seq::<u8>::empty() =~= Seq::<u8>::empty());
                        }
                        Ok(next)
                    },
                    Err(e) => {
                        proof {
                            lemma_aborted_earlier(
                                entered,
                                opened,
                                self.log(),
                                self.budget(),
                                first,
                                transmit_commands(write@),
                                all,
                                e,
                                false,
                            );
                            lemma_aborted_weaken(entered, self.log(), self.budget(), all, all, e, false, clocks);
                        }
                        Err(e)
                    },
                }
            },
        }
    }

    /// Reads, ending its fresh transaction with a trailing STOP.
    fn blocking_read_close_fresh(&mut self, address: u8, read: &mut [u8]) -> (r: Result<(), IOError>)
        requires
            old(self).idle(),
        ensures
            final(self).same_setup(old(self)),
            final(self).idle(),
            r is Ok ==> kept_time(old(self).log(), final(self).log(), old(self).budget()),
            final(read)@.len() == old(read)@.len(),
            if old(read)@.len() == 0 || address >= 0x80 {
                &&& r == Err::<(), IOError>(
                    if old(read)@.len() == 0 {
                        IOError::InvalidReadBufferLength
                    } else {
                        IOError::AddressOutOfRange(address)
                    },
                )
                &&& final(self).log() == old(self).log()
                &&& final(read)@ == old(read)@
            } else {
                match r {
                    Ok(_) => read_closed(
                        old(self).log(),
                        final(self).log(),
                        address,
                        final(read)@,
                        old(self).allows_chunks(),
                    ),
                    Err(e) => read_failed(
                        old(self).log(),
                        final(self).log(),
                        old(self).budget(),
                        address,
                        final(read)@,
                        e,
                        old(self).allows_chunks(),
                    ),
                }
            },
    {
        let ghost entered = self.log();
        match self.blocking_read_txn_fresh(address, read) {
            Err(e) => Err(e),
            Ok(open) => {
                let ghost opened = self.log();
                match self.stop(open) {
                    Ok(_) => {
                        proof {
                            lemma_kept_on(entered, opened, self.log(), self.budget());
                            lemma_read_closed(entered, opened, self.log(), address, read@, self.allows_chunks());
                        }
                        Ok(())
                    },
                    Err(e) => {
                        assert(read_opened(entered, opened, address, read@, self.allows_chunks()));
                        Err(e)
                    },
                }
            },
        }
    }

    /// Reads, consuming an open transaction and ending with a STOP.
    fn blocking_read_close_continue(&mut self, address: u8, read: &mut [u8], open: Session) -> (r: Result<
        (),
        IOError,
    >)
        requires
            old(self).owns(open@),
            open@.phase is Stable,
            old(read)@.len() > 0,
            address < 0x80,
        ensures
            final(self).same_setup(old(self)),
            final(self).idle(),
            r is Ok ==> kept_time(old(self).log(), final(self).log(), old(self).budget()),
            final(read)@.len() == old(read)@.len(),
            match r {
                Ok(_) => read_closed(
                    old(self).log(),
                    final(self).log(),
                    address,
                    final(read)@,
                    old(self).allows_chunks(),
                ),
                Err(e) => read_failed(
                    old(self).log(),
                    final(self).log(),
                    old(self).budget(),
                    address,
                    final(read)@,
                    e,
                    old(self).allows_chunks(),
                ),
            },
    {
        let ghost entered = self.log();
        match self.blocking_read_txn_continue(address, read, open) {
            Err(e) => Err(e),
            Ok(open) => {
                let ghost opened = self.log();
                match self.stop(open) {
                    Ok(_) => {
                        proof {
                            lemma_kept_on(entered, opened, self.log(), self.budget());
                            lemma_read_closed(entered, opened, self.log(), address, read@, self.allows_chunks());
                        }
                        Ok(())
                    },
                    Err(e) => {
                        assert(read_opened(entered, opened, address, read@, self.allows_chunks()));
                        Err(e)
                    },
                }
            },
        }
    }

    /// Writes, ending its fresh transaction with a trailing STOP.
    fn blocking_write_close_fresh(&mut self, address: u8, write: &[u8]) -> (r: Result<(), IOError>)
        requires
            old(self).idle(),
        ensures
            final(self).same_setup(old(self)),
            final(self).idle(),
            r is Ok ==> kept_time(old(self).log(), final(self).log(), old(self).budget()),
            if address >= 0x80 {
                &&& r == Err::<(), IOError>(IOError::AddressOutOfRange(address))
                &&& final(self).log() == old(self).log()
            } else {
                match r {
                    Ok(_) => write_transaction(old(self).log(), final(self).log(), address, write@),
                    Err(e) => aborted(
                        old(self).log(),
                        final(self).log(),
                        old(self).budget(),
                        write_commands(address, write@) + seq![stop_word()],
                        e,
                        false,
                    ),
                }
            },
    {
        let ghost entered = self.log();
        let ghost body = write_commands(address, write@);
        let ghost stop = seq![stop_word()];
        match self.blocking_write_txn_fresh(address, write) {
            Err(e) => {
                proof {
                    if address < 0x80 {
                        lemma_aborted_weaken(
                            entered,
                            self.log(),
                            self.budget(),
                            body,
                            body + stop,
                            e,
                            false,
                            false,
                        );
                    }
                }
                Err(e)
            },
            Ok(open) => {
                let ghost opened = self.log();
                match self.stop(open) {
                    Ok(_) => {
                        proof {
                            lemma_kept_on(entered, opened, self.log(), self.budget());
                            lemma_moved(
                                entered,
                                opened,
                                self.log(),
                                seq![start_word(address, false)] + transmit_commands(write@),
                                seq![stop_word()],
                                Seq::empty(),
                                Seq::empty(),
                            );
                            assert(Seq::<u8>::empty() + Seq::<u8>::empty() =~= Seq::<u8>::empty());
                        }
                        Ok(())
                    },
                    Err(e) => {
                        proof {
                            lemma_aborted_earlier(
                                entered,
                                opened,
                                self.log(),
                                self.budget(),
                                body,
                                stop,
                                body + stop,
                                e,
                                false,
                            );
                        }
                        Err(e)
                    },
                }
            },
        }
    }

    /// Reads data from the specified address into the provided buffer,
    /// blocking the caller until the operation is complete.
    ///
    /// A doomed request (an empty buffer, an address of more than seven bits)
    /// is rejected before the bus is touched. On success the buffer holds
    /// exactly the bytes that came in. Every other error recovers the bus.
    pub fn blocking_read(&mut self, address: u8, read: &mut [u8]) -> (r: Result<(), IOError>)
        requires
            old(self).idle(),
        ensures
            final(self).same_setup(old(self)),
            final(self).idle(),
            r is Ok ==> kept_time(old(self).log(), final(self).log(), old(self).budget()),
            final(read)@.len() == old(read)@.len(),
            if old(read)@.len() == 0 || address >= 0x80 {
                &&& r == Err::<(), IOError>(
                    if old(read)@.len() == 0 {
                        IOError::InvalidReadBufferLength
                    } else {
                        IOError::AddressOutOfRange(address)
                    },
                )
                &&& final(self).log() == old(self).log()
                &&& final(read)@ == old(read)@
            } else {
                match r {
                    Ok(_) => read_closed(
                        old(self).log(),
                        final(self).log(),
                        address,
                        final(read)@,
                        old(self).allows_chunks(),
                    ),
                    Err(e) => read_failed(
                        old(self).log(),
                        final(self).log(),
                        old(self).budget(),
                        address,
                        final(read)@,
                        e,
                        old(self).allows_chunks(),
                    ),
                }
            },
    {
        self.blocking_read_close_fresh(address, read)
    }

    /// Writes data to the specified address from the provided buffer,
    /// blocking the caller until the operation is complete.
    ///
    /// An empty write sends the address alone. Every error but that of the
    /// address recovers the bus, with nothing but STOPs.
    pub fn blocking_write(&mut self, address: u8, write: &[u8]) -> (r: Result<(), IOError>)
        requires
            old(self).idle(),
        ensures
            final(self).same_setup(old(self)),
            final(self).idle(),
            r is Ok ==> kept_time(old(self).log(), final(self).log(), old(self).budget()),
            if address >= 0x80 {
                &&& r == Err::<(), IOError>(IOError::AddressOutOfRange(address))
                &&& final(self).log() == old(self).log()
            } else {
                match r {
                    Ok(_) => write_transaction(old(self).log(), final(self).log(), address, write@),
                    Err(e) => aborted(
                        old(self).log(),
                        final(self).log(),
                        old(self).budget(),
                        write_commands(address, write@) + seq![stop_word()],
                        e,
                        false,
                    ),
                }
            },
    {
        self.blocking_write_close_fresh(address, write)
    }

    /// Writes and then reads in one transaction: the read half's repeated
    /// START follows the write half without a STOP.
    ///
    /// A doomed read is rejected before the write half touches the bus.
    pub fn blocking_write_read(&mut self, address: u8, write: &[u8], read: &mut [u8]) -> (r: Result<(), IOError>)
        requires
            old(self).idle(),
        ensures
            final(self).same_setup(old(self)),
            final(self).idle(),
            r is Ok ==> kept_time(old(self).log(), final(self).log(), old(self).budget()),
            final(read)@.len() == old(read)@.len(),
            if old(read)@.len() == 0 || address >= 0x80 {
                &&& r == Err::<(), IOError>(
                    if old(read)@.len() == 0 {
                        IOError::InvalidReadBufferLength
                    } else {
                        IOError::AddressOutOfRange(address)
                    },
                )
                &&& final(self).log() == old(self).log()
                &&& final(read)@ == old(read)@
            } else {
                match r {
                    Ok(_) => exists|half: Seq<Access>|
                        {
                            &&& #[trigger] write_opened(old(self).log(), half, address, write@)
                            &&& read_closed(half, final(self).log(), address, final(read)@, old(self).allows_chunks())
                        },
                    Err(e) => {
                        ||| aborted(
                            old(self).log(),
                            final(self).log(),
                            old(self).budget(),
                            write_commands(address, write@),
                            e,
                            false,
                        )
                        ||| exists|half: Seq<Access>|
                            {
                                &&& #[trigger] write_opened(old(self).log(), half, address, write@)
                                &&& read_failed(
                                    half,
                                    final(self).log(),
                                    old(self).budget(),
                                    address,
                                    final(read)@,
                                    e,
                                    old(self).allows_chunks(),
                                )
                            }
                    },
                }
            },
    {
        let ghost entered = self.log();
        if read.len() == 0 {
            return Err(IOError::InvalidReadBufferLength);
        }
        match self.blocking_write_txn_fresh(address, write) {
            Err(e) => Err(e),
            Ok(open) => {
                let ghost half = self.log();
                match self.blocking_read_close_continue(address, read, open) {
                    Ok(_) => {
                        proof {
                            lemma_kept_on(entered, half, self.log(), self.budget());
                            assert(write_opened(entered, half, address, write@));
                        }
                        Ok(())
                    },
                    Err(e) => {
                        assert(write_opened(entered, half, address, write@));
                        Err(e)
                    },
                }
            },
        }
    }
}

/// One operation of a combined transaction.
pub enum Operation {
    /// Fill the buffer from the device.
    Read(Vec<u8>),
    /// Send the buffer to the device.
    Write(Vec<u8>),
}

/// The contents of an [`Operation`].
pub enum OperationView {
    Read(Seq<u8>),
    Write(Seq<u8>),
}

impl View for Operation {
    type V = OperationView;

    open spec fn view(&self) -> OperationView {
        match self {
            Operation::Read(buffer) => OperationView::Read(buffer@),
            Operation::Write(buffer) => OperationView::Write(buffer@),
        }
    }
}

/// A read into no bytes at all.
pub open spec fn doomed(op: Operation) -> bool {
    op@ matches OperationView::Read(buffer) && buffer.len() == 0
}

/// The direction and the length stay, and so does what is sent.
pub open spec fn same_request(op: Operation, next: Operation) -> bool {
    match op@ {
        OperationView::Write(_) => next@ == op@,
        OperationView::Read(buffer) => next@ matches OperationView::Read(filled) && filled.len() == buffer.len(),
    }
}

/// The buffers hold what they held.
pub open spec fn same_contents(ops: Seq<Operation>, next: Seq<Operation>) -> bool {
    &&& next.len() == ops.len()
    &&& forall|i: int| 0 <= i < ops.len() ==> #[trigger] next[i]@ == ops[i]@
}

/// One operation ran behind its START and left the transaction open.
pub open spec fn operation_opened(
    before: Seq<Access>,
    after: Seq<Access>,
    op: OperationView,
    address: u8,
    allow_chunks: bool,
) -> bool {
    match op {
        OperationView::Read(data) => read_opened(before, after, address, data, allow_chunks),
        OperationView::Write(data) => write_opened(before, after, address, data),
    }
}

/// The operations ran one behind the other, each behind its own START and
/// with no STOP between them.
pub open spec fn chain_opened(
    before: Seq<Access>,
    after: Seq<Access>,
    ops: Seq<Operation>,
    address: u8,
    allow_chunks: bool,
) -> bool
    decreases ops.len(),
{
    if ops.len() == 0 {
        after == before
    } else {
        exists|mid: Seq<Access>|
            {
                &&& chain_opened(before, mid, ops.drop_last(), address, allow_chunks)
                &&& #[trigger] operation_opened(mid, after, ops.last()@, address, allow_chunks)
            }
    }
}

/// The operations ran one behind the other and the transaction was closed.
pub open spec fn exchanged(
    before: Seq<Access>,
    after: Seq<Access>,
    ops: Seq<Operation>,
    address: u8,
    allow_chunks: bool,
) -> bool {
    exists|open: Seq<Access>|
        {
            &&& #[trigger] chain_opened(before, open, ops, address, allow_chunks)
            &&& moved(open, after, seq![stop_word()], Seq::empty())
        }
}

/// One operation failed before it left its transaction open.
pub open spec fn operation_aborted(
    before: Seq<Access>,
    after: Seq<Access>,
    timeout: u64,
    op: OperationView,
    address: u8,
    error: IOError,
    allow_chunks: bool,
) -> bool {
    match op {
        OperationView::Read(data) => read_txn_aborted(
            before,
            after,
            timeout,
            address,
            data.len(),
            error,
            allow_chunks,
        ),
        OperationView::Write(data) => aborted(before, after, timeout, write_commands(address, data), error, true),
    }
}

/// A list of operations failed: the first ones ran, and the next one failed,
/// or the STOP behind them all.
pub open spec fn exchange_failed(
    before: Seq<Access>,
    after: Seq<Access>,
    timeout: u64,
    ops: Seq<Operation>,
    address: u8,
    error: IOError,
    allow_chunks: bool,
) -> bool {
    exists|place: int, mid: Seq<Access>|
        {
            &&& 0 <= place <= ops.len()
            &&& #[trigger] chain_opened(before, mid, ops.take(place), address, allow_chunks)
            &&& if place < ops.len() {
                operation_aborted(mid, after, timeout, ops[place]@, address, error, allow_chunks)
            } else {
                aborted(mid, after, timeout, seq![stop_word()], error, false)
            }
        }
}

proof fn lemma_operation_opened(
    before: Seq<Access>,
    after: Seq<Access>,
    op: OperationView,
    address: u8,
    allow_chunks: bool,
)
    requires
        operation_opened(before, after, op, address, allow_chunks),
    ensures
        extends(before, after),
        !allow_chunks ==> recoveries(after) == recoveries(before),
{
    if let OperationView::Read(data) = op {
        let opened = choose|opened: Seq<Access>|
            {
                &&& #[trigger] moved(before, opened, seq![start_word(address, true)], Seq::empty())
                &&& read_done(opened, after, address, data, allow_chunks)
            };
        if !read_chained(opened, after, data) {
            let retry = choose|retry: Seq<Access>| #[trigger] read_retried(opened, retry, after, address, data);
            lemma_cut_recovers(opened, retry, receive_commands(data.len()), true);
            assert(extends(before, retry));
        }
    }
}

impl<H: ControllerPort> I2c<H> {
    /// Runs a list of reads and writes as one transaction, with a repeated
    /// START between them and one STOP at the end.
    ///
    /// A doomed read is rejected before any operation touches the bus. An
    /// empty list does nothing.
    pub fn transaction(&mut self, address: u8, operations: &mut Vec<Operation>) -> (r: Result<(), IOError>)
        requires
            old(self).idle(),
        ensures
            final(self).same_setup(old(self)),
            final(self).idle(),
            r is Ok ==> kept_time(old(self).log(), final(self).log(), old(self).budget()),
            final(operations)@.len() == old(operations)@.len(),
            forall|i: int|
                0 <= i < old(operations)@.len() ==> same_request(old(operations)@[i], #[trigger] final(operations)@[i]),
            if exists|i: int| 0 <= i < old(operations)@.len() && #[trigger] doomed(old(operations)@[i]) {
                &&& r == Err::<(), IOError>(IOError::InvalidReadBufferLength)
                &&& final(self).log() == old(self).log()
                &&& same_contents(old(operations)@, final(operations)@)
            } else if old(operations)@.len() == 0 {
                &&& r == Ok::<(), IOError>(())
                &&& final(self).log() == old(self).log()
            } else if address >= 0x80 {
                &&& r == Err::<(), IOError>(IOError::AddressOutOfRange(address))
                &&& final(self).log() == old(self).log()
                &&& same_contents(old(operations)@, final(operations)@)
            } else {
                match r {
                    Ok(_) => exchanged(
                        old(self).log(),
                        final(self).log(),
                        final(operations)@,
                        address,
                        old(self).allows_chunks(),
                    ),
                    Err(e) => exchange_failed(
                        old(self).log(),
                        final(self).log(),
                        old(self).budget(),
                        final(operations)@,
                        address,
                        e,
                        old(self).allows_chunks(),
                    ),
                }
            },
    {
        let ghost entered = self.log();
        let ghost given = operations@;
        let mut place: usize = 0;
        while place < operations.len()
            invariant
                place <= operations@.len(),
                operations@ == given,
                given == old(operations)@,
                self.same_setup(old(self)),
                self.idle(),
                self.log() == old(self).log(),
                forall|i: int| 0 <= i < place ==> !doomed(#[trigger] given[i]),
            decreases operations@.len() - place,
        {
            if let Operation::Read(buffer) = &operations[place] {
                if buffer.len() == 0 {
                    assert(doomed(given[place as int]));
                    return Err(IOError::InvalidReadBufferLength);
                }
            }
            place = place + 1;
        }
        if operations.len() == 0 {
            proof {
                lemma_kept_nothing(entered, self.budget());
            }
            return Ok(());
        }
        let first = self.open_operation(address, &mut operations[0]);
        let mut open = match first {
            Err(e) => {
                proof {
                    assert(operations@.take(0) =~= Seq::<Operation>::empty());
                    assert(chain_opened(entered, entered, operations@.take(0), address, self.allows_chunks()));
                }
                return Err(e);
            },
            Ok(session) => session,
        };
        let mut done: usize = 1;
        proof {
            let one = operations@.take(1);
            assert(one.drop_last() =~= Seq::<Operation>::empty());
            assert(chain_opened(entered, entered, one.drop_last(), address, self.allows_chunks()));
            assert(operation_opened(entered, self.log(), one.last()@, address, self.allows_chunks()));
            lemma_operation_opened(entered, self.log(), one.last()@, address, self.allows_chunks());
        }
        while done < operations.len()
            invariant
                self.same_setup(old(self)),
                self.owns(open@),
                open@.phase.closable(),
                entered == old(self).log(),
                address < 0x80,
                1 <= done <= operations@.len(),
                operations@.len() == given.len(),
                given == old(operations)@,
                forall|i: int| 0 <= i < given.len() ==> !doomed(#[trigger] given[i]),
                forall|i: int| 0 <= i < given.len() ==> same_request(given[i], #[trigger] operations@[i]),
                forall|i: int| done <= i < given.len() ==> #[trigger] operations@[i] == given[i],
                chain_opened(entered, self.log(), operations@.take(done as int), address, self.allows_chunks()),
                extends(entered, self.log()),
                kept_time(entered, self.log(), self.budget()),
                !self.allows_chunks() ==> recoveries(self.log()) == recoveries(entered),
            decreases operations@.len() - done,
        {
            let ghost round = self.log();
            let ghost before = operations@;
            assert(!doomed(given[done as int]));
            let next = self.continue_operation(address, &mut operations[done], open);
            match next {
                Err(e) => {
                    proof {
                        assert(operations@.take(done as int) =~= before.take(done as int));
                        assert(chain_opened(
                            entered,
                            round,
                            operations@.take(done as int),
                            address,
                            self.allows_chunks(),
                        ));
                    }
                    return Err(e);
                },
                Ok(session) => {
                    open = session;
                },
            }
            proof {
                let grown = operations@.take(done + 1);
                lemma_kept_on(entered, round, self.log(), self.budget());
                assert(grown.drop_last() =~= before.take(done as int));
                assert(operation_opened(round, self.log(), grown.last()@, address, self.allows_chunks()));
                lemma_operation_opened(round, self.log(), grown.last()@, address, self.allows_chunks());
            }
            done = done + 1;
        }
        let ghost opened = self.log();
        assert(operations@.take(done as int) =~= operations@);
        match self.stop(open) {
            Ok(_) => {
                proof {
                    lemma_kept_on(entered, opened, self.log(), self.budget());
                    assert(chain_opened(entered, opened, operations@, address, self.allows_chunks()));
                }
                Ok(())
            },
            Err(e) => {
                proof {
                    assert(operations@.take(operations@.len() as int) =~= operations@);
                    assert(chain_opened(
                        entered,
                        opened,
                        operations@.take(operations@.len() as int),
                        address,
                        self.allows_chunks(),
                    ));
                }
                Err(e)
            },
        }
    }

    fn open_operation(&mut self, address: u8, op: &mut Operation) -> (r: Result<Session, IOError>)
        requires
            old(self).idle(),
            !doomed(*old(op)),
        ensures
            final(self).same_setup(old(self)),
            same_request(*old(op), *final(op)),
            match r {
                Ok(open) => {
                    &&& address < 0x80
                    &&& final(self).owns(open@)
                    &&& open@.phase.closable()
                    &&& operation_opened(
                        old(self).log(),
                        final(self).log(),
                        final(op)@,
                        address,
                        old(self).allows_chunks(),
                    )
                    &&& kept_time(old(self).log(), final(self).log(), old(self).budget())
                },
                Err(e) => {
                    &&& final(self).idle()
                    &&& if address >= 0x80 {
                        &&& e == IOError::AddressOutOfRange(address)
                        &&& final(self).log() == old(self).log()
                        &&& final(op)@ == old(op)@
                    } else {
                        operation_aborted(
                            old(self).log(),
                            final(self).log(),
                            old(self).budget(),
                            final(op)@,
                            address,
                            e,
                            old(self).allows_chunks(),
                        )
                    }
                },
            },
    {
        let ghost entered = self.log();
        match op {
            Operation::Read(buffer) => self.blocking_read_txn_fresh(address, buffer.as_mut_slice()),
            Operation::Write(buffer) => {
                let r = self.blocking_write_txn_fresh(address, buffer.as_slice());
                proof {
                    if r is Err && address < 0x80 {
                        let all = write_commands(address, buffer@);
                        lemma_aborted_weaken(entered, self.log(), self.budget(), all, all, r->Err_0, false, true);
                    }
                }
                r
            },
        }
    }

    fn continue_operation(&mut self, address: u8, op: &mut Operation, open: Session) -> (r: Result<Session, IOError>)
        requires
            old(self).owns(open@),
            open@.phase.closable(),
            !doomed(*old(op)),
            address < 0x80,
        ensures
            final(self).same_setup(old(self)),
            same_request(*old(op), *final(op)),
            match r {
                Ok(next) => {
                    &&& final(self).owns(next@)
                    &&& next@.phase.closable()
                    &&& operation_opened(
                        old(self).log(),
                        final(self).log(),
                        final(op)@,
                        address,
                        old(self).allows_chunks(),
                    )
                    &&& kept_time(old(self).log(), final(self).log(), old(self).budget())
                },
                Err(e) => {
                    &&& final(self).idle()
                    &&& operation_aborted(
                        old(self).log(),
                        final(self).log(),
                        old(self).budget(),
                        final(op)@,
                        address,
                        e,
                        old(self).allows_chunks(),
                    )
                },
            },
    {
        let ghost entered = self.log();
        match op {
            Operation::Read(buffer) => self.blocking_read_txn_continue(address, buffer.as_mut_slice(), open),
            Operation::Write(buffer) => {
                let r = self.blocking_write_txn_continue(address, buffer.as_slice(), open);
                proof {
                    if r is Err {
                        let all = write_commands(address, buffer@);
                        lemma_aborted_weaken(
                            entered,
                            self.log(),
                            self.budget(),
                            all,
                            all,
                            r->Err_0,
                            open@.phase.clocks(),
                            true,
                        );
                    }
                }
                r
            },
        }
    }
}

} // verus!
