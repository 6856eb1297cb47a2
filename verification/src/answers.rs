//! What the commands of a transaction still owe: a START has to settle, a
//! byte that was sent needs a clean look behind it, and a STOP has to
//! complete. A fault that was seen ends the transaction.

use vstd::prelude::*;

use crate::controller_registers::status_error;
use crate::lpi2c_regs::Access;
use crate::session::{Abort, SessionPhase};
use crate::trace::{commands, extends};
use crate::words::{ControllerCommand, Msr, Mtdr};

verus! {

broadcast use crate::trace::group_trace;

/// Where the commands of a history stand.
pub ghost enum Owed {
    /// No transaction is open.
    Idle,
    /// A transaction is open, and each of its commands was answered.
    Live,
    /// This command was not answered yet.
    Answer(Mtdr),
    /// A command went out in front of an answer that was owed, or a fault was
    /// seen or cleared. Only a recovery goes on from here.
    Broken,
}

/// The last entries of `log` are those of a wake: the interrupts of a wait
/// were armed, and the command FIFO perhaps looked at. A status look behind
/// them decides nothing; whoever is woken looks again.
pub open spec fn waking(log: Seq<Access>) -> bool {
    let n = log.len();
    ||| n > 0 && log[n - 1] is WriteMier
    ||| n > 1 && log[n - 1] is ReadMfsr && log[n - 2] is WriteMier
}

/// The last entry of `log` is a status look that found no fault. One more
/// right behind it looks for the end of the packet, and decides nothing of a
/// fault: it stays latched for the next look.
pub open spec fn ending(log: Seq<Access>) -> bool {
    let n = log.len();
    n > 0 && log[n - 1] is ReadMsr && status_error(log[n - 1]->ReadMsr_0) is None
}

/// The last entries of `log` are a look that found no fault and the command
/// FIFO empty, and a second look that found no fault either: `word`.
pub open spec fn drained(log: Seq<Access>, word: Msr) -> bool {
    let n = log.len();
    &&& n > 2
    &&& log[n - 3] is ReadMsr
    &&& status_error(log[n - 3]->ReadMsr_0) is None
    &&& log[n - 2] is ReadMfsr
    &&& (log[n - 2]->ReadMfsr_0).txcount == 0
    &&& log[n - 1] == Access::ReadMsr(word)
    &&& status_error(word) is None
}

/// As [`drained`], and the first look found the engine idle.
pub open spec fn completed(log: Seq<Access>, word: Msr) -> bool {
    drained(log, word) && !(log[log.len() - 3]->ReadMsr_0).mbf
}

/// The history ends with a START that settled: a poll found no fault and the
/// command FIFO drained, and the final status was clean and was cleared.
pub open spec fn ends_settled(log: Seq<Access>) -> bool {
    &&& log.len() > 0
    &&& log.last() is WriteMsr
    &&& drained(log.drop_last(), log.last()->WriteMsr_0)
}

/// The history ends with a STOP that completed: a poll found no fault, the
/// command FIFO drained and the engine idle, and the final status was clean
/// and was cleared.
pub open spec fn ends_completed(log: Seq<Access>) -> bool {
    &&& log.len() > 0
    &&& log.last() is WriteMsr
    &&& completed(log.drop_last(), log.last()->WriteMsr_0)
}

/// The history ends with a look that found no fault.
pub open spec fn ends_clean(log: Seq<Access>) -> bool {
    log.len() > 0 && log.last() is ReadMsr && status_error(log.last()->ReadMsr_0) is None
}

/// What is owed behind `log` once `a` follows, where `state` is owed at `log`.
pub open spec fn owed_next(log: Seq<Access>, state: Owed, a: Access) -> Owed {
    match a {
        Access::RecoveryBegin(_) => Owed::Idle,
        Access::WriteMtdr(word) => match state {
            Owed::Idle => if word.cmd == ControllerCommand::Start {
                Owed::Answer(word)
            } else {
                Owed::Idle
            },
            Owed::Live => if word.cmd == ControllerCommand::Receive {
                Owed::Live
            } else {
                Owed::Answer(word)
            },
            _ => Owed::Broken,
        },
        Access::ReadMsr(status) => match state {
            Owed::Answer(word) => if status_error(status) is None {
                if word.cmd == ControllerCommand::Transmit {
                    Owed::Live
                } else {
                    state
                }
            } else if waking(log) {
                state
            } else {
                Owed::Broken
            },
            Owed::Live => if status_error(status) is None || waking(log) || ending(log) {
                state
            } else {
                Owed::Broken
            },
            _ => state,
        },
        Access::WriteMsr(status) => match state {
            Owed::Answer(word) => if word.cmd == ControllerCommand::Start && drained(log, status) {
                Owed::Live
            } else if word.cmd == ControllerCommand::Stop && completed(log, status) {
                Owed::Idle
            } else {
                Owed::Broken
            },
            Owed::Live => if status_error(status) is None {
                state
            } else {
                Owed::Broken
            },
            _ => state,
        },
        _ => state,
    }
}

/// What the commands of a history still owe. A START is answered by a poll
/// that found the command FIFO drained, with a clean final status behind it;
/// a STOP likewise, with the engine idle; a byte by a look that found no
/// fault. A fault that a look finds in an open transaction, and not on behalf
/// of a wake, breaks it. A recovery takes over whatever is owed.
pub open spec fn owed(log: Seq<Access>) -> Owed
    decreases log.len(),
{
    if log.len() == 0 {
        Owed::Idle
    } else {
        owed_next(log.drop_last(), owed(log.drop_last()), log.last())
    }
}

/// The phase of a session says what is owed. A byte of a write may still wait
/// for its look.
pub open spec fn squares(state: Owed, phase: SessionPhase) -> bool {
    match phase {
        SessionPhase::Stable(abort) => {
            ||| state is Live
            ||| abort == Abort::General && (state matches Owed::Answer(word) && word.cmd
                == ControllerCommand::Transmit)
        },
        SessionPhase::StartPending { .. } => state matches Owed::Answer(word) && word.cmd == ControllerCommand::Start,
        SessionPhase::FirstReceivePending => state is Live,
        SessionPhase::StopPending { .. } => state matches Owed::Answer(word) && word.cmd == ControllerCommand::Stop,
        SessionPhase::StopFinalized => state is Idle,
    }
}

pub broadcast proof fn lemma_owed_push(log: Seq<Access>, a: Access)
    ensures
        #[trigger] owed(log.push(a)) == owed_next(log, owed(log), a),
{
    assert(log.push(a).drop_last() =~= log);
}

/// Without a START nothing comes to be owed.
pub proof fn lemma_stays_idle(before: Seq<Access>, after: Seq<Access>)
    requires
        extends(before, after),
        owed(before) is Idle,
        forall|i: int|
            commands(before).len() <= i < commands(after).len() ==> #[trigger] commands(after)[i].cmd
                != ControllerCommand::Start,
    ensures
        commands(before).len() <= commands(after).len(),
        owed(after) is Idle,
    decreases after.len(),
{
    if after.len() == before.len() {
        assert(after =~= before);
    } else {
        let log = after.drop_last();
        assert forall|i: int| commands(before).len() <= i < commands(log).len() implies #[trigger] commands(
            log,
        )[i].cmd != ControllerCommand::Start by {
            assert(commands(after)[i] == commands(log)[i]);
        }
        lemma_stays_idle(before, log);
        if let Access::WriteMtdr(word) = after.last() {
            assert(commands(after)[commands(log).len() as int] == word);
        }
    }
}

} // verus!
