//! What a register block's history says: which commands went out, which
//! bytes came in, which transfers a DMA channel took, how often a recovery
//! ran.

use vstd::prelude::*;

use crate::lpi2c_regs::{Access, Direction};
use crate::words::Mtdr;

verus! {

/// `after` is `before` with entries appended.
pub open spec fn extends(before: Seq<Access>, after: Seq<Access>) -> bool {
    &&& before.len() <= after.len()
    &&& forall|i: int| 0 <= i < before.len() ==> #[trigger] after[i] == before[i]
}

/// The entry that stands `i` places behind `before` in `after`.
pub open spec fn entry(before: Seq<Access>, after: Seq<Access>, i: int) -> Access {
    after[before.len() + i]
}

/// The entries pushed into the controller's command FIFO, in order.
pub open spec fn commands(log: Seq<Access>) -> Seq<Mtdr>
    decreases log.len(),
{
    if log.len() == 0 {
        Seq::empty()
    } else {
        match log.last() {
            Access::WriteMtdr(word) => commands(log.drop_last()).push(word),
            _ => commands(log.drop_last()),
        }
    }
}

/// The bytes popped from the controller's receive FIFO, in order.
pub open spec fn received(log: Seq<Access>) -> Seq<u8>
    decreases log.len(),
{
    if log.len() == 0 {
        Seq::empty()
    } else {
        match log.last() {
            Access::ReadMrdr(word) => received(log.drop_last()).push(word.data),
            _ => received(log.drop_last()),
        }
    }
}

/// The transfers that were handed to a DMA channel and that its engine took,
/// in order: the way, the place in the buffer and the length of each.
pub open spec fn handed(log: Seq<Access>) -> Seq<(Direction, usize, usize)>
    decreases log.len(),
{
    if log.len() == 0 {
        Seq::empty()
    } else {
        match log.last() {
            Access::DmaSetup(way, _, offset, length, true) => handed(log.drop_last()).push((way, offset, length)),
            _ => handed(log.drop_last()),
        }
    }
}

pub broadcast proof fn lemma_handed_push(log: Seq<Access>, a: Access)
    ensures
        #[trigger] handed(log.push(a)) == (match a {
            Access::DmaSetup(way, _, offset, length, true) => handed(log).push((way, offset, length)),
            _ => handed(log),
        }),
{
    assert(log.push(a).drop_last() =~= log);
}

/// The budgets of the recoveries that took ownership of the bus, in order.
pub open spec fn recoveries(log: Seq<Access>) -> Seq<u64>
    decreases log.len(),
{
    if log.len() == 0 {
        Seq::empty()
    } else {
        match log.last() {
            Access::RecoveryBegin(budget) => recoveries(log.drop_last()).push(budget),
            _ => recoveries(log.drop_last()),
        }
    }
}

/// The recoveries grew from `before` to `after`, by such as have this budget.
#[verifier::opaque]
pub open spec fn bounded_by(before: Seq<u64>, after: Seq<u64>, budget: u64) -> bool {
    &&& before.len() <= after.len()
    &&& after.take(before.len() as int) == before
    &&& forall|i: int| before.len() <= i < after.len() ==> #[trigger] after[i] == budget
}

pub broadcast proof fn lemma_bounded_none(a: Seq<u64>, budget: u64)
    ensures
        #[trigger] bounded_by(a, a, budget),
{
    reveal(bounded_by);
    assert(a.take(a.len() as int) =~= a);
}

pub broadcast proof fn lemma_bounded_one(a: Seq<u64>, budget: u64)
    ensures
        bounded_by(a, #[trigger] a.push(budget), budget),
{
    reveal(bounded_by);
    assert(a.push(budget).take(a.len() as int) =~= a);
}

pub broadcast proof fn lemma_bounded_on(a: Seq<u64>, b: Seq<u64>, c: Seq<u64>, budget: u64)
    requires
        #[trigger] bounded_by(a, b, budget),
        #[trigger] bounded_by(b, c, budget),
    ensures
        bounded_by(a, c, budget),
{
    reveal(bounded_by);
    assert(c.take(a.len() as int) =~= c.take(b.len() as int).take(a.len() as int));
    assert forall|i: int| a.len() <= i < c.len() implies #[trigger] c[i] == budget by {
        if i < b.len() {
            assert(c.take(b.len() as int)[i] == b[i]);
        }
    }
}

pub broadcast group group_bounded {
    lemma_bounded_none,
    lemma_bounded_one,
    lemma_bounded_on,
}

/// The commands pushed since the last recovery took ownership of the bus: what
/// the open transaction, if there is one, consists of.
pub open spec fn wire(log: Seq<Access>) -> Seq<Mtdr>
    decreases log.len(),
{
    if log.len() == 0 {
        Seq::empty()
    } else {
        match log.last() {
            Access::WriteMtdr(word) => wire(log.drop_last()).push(word),
            Access::RecoveryBegin(_) => Seq::empty(),
            _ => wire(log.drop_last()),
        }
    }
}

/// The bytes written to the target's transmit register, in order.
pub open spec fn sent(log: Seq<Access>) -> Seq<u8>
    decreases log.len(),
{
    if log.len() == 0 {
        Seq::empty()
    } else {
        match log.last() {
            Access::WriteStdr(word) => sent(log.drop_last()).push(word.data),
            _ => sent(log.drop_last()),
        }
    }
}

/// The bytes popped from the target's receive FIFO, in order.
pub open spec fn taken(log: Seq<Access>) -> Seq<u8>
    decreases log.len(),
{
    if log.len() == 0 {
        Seq::empty()
    } else {
        match log.last() {
            Access::ReadSrdr(word) => taken(log.drop_last()).push(word.data),
            _ => taken(log.drop_last()),
        }
    }
}

pub broadcast proof fn lemma_commands_push(log: Seq<Access>, a: Access)
    ensures
        #[trigger] commands(log.push(a)) == (match a {
            Access::WriteMtdr(word) => commands(log).push(word),
            _ => commands(log),
        }),
{
    assert(log.push(a).drop_last() =~= log);
}

pub broadcast proof fn lemma_received_push(log: Seq<Access>, a: Access)
    ensures
        #[trigger] received(log.push(a)) == (match a {
            Access::ReadMrdr(word) => received(log).push(word.data),
            _ => received(log),
        }),
{
    assert(log.push(a).drop_last() =~= log);
}

pub broadcast proof fn lemma_recoveries_push(log: Seq<Access>, a: Access)
    ensures
        #[trigger] recoveries(log.push(a)) == (match a {
            Access::RecoveryBegin(budget) => recoveries(log).push(budget),
            _ => recoveries(log),
        }),
{
    assert(log.push(a).drop_last() =~= log);
}

pub broadcast proof fn lemma_wire_push(log: Seq<Access>, a: Access)
    ensures
        #[trigger] wire(log.push(a)) == (match a {
            Access::WriteMtdr(word) => wire(log).push(word),
            Access::RecoveryBegin(_) => Seq::empty(),
            _ => wire(log),
        }),
{
    assert(log.push(a).drop_last() =~= log);
}

/// Without a recovery in between, the open transaction grows by exactly the
/// commands that were pushed.
pub proof fn lemma_wire_grows(before: Seq<Access>, after: Seq<Access>)
    requires
        extends(before, after),
        recoveries(after).len() <= recoveries(before).len(),
    ensures
        recoveries(after) == recoveries(before),
        commands(before).len() <= commands(after).len(),
        wire(after) == wire(before) + commands(after).skip(commands(before).len() as int),
    decreases after.len(),
{
    if after.len() == before.len() {
        assert(after =~= before);
        assert(wire(before) =~= wire(before) + commands(after).skip(commands(before).len() as int));
    } else {
        let log = after.drop_last();
        lemma_recoveries_grow(before, log);
        lemma_wire_grows(before, log);
        let known = commands(before).len() as int;
        if let Access::WriteMtdr(word) = after.last() {
            assert(commands(log).push(word).skip(known) =~= commands(log).skip(known).push(word));
            assert(wire(after) =~= wire(before) + commands(after).skip(known));
        }
    }
}

pub proof fn lemma_recoveries_grow(before: Seq<Access>, after: Seq<Access>)
    requires
        extends(before, after),
    ensures
        recoveries(before).len() <= recoveries(after).len(),
        recoveries(after).take(recoveries(before).len() as int) == recoveries(before),
    decreases after.len(),
{
    if after.len() == before.len() {
        assert(after =~= before);
    } else {
        lemma_recoveries_grow(before, after.drop_last());
        let n = recoveries(before).len() as int;
        assert(recoveries(after).take(n) =~= recoveries(after.drop_last()).take(n));
    }
}

pub broadcast proof fn lemma_sent_push(log: Seq<Access>, a: Access)
    ensures
        #[trigger] sent(log.push(a)) == (match a {
            Access::WriteStdr(word) => sent(log).push(word.data),
            _ => sent(log),
        }),
{
    assert(log.push(a).drop_last() =~= log);
}

pub broadcast proof fn lemma_taken_push(log: Seq<Access>, a: Access)
    ensures
        #[trigger] taken(log.push(a)) == (match a {
            Access::ReadSrdr(word) => taken(log).push(word.data),
            _ => taken(log),
        }),
{
    assert(log.push(a).drop_last() =~= log);
}

pub broadcast group group_trace {
    lemma_commands_push,
    lemma_received_push,
    lemma_handed_push,
    lemma_recoveries_push,
    lemma_wire_push,
    lemma_sent_push,
    lemma_taken_push,
}

} // verus!
