//! Register sequences that must not be interrupted.

use vstd::prelude::*;

verus! {

/// A register sequence that `A` selects, with what one run of it does.
pub trait CriticalSequence<A>: Sized {
    /// A run takes `before` to `after`.
    spec fn sequence(before: Self, args: A, after: Self) -> bool;

    /// Runs the sequence once.
    fn run(&mut self, args: A)
        ensures
            Self::sequence(*old(self), args, *final(self)),
    ;
}

/// Selects the reset of both FIFOs.
pub struct ResetFifos;

/// Wraps `critical_section::with`, which runs the closure it is given once,
/// inside a critical section, and returns when that closure has returned.
/// The claim is that the sequence ran once.
#[verifier::external_body]
pub(crate) fn in_critical_section<A, S: CriticalSequence<A>>(block: &mut S, args: A)
    ensures
        S::sequence(*old(block), args, *final(block)),
{
    critical_section::with(|_| block.run(args))
}

} // verus!
