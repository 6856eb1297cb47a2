//! GPIO bus recovery for a controller that has already relinquished LPI2C.
//!
//! I2C is open drain: software can pull a line low but it can never force a
//! peer-held line high. A standard bus clear is meaningful only when SCL can
//! rise. For a clockable bus with SDA held low, it emits up to nine SCL
//! pulses and then a STOP. A target that actively stretches SCL must release
//! the line itself before this sequence can proceed.

use vstd::prelude::*;

verus! {

/// Why the bus could not be cleared.
#[derive(Clone, Copy, Debug, PartialEq, Eq, Structural)]
pub enum BusClearError {
    /// SCL did not rise when it was released.
    SclHeldLow,
    /// SDA stayed low.
    SdaHeldLow,
}

/// The two bus lines as open-drain pins, and a delay. Nothing is promised of
/// what a line reads: the other devices decide.
pub trait BusLines {
    /// The event took the lines from `before` to `after`. What that means is
    /// the lines' own affair, and nothing where they say nothing: it is a name
    /// for what one call was given and what it returned.
    open spec fn lines_ran(before: &Self, event: LineEvent, after: &Self) -> bool {
        true
    }

    /// Releases SCL.
    fn release_scl(&mut self)
        ensures
            Self::lines_ran(old(self), LineEvent::ReleaseScl, final(self)),
    ;

    /// Pulls SCL low.
    fn drive_scl_low(&mut self)
        ensures
            Self::lines_ran(old(self), LineEvent::LowScl, final(self)),
    ;

    /// Reads the level of SCL.
    fn scl_is_high(&mut self) -> (r: bool)
        ensures
            Self::lines_ran(old(self), LineEvent::Scl(r), final(self)),
    ;

    /// Releases SDA.
    fn release_sda(&mut self)
        ensures
            Self::lines_ran(old(self), LineEvent::ReleaseSda, final(self)),
    ;

    /// Pulls SDA low.
    fn drive_sda_low(&mut self)
        ensures
            Self::lines_ran(old(self), LineEvent::LowSda, final(self)),
    ;

    /// Reads the level of SDA.
    fn sda_is_high(&mut self) -> (r: bool)
        ensures
            Self::lines_ran(old(self), LineEvent::Sda(r), final(self)),
    ;

    /// Waits for this many microseconds.
    fn delay_us(&mut self, us: u32)
        ensures
            Self::lines_ran(old(self), LineEvent::Delay(us), final(self)),
    ;
}

/// One entry of the history of the bus lines.
pub enum LineEvent {
    ReleaseScl,
    LowScl,
    Scl(bool),
    ReleaseSda,
    LowSda,
    Sda(bool),
    Delay(u32),
}

/// The bus lines and their history.
pub struct Lines<B> {
    bus: B,
    origin: Ghost<B>,
    history: Ghost<Seq<LineEvent>>,
}

/// These events, one behind the other, took the lines from `before` to `after`.
pub open spec fn lines_led<B: BusLines>(before: B, events: Seq<LineEvent>, after: B) -> bool
    decreases events.len(),
{
    if events.len() == 0 {
        after == before
    } else {
        exists|mid: B|
            lines_led(before, events.drop_last(), mid) && #[trigger] B::lines_ran(&mid, events.last(), &after)
    }
}

/// Standard-mode minimum high and low timings are 4.0 and 4.7 microseconds. A
/// conservative half period, independent of the controller's rate.
pub const HALF_PERIOD_US: u32 = 5;

/// Bounds a peer's clock stretch while each released SCL edge is validated.
pub const SCL_RISE_POLLS: usize = 1_000;

/// The most clock pulses that a bus clear emits: one byte and its ACK.
pub const CLEAR_PULSES: usize = 9;

/// Looks that found SCL low, each followed by a half period.
pub open spec fn scl_seen_low(before: Seq<LineEvent>, log: Seq<LineEvent>, looks: int) -> bool {
    &&& log.len() == before.len() + 2 * looks
    &&& forall|i: int| 0 <= i < before.len() ==> #[trigger] log[i] == before[i]
    &&& forall|k: int|
        #![trigger log[before.len() + 2 * k]]
        0 <= k < looks ==> log[before.len() + 2 * k] == LineEvent::Scl(false) && log[before.len() + 2 * k + 1]
            == LineEvent::Delay(HALF_PERIOD_US)
}

/// What a wait for SCL did and returned: it looked until SCL was high, and
/// gave up after [`SCL_RISE_POLLS`] looks.
pub open spec fn scl_waited(before: Seq<LineEvent>, after: Seq<LineEvent>, r: bool) -> bool {
    if r {
        &&& after.len() > before.len()
        &&& after.last() == LineEvent::Scl(true)
        &&& (after.len() - 1 - before.len()) / 2 < SCL_RISE_POLLS
        &&& scl_seen_low(before, after.drop_last(), (after.len() - 1 - before.len()) / 2)
    } else {
        scl_seen_low(before, after, SCL_RISE_POLLS as int)
    }
}

/// The falling half of a clock pulse and its release.
pub open spec fn pulse_begun(before: Seq<LineEvent>) -> Seq<LineEvent> {
    before.push(LineEvent::LowScl).push(LineEvent::Delay(HALF_PERIOD_US)).push(LineEvent::ReleaseScl)
}

/// One clock pulse: `Some` level of SDA behind it, or `None` where SCL did
/// not rise.
pub open spec fn pulsed(before: Seq<LineEvent>, after: Seq<LineEvent>, r: Option<bool>) -> bool {
    match r {
        None => scl_waited(pulse_begun(before), after, false),
        Some(level) => {
            let risen = after.take(after.len() - 2);
            &&& after.len() >= 2
            &&& scl_waited(pulse_begun(before), risen, true)
            &&& after == risen.push(LineEvent::Delay(HALF_PERIOD_US)).push(LineEvent::Sda(level))
        },
    }
}

/// `count` complete clock pulses, with SDA still low behind each of them.
pub open spec fn clocked(before: Seq<LineEvent>, after: Seq<LineEvent>, count: nat) -> bool
    decreases count,
{
    if count == 0 {
        after == before
    } else {
        exists|mid: Seq<LineEvent>|
            clocked(before, mid, (count - 1) as nat) && #[trigger] pulsed(mid, after, Some(false))
    }
}

/// How the clocking of a bus with SDA held low ended: SCL stuck, or SDA
/// released, or all pulses spent. A pulse is emitted only while SDA was seen
/// low.
pub open spec fn clocking_ran(before: Seq<LineEvent>, after: Seq<LineEvent>, risen: bool) -> bool {
    if !risen {
        exists|mid: Seq<LineEvent>, count: nat|
            #[trigger] clocked(before, mid, count) && count < CLEAR_PULSES && pulsed(mid, after, None)
    } else {
        ||| clocked(before, after, CLEAR_PULSES as nat)
        ||| exists|mid: Seq<LineEvent>, count: nat|
            #[trigger] clocked(before, mid, count) && count < CLEAR_PULSES && pulsed(mid, after, Some(true))
    }
}

/// The first half of a STOP: SDA pulled low while SCL is low, then SCL
/// released.
pub open spec fn stop_begun(before: Seq<LineEvent>) -> Seq<LineEvent> {
    before.push(LineEvent::LowScl).push(LineEvent::Delay(HALF_PERIOD_US)).push(LineEvent::LowSda).push(
        LineEvent::Delay(HALF_PERIOD_US),
    ).push(LineEvent::ReleaseScl)
}

/// What forming a STOP did and returned: SDA rises while SCL is high.
pub open spec fn stop_ran(
    before: Seq<LineEvent>,
    after: Seq<LineEvent>,
    r: Result<(), BusClearError>,
) -> bool {
    let risen = after.take(after.len() - 4);
    let level = after.last()->Sda_0;
    ||| r == Err::<(), BusClearError>(BusClearError::SclHeldLow) && scl_waited(stop_begun(before), after, false)
    ||| {
        &&& after.len() >= 4
        &&& scl_waited(stop_begun(before), risen, true)
        &&& after == risen.push(LineEvent::Delay(HALF_PERIOD_US)).push(LineEvent::ReleaseSda).push(
            LineEvent::Delay(HALF_PERIOD_US),
        ).push(LineEvent::Sda(level))
        &&& r == (if level {
            Ok(())
        } else {
            Err(BusClearError::SdaHeldLow)
        })
    }
}

/// What a bus clear did behind the release of both lines and the rise of SCL.
pub open spec fn clear_ran_on(
    free: Seq<LineEvent>,
    after: Seq<LineEvent>,
    r: Result<(), BusClearError>,
) -> bool {
    // An idle bus needs no clocks and no synthetic traffic.
    ||| after == free.push(LineEvent::Sda(true)) && r == Ok::<(), BusClearError>(())
    ||| clocking_ran(free.push(LineEvent::Sda(false)), after, false) && r == Err::<(), BusClearError>(
        BusClearError::SclHeldLow,
    )
    ||| exists|done: Seq<LineEvent>|
        {
            &&& #[trigger] clocking_ran(free.push(LineEvent::Sda(false)), done, true)
            &&& {
                ||| after == done.push(LineEvent::Sda(false)) && r == Err::<(), BusClearError>(
                    BusClearError::SdaHeldLow,
                )
                ||| stop_ran(done.push(LineEvent::Sda(true)), after, r)
            }
        }
}

/// What a bus clear did and returned.
pub open spec fn clear_ran(
    before: Seq<LineEvent>,
    after: Seq<LineEvent>,
    r: Result<(), BusClearError>,
) -> bool {
    let released = before.push(LineEvent::ReleaseScl).push(LineEvent::ReleaseSda);
    ||| scl_waited(released, after, false) && r == Err::<(), BusClearError>(BusClearError::SclHeldLow)
    ||| exists|free: Seq<LineEvent>| #[trigger] scl_waited(released, free, true) && clear_ran_on(free, after, r)
}

impl<B> Lines<B> {
    /// Everything done to and read from the lines, oldest first.
    pub closed spec fn log(&self) -> Seq<LineEvent> {
        self.history@
    }

    /// The lines themselves, in the state that what was done to them left.
    pub closed spec fn held(&self) -> B {
        self.bus
    }

    /// The lines as they were taken over.
    pub closed spec fn taken_over(&self) -> B {
        self.origin@
    }

    /// Takes the lines over.
    pub fn new(bus: B) -> (r: Self)
        ensures
            r.log() == Seq::<LineEvent>::empty(),
            r.held() == bus,
            r.taken_over() == bus,
    {
        let ghost origin = bus;
        Lines { bus, origin: Ghost(origin), history: Ghost(Seq::empty()) }
    }

    /// Gives the lines back.
    pub fn into_inner(self) -> (r: B)
        ensures
            r == self.held(),
    {
        self.bus
    }
}

impl<B: BusLines> Lines<B> {
    /// The history is what the lines went through since they were taken over.
    pub open spec fn faithful(&self) -> bool {
        lines_led(self.taken_over(), self.log(), self.held())
    }

    /// Goes on from a faithful history.
    proof fn lemma_led(before: &Self, event: LineEvent, after: &Self)
        requires
            after.taken_over() == before.taken_over(),
            after.log() == before.log().push(event),
            B::lines_ran(&before.held(), event, &after.held()),
        ensures
            before.faithful() ==> after.faithful(),
    {
        assert(after.log().drop_last() =~= before.log());
        assert(B::lines_ran(&before.held(), after.log().last(), &after.held()));
    }

    fn release_scl(&mut self)
        ensures
            final(self).log() == old(self).log().push(LineEvent::ReleaseScl),
            B::lines_ran(&old(self).held(), LineEvent::ReleaseScl, &final(self).held()),
            final(self).taken_over() == old(self).taken_over(),
            old(self).faithful() ==> final(self).faithful(),
    {
        let ghost before = *self;
        self.bus.release_scl();
        proof {
            self.history@ = self.history@.push(LineEvent::ReleaseScl);
            Self::lemma_led(&before, LineEvent::ReleaseScl, self);
        }
    }

    fn drive_scl_low(&mut self)
        ensures
            final(self).log() == old(self).log().push(LineEvent::LowScl),
            B::lines_ran(&old(self).held(), LineEvent::LowScl, &final(self).held()),
            final(self).taken_over() == old(self).taken_over(),
            old(self).faithful() ==> final(self).faithful(),
    {
        let ghost before = *self;
        self.bus.drive_scl_low();
        proof {
            self.history@ = self.history@.push(LineEvent::LowScl);
            Self::lemma_led(&before, LineEvent::LowScl, self);
        }
    }

    fn scl_is_high(&mut self) -> (r: bool)
        ensures
            final(self).log() == old(self).log().push(LineEvent::Scl(r)),
            B::lines_ran(&old(self).held(), LineEvent::Scl(r), &final(self).held()),
            final(self).taken_over() == old(self).taken_over(),
            old(self).faithful() ==> final(self).faithful(),
    {
        let ghost before = *self;
        let r = self.bus.scl_is_high();
        proof {
            self.history@ = self.history@.push(LineEvent::Scl(r));
            Self::lemma_led(&before, LineEvent::Scl(r), self);
        }
        r
    }

    fn release_sda(&mut self)
        ensures
            final(self).log() == old(self).log().push(LineEvent::ReleaseSda),
            B::lines_ran(&old(self).held(), LineEvent::ReleaseSda, &final(self).held()),
            final(self).taken_over() == old(self).taken_over(),
            old(self).faithful() ==> final(self).faithful(),
    {
        let ghost before = *self;
        self.bus.release_sda();
        proof {
            self.history@ = self.history@.push(LineEvent::ReleaseSda);
            Self::lemma_led(&before, LineEvent::ReleaseSda, self);
        }
    }

    fn drive_sda_low(&mut self)
        ensures
            final(self).log() == old(self).log().push(LineEvent::LowSda),
            B::lines_ran(&old(self).held(), LineEvent::LowSda, &final(self).held()),
            final(self).taken_over() == old(self).taken_over(),
            old(self).faithful() ==> final(self).faithful(),
    {
        let ghost before = *self;
        self.bus.drive_sda_low();
        proof {
            self.history@ = self.history@.push(LineEvent::LowSda);
            Self::lemma_led(&before, LineEvent::LowSda, self);
        }
    }

    fn sda_is_high(&mut self) -> (r: bool)
        ensures
            final(self).log() == old(self).log().push(LineEvent::Sda(r)),
            B::lines_ran(&old(self).held(), LineEvent::Sda(r), &final(self).held()),
            final(self).taken_over() == old(self).taken_over(),
            old(self).faithful() ==> final(self).faithful(),
    {
        let ghost before = *self;
        let r = self.bus.sda_is_high();
        proof {
            self.history@ = self.history@.push(LineEvent::Sda(r));
            Self::lemma_led(&before, LineEvent::Sda(r), self);
        }
        r
    }

    fn half_period(&mut self)
        ensures
            final(self).log() == old(self).log().push(LineEvent::Delay(HALF_PERIOD_US)),
            B::lines_ran(&old(self).held(), LineEvent::Delay(HALF_PERIOD_US), &final(self).held()),
            final(self).taken_over() == old(self).taken_over(),
            old(self).faithful() ==> final(self).faithful(),
    {
        let ghost before = *self;
        self.bus.delay_us(HALF_PERIOD_US);
        proof {
            self.history@ = self.history@.push(LineEvent::Delay(HALF_PERIOD_US));
            Self::lemma_led(&before, LineEvent::Delay(HALF_PERIOD_US), self);
        }
    }

    /// Waits for the released SCL line to actually rise. A released latch
    /// proves nothing; the level on the bus does.
    fn wait_scl_high(&mut self) -> (r: bool)
        ensures
            scl_waited(old(self).log(), final(self).log(), r),
            final(self).taken_over() == old(self).taken_over(),
            old(self).faithful() ==> final(self).faithful(),
    {
        let ghost entered = self.log();
        let mut looks: usize = 0;
        while looks < SCL_RISE_POLLS
            invariant
                entered == old(self).log(),
                self.taken_over() == old(self).taken_over(),
                old(self).faithful() ==> self.faithful(),
                looks <= SCL_RISE_POLLS,
                scl_seen_low(entered, self.log(), looks as int),
            decreases SCL_RISE_POLLS - looks,
        {
            let ghost round = self.log();
            if self.scl_is_high() {
                assert(self.log().drop_last() =~= round);
                return true;
            }
            self.half_period();
            proof {
                assert forall|k: int|
                    #![trigger self.log()[entered.len() + 2 * k]]
                    0 <= k < looks + 1 implies self.log()[entered.len() + 2 * k] == LineEvent::Scl(false)
                    && self.log()[entered.len() + 2 * k + 1] == LineEvent::Delay(HALF_PERIOD_US) by {
                    if k < looks {
                        assert(round[entered.len() + 2 * k] == LineEvent::Scl(false));
                    }
                }
            }
            looks = looks + 1;
        }
        false
    }

    /// Emits one clock pulse and looks at SDA behind it.
    fn pulse(&mut self) -> (r: Option<bool>)
        ensures
            pulsed(old(self).log(), final(self).log(), r),
            final(self).taken_over() == old(self).taken_over(),
            old(self).faithful() ==> final(self).faithful(),
    {
        self.drive_scl_low();
        self.half_period();
        self.release_scl();
        if !self.wait_scl_high() {
            return None;
        }
        let ghost risen = self.log();
        self.half_period();
        let level = self.sda_is_high();
        assert(self.log().take(self.log().len() - 2) =~= risen);
        Some(level)
    }

    /// Clocks a target that lost a transfer through its byte, and stops as
    /// soon as SDA is released. Returns whether SCL rose behind every pulse.
    fn clock_out(&mut self) -> (r: bool)
        ensures
            clocking_ran(old(self).log(), final(self).log(), r),
            final(self).taken_over() == old(self).taken_over(),
            old(self).faithful() ==> final(self).faithful(),
    {
        let ghost entered = self.log();
        let mut count: usize = 0;
        while count < CLEAR_PULSES
            invariant
                entered == old(self).log(),
                self.taken_over() == old(self).taken_over(),
                old(self).faithful() ==> self.faithful(),
                count <= CLEAR_PULSES,
                clocked(entered, self.log(), count as nat),
            decreases CLEAR_PULSES - count,
        {
            let ghost round = self.log();
            match self.pulse() {
                None => {
                    assert(clocked(entered, round, count as nat));
                    return false;
                },
                Some(level) => {
                    if level {
                        assert(clocked(entered, round, count as nat));
                        return true;
                    }
                },
            }
            assert(pulsed(round, self.log(), Some(false)));
            assert(clocked(entered, self.log(), (count + 1) as nat));
            count = count + 1;
        }
        true
    }

    /// Forms a STOP: SDA low while SCL is low, SCL released and verified
    /// high, then SDA released.
    fn form_stop(&mut self) -> (r: Result<(), BusClearError>)
        ensures
            stop_ran(old(self).log(), final(self).log(), r),
            final(self).taken_over() == old(self).taken_over(),
            old(self).faithful() ==> final(self).faithful(),
    {
        self.drive_scl_low();
        self.half_period();
        self.drive_sda_low();
        self.half_period();
        self.release_scl();
        if !self.wait_scl_high() {
            return Err(BusClearError::SclHeldLow);
        }
        let ghost risen = self.log();
        self.half_period();
        self.release_sda();
        self.half_period();
        let level = self.sda_is_high();
        assert(self.log().take(self.log().len() - 4) =~= risen);
        if level {
            Ok(())
        } else {
            Err(BusClearError::SdaHeldLow)
        }
    }

    /// Attempts the standard bus-clear sequence while the controller keeps
    /// its hands off the lines. The caller decides whether to re-enable the
    /// controller only where this returns `Ok`.
    pub fn clear(&mut self) -> (r: Result<(), BusClearError>)
        ensures
            clear_ran(old(self).log(), final(self).log(), r),
            final(self).taken_over() == old(self).taken_over(),
            old(self).faithful() ==> final(self).faithful(),
    {
        // With SCL held low by another device, no rising edge and no valid
        // STOP can be formed.
        self.release_scl();
        self.release_sda();
        let ghost released = self.log();
        if !self.wait_scl_high() {
            return Err(BusClearError::SclHeldLow);
        }
        let ghost free = self.log();
        assert(scl_waited(released, free, true));
        if self.sda_is_high() {
            return Ok(());
        }
        if !self.clock_out() {
            return Err(BusClearError::SclHeldLow);
        }
        let ghost done = self.log();
        assert(clocking_ran(free.push(LineEvent::Sda(false)), done, true));
        if !self.sda_is_high() {
            return Err(BusClearError::SdaHeldLow);
        }
        let r = self.form_stop();
        assert(stop_ran(done.push(LineEvent::Sda(true)), self.log(), r));
        r
    }
}

} // verus!
