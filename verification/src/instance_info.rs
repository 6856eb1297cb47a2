//! Per-instance I2C state that must not be field-accessible to drivers.

use vstd::prelude::*;

verus! {

/// The state that one I2C instance owns.
pub struct Info {
    /// Whether one controller transaction session currently owns this
    /// peripheral.
    session_open: bool,
}

impl Info {
    /// Whether a controller session is live.
    pub closed spec fn open(&self) -> bool {
        self.session_open
    }

    /// Creates one instance-owned I2C state block, with no session live.
    pub fn new() -> (r: Self)
        ensures
            !r.open(),
    {
        Info { session_open: false }
    }

    /// Whether a controller session is live.
    pub fn session_live(&self) -> (r: bool)
        ensures
            r == self.open(),
    {
        self.session_open
    }

    /// Reserves the single live controller-session slot. A transaction must
    /// not start while another session is live.
    pub fn reserve_session(&mut self)
        requires
            !old(self).open(),
        ensures
            final(self).open(),
    {
        self.session_open = true;
    }

    /// Releases the controller-session slot after normal completion or
    /// recovery.
    pub fn release_session(&mut self)
        ensures
            !final(self).open(),
    {
        self.session_open = false;
    }
}

} // verus!
