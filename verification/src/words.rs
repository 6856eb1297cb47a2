//! The values that the LPI2C registers hold, field by field.
//!
//! Every field that the driver decides on is named here. The bits it never
//! looks at travel together in `rest`, so a read-modify-write and a
//! write-back of a snapshot hand them on unchanged.

use vstd::prelude::*;

verus! {

/// Parameter register: sizes of the FIFOs, as exponents of two.
#[derive(Clone, Copy, Debug, PartialEq, Eq, Structural)]
pub struct Param {
    pub mtxfifo: u8,
}

/// Controller control register.
#[derive(Clone, Copy, Debug, PartialEq, Eq, Structural)]
pub struct Mcr {
    /// Reset the transmit FIFO.
    pub rtf: bool,
    /// Reset the receive FIFO.
    pub rrf: bool,
    pub rest: u32,
}

/// Controller status register. All flags but `mbf` are cleared by writing one.
#[derive(Clone, Copy, Debug, PartialEq, Eq, Structural)]
pub struct Msr {
    /// End of packet.
    pub epf: bool,
    /// STOP detected.
    pub sdf: bool,
    /// NACK detected.
    pub ndf: bool,
    /// Arbitration lost.
    pub alf: bool,
    /// FIFO error.
    pub fef: bool,
    /// Pin-low timeout.
    pub pltf: bool,
    /// Data match.
    pub dmf: bool,
    /// START detected.
    pub stf: bool,
    /// Controller busy.
    pub mbf: bool,
    pub rest: u32,
}

/// Controller interrupt enable register.
#[derive(Clone, Copy, Debug, PartialEq, Eq, Structural)]
pub struct Mier {
    pub tdie: bool,
    pub rdie: bool,
    pub ndie: bool,
    pub alie: bool,
    pub feie: bool,
    pub pltie: bool,
    pub rest: u32,
}

/// Controller DMA enable register.
#[derive(Clone, Copy, Debug, PartialEq, Eq, Structural)]
pub struct Mder {
    pub tdde: bool,
    pub rdde: bool,
    pub rest: u32,
}

/// Controller configuration register 1.
#[derive(Clone, Copy, Debug, PartialEq, Eq, Structural)]
pub struct Mcfgr1 {
    /// Automatic STOP generation.
    pub autostop: bool,
    pub rest: u32,
}

/// Controller FIFO status register.
#[derive(Clone, Copy, Debug, PartialEq, Eq, Structural)]
pub struct Mfsr {
    pub txcount: u8,
    pub rxcount: u8,
}

/// The commands that the controller's transmit FIFO takes.
#[derive(Clone, Copy, Debug, PartialEq, Eq, Structural)]
pub enum ControllerCommand {
    /// Transmit the data byte.
    Transmit,
    /// Receive one byte more than the data field says.
    Receive,
    /// Form a STOP condition.
    Stop,
    /// Form a (repeated) START and send the data byte as the address byte.
    Start,
}

/// One entry of the controller's transmit FIFO.
#[derive(Clone, Copy, Debug, PartialEq, Eq, Structural)]
pub struct Mtdr {
    pub data: u8,
    pub cmd: ControllerCommand,
}

/// One byte popped from the controller's receive FIFO.
#[derive(Clone, Copy, Debug, PartialEq, Eq, Structural)]
pub struct Mrdr {
    pub data: u8,
}

/// Target control register.
#[derive(Clone, Copy, Debug, PartialEq, Eq, Structural)]
pub struct Scr {
    /// Target enable.
    pub sen: bool,
    /// Software reset.
    pub rst: bool,
    /// Digital glitch filter.
    pub filten: bool,
    /// Filter disabled in low-power states.
    pub filtdz: bool,
    /// Reset the transmit FIFO.
    pub rtf: bool,
    /// Reset the receive FIFO.
    pub rrf: bool,
    pub rest: u32,
}

/// Target status register. `rsf`, `sdf`, `bef` and `fef` are cleared by
/// writing one.
#[derive(Clone, Copy, Debug, PartialEq, Eq, Structural)]
pub struct Ssr {
    /// Transmit data requested.
    pub tdf: bool,
    /// Receive data ready.
    pub rdf: bool,
    /// Address valid.
    pub avf: bool,
    /// Transmit ACK requested.
    pub taf: bool,
    /// Repeated START detected.
    pub rsf: bool,
    /// STOP detected.
    pub sdf: bool,
    /// Bit error.
    pub bef: bool,
    /// FIFO error.
    pub fef: bool,
    /// General call.
    pub gcf: bool,
    /// SMBus alert response.
    pub sarf: bool,
    pub rest: u32,
}

/// Target interrupt enable register.
#[derive(Clone, Copy, Debug, PartialEq, Eq, Structural)]
pub struct Sier {
    pub tdie: bool,
    pub rdie: bool,
    pub avie: bool,
    pub rsie: bool,
    pub sdie: bool,
    pub beie: bool,
    pub feie: bool,
    pub am0ie: bool,
    pub am1ie: bool,
    pub gcie: bool,
    pub sarie: bool,
    pub rest: u32,
}

/// Target DMA enable register.
#[derive(Clone, Copy, Debug, PartialEq, Eq, Structural)]
pub struct Sder {
    pub tdde: bool,
    pub rdde: bool,
    pub rest: u32,
}

/// How the target matches the two addresses of [`Samr`].
#[derive(Clone, Copy, Debug, PartialEq, Eq, Structural)]
pub enum Addrcfg {
    AddressMatch07Bit,
    AddressMatch010Bit,
    AddressMatch07BitOrAddressMatch17Bit,
    AddressMatch010BitOrAddressMatch110Bit,
    FromAddressMatch07BitToAddressMatch17Bit,
    FromAddressMatch010BitToAddressMatch110Bit,
    /// A matching mode this driver never selects.
    Unused,
}

/// Target configuration register 1.
#[derive(Clone, Copy, Debug, PartialEq, Eq, Structural)]
pub struct Scfgr1 {
    /// Stretch SCL while received data waits.
    pub rxstall: bool,
    /// Stretch SCL while transmit data is missing.
    pub txdstall: bool,
    /// Stretch SCL while an address waits to be read.
    pub adrstall: bool,
    /// General call enable.
    pub gcen: bool,
    /// SMBus alert enable.
    pub saen: bool,
    pub addrcfg: Addrcfg,
    pub rest: u32,
}

/// Target configuration register 2.
#[derive(Clone, Copy, Debug, PartialEq, Eq, Structural)]
pub struct Scfgr2 {
    /// Data valid delay.
    pub datavd: u8,
    pub rest: u32,
}

/// Target address match register.
#[derive(Clone, Copy, Debug, PartialEq, Eq, Structural)]
pub struct Samr {
    pub addr0: u16,
    pub addr1: u16,
}

/// Target address status register: the received address byte or bytes, with
/// the direction in bit 0.
#[derive(Clone, Copy, Debug, PartialEq, Eq, Structural)]
pub struct Sasr {
    pub raddr: u16,
}

/// One byte for the target's transmit register.
#[derive(Clone, Copy, Debug, PartialEq, Eq, Structural)]
pub struct Stdr {
    pub data: u8,
}

/// One byte popped from the target's receive FIFO.
#[derive(Clone, Copy, Debug, PartialEq, Eq, Structural)]
pub struct Srdr {
    pub data: u8,
}

impl Msr {
    /// The word with no flag set.
    pub open spec fn clear() -> Msr {
        Msr {
            epf: false,
            sdf: false,
            ndf: false,
            alf: false,
            fef: false,
            pltf: false,
            dmf: false,
            stf: false,
            mbf: false,
            rest: 0,
        }
    }

    /// The word that clears every status flag when it is written.
    pub open spec fn all_flags() -> Msr {
        Msr {
            epf: true,
            sdf: true,
            ndf: true,
            alf: true,
            fef: true,
            pltf: true,
            dmf: true,
            stf: true,
            mbf: false,
            rest: 0,
        }
    }
}

impl Mier {
    /// The word with no source enabled.
    pub open spec fn none() -> Mier {
        Mier { tdie: false, rdie: false, ndie: false, alie: false, feie: false, pltie: false, rest: 0 }
    }

    /// The error sources alone.
    pub open spec fn errors() -> Mier {
        Mier { ndie: true, alie: true, feie: true, pltie: true, ..Mier::none() }
    }

    /// The error sources and received data.
    pub open spec fn receive() -> Mier {
        Mier { rdie: true, ..Mier::errors() }
    }

    /// The error sources and transmit space.
    pub open spec fn transmit() -> Mier {
        Mier { tdie: true, ..Mier::errors() }
    }

    /// The word with no source enabled.
    pub fn disabled() -> (r: Mier)
        ensures
            r == Mier::none(),
    {
        Mier { tdie: false, rdie: false, ndie: false, alie: false, feie: false, pltie: false, rest: 0 }
    }
}

impl Ssr {
    /// The word that clears every clearable flag when it is written.
    pub open spec fn all_events() -> Ssr {
        Ssr {
            tdf: false,
            rdf: false,
            avf: false,
            taf: false,
            rsf: true,
            sdf: true,
            bef: true,
            fef: true,
            gcf: false,
            sarf: false,
            rest: 0,
        }
    }

    /// The word that clears the clearable flags of this snapshot and no
    /// other.
    pub open spec fn observed_events(self) -> Ssr {
        Ssr {
            tdf: false,
            rdf: false,
            avf: false,
            taf: false,
            rsf: self.rsf,
            sdf: self.sdf,
            bef: self.bef,
            fef: self.fef,
            gcf: false,
            sarf: false,
            rest: 0,
        }
    }
}

impl Sier {
    /// The word with no source enabled.
    pub open spec fn none() -> Sier {
        Sier {
            tdie: false,
            rdie: false,
            avie: false,
            rsie: false,
            sdie: false,
            beie: false,
            feie: false,
            am0ie: false,
            am1ie: false,
            gcie: false,
            sarie: false,
            rest: 0,
        }
    }

    /// The fault and termination sources.
    pub open spec fn terminations() -> Sier {
        Sier { feie: true, beie: true, sdie: true, rsie: true, ..Sier::none() }
    }

    /// The fault and termination sources and received data.
    pub open spec fn receive() -> Sier {
        Sier { rdie: true, ..Sier::terminations() }
    }

    /// The fault and termination sources and transmit space.
    pub open spec fn transmit() -> Sier {
        Sier { tdie: true, ..Sier::terminations() }
    }

    /// The sources that end a wait for a new transaction. The per-address
    /// sources stay off: no wait tests their flags, and a source that fires
    /// without ending the wait would fire again at once.
    pub open spec fn listen(general_call: bool, smbus_alert: bool) -> Sier {
        Sier {
            sarie: smbus_alert,
            gcie: general_call,
            feie: true,
            beie: true,
            sdie: true,
            avie: true,
            ..Sier::none()
        }
    }

    /// The word with no source enabled.
    pub fn disabled() -> (r: Sier)
        ensures
            r == Sier::none(),
    {
        Sier {
            tdie: false,
            rdie: false,
            avie: false,
            rsie: false,
            sdie: false,
            beie: false,
            feie: false,
            am0ie: false,
            am1ie: false,
            gcie: false,
            sarie: false,
            rest: 0,
        }
    }
}

} // verus!
