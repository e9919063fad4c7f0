//! Settings the operator keeps across boots.

use crate::text::chars_of;
use crate::text::is_str;
use vstd::prelude::*;

verus! {

/// Where the slot grid's phase comes from.
///
/// Which one is right is a property of where the station is: on a hilltop
/// with no network there is no NTP to wait for, and at home there is no
/// reason to spend minutes acquiring a phase the clock already knows.
#[derive(Clone, Copy, PartialEq, Eq, Structural, Debug)]
pub enum GridSource {
    /// Start NTP at boot and let UTC own the slot phase once it syncs.
    Ntp,
    /// Ignore the clock; the phase comes from the air.
    AirDt,
}

impl GridSource {
    /// The word that is stored.
    pub open spec fn word(self) -> Seq<char> {
        match self {
            GridSource::Ntp => "ntp"@,
            GridSource::AirDt => "air"@,
        }
    }

    pub fn as_str(self) -> (r: &'static str)
        ensures
            r@ == self.word(),
    {
        match self {
            GridSource::Ntp => "ntp",
            GridSource::AirDt => "air",
        }
    }

    /// What the picker shows.
    pub fn label(self) -> (r: &'static str)
        ensures
            r@ == match self {
                GridSource::Ntp => "TIME: NTP"@,
                GridSource::AirDt => "TIME: AIR DT"@,
            },
    {
        match self {
            GridSource::Ntp => "TIME: NTP",
            GridSource::AirDt => "TIME: AIR DT",
        }
    }

    /// The choice a stored word stands for; anything unknown is the default.
    pub fn from_str(s: &str) -> (r: Self)
        ensures
            r == if s@ == "air"@ {
                GridSource::AirDt
            } else {
                GridSource::Ntp
            },
    {
        let c = chars_of(s);
        if is_str(c.as_slice(), "air") {
            GridSource::AirDt
        } else {
            GridSource::Ntp
        }
    }
}

impl Default for GridSource {
    fn default() -> (r: Self)
        ensures
            r == GridSource::Ntp,
    {
        GridSource::Ntp
    }
}

/// Whether a boot brings WiFi up.
///
/// A setting of its own: the grid source says where time comes from, this
/// says whether there is a console.
#[derive(Clone, Copy, PartialEq, Eq, Structural, Debug)]
pub enum WifiPref {
    /// Associate at boot.
    On,
    /// Leave the radio down.
    Off,
}

impl WifiPref {
    /// The word that is stored.
    pub open spec fn word(self) -> Seq<char> {
        match self {
            WifiPref::On => "on"@,
            WifiPref::Off => "off"@,
        }
    }

    pub fn as_str(self) -> (r: &'static str)
        ensures
            r@ == self.word(),
    {
        match self {
            WifiPref::On => "on",
            WifiPref::Off => "off",
        }
    }

    /// What the picker shows.
    pub fn label(self) -> (r: &'static str)
        ensures
            r@ == match self {
                WifiPref::On => "WIFI: ON"@,
                WifiPref::Off => "WIFI: OFF"@,
            },
    {
        match self {
            WifiPref::On => "WIFI: ON",
            WifiPref::Off => "WIFI: OFF",
        }
    }

    pub fn enabled(self) -> (r: bool)
        ensures
            r == (self == WifiPref::On),
    {
        self == WifiPref::On
    }

    /// The choice a stored word stands for; anything unknown is the default.
    pub fn from_str(s: &str) -> (r: Self)
        ensures
            r == if s@ == "off"@ {
                WifiPref::Off
            } else {
                WifiPref::On
            },
    {
        let c = chars_of(s);
        if is_str(c.as_slice(), "off") {
            WifiPref::Off
        } else {
            WifiPref::On
        }
    }
}

impl Default for WifiPref {
    fn default() -> (r: Self)
        ensures
            r == WifiPref::On,
    {
        WifiPref::On
    }
}

/// A stored time source reads back as itself.
pub proof fn law_grid_source_reads_back(g: GridSource)
    ensures
        (g.word() == "air"@) == (g == GridSource::AirDt),
{
    reveal_strlit("ntp");
    reveal_strlit("air");
    assert("ntp"@[0] == 'n' && "air"@[0] == 'a');
}

/// A stored WiFi choice reads back as itself.
pub proof fn law_wifi_pref_reads_back(w: WifiPref)
    ensures
        (w.word() == "off"@) == (w == WifiPref::Off),
{
    reveal_strlit("on");
    reveal_strlit("off");
    assert("on"@.len() == 2 && "off"@.len() == 3);
}

}
