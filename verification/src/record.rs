//! The data model: saved credential records, scan records, and
//! configured-network records, with their mathematical views.

use vstd::prelude::*;

verus! {

/// Mathematical view of a saved credential record.
pub struct WapCfgV {
    pub mac: Seq<char>,
    pub essid: Seq<char>,
    pub pwd: Seq<char>,
    pub psk: Seq<char>,
}

/// A wireless network credential saved in the library: the access point's
/// hardware address (its stable identity), the ESSID under which it was
/// saved, the plaintext password, and the derived pre-shared key.
pub struct WapCfg {
    pub mac: String,
    pub essid: String,
    pub pwd: String,
    pub psk: String,
}

impl View for WapCfg {
    type V = WapCfgV;

    open spec fn view(&self) -> WapCfgV {
        WapCfgV { mac: self.mac@, essid: self.essid@, pwd: self.pwd@, psk: self.psk@ }
    }
}

impl WapCfg {
    /// A field-for-field copy.
    pub fn duplicate(&self) -> (r: WapCfg)
        ensures
            r@ == self@,
    {
        WapCfg {
            mac: self.mac.clone(),
            essid: self.essid.clone(),
            pwd: self.pwd.clone(),
            psk: self.psk.clone(),
        }
    }
}

/// The views of a sequence of saved credentials.
pub open spec fn cfg_views(s: Seq<WapCfg>) -> Seq<WapCfgV> {
    s.map_values(|w: WapCfg| w@)
}

/// Mathematical view of a scan record.
pub struct WapV {
    pub mac: Seq<char>,
    pub freq: Seq<char>,
    pub level: int,
    pub essid: Seq<char>,
    pub old_essid: Option<Seq<char>>,
    pub pwd: Option<Seq<char>>,
    pub psk: Option<Seq<char>>,
}

/// One access point seen by a scan: hardware address, channel frequency,
/// signal level in dBm, and the currently broadcast ESSID, plus the
/// enrichment fields filled in from the library during reconciliation.
pub struct Wap {
    pub mac: String,
    pub freq: String,
    pub level: i64,
    pub essid: String,
    /// The saved ESSID, when a library entry exists under this hardware
    /// address and its ESSID differs from the broadcast one.
    pub old_essid: Option<String>,
    /// The saved password, when a library entry exists.
    pub pwd: Option<String>,
    /// The saved derived key, when a library entry exists.
    pub psk: Option<String>,
}

pub open spec fn view_opt_string(o: Option<String>) -> Option<Seq<char>> {
    match o {
        Some(s) => Some(s@),
        None => None,
    }
}

impl View for Wap {
    type V = WapV;

    open spec fn view(&self) -> WapV {
        WapV {
            mac: self.mac@,
            freq: self.freq@,
            level: self.level as int,
            essid: self.essid@,
            old_essid: view_opt_string(self.old_essid),
            pwd: view_opt_string(self.pwd),
            psk: view_opt_string(self.psk),
        }
    }
}

/// Mathematical view of a configured-network record.
pub struct NetIdV {
    pub index: Seq<char>,
    pub mac: Seq<char>,
}

/// One row of the daemon's configured-network listing: the daemon's own
/// numeric network index (kept as the digit string the daemon printed)
/// and the network's hardware address.
pub struct NetId {
    pub index: String,
    pub mac: String,
}

impl View for NetId {
    type V = NetIdV;

    open spec fn view(&self) -> NetIdV {
        NetIdV { index: self.index@, mac: self.mac@ }
    }
}

} // verus!
