//! The credential deriver's verified half: turning the derivation tool's
//! output into a saved credential record.

use vstd::prelude::*;

use crate::err::WifiError;
use crate::parse::{extract_psk, spec_extract_psk};
use crate::record::{Wap, WapCfg, WapCfgV};

verus! {

/// The credential record a scan record, a password and a derivation-tool
/// output together describe.
pub open spec fn spec_into_cfg(w: crate::record::WapV, pwd: Seq<char>, out: Seq<char>) -> Option<
    WapCfgV,
> {
    match spec_extract_psk(out) {
        None => None,
        Some(psk) => Some(WapCfgV { mac: w.mac, essid: w.essid, pwd, psk }),
    }
}

impl Wap {
    /// Builds the library entry for this scan result from the given
    /// password and the derivation tool's output: the caller supplies the
    /// tool's captured text, and the derived key is extracted from it.
    /// Fails with `Derivation` exactly when the output holds no key.
    pub fn into_cfg(self, pwd: &str, derivation_output: &str) -> (r: Result<WapCfg, WifiError>)
        ensures
            match r {
                Ok(cfg) => spec_into_cfg(self@, pwd@, derivation_output@) == Some(cfg@),
                Err(e) => e == WifiError::Derivation && spec_into_cfg(
                    self@,
                    pwd@,
                    derivation_output@,
                ) is None,
            },
    {
        match extract_psk(derivation_output) {
            None => Err(WifiError::Derivation),
            Some(psk) => Ok(
                WapCfg { mac: self.mac, essid: self.essid, pwd: pwd.to_owned(), psk },
            ),
        }
    }
}

} // verus!
