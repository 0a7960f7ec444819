use vstd::prelude::*;

verus! {

/// The failure taxonomy of the engine.
///
/// - `Io`: spawning, reading or writing failed at the process or file level.
/// - `Protocol`: the control channel ended or misbehaved before an expected
///   marker line appeared.
/// - `Derivation`: the key-derivation tool's output held no extractable key.
/// - `NotConfigured`: the selected network is absent from the daemon's own
///   configured-network list.
/// - `Decode`: subprocess output was not valid text.
/// - `Persistence`: the credential library file could not be parsed.
#[derive(Clone, Copy, Debug, PartialEq, Eq, Structural)]
pub enum WifiError {
    Io,
    Protocol,
    Derivation,
    NotConfigured,
    Decode,
    Persistence,
}

impl WifiError {
    /// A short fixed description of the failure, for reporting.
    pub fn describe(&self) -> (r: &'static str)
        ensures
            r@.len() > 0,
    {
        proof {
            reveal_strlit("input/output failure");
            reveal_strlit("control channel protocol failure");
            reveal_strlit("unable to extract a derived key");
            reveal_strlit("selected network not configured");
            reveal_strlit("subprocess output is not valid text");
            reveal_strlit("credential library file is malformed");
        }
        match self {
            WifiError::Io => "input/output failure",
            WifiError::Protocol => "control channel protocol failure",
            WifiError::Derivation => "unable to extract a derived key",
            WifiError::NotConfigured => "selected network not configured",
            WifiError::Decode => "subprocess output is not valid text",
            WifiError::Persistence => "credential library file is malformed",
        }
    }
}

} // verus!
