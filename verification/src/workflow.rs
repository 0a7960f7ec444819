//! The orchestrator's decision logic: every choice the three workflows
//! make is a function here, so the process plumbing around them carries
//! no rules of its own.

use vstd::prelude::*;

use crate::err::WifiError;
use crate::library::{spec_insert, spec_load, spec_remove, Library};
use crate::libtext::library_text;
use crate::parse::{
    classify_scan_line, parse_list_networks, spec_list_records, ScanLineClass,
};
use crate::record::{NetIdV, Wap, WapCfgV};
use crate::text::{contains_sub, split_lines_s, str_eq};
use crate::wpa::{render_wpa_conf, wpa_conf_text};

verus! {

/// One observation made while reading the interactive scan exchange.
pub enum ScanEvent {
    /// A reply line arrived.
    Line(String),
    /// The stream ended before any marker appeared.
    EndOfStream,
    /// Reading the stream failed.
    ReadError,
}

/// What the driver must do next with the scan session.
#[derive(Clone, Copy, Debug, PartialEq, Eq, Structural)]
pub enum ScanAction {
    /// Keep reading reply lines.
    KeepReading,
    /// The scan completed: send `quit` and await the process.
    SendQuit,
    /// Give the session up with the given failure.
    Abort(WifiError),
}

/// Decides the scan session's next move from one observation: a line with
/// the completion marker ends the session successfully, a line with the
/// failure marker (and not the completion one) aborts it, any other line
/// keeps it reading, and a lost or ended stream aborts it.
pub fn scan_session_step(ev: &ScanEvent) -> (r: ScanAction)
    ensures
        match ev {
            ScanEvent::Line(l) => {
                if contains_sub(l@, "CTRL-EVENT-SCAN-RESULTS"@) {
                    r == ScanAction::SendQuit
                } else if contains_sub(l@, "CTRL-EVENT-SCAN-FAILED"@) {
                    r == ScanAction::Abort(WifiError::Protocol)
                } else {
                    r == ScanAction::KeepReading
                }
            },
            ScanEvent::EndOfStream => r == ScanAction::Abort(WifiError::Protocol),
            ScanEvent::ReadError => r == ScanAction::Abort(WifiError::Protocol),
        },
{
    match ev {
        ScanEvent::Line(l) => match classify_scan_line(l.as_str()) {
            ScanLineClass::Complete => ScanAction::SendQuit,
            ScanLineClass::Failed => ScanAction::Abort(WifiError::Protocol),
            ScanLineClass::InProgress => ScanAction::KeepReading,
        },
        ScanEvent::EndOfStream => ScanAction::Abort(WifiError::Protocol),
        ScanEvent::ReadError => ScanAction::Abort(WifiError::Protocol),
    }
}

/// What lenient library loading yields: the parsed library when the file
/// was read and parses cleanly, otherwise an empty one plus a warning.
pub open spec fn spec_load_lenient(text: Option<Seq<char>>) -> (Seq<WapCfgV>, bool) {
    match text {
        None => (Seq::empty(), true),
        Some(t) => match spec_load(t) {
            Some(es) => (es, false),
            None => (Seq::empty(), true),
        },
    }
}

/// Loads the library leniently, as Connect and Set-Password do: a
/// missing or unparsable file becomes an empty library, and the flag says
/// whether that happened so the caller can warn the operator.
pub fn load_library_lenient(text: Option<&str>) -> (r: (Library, bool))
    ensures
        r.0@ == spec_load_lenient(match text {
            Some(t) => Some(t@),
            None => None,
        }).0,
        r.1 == spec_load_lenient(match text {
            Some(t) => Some(t@),
            None => None,
        }).1,
        r.0.wf(),
{
    match text {
        None => (Library::new(), true),
        Some(t) => match Library::from_text(t) {
            Ok(lib) => (lib, false),
            Err(_) => (Library::new(), true),
        },
    }
}

/// Position of the first configured-network record under `mac`, or `-1`.
pub open spec fn first_net_index(nets: Seq<NetIdV>, mac: Seq<char>) -> int
    decreases nets.len(),
{
    if nets.len() == 0 {
        -1
    } else if nets[0].mac == mac {
        0
    } else {
        let r = first_net_index(nets.drop_first(), mac);
        if r == -1 {
            -1
        } else {
            r + 1
        }
    }
}

proof fn lemma_first_net_index(nets: Seq<NetIdV>, mac: Seq<char>)
    ensures
        first_net_index(nets, mac) == -1 ==> forall|i: int|
            0 <= i < nets.len() ==> nets[i].mac != mac,
        first_net_index(nets, mac) != -1 ==> {
            let r = first_net_index(nets, mac);
            &&& 0 <= r < nets.len()
            &&& nets[r].mac == mac
            &&& forall|i: int| 0 <= i < r ==> nets[i].mac != mac
        },
    decreases nets.len(),
{
    if nets.len() == 0 {
    } else if nets[0].mac == mac {
    } else {
        let t = nets.drop_first();
        lemma_first_net_index(t, mac);
        assert(forall|i: int| 0 <= i < t.len() ==> t[i] == nets[i + 1]);
        let rt = first_net_index(t, mac);
        if rt == -1 {
            assert forall|i: int| 0 <= i < nets.len() implies nets[i].mac != mac by {
                if i > 0 {
                    assert(t[i - 1].mac != mac);
                }
            }
        } else {
            assert(nets[rt + 1].mac == mac);
            assert forall|i: int| 0 <= i < rt + 1 implies nets[i].mac != mac by {
                if i > 0 {
                    assert(t[i - 1].mac != mac);
                }
            }
        }
    }
}

/// The daemon-side network index the Connect workflow must activate: the
/// index of the first configured-network record whose hardware address is
/// the selected one, or `NotConfigured` when the daemon knows no such
/// network.
pub open spec fn spec_resolve_connect(list_out: Seq<char>, mac: Seq<char>) -> Result<
    Seq<char>,
    WifiError,
> {
    let nets = spec_list_records(split_lines_s(list_out));
    let i = first_net_index(nets, mac);
    if i == -1 {
        Err(WifiError::NotConfigured)
    } else {
        Ok(nets[i].index)
    }
}

/// Maps the selected network back into the daemon's own index space by
/// parsing the `list_networks` output.
pub fn resolve_connect(list_output: &str, selected_mac: &str) -> (r: Result<String, WifiError>)
    ensures
        match r {
            Ok(idx) => spec_resolve_connect(list_output@, selected_mac@) == Ok::<_, WifiError>(
                idx@,
            ),
            Err(e) => spec_resolve_connect(list_output@, selected_mac@) == Err::<Seq<char>, _>(e),
        },
{
    let nets = parse_list_networks(list_output);
    let ghost nvs = crate::parse::netid_views(nets@);
    let n = nets.len();
    let mut i: usize = 0;
    while i < n
        invariant
            i <= n,
            n == nets@.len(),
            nvs == crate::parse::netid_views(nets@),
            nvs == spec_list_records(split_lines_s(list_output@)),
            forall|j: int| 0 <= j < i ==> nvs[j].mac != selected_mac@,
        decreases n - i,
    {
        let e = &nets[i];
        if str_eq(e.mac.as_str(), selected_mac) {
            proof {
                assert(nvs[i as int] == e@);
                lemma_first_net_index(nvs, selected_mac@);
                let f = first_net_index(nvs, selected_mac@);
                if f == -1 {
                    assert(nvs[i as int].mac != selected_mac@);
                }
                if f < i {
                    assert(nvs[f].mac != selected_mac@);
                }
                if i < f {
                    assert(nvs[i as int].mac != selected_mac@);
                }
            }
            return Ok(e.index.clone());
        }
        proof {
            assert(nvs[i as int] == nets@[i as int]@);
        }
        i = i + 1;
    }
    proof {
        lemma_first_net_index(nvs, selected_mac@);
        if first_net_index(nvs, selected_mac@) != -1 {
            let f = first_net_index(nvs, selected_mac@);
            assert(nvs[f].mac != selected_mac@);
        }
    }
    Err(WifiError::NotConfigured)
}

/// Applies Set-Password after the operator has chosen a network: derives
/// the credential record from the tool's output, saves it over any entry
/// under the same hardware address, and returns the texts to persist —
/// the library file and the regenerated daemon configuration.  On
/// derivation failure nothing changes.
pub fn apply_set_password(
    lib: &mut Library,
    selected: Wap,
    pwd: &str,
    derivation_output: &str,
    wpa_socket: &str,
    group: &str,
) -> (r: Result<(String, String), WifiError>)
    requires
        old(lib).wf(),
    ensures
        final(lib).wf(),
        match r {
            Ok(texts) => {
                let cfg = crate::deriver::spec_into_cfg(
                    selected@,
                    pwd@,
                    derivation_output@,
                )->Some_0;
                &&& crate::deriver::spec_into_cfg(selected@, pwd@, derivation_output@) is Some
                &&& final(lib)@ == spec_insert(old(lib)@, cfg)
                &&& texts.0@ == library_text(final(lib)@)
                &&& texts.1@ == wpa_conf_text(final(lib)@, wpa_socket@, group@)
            },
            Err(e) => {
                &&& e == WifiError::Derivation
                &&& crate::deriver::spec_into_cfg(selected@, pwd@, derivation_output@) is None
                &&& final(lib)@ == old(lib)@
            },
        },
{
    let cfg = match selected.into_cfg(pwd, derivation_output) {
        Ok(c) => c,
        Err(e) => {
            return Err(e);
        },
    };
    lib.insert(cfg);
    let lib_text = lib.to_text();
    let conf_text = render_wpa_conf(lib, wpa_socket, group);
    Ok((lib_text, conf_text))
}

/// Applies Forget-Network after the operator has chosen an entry:
/// removes it and returns the texts to persist — the library file and
/// the regenerated daemon configuration.
pub fn apply_forget(lib: &mut Library, mac: &str, wpa_socket: &str, group: &str) -> (r: (
    String,
    String,
))
    requires
        old(lib).wf(),
    ensures
        final(lib).wf(),
        final(lib)@ == spec_remove(old(lib)@, mac@),
        r.0@ == library_text(final(lib)@),
        r.1@ == wpa_conf_text(final(lib)@, wpa_socket@, group@),
{
    lib.remove(mac);
    let lib_text = lib.to_text();
    let conf_text = render_wpa_conf(lib, wpa_socket, group);
    (lib_text, conf_text)
}

} // verus!
