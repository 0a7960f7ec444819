//! The supplicant daemon's configuration grammar: one stanza per saved
//! network, under a fixed header, regenerated in full from the library.

use vstd::prelude::*;

use crate::library::Library;
use crate::record::{WapCfg, WapCfgV};
use crate::text::{push_str_chars, string_from_chars};

verus! {

/// One `network=` stanza: the hardware address, the quoted ESSID, the
/// plaintext password as a comment for the operator's convenience, and
/// the derived key as the active `psk` directive.
pub open spec fn stanza_text(w: WapCfgV) -> Seq<char> {
    "network={\n\tbssid="@ + w.mac + "\n\tssid=\""@ + w.essid + "\"\n\t#psk=\""@ + w.pwd
        + "\"\n\tpsk="@ + w.psk + "\n}\n"@
}

/// The stanzas of all saved networks, in library order.
pub open spec fn stanzas_text(lib: Seq<WapCfgV>) -> Seq<char>
    decreases lib.len(),
{
    if lib.len() == 0 {
        Seq::empty()
    } else {
        stanza_text(lib[0]) + stanzas_text(lib.drop_first())
    }
}

/// The whole configuration file: the `update_config` directive, the
/// control-interface directive for the given socket directory and group,
/// then one stanza per saved network.
pub open spec fn wpa_conf_text(lib: Seq<WapCfgV>, socket: Seq<char>, group: Seq<char>) -> Seq<
    char,
> {
    "update_config=1\nctrl_interface=DIR="@ + socket + " GROUP="@ + group + "\n"@
        + stanzas_text(lib)
}

impl WapCfg {
    /// Renders this network's `network=` stanza.
    pub fn to_wpa_conf_stanza(&self) -> (r: String)
        ensures
            r@ == stanza_text(self@),
    {
        let mut out: Vec<char> = Vec::new();
        push_str_chars(&mut out, "network={\n\tbssid=");
        push_str_chars(&mut out, self.mac.as_str());
        push_str_chars(&mut out, "\n\tssid=\"");
        push_str_chars(&mut out, self.essid.as_str());
        push_str_chars(&mut out, "\"\n\t#psk=\"");
        push_str_chars(&mut out, self.pwd.as_str());
        push_str_chars(&mut out, "\"\n\tpsk=");
        push_str_chars(&mut out, self.psk.as_str());
        push_str_chars(&mut out, "\n}\n");
        proof {
            assert(out@ =~= stanza_text(self@));
        }
        string_from_chars(&out)
    }
}

/// Renders the daemon configuration file for the whole library, with the
/// configured control-socket directory and permitted group.
pub fn render_wpa_conf(lib: &Library, wpa_socket: &str, group: &str) -> (r: String)
    ensures
        r@ == wpa_conf_text(lib@, wpa_socket@, group@),
{
    let mut out: Vec<char> = Vec::new();
    push_str_chars(&mut out, "update_config=1\nctrl_interface=DIR=");
    push_str_chars(&mut out, wpa_socket);
    push_str_chars(&mut out, " GROUP=");
    push_str_chars(&mut out, group);
    push_str_chars(&mut out, "\n");
    let ghost header = out@;
    proof {
        assert(header =~= "update_config=1\nctrl_interface=DIR="@ + wpa_socket@ + " GROUP="@
            + group@ + "\n"@);
    }
    let entries = lib.entries();
    let ghost evs = lib@;
    let n = entries.len();
    let mut i: usize = 0;
    proof {
        assert(evs.skip(0) =~= evs);
        assert(out@ + stanzas_text(evs) =~= header + stanzas_text(evs));
    }
    while i < n
        invariant
            i <= n,
            n == entries@.len(),
            evs == crate::record::cfg_views(entries@),
            header + stanzas_text(evs) == out@ + stanzas_text(evs.skip(i as int)),
        decreases n - i,
    {
        let ghost rest = evs.skip(i as int);
        let ghost out0 = out@;
        proof {
            assert(rest.len() > 0);
            assert(rest[0] == evs[i as int]);
            assert(evs[i as int] == entries@[i as int]@);
            assert(rest.drop_first() =~= evs.skip(i + 1));
        }
        let stanza = entries[i].to_wpa_conf_stanza();
        push_str_chars(&mut out, stanza.as_str());
        i = i + 1;
        proof {
            assert(stanzas_text(rest) == stanza_text(rest[0]) + stanzas_text(evs.skip(i as int)));
            assert(out0 + (stanza_text(rest[0]) + stanzas_text(evs.skip(i as int))) =~= (out0
                + stanza_text(rest[0])) + stanzas_text(evs.skip(i as int)));
        }
    }
    proof {
        assert(evs.skip(n as int) =~= Seq::<WapCfgV>::empty());
        assert(out@ + stanzas_text(evs.skip(n as int)) =~= out@);
        assert(out@ =~= wpa_conf_text(evs, wpa_socket@, group@));
    }
    string_from_chars(&out)
}

/// Regenerating the daemon configuration from an unchanged library, with
/// the same socket directory and group, produces byte-identical text.
pub proof fn lemma_wpa_conf_idempotent(
    a: Seq<WapCfgV>,
    b: Seq<WapCfgV>,
    socket: Seq<char>,
    group: Seq<char>,
)
    requires
        a == b,
    ensures
        wpa_conf_text(a, socket, group) == wpa_conf_text(b, socket, group),
{
}

} // verus!
