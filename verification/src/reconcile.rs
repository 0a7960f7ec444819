//! Reconciliation: merging a fresh scan with the saved library by
//! hardware-address lookup, and the full scan-output pipeline.

use vstd::prelude::*;

use crate::library::{spec_find, Library};
use crate::order::{level_filter, sort_by_level, sorted_by_level_desc};
use crate::parse::{parse_scan_results, spec_scan_records, wap_views};
use crate::record::{Wap, WapCfgV, WapV};
use crate::text::{split_lines_s, str_eq};

verus! {

/// What one scan record looks like after reconciliation: when the library
/// holds its hardware address, the saved password and derived key are
/// copied in, and the saved ESSID is recorded as the prior name exactly
/// when it differs from the broadcast one.
pub open spec fn spec_get_psk(w: WapV, lib: Seq<WapCfgV>) -> WapV {
    match spec_find(lib, w.mac) {
        None => w,
        Some(e) => WapV {
            mac: w.mac,
            freq: w.freq,
            level: w.level,
            essid: w.essid,
            old_essid: if e.essid != w.essid {
                Some(e.essid)
            } else {
                w.old_essid
            },
            pwd: Some(e.pwd),
            psk: Some(e.psk),
        },
    }
}

impl Wap {
    /// Copies any saved information about this network out of the
    /// library: password and derived key always, the saved ESSID as the
    /// prior name exactly when it differs from the broadcast one.
    pub fn get_psk(self, lib: &Library) -> (r: Wap)
        ensures
            r@ == spec_get_psk(self@, lib@),
    {
        match lib.get(self.mac.as_str()) {
            None => self,
            Some(e) => {
                let pwd = Some(e.pwd.clone());
                let psk = Some(e.psk.clone());
                let old_essid = if !str_eq(e.essid.as_str(), self.essid.as_str()) {
                    Some(e.essid.clone())
                } else {
                    self.old_essid
                };
                Wap {
                    mac: self.mac,
                    freq: self.freq,
                    level: self.level,
                    essid: self.essid,
                    old_essid,
                    pwd,
                    psk,
                }
            },
        }
    }
}

/// Enriches every scan record with the library's saved data, in place of
/// its empty enrichment fields, keeping the scan order.
pub fn reconcile(waps: Vec<Wap>, lib: &Library) -> (r: Vec<Wap>)
    ensures
        r@.len() == waps@.len(),
        forall|i: int| 0 <= i < waps@.len() ==> r@[i]@ == spec_get_psk(waps@[i]@, lib@),
{
    let ghost orig = waps@;
    let mut src = waps;
    let mut out: Vec<Wap> = Vec::new();
    while src.len() > 0
        invariant
            out@.len() + src@.len() == orig.len(),
            src@ == orig.skip(out@.len() as int),
            forall|i: int| 0 <= i < out@.len() ==> out@[i]@ == spec_get_psk(orig[i]@, lib@),
        decreases src@.len(),
    {
        let ghost k = out@.len() as int;
        let w = src.remove(0);
        proof {
            assert(orig.skip(k)[0] == orig[k]);
            assert(w == orig[k]);
            assert(orig.skip(k).remove(0) =~= orig.skip(k + 1));
        }
        let e = w.get_psk(lib);
        out.push(e);
    }
    out
}

/// The records a scan output and a library together describe, before
/// ordering: parsed in output order, each enriched from the library.
pub open spec fn spec_scan_report_base(t: Seq<char>, lib: Seq<WapCfgV>) -> Seq<WapV> {
    spec_scan_records(split_lines_s(t)).map_values(|w: WapV| spec_get_psk(w, lib))
}

/// The whole scan pipeline on the control process's `scan_results`
/// output: parse every matching line, enrich each record from the
/// library, and order by descending signal level, records of equal level
/// keeping their output order.
pub fn scan_report(scan_output: &str, lib: &Library) -> (r: Vec<Wap>)
    ensures
        r@.len() == spec_scan_report_base(scan_output@, lib@).len(),
        sorted_by_level_desc(wap_views(r@)),
        forall|lv: int| #[trigger] level_filter(wap_views(r@), lv) == level_filter(
            spec_scan_report_base(scan_output@, lib@),
            lv,
        ),
{
    broadcast use vstd::seq_lib::group_to_multiset_ensures;

    let parsed = parse_scan_results(scan_output);
    let ghost base = spec_scan_report_base(scan_output@, lib@);
    let enriched = reconcile(parsed, lib);
    proof {
        assert(wap_views(enriched@) =~= base);
    }
    let r = sort_by_level(enriched);
    proof {
        assert(r@.to_multiset().len() == enriched@.to_multiset().len());
    }
    r
}

} // verus!
