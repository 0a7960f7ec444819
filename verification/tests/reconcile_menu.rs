use dmxwifi::library::Library;
use dmxwifi::menu::{collapse_whitespace, MenuItem};
use dmxwifi::reconcile::scan_report;
use dmxwifi::record::WapCfg;

fn cfg(mac: &str, essid: &str, pwd: &str, psk: &str) -> WapCfg {
    WapCfg {
        mac: mac.to_owned(),
        essid: essid.to_owned(),
        pwd: pwd.to_owned(),
        psk: psk.to_owned(),
    }
}

#[test]
fn scan_with_empty_library_leaves_enrichment_empty() {
    let lib = Library::new();
    let waps = scan_report("aa:bb:cc:dd:ee:ff\t2412\t-40\t[WPA2]\tHomeNet", &lib);
    assert_eq!(waps.len(), 1);
    let w = &waps[0];
    assert_eq!(w.level, -40);
    assert!(w.pwd.is_none());
    assert!(w.psk.is_none());
    assert!(w.old_essid.is_none());
}

#[test]
fn scan_with_matching_entry_copies_saved_data_and_detects_drift() {
    let mut lib = Library::new();
    lib.insert(cfg("aa:bb:cc:dd:ee:ff", "OldName", "x", "deadbeef"));
    let waps = scan_report("aa:bb:cc:dd:ee:ff\t2412\t-40\t[WPA2]\tHomeNet", &lib);
    assert_eq!(waps.len(), 1);
    let w = &waps[0];
    assert_eq!(w.old_essid.as_deref(), Some("OldName"));
    assert_eq!(w.pwd.as_deref(), Some("x"));
    assert_eq!(w.psk.as_deref(), Some("deadbeef"));
}

#[test]
fn matching_entry_with_same_essid_sets_no_prior_name() {
    let mut lib = Library::new();
    lib.insert(cfg("aa:bb:cc:dd:ee:ff", "HomeNet", "x", "deadbeef"));
    let waps = scan_report("aa:bb:cc:dd:ee:ff\t2412\t-40\t[WPA2]\tHomeNet", &lib);
    assert!(waps[0].old_essid.is_none());
    assert_eq!(waps[0].psk.as_deref(), Some("deadbeef"));
}

#[test]
fn scan_report_sorts_strongest_first_and_keeps_tie_order() {
    let lib = Library::new();
    let out = "aa:01\t2412\t-70\t[ESS]\tWeak\n\
               aa:02\t2412\t-40\t[ESS]\tStrong\n\
               aa:03\t2412\t-55\t[ESS]\tMidA\n\
               aa:04\t2412\t-55\t[ESS]\tMidB\n";
    let waps = scan_report(out, &lib);
    let names: Vec<&str> = waps.iter().map(|w| w.essid.as_str()).collect();
    assert_eq!(names, vec!["Strong", "MidA", "MidB", "Weak"]);
    for pair in waps.windows(2) {
        assert!(pair[0].level >= pair[1].level);
    }
}

#[test]
fn menu_line_for_saved_network() {
    let e = cfg("aa:bb:cc:dd:ee:ff", "Home", "pw", "beef");
    assert_eq!(e.key_len(), 4);
    assert_eq!(e.line(6), "Home    aa:bb:cc:dd:ee:ff");
}

#[test]
fn menu_line_for_scan_record() {
    let lib = {
        let mut l = Library::new();
        l.insert(cfg("aa:bb:cc:dd:ee:ff", "OldName", "x", "deadbeef"));
        l
    };
    let waps = scan_report("aa:bb:cc:dd:ee:ff\t2412\t-40\t[WPA2]\tHomeNet", &lib);
    let w = &waps[0];
    assert_eq!(w.key_len(), 7);
    assert_eq!(
        w.line(7),
        "* HomeNet  -40 dBm  2412  aa:bb:cc:dd:ee:ff OldName"
    );
}

#[test]
fn menu_line_for_unsaved_scan_record() {
    let lib = Library::new();
    let waps = scan_report("aa:bb\t5180\t-67\t[ESS]\tCafe", &lib);
    assert_eq!(waps[0].line(6), "  Cafe    -67 dBm  5180  aa:bb");
}

#[test]
fn collapse_whitespace_tidies_interior_runs() {
    assert_eq!(collapse_whitespace("  a \t\n  b  ", 10), "a b");
    assert_eq!(collapse_whitespace("plain", 10), "plain");
    assert_eq!(collapse_whitespace("", 10), "");
    assert_eq!(collapse_whitespace(" \t ", 10), "");
}

#[test]
fn collapse_whitespace_truncates_with_ellipsis() {
    assert_eq!(collapse_whitespace("abcdef", 3), "ab\u{2026}");
    assert_eq!(collapse_whitespace("abcd", 3), "abc");
    assert_eq!(collapse_whitespace("abc", 3), "abc");
    assert_eq!(collapse_whitespace("ab", 3), "ab");
}
