use dmxwifi::parse::{
    classify_scan_line, extract_psk, parse_list_networks, parse_scan_results, ScanLineClass,
};

#[test]
fn scan_line_basic() {
    let waps = parse_scan_results("aa:bb:cc:dd:ee:ff\t2412\t-40\t[WPA2]\tHomeNet");
    assert_eq!(waps.len(), 1);
    let w = &waps[0];
    assert_eq!(w.mac, "aa:bb:cc:dd:ee:ff");
    assert_eq!(w.freq, "2412");
    assert_eq!(w.level, -40);
    assert_eq!(w.essid, "HomeNet");
    assert!(w.old_essid.is_none());
    assert!(w.pwd.is_none());
    assert!(w.psk.is_none());
}

#[test]
fn scan_skips_non_matching_lines() {
    let out = "bssid / frequency / signal level / flags / ssid\n\
               aa:bb:cc:dd:ee:ff\t2412\t-40\t[WPA2-PSK-CCMP][ESS]\tHomeNet\n\
               11:22:33:44:55:66\t5180\t-67\t[ESS]\tCafe\n\
               not a scan line at all\n";
    let waps = parse_scan_results(out);
    assert_eq!(waps.len(), 2);
    assert_eq!(waps[0].mac, "aa:bb:cc:dd:ee:ff");
    assert_eq!(waps[1].mac, "11:22:33:44:55:66");
    assert_eq!(waps[1].level, -67);
}

#[test]
fn scan_positive_level_and_tabbed_essid() {
    let waps = parse_scan_results("aa:bb\t1\t7\tx\tName\twith\ttabs");
    assert_eq!(waps.len(), 1);
    assert_eq!(waps[0].level, 7);
    assert_eq!(waps[0].essid, "Name\twith\ttabs");
}

#[test]
fn scan_rejects_malformed_fields() {
    // uppercase hex in the address, empty flags, missing columns, bad level
    assert_eq!(parse_scan_results("AA:BB\t2412\t-40\t[WPA2]\tx").len(), 0);
    assert_eq!(parse_scan_results("aa:bb\t2412\t-40\t\tx").len(), 0);
    assert_eq!(parse_scan_results("aa:bb\t2412\t-40\t[WPA2]").len(), 0);
    assert_eq!(parse_scan_results("aa:bb\t2412\t--40\t[WPA2]\tx").len(), 0);
    assert_eq!(parse_scan_results("aa:bb\t24a2\t-40\t[WPA2]\tx").len(), 0);
    assert_eq!(parse_scan_results("aa:bb\t2412\t\t[WPA2]\tx").len(), 0);
    assert_eq!(parse_scan_results("").len(), 0);
}

#[test]
fn scan_level_at_the_machine_limits() {
    let waps = parse_scan_results("aa:bb	1	-9223372036854775808	x	y");
    assert_eq!(waps.len(), 1);
    assert_eq!(waps[0].level, i64::MIN);
    let waps = parse_scan_results("aa:bb	1	9223372036854775807	x	y");
    assert_eq!(waps[0].level, i64::MAX);
    assert_eq!(
        parse_scan_results("aa:bb	1	-9223372036854775809	x	y").len(),
        0
    );
    assert_eq!(
        parse_scan_results("aa:bb	1	9223372036854775808	x	y").len(),
        0
    );
    // leading zeros are digits like any other
    let waps = parse_scan_results("aa:bb	1	-040	x	y");
    assert_eq!(waps[0].level, -40);
}

#[test]
fn scan_empty_essid_is_kept() {
    let waps = parse_scan_results("aa:bb\t2412\t-40\t[WPA2]\t");
    assert_eq!(waps.len(), 1);
    assert_eq!(waps[0].essid, "");
}

#[test]
fn list_networks_rows() {
    let out = "network id / ssid / bssid / flags\n\
               0\tHomeNet\taa:bb:cc:dd:ee:ff\t[CURRENT]\n\
               12\t\t11:22:33:44:55:66\n";
    let nets = parse_list_networks(out);
    assert_eq!(nets.len(), 2);
    assert_eq!(nets[0].index, "0");
    assert_eq!(nets[0].mac, "aa:bb:cc:dd:ee:ff");
    assert_eq!(nets[1].index, "12");
    assert_eq!(nets[1].mac, "11:22:33:44:55:66");
}

#[test]
fn list_networks_mac_run_stops_at_first_other_character() {
    let nets = parse_list_networks("3\tessid\tab:cd rest ignored");
    assert_eq!(nets.len(), 1);
    assert_eq!(nets[0].mac, "ab:cd");
}

#[test]
fn list_networks_rejects_malformed_rows() {
    assert_eq!(parse_list_networks("x\tessid\taa:bb").len(), 0);
    assert_eq!(parse_list_networks("0\tessid\tZZ").len(), 0);
    assert_eq!(parse_list_networks("0\tessid").len(), 0);
}

#[test]
fn psk_extraction_from_tool_output() {
    let out = "network={\n\tssid=\"HomeNet\"\n\t#psk=\"pw\"\n\tpsk=0123456789abcdef\n}\n";
    assert_eq!(extract_psk(out).as_deref(), Some("0123456789abcdef"));
}

#[test]
fn psk_extraction_scenario() {
    assert_eq!(
        extract_psk("network={\n\tpsk=0123456789abcdef\n}").as_deref(),
        Some("0123456789abcdef")
    );
    assert!(extract_psk("network={\n\tssid=\"x\"\n}").is_none());
}

#[test]
fn psk_extraction_needs_whitespace_and_hex() {
    // `#psk="pw"` must not match: `=` is followed by a quote, not hex,
    // and the first real match wins.
    let out = "#psk=\"plain\"\n psk=deadbeef trailing";
    assert_eq!(extract_psk(out).as_deref(), Some("deadbeef"));
    assert!(extract_psk("psk=deadbeef").is_none()); // no leading whitespace
    assert!(extract_psk("").is_none());
}

#[test]
fn scan_event_lines_are_classified_by_markers() {
    assert_eq!(
        classify_scan_line("<3>CTRL-EVENT-SCAN-RESULTS "),
        ScanLineClass::Complete
    );
    assert_eq!(
        classify_scan_line("<3>CTRL-EVENT-SCAN-FAILED ret=-22"),
        ScanLineClass::Failed
    );
    assert_eq!(classify_scan_line("OK"), ScanLineClass::InProgress);
    assert_eq!(classify_scan_line(""), ScanLineClass::InProgress);
}
