use dmxwifi::library::Library;
use dmxwifi::record::WapCfg;
use dmxwifi::reconcile::scan_report;
use dmxwifi::workflow::{
    apply_forget, apply_set_password, load_library_lenient, resolve_connect, scan_session_step,
    ScanAction, ScanEvent,
};
use dmxwifi::wpa::render_wpa_conf;
use dmxwifi::WifiError;

fn cfg(mac: &str, essid: &str, pwd: &str, psk: &str) -> WapCfg {
    WapCfg {
        mac: mac.to_owned(),
        essid: essid.to_owned(),
        pwd: pwd.to_owned(),
        psk: psk.to_owned(),
    }
}

#[test]
fn scan_session_reacts_to_each_event() {
    assert_eq!(
        scan_session_step(&ScanEvent::Line("<3>CTRL-EVENT-SCAN-RESULTS ".to_owned())),
        ScanAction::SendQuit
    );
    assert_eq!(
        scan_session_step(&ScanEvent::Line("<3>CTRL-EVENT-SCAN-FAILED ret=-22".to_owned())),
        ScanAction::Abort(WifiError::Protocol)
    );
    assert_eq!(
        scan_session_step(&ScanEvent::Line("OK".to_owned())),
        ScanAction::KeepReading
    );
    assert_eq!(
        scan_session_step(&ScanEvent::EndOfStream),
        ScanAction::Abort(WifiError::Protocol)
    );
    assert_eq!(
        scan_session_step(&ScanEvent::ReadError),
        ScanAction::Abort(WifiError::Protocol)
    );
}

#[test]
fn lenient_load_downgrades_failures_to_an_empty_library() {
    let (lib, warned) = load_library_lenient(None);
    assert_eq!(lib.len(), 0);
    assert!(warned);
    let (lib, warned) = load_library_lenient(Some("garbage"));
    assert_eq!(lib.len(), 0);
    assert!(warned);
    let good = "[network]\nmac = \"aa\"\nessid = \"x\"\npwd = \"p\"\npsk = \"1\"\n";
    let (lib, warned) = load_library_lenient(Some(good));
    assert_eq!(lib.len(), 1);
    assert!(!warned);
}

#[test]
fn connect_resolves_the_daemon_index_by_hardware_address() {
    let listing = "network id / ssid / bssid / flags\n\
                   0\tHomeNet\taa:bb:cc:dd:ee:ff\n\
                   1\tCafe\t11:22:33:44:55:66\t[CURRENT]\n";
    assert_eq!(resolve_connect(listing, "11:22:33:44:55:66").unwrap(), "1");
    assert_eq!(resolve_connect(listing, "aa:bb:cc:dd:ee:ff").unwrap(), "0");
    assert_eq!(
        resolve_connect(listing, "de:ad:be:ef:00:00").unwrap_err(),
        WifiError::NotConfigured
    );
}

#[test]
fn set_password_saves_the_derived_credential() {
    let mut lib = Library::new();
    let waps = scan_report("aa:bb:cc:dd:ee:ff\t2412\t-40\t[WPA2]\tHomeNet", &lib);
    let selected = waps.into_iter().next().unwrap();
    let tool_out = "network={\n\tssid=\"HomeNet\"\n\t#psk=\"hunter2\"\n\tpsk=00112233aabbccdd\n}\n";
    let (lib_text, conf_text) =
        apply_set_password(&mut lib, selected, "hunter2", tool_out, "/var/run/wpa", "netdev")
            .unwrap();
    assert_eq!(lib.len(), 1);
    let e = lib.get("aa:bb:cc:dd:ee:ff").unwrap();
    assert_eq!(e.essid, "HomeNet");
    assert_eq!(e.pwd, "hunter2");
    assert_eq!(e.psk, "00112233aabbccdd");
    assert_eq!(lib_text, lib.to_text());
    assert_eq!(conf_text, render_wpa_conf(&lib, "/var/run/wpa", "netdev"));
    assert!(conf_text.contains("bssid=aa:bb:cc:dd:ee:ff"));
    assert!(conf_text.contains("psk=00112233aabbccdd"));
}

#[test]
fn set_password_fails_cleanly_when_no_key_extracts() {
    let mut lib = Library::new();
    let waps = scan_report("aa:bb\t2412\t-40\t[WPA2]\tHomeNet", &lib);
    let selected = waps.into_iter().next().unwrap();
    let err = apply_set_password(&mut lib, selected, "pw", "no key here", "/s", "g").unwrap_err();
    assert_eq!(err, WifiError::Derivation);
    assert_eq!(lib.len(), 0);
}

#[test]
fn forget_on_a_one_entry_library_leaves_only_the_header() {
    let mut lib = Library::new();
    lib.insert(cfg("aa:bb:cc:dd:ee:ff", "HomeNet", "hunter2", "deadbeef"));
    let (lib_text, conf_text) =
        apply_forget(&mut lib, "aa:bb:cc:dd:ee:ff", "/var/run/wpa_supplicant", "netdev");
    assert_eq!(lib.len(), 0);
    assert_eq!(lib_text, "");
    assert_eq!(
        conf_text,
        "update_config=1\nctrl_interface=DIR=/var/run/wpa_supplicant GROUP=netdev\n"
    );
}

#[test]
fn wpa_config_regeneration_is_byte_identical() {
    let mut lib = Library::new();
    lib.insert(cfg("aa:bb", "Home", "pw", "beef"));
    lib.insert(cfg("cc:dd", "Cafe", "qq", "f00d"));
    let one = render_wpa_conf(&lib, "/var/run/wpa_supplicant", "netdev");
    let two = render_wpa_conf(&lib, "/var/run/wpa_supplicant", "netdev");
    assert_eq!(one, two);
}

#[test]
fn wpa_config_holds_one_stanza_per_entry() {
    let mut lib = Library::new();
    lib.insert(cfg("aa:bb", "Home", "pw", "beef"));
    let text = render_wpa_conf(&lib, "/s", "g");
    assert_eq!(
        text,
        "update_config=1\nctrl_interface=DIR=/s GROUP=g\n\
         network={\n\tbssid=aa:bb\n\tssid=\"Home\"\n\t#psk=\"pw\"\n\tpsk=beef\n}\n"
    );
    assert_eq!(
        lib.get("aa:bb").unwrap().to_wpa_conf_stanza(),
        "network={\n\tbssid=aa:bb\n\tssid=\"Home\"\n\t#psk=\"pw\"\n\tpsk=beef\n}\n"
    );
}

#[test]
fn every_failure_has_a_description() {
    let all = [
        WifiError::Io,
        WifiError::Protocol,
        WifiError::Derivation,
        WifiError::NotConfigured,
        WifiError::Decode,
        WifiError::Persistence,
    ];
    for e in all {
        assert!(!e.describe().is_empty());
    }
    assert_eq!(
        WifiError::NotConfigured.describe(),
        "selected network not configured"
    );
}
