use dmxwifi::library::Library;
use dmxwifi::record::WapCfg;
use dmxwifi::WifiError;

fn cfg(mac: &str, essid: &str, pwd: &str, psk: &str) -> WapCfg {
    WapCfg {
        mac: mac.to_owned(),
        essid: essid.to_owned(),
        pwd: pwd.to_owned(),
        psk: psk.to_owned(),
    }
}

#[test]
fn empty_library_round_trip() {
    let lib = Library::new();
    assert_eq!(lib.len(), 0);
    let text = lib.to_text();
    assert_eq!(text, "");
    let back = Library::from_text(&text).unwrap();
    assert_eq!(back.len(), 0);
}

#[test]
fn persist_then_load_reproduces_the_mapping() {
    let mut lib = Library::new();
    lib.insert(cfg("aa:bb:cc:dd:ee:ff", "HomeNet", "hunter2", "deadbeef"));
    lib.insert(cfg("11:22:33:44:55:66", "Cafe", "espresso", "0123abcd"));
    let text = lib.to_text();
    let back = Library::from_text(&text).unwrap();
    assert_eq!(back.len(), 2);
    let home = back.get("aa:bb:cc:dd:ee:ff").unwrap();
    assert_eq!(home.essid, "HomeNet");
    assert_eq!(home.pwd, "hunter2");
    assert_eq!(home.psk, "deadbeef");
    let cafe = back.get("11:22:33:44:55:66").unwrap();
    assert_eq!(cafe.essid, "Cafe");
    assert_eq!(cafe.pwd, "espresso");
    assert_eq!(cafe.psk, "0123abcd");
}

#[test]
fn round_trip_survives_awkward_characters() {
    let mut lib = Library::new();
    lib.insert(cfg(
        "aa:bb",
        "quote\" back\\slash\ttab",
        "line\nbreak\rreturn",
        "cafef00d",
    ));
    let text = lib.to_text();
    let back = Library::from_text(&text).unwrap();
    let e = back.get("aa:bb").unwrap();
    assert_eq!(e.essid, "quote\" back\\slash\ttab");
    assert_eq!(e.pwd, "line\nbreak\rreturn");
    assert_eq!(e.psk, "cafef00d");
}

#[test]
fn library_file_format_is_stable() {
    let mut lib = Library::new();
    lib.insert(cfg("aa:bb", "Home", "pw", "beef"));
    assert_eq!(
        lib.to_text(),
        "[network]\nmac = \"aa:bb\"\nessid = \"Home\"\npwd = \"pw\"\npsk = \"beef\"\n"
    );
}

#[test]
fn insert_overwrites_by_hardware_address() {
    let mut lib = Library::new();
    lib.insert(cfg("aa:bb", "Old", "p1", "1111"));
    lib.insert(cfg("aa:bb", "New", "p2", "2222"));
    assert_eq!(lib.len(), 1);
    let e = lib.get("aa:bb").unwrap();
    assert_eq!(e.essid, "New");
    assert_eq!(e.psk, "2222");
}

#[test]
fn remove_drops_only_the_named_entry() {
    let mut lib = Library::new();
    lib.insert(cfg("aa:bb", "A", "p", "1111"));
    lib.insert(cfg("cc:dd", "B", "p", "2222"));
    lib.remove("aa:bb");
    assert_eq!(lib.len(), 1);
    assert!(lib.get("aa:bb").is_none());
    assert!(lib.get("cc:dd").is_some());
    lib.remove("not:there");
    assert_eq!(lib.len(), 1);
}

#[test]
fn malformed_library_files_are_rejected() {
    assert!(matches!(
        Library::from_text("not a library file"),
        Err(WifiError::Persistence)
    ));
    assert!(matches!(
        Library::from_text("[network]\nmac = \"aa\"\n"),
        Err(WifiError::Persistence)
    ));
    // a truncated quote
    assert!(matches!(
        Library::from_text("[network]\nmac = \"aa\nessid = \"x\"\npwd = \"x\"\npsk = \"x\"\n"),
        Err(WifiError::Persistence)
    ));
    // a stray escape
    assert!(matches!(
        Library::from_text("[network]\nmac = \"a\\z\"\nessid = \"x\"\npwd = \"x\"\npsk = \"x\"\n"),
        Err(WifiError::Persistence)
    ));
}

#[test]
fn duplicate_hardware_addresses_are_rejected_on_load() {
    let one = "[network]\nmac = \"aa\"\nessid = \"x\"\npwd = \"p\"\npsk = \"1\"\n";
    let twice = format!("{}{}", one, one);
    assert!(matches!(
        Library::from_text(&twice),
        Err(WifiError::Persistence)
    ));
}

#[test]
fn entries_by_essid_orders_for_display() {
    let mut lib = Library::new();
    lib.insert(cfg("aa:01", "zeta", "p", "1"));
    lib.insert(cfg("aa:02", "alpha", "p", "2"));
    lib.insert(cfg("aa:03", "midway", "p", "3"));
    let sorted = lib.entries_by_essid();
    let names: Vec<&str> = sorted.iter().map(|e| e.essid.as_str()).collect();
    assert_eq!(names, vec!["alpha", "midway", "zeta"]);
}
