//! Line-anchored parsing of the control process's two tabular output
//! formats, plus key extraction from the derivation tool's output and
//! classification of scan event lines.
//!
//! Each format is treated line by line: a pattern never reaches across a
//! line boundary.  Lines that do not match a format produce no record and
//! no error.

use vstd::prelude::*;

use crate::record::{NetId, NetIdV, Wap, WapV};
use crate::text::{
    all_digits, all_digits_range, all_hwaddr_chars, all_hwaddr_range, chars_of, contains_chars,
    contains_sub, dec_val, find_char_rel, first_index_of, is_hex, is_hex_char,
    is_hwaddr, is_hwaddr_char, is_ws_char, lemma_dec_val_nonneg, parse_digits_u64, split_lines,
    split_lines_s, string_of_range,
};

verus! {

/// Splits `s` at the first occurrence of `c` into the part before and the
/// part after, or `None` when `c` does not occur.
pub open spec fn spec_split_first(s: Seq<char>, c: char) -> Option<(Seq<char>, Seq<char>)> {
    let i = first_index_of(s, c);
    if i == -1 {
        None
    } else {
        Some((s.subrange(0, i), s.subrange(i + 1, s.len() as int)))
    }
}

/// The signed value of a scan line's level field: an optional `-` sign
/// followed by at least one digit.
pub open spec fn scan_level_of(f: Seq<char>) -> Option<int> {
    if f.len() > 0 && f[0] == '-' {
        let d = f.drop_first();
        if d.len() > 0 && all_digits(d) {
            Some(-dec_val(d))
        } else {
            None
        }
    } else if f.len() > 0 && all_digits(f) {
        Some(dec_val(f))
    } else {
        None
    }
}

/// The scan-result grammar, one line:
/// `<hw-addr> \t <freq> \t <level> \t <flags> \t <essid>`, where the
/// hardware address is a nonempty run of `[0-9a-f:]`, the frequency a
/// nonempty digit run, the level an optional sign and a nonempty digit run
/// whose value fits the machine's signed range, the flags column nonempty,
/// and the ESSID the entire rest of the line.  The flags column is
/// discarded; the enrichment fields of the record start out empty.
pub open spec fn spec_parse_scan_line(s: Seq<char>) -> Option<WapV> {
    match spec_split_first(s, '\t') {
        None => None,
        Some((mac, r1)) => if mac.len() == 0 || !all_hwaddr_chars(mac) {
            None
        } else {
            match spec_split_first(r1, '\t') {
                None => None,
                Some((freq, r2)) => if freq.len() == 0 || !all_digits(freq) {
                    None
                } else {
                    match spec_split_first(r2, '\t') {
                        None => None,
                        Some((lvl, r3)) => match scan_level_of(lvl) {
                            None => None,
                            Some(v) => if v < i64::MIN || v > i64::MAX {
                                None
                            } else {
                                match spec_split_first(r3, '\t') {
                                    None => None,
                                    Some((flags, essid)) => if flags.len() == 0 {
                                        None
                                    } else {
                                        Some(
                                            WapV {
                                                mac,
                                                freq,
                                                level: v,
                                                essid,
                                                old_essid: None,
                                                pwd: None,
                                                psk: None,
                                            },
                                        )
                                    },
                                }
                            },
                        },
                    }
                },
            }
        },
    }
}

/// Parses the level field `v[a..b]`, accepting exactly the values the
/// grammar admits into the machine's signed range.
fn parse_level(v: &Vec<char>, a: usize, b: usize) -> (r: Option<i64>)
    requires
        a <= b <= v@.len(),
    ensures
        match r {
            Some(x) => scan_level_of(v@.subrange(a as int, b as int)) == Some(x as int),
            None => match scan_level_of(v@.subrange(a as int, b as int)) {
                Some(lv) => lv < i64::MIN || lv > i64::MAX,
                None => true,
            },
        },
{
    let ghost f = v@.subrange(a as int, b as int);
    if a == b {
        return None;
    }
    if v[a] == '-' {
        proof {
            assert(f[0] == '-');
        }
        if a + 1 == b {
            proof {
                assert(f.drop_first().len() == 0);
            }
            return None;
        }
        let ghost d = v@.subrange(a + 1, b as int);
        proof {
            assert(f.drop_first() =~= d);
        }
        if !all_digits_range(v, a + 1, b) {
            return None;
        }
        match parse_digits_u64(v, a + 1, b, 9223372036854775808u64) {
            None => {
                proof {
                    assert(scan_level_of(f) == Some(-dec_val(d)));
                    assert(-dec_val(d) < i64::MIN);
                }
                None
            },
            Some(mag) => {
                if mag == 9223372036854775808u64 {
                    proof {
                        assert(scan_level_of(f) == Some(-dec_val(d)));
                    }
                    Some(i64::MIN)
                } else {
                    proof {
                        lemma_dec_val_nonneg(d);
                    }
                    Some(-(mag as i64))
                }
            },
        }
    } else {
        proof {
            assert(f[0] != '-');
        }
        if !all_digits_range(v, a, b) {
            return None;
        }
        proof {
            lemma_dec_val_nonneg(f);
        }
        match parse_digits_u64(v, a, b, 9223372036854775807u64) {
            None => None,
            Some(x) => Some(x as i64),
        }
    }
}

/// Parses one line against the scan-result grammar.
pub fn parse_scan_line(line: &Vec<char>) -> (r: Option<Wap>)
    ensures
        match r {
            Some(w) => spec_parse_scan_line(line@) == Some(w@),
            None => spec_parse_scan_line(line@) is None,
        },
{
    let ghost s = line@;
    let n = line.len();
    proof {
        assert(s.subrange(0, s.len() as int) =~= s);
    }
    let t1 = match find_char_rel(line, 0, '\t') {
        Some(i) => i,
        None => {
            return None;
        },
    };
    let ghost mac_s = s.subrange(0, t1 as int);
    let ghost r1 = s.subrange(t1 + 1, n as int);
    if t1 == 0 {
        return None;
    }
    if !all_hwaddr_range(line, 0, t1) {
        return None;
    }
    let t2 = match find_char_rel(line, t1 + 1, '\t') {
        Some(i) => i,
        None => {
            return None;
        },
    };
    let ghost freq_s = s.subrange(t1 + 1, t2 as int);
    let ghost r2 = s.subrange(t2 + 1, n as int);
    proof {
        assert(r1.subrange(0, t2 - (t1 + 1)) =~= freq_s);
        assert(r1.subrange(t2 - (t1 + 1) + 1, r1.len() as int) =~= r2);
    }
    if t2 == t1 + 1 {
        return None;
    }
    if !all_digits_range(line, t1 + 1, t2) {
        return None;
    }
    let t3 = match find_char_rel(line, t2 + 1, '\t') {
        Some(i) => i,
        None => {
            return None;
        },
    };
    let ghost lvl_s = s.subrange(t2 + 1, t3 as int);
    let ghost r3 = s.subrange(t3 + 1, n as int);
    proof {
        assert(r2.subrange(0, t3 - (t2 + 1)) =~= lvl_s);
        assert(r2.subrange(t3 - (t2 + 1) + 1, r2.len() as int) =~= r3);
    }
    let level = match parse_level(line, t2 + 1, t3) {
        Some(x) => x,
        None => {
            return None;
        },
    };
    let t4 = match find_char_rel(line, t3 + 1, '\t') {
        Some(i) => i,
        None => {
            return None;
        },
    };
    let ghost flags_s = s.subrange(t3 + 1, t4 as int);
    let ghost essid_s = s.subrange(t4 + 1, n as int);
    proof {
        assert(r3.subrange(0, t4 - (t3 + 1)) =~= flags_s);
        assert(r3.subrange(t4 - (t3 + 1) + 1, r3.len() as int) =~= essid_s);
    }
    if t4 == t3 + 1 {
        return None;
    }
    let w = Wap {
        mac: string_of_range(line, 0, t1),
        freq: string_of_range(line, t1 + 1, t2),
        level,
        essid: string_of_range(line, t4 + 1, n),
        old_essid: None,
        pwd: None,
        psk: None,
    };
    proof {
        assert(spec_parse_scan_line(s) == Some(w@));
    }
    Some(w)
}

/// The views of a sequence of scan records.
pub open spec fn wap_views(s: Seq<Wap>) -> Seq<WapV> {
    s.map_values(|w: Wap| w@)
}

/// The records extracted from a sequence of lines: one per matching line,
/// in order; non-matching lines contribute nothing.
pub open spec fn spec_scan_records(ls: Seq<Seq<char>>) -> Seq<WapV>
    decreases ls.len(),
{
    if ls.len() == 0 {
        Seq::empty()
    } else {
        (match spec_parse_scan_line(ls[0]) {
            Some(w) => seq![w],
            None => Seq::empty(),
        }) + spec_scan_records(ls.drop_first())
    }
}

/// Parses the full `scan_results` output: every line matching the
/// scan-result grammar yields one record, in output order; all other
/// lines are skipped.
pub fn parse_scan_results(text: &str) -> (r: Vec<Wap>)
    ensures
        wap_views(r@) == spec_scan_records(split_lines_s(text@)),
{
    let v = chars_of(text);
    let lines = split_lines(&v);
    let ghost dv = lines.deep_view();
    let m = lines.len();
    proof {
        assert(lines.deep_view().len() == lines@.len());
    }
    let mut out: Vec<Wap> = Vec::new();
    let mut i: usize = 0;
    proof {
        assert(dv.skip(0) =~= dv);
        assert(wap_views(out@) + spec_scan_records(dv) =~= spec_scan_records(dv));
    }
    while i < m
        invariant
            i <= m,
            m == lines@.len(),
            dv == lines.deep_view(),
            dv.len() == m,
            spec_scan_records(dv) == wap_views(out@) + spec_scan_records(dv.skip(i as int)),
        decreases m - i,
    {
        let ghost rest = dv.skip(i as int);
        proof {
            assert(rest.len() > 0);
            assert(rest[0] == dv[i as int]);
            assert(rest.drop_first() =~= dv.skip(i + 1));
            assert(dv[i as int] =~= lines@[i as int]@);
        }
        match parse_scan_line(&lines[i]) {
            Some(w) => {
                let ghost wv = w@;
                out.push(w);
                proof {
                    assert(wap_views(out@) =~= wap_views(out@.drop_last()).push(wv));
                    assert(spec_scan_records(rest) == seq![wv] + spec_scan_records(
                        dv.skip(i + 1),
                    ));
                    assert(wap_views(out@.drop_last()) + (seq![wv] + spec_scan_records(
                        dv.skip(i + 1),
                    )) =~= wap_views(out@) + spec_scan_records(dv.skip(i + 1)));
                }
            },
            None => {
                proof {
                    assert(spec_scan_records(rest) == spec_scan_records(dv.skip(i + 1)));
                }
            },
        }
        i = i + 1;
    }
    proof {
        assert(dv.skip(m as int) =~= Seq::<Seq<char>>::empty());
        assert(wap_views(out@) + spec_scan_records(dv.skip(m as int)) =~= wap_views(out@));
    }
    out
}

/// Length of the maximal leading run of hardware-address characters.
pub open spec fn hwaddr_run_len(s: Seq<char>) -> int
    decreases s.len(),
{
    if s.len() == 0 {
        0
    } else if !is_hwaddr_char(s[0]) {
        0
    } else {
        1 + hwaddr_run_len(s.drop_first())
    }
}

proof fn lemma_hwaddr_run_len(s: Seq<char>, k: int)
    requires
        0 <= k <= s.len(),
        forall|j: int| 0 <= j < k ==> is_hwaddr_char(#[trigger] s[j]),
        k < s.len() ==> !is_hwaddr_char(s[k]),
    ensures
        hwaddr_run_len(s) == k,
    decreases s.len(),
{
    if s.len() == 0 {
    } else if !is_hwaddr_char(s[0]) {
        assert(k == 0);
    } else {
        assert(k >= 1) by {
            if k == 0 {
                assert(!is_hwaddr_char(s[0]));
            }
        }
        let t = s.drop_first();
        assert(forall|j: int| 0 <= j < t.len() ==> t[j] == s[j + 1]);
        lemma_hwaddr_run_len(t, k - 1);
    }
}

/// The configured-network-listing grammar, one line:
/// `<index> \t <essid> \t <hw-addr> ...`, where the index is a nonempty
/// digit run, the middle column is skipped entirely, and the hardware
/// address is the maximal nonempty `[0-9a-f:]` run that opens the third
/// column; the rest of the line is ignored.
pub open spec fn spec_parse_list_line(s: Seq<char>) -> Option<NetIdV> {
    match spec_split_first(s, '\t') {
        None => None,
        Some((idx, r1)) => if idx.len() == 0 || !all_digits(idx) {
            None
        } else {
            match spec_split_first(r1, '\t') {
                None => None,
                Some((_skip, r2)) => {
                    let maclen = hwaddr_run_len(r2);
                    if maclen == 0 {
                        None
                    } else {
                        Some(NetIdV { index: idx, mac: r2.subrange(0, maclen) })
                    }
                },
            }
        },
    }
}

/// First position at or after `from` that ends the run of
/// hardware-address characters starting there.
fn hwaddr_run_end(v: &Vec<char>, from: usize) -> (e: usize)
    requires
        from <= v@.len(),
    ensures
        from <= e <= v@.len(),
        forall|j: int| from <= j < e ==> is_hwaddr_char(#[trigger] v@[j]),
        e < v@.len() ==> !is_hwaddr_char(v@[e as int]),
{
    let n = v.len();
    let mut e: usize = from;
    while e < n && is_hwaddr(v[e])
        invariant
            from <= e <= n,
            n == v@.len(),
            forall|j: int| from <= j < e ==> is_hwaddr_char(#[trigger] v@[j]),
        decreases n - e,
    {
        e = e + 1;
    }
    e
}

/// Parses one line against the configured-network-listing grammar.
pub fn parse_list_line(line: &Vec<char>) -> (r: Option<NetId>)
    ensures
        match r {
            Some(rec) => spec_parse_list_line(line@) == Some(rec@),
            None => spec_parse_list_line(line@) is None,
        },
{
    let ghost s = line@;
    let n = line.len();
    proof {
        assert(s.subrange(0, s.len() as int) =~= s);
    }
    let t1 = match find_char_rel(line, 0, '\t') {
        Some(i) => i,
        None => {
            return None;
        },
    };
    let ghost idx_s = s.subrange(0, t1 as int);
    let ghost r1 = s.subrange(t1 + 1, n as int);
    if t1 == 0 {
        return None;
    }
    if !all_digits_range(line, 0, t1) {
        return None;
    }
    let t2 = match find_char_rel(line, t1 + 1, '\t') {
        Some(i) => i,
        None => {
            return None;
        },
    };
    let ghost r2 = s.subrange(t2 + 1, n as int);
    proof {
        assert(r1.subrange(t2 - (t1 + 1) + 1, r1.len() as int) =~= r2);
    }
    let e = hwaddr_run_end(line, t2 + 1);
    proof {
        assert forall|j: int| 0 <= j < e - (t2 + 1) implies is_hwaddr_char(#[trigger] r2[j]) by {
            assert(r2[j] == s[t2 + 1 + j]);
        }
        if e < n {
            assert(r2[e - (t2 + 1)] == s[e as int]);
        }
        lemma_hwaddr_run_len(r2, e - (t2 + 1));
    }
    if e == t2 + 1 {
        return None;
    }
    let rec = NetId { index: string_of_range(line, 0, t1), mac: string_of_range(line, t2 + 1, e) };
    proof {
        assert(r2.subrange(0, e - (t2 + 1)) =~= s.subrange(t2 + 1, e as int));
        assert(spec_parse_list_line(s) == Some(rec@));
    }
    Some(rec)
}

/// The views of a sequence of configured-network records.
pub open spec fn netid_views(s: Seq<NetId>) -> Seq<NetIdV> {
    s.map_values(|x: NetId| x@)
}

/// The configured-network records extracted from a sequence of lines.
pub open spec fn spec_list_records(ls: Seq<Seq<char>>) -> Seq<NetIdV>
    decreases ls.len(),
{
    if ls.len() == 0 {
        Seq::empty()
    } else {
        (match spec_parse_list_line(ls[0]) {
            Some(x) => seq![x],
            None => Seq::empty(),
        }) + spec_list_records(ls.drop_first())
    }
}

/// Parses the full `list_networks` output: every matching line yields one
/// record, in output order; all other lines are skipped.
pub fn parse_list_networks(text: &str) -> (r: Vec<NetId>)
    ensures
        netid_views(r@) == spec_list_records(split_lines_s(text@)),
{
    let v = chars_of(text);
    let lines = split_lines(&v);
    let ghost dv = lines.deep_view();
    let m = lines.len();
    proof {
        assert(lines.deep_view().len() == lines@.len());
    }
    let mut out: Vec<NetId> = Vec::new();
    let mut i: usize = 0;
    proof {
        assert(dv.skip(0) =~= dv);
        assert(netid_views(out@) + spec_list_records(dv) =~= spec_list_records(dv));
    }
    while i < m
        invariant
            i <= m,
            m == lines@.len(),
            dv == lines.deep_view(),
            dv.len() == m,
            spec_list_records(dv) == netid_views(out@) + spec_list_records(dv.skip(i as int)),
        decreases m - i,
    {
        let ghost rest = dv.skip(i as int);
        proof {
            assert(rest.len() > 0);
            assert(rest[0] == dv[i as int]);
            assert(rest.drop_first() =~= dv.skip(i + 1));
            assert(dv[i as int] =~= lines@[i as int]@);
        }
        match parse_list_line(&lines[i]) {
            Some(x) => {
                let ghost xv = x@;
                out.push(x);
                proof {
                    assert(netid_views(out@) =~= netid_views(out@.drop_last()).push(xv));
                    assert(spec_list_records(rest) == seq![xv] + spec_list_records(
                        dv.skip(i + 1),
                    ));
                    assert(netid_views(out@.drop_last()) + (seq![xv] + spec_list_records(
                        dv.skip(i + 1),
                    )) =~= netid_views(out@) + spec_list_records(dv.skip(i + 1)));
                }
            },
            None => {
                proof {
                    assert(spec_list_records(rest) == spec_list_records(dv.skip(i + 1)));
                }
            },
        }
        i = i + 1;
    }
    proof {
        assert(dv.skip(m as int) =~= Seq::<Seq<char>>::empty());
        assert(netid_views(out@) + spec_list_records(dv.skip(m as int)) =~= netid_views(out@));
    }
    out
}

/// The derivation-tool pattern matches at the very start of `s`: a
/// whitespace character, then `psk=`, then at least one hex digit.
pub open spec fn psk_match_at0(s: Seq<char>) -> bool {
    s.len() >= 6 && is_ws_char(s[0]) && s[1] == 'p' && s[2] == 's' && s[3] == 'k' && s[4] == '='
        && is_hex_char(s[5])
}

/// Length of the maximal leading run of hex digits.
pub open spec fn hex_run_len(s: Seq<char>) -> int
    decreases s.len(),
{
    if s.len() == 0 {
        0
    } else if !is_hex_char(s[0]) {
        0
    } else {
        1 + hex_run_len(s.drop_first())
    }
}

proof fn lemma_hex_run_len(s: Seq<char>, k: int)
    requires
        0 <= k <= s.len(),
        forall|j: int| 0 <= j < k ==> is_hex_char(#[trigger] s[j]),
        k < s.len() ==> !is_hex_char(s[k]),
    ensures
        hex_run_len(s) == k,
    decreases s.len(),
{
    if s.len() == 0 {
    } else if !is_hex_char(s[0]) {
        assert(k == 0);
    } else {
        assert(k >= 1) by {
            if k == 0 {
                assert(!is_hex_char(s[0]));
            }
        }
        let t = s.drop_first();
        assert(forall|j: int| 0 <= j < t.len() ==> t[j] == s[j + 1]);
        lemma_hex_run_len(t, k - 1);
    }
}

/// The key the derivation-tool pattern extracts: at the leftmost match of
/// whitespace followed by `psk=` followed by a hex digit, the maximal hex
/// digit run after the `=`; `None` when the pattern matches nowhere.
pub open spec fn spec_extract_psk(s: Seq<char>) -> Option<Seq<char>>
    decreases s.len(),
{
    if s.len() < 6 {
        None
    } else if psk_match_at0(s) {
        let tail = s.subrange(5, s.len() as int);
        Some(tail.subrange(0, hex_run_len(tail)))
    } else {
        spec_extract_psk(s.drop_first())
    }
}

/// First position at or after `from` that ends the run of hex digits
/// starting there.
fn hex_run_end(v: &Vec<char>, from: usize) -> (e: usize)
    requires
        from <= v@.len(),
    ensures
        from <= e <= v@.len(),
        forall|j: int| from <= j < e ==> is_hex_char(#[trigger] v@[j]),
        e < v@.len() ==> !is_hex_char(v@[e as int]),
{
    let n = v.len();
    let mut e: usize = from;
    while e < n && is_hex(v[e])
        invariant
            from <= e <= n,
            n == v@.len(),
            forall|j: int| from <= j < e ==> is_hex_char(#[trigger] v@[j]),
        decreases n - e,
    {
        e = e + 1;
    }
    e
}

/// Extracts the derived key from the derivation tool's output, if the
/// pattern matches anywhere in it.
pub fn extract_psk(output: &str) -> (r: Option<String>)
    ensures
        match r {
            Some(p) => spec_extract_psk(output@) == Some(p@),
            None => spec_extract_psk(output@) is None,
        },
{
    let v = chars_of(output);
    let ghost s = output@;
    let n = v.len();
    let mut i: usize = 0;
    proof {
        assert(s.skip(0) =~= s);
    }
    while n - i >= 6
        invariant
            0 <= i <= n,
            n == s.len(),
            v@ == s,
            s == output@,
            spec_extract_psk(s) == spec_extract_psk(s.skip(i as int)),
        decreases n - i,
    {
        let ghost suf = s.skip(i as int);
        proof {
            assert(suf.len() == n - i >= 6);
            assert(suf[0] == s[i as int]);
            assert(suf[1] == s[i + 1]);
            assert(suf[2] == s[i + 2]);
            assert(suf[3] == s[i + 3]);
            assert(suf[4] == s[i + 4]);
            assert(suf[5] == s[i + 5]);
        }
        let hit = crate::text::is_ws(v[i]) && v[i + 1] == 'p' && v[i + 2] == 's' && v[i + 3] == 'k'
            && v[i + 4] == '=' && is_hex(v[i + 5]);
        if hit {
            proof {
                assert(psk_match_at0(suf));
            }
            let e = hex_run_end(&v, i + 5);
            let ghost tail = suf.subrange(5, suf.len() as int);
            proof {
                assert(tail =~= s.subrange(i + 5, n as int));
                assert forall|j: int| 0 <= j < e - (i + 5) implies is_hex_char(
                    #[trigger] tail[j],
                ) by {
                    assert(tail[j] == s[i + 5 + j]);
                    assert(s[i + 5 + j] == v@[i + 5 + j]);
                }
                if e < n {
                    assert(tail[e - (i + 5)] == v@[e as int]);
                }
                lemma_hex_run_len(tail, e - (i + 5));
                assert(tail.subrange(0, e - (i + 5)) =~= s.subrange(i + 5, e as int));
            }
            let p = string_of_range(&v, i + 5, e);
            proof {
                assert(spec_extract_psk(suf) == Some(p@));
            }
            return Some(p);
        }
        proof {
            assert(!psk_match_at0(suf));
            assert(suf.drop_first() =~= s.skip(i + 1));
        }
        i = i + 1;
    }
    proof {
        assert(s.skip(i as int).len() < 6);
        assert(spec_extract_psk(s.skip(i as int)) is None);
    }
    None
}

/// How the scan driver reads one control-channel event line.
#[derive(Clone, Copy, Debug, PartialEq, Eq, Structural)]
pub enum ScanLineClass {
    /// The line carries the scan-complete marker.
    Complete,
    /// The line carries the scan-failed marker (and not the complete one).
    Failed,
    /// Anything else: keep reading.
    InProgress,
}

/// Classifies one reply line of the interactive scan exchange by the two
/// fixed marker substrings, the completion marker taking precedence.
pub fn classify_scan_line(line: &str) -> (c: ScanLineClass)
    ensures
        (c is Complete) == contains_sub(line@, "CTRL-EVENT-SCAN-RESULTS"@),
        (c is Failed) == (!contains_sub(line@, "CTRL-EVENT-SCAN-RESULTS"@) && contains_sub(
            line@,
            "CTRL-EVENT-SCAN-FAILED"@,
        )),
{
    let h = chars_of(line);
    let done_marker = chars_of("CTRL-EVENT-SCAN-RESULTS");
    let fail_marker = chars_of("CTRL-EVENT-SCAN-FAILED");
    if contains_chars(&h, &done_marker) {
        ScanLineClass::Complete
    } else if contains_chars(&h, &fail_marker) {
        ScanLineClass::Failed
    } else {
        ScanLineClass::InProgress
    }
}

} // verus!
