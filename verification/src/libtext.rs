//! The credential library's on-disk text format: one stanza per saved
//! network, every value quoted with a small escape scheme, rendered in
//! full and parsed back exactly.
//!
//! ```text
//! [network]
//! mac = "aa:bb:cc:dd:ee:ff"
//! essid = "HomeNet"
//! pwd = "hunter2"
//! psk = "deadbeef"
//! ```

use vstd::prelude::*;

use crate::record::{cfg_views, WapCfg, WapCfgV};
use crate::text::{chars_of, lemma_split_lines_prepend, push_str_chars, split_lines, split_lines_s, string_from_chars};
use vstd::string::StrSliceExecFns;

verus! {

/// How one character is written inside quotes: backslash, double quote,
/// newline, carriage return and tab get two-character escapes; everything
/// else stands for itself.
pub open spec fn esc_char(c: char) -> Seq<char> {
    if c == '\\' {
        seq!['\\', '\\']
    } else if c == '"' {
        seq!['\\', '"']
    } else if c == '\n' {
        seq!['\\', 'n']
    } else if c == '\r' {
        seq!['\\', 'r']
    } else if c == '\t' {
        seq!['\\', 't']
    } else {
        seq![c]
    }
}

/// A value as written inside quotes.
pub open spec fn escape(s: Seq<char>) -> Seq<char>
    decreases s.len(),
{
    if s.len() == 0 {
        Seq::empty()
    } else {
        esc_char(s[0]) + escape(s.drop_first())
    }
}

/// Escaping one more character appends its escape.
pub proof fn lemma_escape_snoc(s: Seq<char>, c: char)
    ensures
        escape(s.push(c)) == escape(s) + esc_char(c),
    decreases s.len(),
{
    if s.len() == 0 {
        assert(s.push(c).len() == 1);
        assert(s.push(c)[0] == c);
        assert(s.push(c).drop_first() =~= Seq::<char>::empty());
        assert(escape(s.push(c)) == esc_char(c) + escape(Seq::<char>::empty()));
        assert(esc_char(c) + Seq::<char>::empty() =~= Seq::<char>::empty() + esc_char(c));
    } else {
        assert(s.push(c)[0] == s[0]);
        assert(s.push(c).drop_first() =~= s.drop_first().push(c));
        lemma_escape_snoc(s.drop_first(), c);
        assert(esc_char(s[0]) + (escape(s.drop_first()) + esc_char(c)) =~= (esc_char(s[0])
            + escape(s.drop_first())) + esc_char(c));
    }
}

/// Escaped text never holds a raw newline or carriage return, so a quoted
/// value always stays on its line.
pub proof fn lemma_escape_clean(s: Seq<char>)
    ensures
        forall|i: int|
            0 <= i < escape(s).len() ==> #[trigger] escape(s)[i] != '\n' && escape(s)[i] != '\r',
    decreases s.len(),
{
    if s.len() > 0 {
        lemma_escape_clean(s.drop_first());
        let e0 = esc_char(s[0]);
        let rest = escape(s.drop_first());
        assert forall|i: int|
            0 <= i < escape(s).len() implies #[trigger] escape(s)[i] != '\n' && escape(s)[i]
            != '\r' by {
            if i < e0.len() {
            } else {
                assert(escape(s)[i] == rest[i - e0.len()]);
            }
        }
    }
}

/// The character an escape pair stands for, if the pair is legal.
pub open spec fn unesc_char(c: char) -> Option<char> {
    if c == '\\' {
        Some('\\')
    } else if c == '"' {
        Some('"')
    } else if c == 'n' {
        Some('\n')
    } else if c == 'r' {
        Some('\r')
    } else if c == 't' {
        Some('\t')
    } else {
        None
    }
}

/// Reads a quoted value back: a backslash must open a legal escape pair;
/// any other character stands for itself.
pub open spec fn unescape(s: Seq<char>) -> Option<Seq<char>>
    decreases s.len(),
{
    if s.len() == 0 {
        Some(Seq::empty())
    } else if s[0] == '\\' {
        if s.len() < 2 {
            None
        } else {
            match unesc_char(s[1]) {
                None => None,
                Some(c) => match unescape(s.subrange(2, s.len() as int)) {
                    None => None,
                    Some(t) => Some(seq![c] + t),
                },
            }
        }
    } else {
        match unescape(s.drop_first()) {
            None => None,
            Some(t) => Some(seq![s[0]] + t),
        }
    }
}

/// Unescaping inverts escaping.
pub proof fn lemma_unescape_escape(s: Seq<char>)
    ensures
        unescape(escape(s)) == Some(s),
    decreases s.len(),
{
    if s.len() == 0 {
    } else {
        lemma_unescape_escape(s.drop_first());
        let e = escape(s);
        let e0 = esc_char(s[0]);
        let rest = escape(s.drop_first());
        assert(e == e0 + rest);
        if e0.len() == 2 {
            assert(e[0] == '\\');
            assert(e.len() >= 2);
            assert(e[1] == e0[1]);
            assert(unesc_char(e[1]) == Some(s[0]));
            assert(e.subrange(2, e.len() as int) =~= rest);
            assert(seq![s[0]] + s.drop_first() =~= s);
        } else {
            assert(e0 =~= seq![s[0]]);
            assert(e[0] == s[0]);
            assert(e[0] != '\\');
            assert(e.drop_first() =~= rest);
            assert(seq![s[0]] + s.drop_first() =~= s);
        }
    }
}

/// Appends the escaped form of `s` to `out`.
pub(crate) fn push_escaped(out: &mut Vec<char>, s: &str)
    ensures
        final(out)@ == old(out)@ + escape(s@),
{
    let n = s.unicode_len();
    let mut i: usize = 0;
    proof {
        assert(s@.subrange(0, 0) =~= Seq::<char>::empty());
        assert(out@ =~= old(out)@ + escape(s@.subrange(0, 0)));
    }
    while i < n
        invariant
            i <= n,
            n == s@.len(),
            out@ == old(out)@ + escape(s@.subrange(0, i as int)),
        decreases n - i,
    {
        let c = s.get_char(i);
        let ghost pre = s@.subrange(0, i as int);
        if c == '\\' {
            out.push('\\');
            out.push('\\');
        } else if c == '"' {
            out.push('\\');
            out.push('"');
        } else if c == '\n' {
            out.push('\\');
            out.push('n');
        } else if c == '\r' {
            out.push('\\');
            out.push('r');
        } else if c == '\t' {
            out.push('\\');
            out.push('t');
        } else {
            out.push(c);
        }
        i = i + 1;
        proof {
            lemma_escape_snoc(pre, c);
            assert(s@.subrange(0, i as int) =~= pre.push(c));
            assert(out@ =~= old(out)@ + escape(s@.subrange(0, i as int)));
        }
    }
    proof {
        assert(s@.subrange(0, n as int) =~= s@);
    }
}

/// Reads the quoted body `v[a..b]` back into the value it encodes.
pub(crate) fn unescape_range(v: &Vec<char>, a: usize, b: usize) -> (r: Option<Vec<char>>)
    requires
        a <= b <= v@.len(),
    ensures
        match r {
            Some(u) => unescape(v@.subrange(a as int, b as int)) == Some(u@),
            None => unescape(v@.subrange(a as int, b as int)) is None,
        },
{
    let ghost whole = v@.subrange(a as int, b as int);
    let mut acc: Vec<char> = Vec::new();
    let mut i: usize = a;
    proof {
        assert(v@.subrange(a as int, b as int) =~= whole);
    }
    while i < b
        invariant
            a <= i <= b <= v@.len(),
            whole == v@.subrange(a as int, b as int),
            unescape(whole) == match unescape(v@.subrange(i as int, b as int)) {
                Some(t) => Some(acc@ + t),
                None => None,
            },
        decreases b - i,
    {
        let ghost rem = v@.subrange(i as int, b as int);
        let c = v[i];
        proof {
            assert(rem[0] == c);
            assert(rem.len() > 0);
        }
        if c == '\\' {
            if i + 1 == b {
                proof {
                    assert(rem.len() < 2);
                    assert(unescape(rem) is None);
                }
                return None;
            }
            let d = v[i + 1];
            proof {
                assert(rem[1] == d);
                assert(rem.subrange(2, rem.len() as int) =~= v@.subrange(i + 2, b as int));
            }
            let u: char = if d == '\\' {
                '\\'
            } else if d == '"' {
                '"'
            } else if d == 'n' {
                '\n'
            } else if d == 'r' {
                '\r'
            } else if d == 't' {
                '\t'
            } else {
                proof {
                    assert(unesc_char(d) is None);
                    assert(unescape(rem) is None);
                }
                return None;
            };
            proof {
                assert(unesc_char(d) == Some(u));
            }
            let ghost acc0 = acc@;
            acc.push(u);
            i = i + 2;
            proof {
                assert(acc@ =~= acc0.push(u));
                let rem2 = v@.subrange(i as int, b as int);
                assert(unescape(rem) == match unescape(rem2) {
                    Some(t) => Some(seq![u] + t),
                    None => None,
                });
                if unescape(rem2) is Some {
                    let t = unescape(rem2)->Some_0;
                    assert(acc0 + (seq![u] + t) =~= acc@ + t);
                }
            }
        } else {
            let ghost acc0 = acc@;
            acc.push(c);
            i = i + 1;
            proof {
                assert(acc@ =~= acc0.push(c));
                let rem2 = v@.subrange(i as int, b as int);
                assert(rem.drop_first() =~= rem2);
                assert(unescape(rem) == match unescape(rem2) {
                    Some(t) => Some(seq![c] + t),
                    None => None,
                });
                if unescape(rem2) is Some {
                    let t = unescape(rem2)->Some_0;
                    assert(acc0 + (seq![c] + t) =~= acc@ + t);
                }
            }
        }
    }
    proof {
        assert(v@.subrange(i as int, b as int) =~= Seq::<char>::empty());
        assert(unescape(Seq::<char>::empty()) == Some(Seq::<char>::empty()));
        assert(acc@ + Seq::<char>::empty() =~= acc@);
    }
    Some(acc)
}

/// `" = ""` — what stands between a key and its opening quote.
pub open spec fn kv_mid() -> Seq<char> {
    seq![' ', '=', ' ', '"']
}

/// The closing quote and the line's newline.
pub open spec fn kv_end() -> Seq<char> {
    seq!['"', '\n']
}

/// One `key = "value"` line, newline included.
pub open spec fn kv_line(key: Seq<char>, val: Seq<char>) -> Seq<char> {
    key + kv_mid() + escape(val) + kv_end()
}

/// The same line without its newline: what line-splitting yields.
pub open spec fn kv_body(key: Seq<char>, val: Seq<char>) -> Seq<char> {
    key + kv_mid() + escape(val) + seq!['"']
}

/// The stanza header, without its newline.
pub open spec fn header_body() -> Seq<char> {
    seq!['[', 'n', 'e', 't', 'w', 'o', 'r', 'k', ']']
}

/// One full stanza: header line and the four quoted fields.
pub open spec fn entry_text(w: WapCfgV) -> Seq<char> {
    header_body() + seq!['\n'] + kv_line("mac"@, w.mac) + kv_line("essid"@, w.essid) + kv_line(
        "pwd"@,
        w.pwd,
    ) + kv_line("psk"@, w.psk)
}

/// The whole library file: one stanza per entry, in order.
pub open spec fn library_text(lib: Seq<WapCfgV>) -> Seq<char>
    decreases lib.len(),
{
    if lib.len() == 0 {
        Seq::empty()
    } else {
        entry_text(lib[0]) + library_text(lib.drop_first())
    }
}

/// Appends one `key = "value"` line to `out`.
fn push_kv(out: &mut Vec<char>, key: &str, val: &str)
    ensures
        final(out)@ == old(out)@ + kv_line(key@, val@),
{
    let ghost start = out@;
    push_str_chars(out, key);
    push_str_chars(out, " = \"");
    push_escaped(out, val);
    push_str_chars(out, "\"\n");
    proof {
        reveal_strlit(" = \"");
        reveal_strlit("\"\n");
        assert(" = \""@ =~= kv_mid());
        assert("\"\n"@ =~= kv_end());
        assert(out@ =~= start + kv_line(key@, val@));
    }
}

/// Renders the whole library file.
pub(crate) fn render_library(entries: &Vec<WapCfg>) -> (r: String)
    ensures
        r@ == library_text(cfg_views(entries@)),
{
    let ghost evs = cfg_views(entries@);
    let n = entries.len();
    let mut out: Vec<char> = Vec::new();
    let mut i: usize = 0;
    proof {
        assert(evs.skip(0) =~= evs);
        assert(out@ + library_text(evs) =~= library_text(evs));
    }
    while i < n
        invariant
            i <= n,
            n == entries@.len(),
            evs == cfg_views(entries@),
            library_text(evs) == out@ + library_text(evs.skip(i as int)),
        decreases n - i,
    {
        let ghost rest = evs.skip(i as int);
        let ghost out0 = out@;
        proof {
            assert(rest.len() > 0);
            assert(rest[0] == evs[i as int]);
            assert(evs[i as int] == entries@[i as int]@);
            assert(rest.drop_first() =~= evs.skip(i + 1));
        }
        let e = &entries[i];
        push_str_chars(&mut out, "[network]\n");
        push_kv(&mut out, "mac", e.mac.as_str());
        push_kv(&mut out, "essid", e.essid.as_str());
        push_kv(&mut out, "pwd", e.pwd.as_str());
        push_kv(&mut out, "psk", e.psk.as_str());
        i = i + 1;
        proof {
            reveal_strlit("[network]\n");
            assert("[network]\n"@ =~= header_body() + seq!['\n']);
            assert(out@ =~= out0 + entry_text(rest[0]));
            assert(library_text(rest) == entry_text(rest[0]) + library_text(evs.skip(i as int)));
            assert(out0 + (entry_text(rest[0]) + library_text(evs.skip(i as int))) =~= (out0
                + entry_text(rest[0])) + library_text(evs.skip(i as int)));
        }
    }
    proof {
        assert(evs.skip(n as int) =~= Seq::<WapCfgV>::empty());
        assert(out@ + library_text(evs.skip(n as int)) =~= out@);
    }
    string_from_chars(&out)
}

/// Reads one `key = "value"` line body back, yielding the value.
pub open spec fn parse_kv_line(line: Seq<char>, key: Seq<char>) -> Option<Seq<char>> {
    let p = key + kv_mid();
    if line.len() >= p.len() + 1 && line.subrange(0, p.len() as int) == p && line.last() == '"' {
        unescape(line.subrange(p.len() as int, line.len() - 1))
    } else {
        None
    }
}

/// Reads one stanza's five line bodies back.
pub open spec fn parse_entry_lines(
    h: Seq<char>,
    l1: Seq<char>,
    l2: Seq<char>,
    l3: Seq<char>,
    l4: Seq<char>,
) -> Option<WapCfgV> {
    if h != header_body() {
        None
    } else {
        match parse_kv_line(l1, "mac"@) {
            None => None,
            Some(mac) => match parse_kv_line(l2, "essid"@) {
                None => None,
                Some(essid) => match parse_kv_line(l3, "pwd"@) {
                    None => None,
                    Some(pwd) => match parse_kv_line(l4, "psk"@) {
                        None => None,
                        Some(psk) => Some(WapCfgV { mac, essid, pwd, psk }),
                    },
                },
            },
        }
    }
}

/// Reads a library file's lines back: stanzas of five lines each, nothing
/// else tolerated.
pub open spec fn parse_library_lines(ls: Seq<Seq<char>>) -> Option<Seq<WapCfgV>>
    decreases ls.len(),
{
    if ls.len() == 0 {
        Some(Seq::empty())
    } else if ls.len() < 5 {
        None
    } else {
        match parse_entry_lines(ls[0], ls[1], ls[2], ls[3], ls[4]) {
            None => None,
            Some(w) => match parse_library_lines(ls.skip(5)) {
                None => None,
                Some(t) => Some(seq![w] + t),
            },
        }
    }
}

/// Reads a library file back.
pub open spec fn parse_library_text(t: Seq<char>) -> Option<Seq<WapCfgV>> {
    parse_library_lines(split_lines_s(t))
}

/// Whether `v` holds exactly the characters of `s`.
fn chars_eq_str(v: &Vec<char>, s: &str) -> (r: bool)
    ensures
        r == (v@ == s@),
{
    let n = s.unicode_len();
    if v.len() != n {
        return false;
    }
    let mut i: usize = 0;
    while i < n
        invariant
            i <= n,
            n == s@.len(),
            n == v@.len(),
            forall|j: int| 0 <= j < i ==> v@[j] == s@[j],
        decreases n - i,
    {
        if v[i] != s.get_char(i) {
            return false;
        }
        i = i + 1;
    }
    proof {
        assert(v@ =~= s@);
    }
    true
}

/// Parses one quoted-field line against its expected key.
fn parse_kv_exec(line: &Vec<char>, key: &str) -> (r: Option<String>)
    ensures
        match r {
            Some(val) => parse_kv_line(line@, key@) == Some(val@),
            None => parse_kv_line(line@, key@) is None,
        },
{
    let ghost p = key@ + kv_mid();
    let klen = key.unicode_len();
    let n = line.len();
    if n < 5 || n - 5 < klen {
        return None;
    }
    let plen = klen + 4;
    let mut j: usize = 0;
    while j < klen
        invariant
            j <= klen,
            klen == key@.len(),
            plen == klen + 4,
            n == line@.len(),
            n >= plen + 1,
            p == key@ + kv_mid(),
            forall|q: int| 0 <= q < j ==> line@[q] == p[q],
        decreases klen - j,
    {
        if line[j] != key.get_char(j) {
            proof {
                assert(p[j as int] == key@[j as int]);
                assert(line@.subrange(0, p.len() as int)[j as int] == line@[j as int]);
            }
            return None;
        }
        proof {
            assert(p[j as int] == key@[j as int]);
        }
        j = j + 1;
    }
    if line[klen] != ' ' || line[klen + 1] != '=' || line[klen + 2] != ' ' || line[klen + 3] != '"'
    {
        proof {
            assert(p[klen as int] == ' ');
            assert(p[klen + 1] == '=');
            assert(p[klen + 2] == ' ');
            assert(p[klen + 3] == '"');
            assert(line@.subrange(0, p.len() as int)[klen as int] == line@[klen as int]);
            assert(line@.subrange(0, p.len() as int)[klen + 1] == line@[klen + 1]);
            assert(line@.subrange(0, p.len() as int)[klen + 2] == line@[klen + 2]);
            assert(line@.subrange(0, p.len() as int)[klen + 3] == line@[klen + 3]);
        }
        return None;
    }
    if line[n - 1] != '"' {
        return None;
    }
    proof {
        assert(p[klen as int] == ' ');
        assert(p[klen + 1] == '=');
        assert(p[klen + 2] == ' ');
        assert(p[klen + 3] == '"');
        assert(line@.subrange(0, p.len() as int) =~= p);
        assert(line@.last() == '"');
    }
    match unescape_range(line, plen, n - 1) {
        None => None,
        Some(u) => {
            let val = string_from_chars(&u);
            Some(val)
        },
    }
}

/// Parses a whole library file; `None` when the text is not exactly a
/// sequence of well-formed stanzas.
pub(crate) fn parse_library(text: &str) -> (r: Option<Vec<WapCfg>>)
    ensures
        match r {
            Some(es) => parse_library_text(text@) == Some(cfg_views(es@)),
            None => parse_library_text(text@) is None,
        },
{
    let v = chars_of(text);
    let lines = split_lines(&v);
    let ghost dv = lines.deep_view();
    let n = lines.len();
    proof {
        assert(lines.deep_view().len() == lines@.len());
    }
    let mut out: Vec<WapCfg> = Vec::new();
    let mut i: usize = 0;
    proof {
        assert(dv.skip(0) =~= dv);
        assert(parse_library_lines(dv) == match parse_library_lines(dv.skip(0)) {
            Some(t) => Some(cfg_views(out@) + t),
            None => None,
        }) by {
            if parse_library_lines(dv) is Some {
                let t = parse_library_lines(dv)->Some_0;
                assert(cfg_views(out@) + t =~= t);
                assert(cfg_views(out@) + t == t);
            }
        }
    }
    while i < n
        invariant
            i <= n,
            n == lines@.len(),
            dv == lines.deep_view(),
            dv == split_lines_s(text@),
            dv.len() == n,
            parse_library_lines(dv) == match parse_library_lines(dv.skip(i as int)) {
                Some(t) => Some(cfg_views(out@) + t),
                None => None,
            },
        decreases n - i,
    {
        let ghost rest = dv.skip(i as int);
        proof {
            assert(rest.len() == n - i);
            assert(rest.len() > 0);
        }
        if n - i < 5 {
            proof {
                assert(parse_library_lines(rest) is None);
            }
            return None;
        }
        proof {
            assert(rest[0] == dv[i as int]);
            assert(rest[1] == dv[i + 1]);
            assert(rest[2] == dv[i + 2]);
            assert(rest[3] == dv[i + 3]);
            assert(rest[4] == dv[i + 4]);
            assert(dv[i as int] =~= lines@[i as int]@);
            assert(dv[i + 1] =~= lines@[i + 1]@);
            assert(dv[i + 2] =~= lines@[i + 2]@);
            assert(dv[i + 3] =~= lines@[i + 3]@);
            assert(dv[i + 4] =~= lines@[i + 4]@);
            assert(rest.skip(5) =~= dv.skip(i + 5));
        }
        if !chars_eq_str(&lines[i], "[network]") {
            proof {
                reveal_strlit("[network]");
                assert("[network]"@ =~= header_body());
                assert(parse_entry_lines(rest[0], rest[1], rest[2], rest[3], rest[4]) is None);
            }
            return None;
        }
        proof {
            reveal_strlit("[network]");
            assert("[network]"@ =~= header_body());
        }
        let mac = match parse_kv_exec(&lines[i + 1], "mac") {
            Some(x) => x,
            None => {
                return None;
            },
        };
        let essid = match parse_kv_exec(&lines[i + 2], "essid") {
            Some(x) => x,
            None => {
                return None;
            },
        };
        let pwd = match parse_kv_exec(&lines[i + 3], "pwd") {
            Some(x) => x,
            None => {
                return None;
            },
        };
        let psk = match parse_kv_exec(&lines[i + 4], "psk") {
            Some(x) => x,
            None => {
                return None;
            },
        };
        let w = WapCfg { mac, essid, pwd, psk };
        let ghost wv = w@;
        proof {
            assert(parse_entry_lines(rest[0], rest[1], rest[2], rest[3], rest[4]) == Some(wv));
        }
        out.push(w);
        i = i + 5;
        proof {
            assert(cfg_views(out@) =~= cfg_views(out@.drop_last()).push(wv));
            assert(parse_library_lines(rest) == match parse_library_lines(dv.skip(i as int)) {
                Some(t) => Some(seq![wv] + t),
                None => None,
            });
            if parse_library_lines(dv.skip(i as int)) is Some {
                let t = parse_library_lines(dv.skip(i as int))->Some_0;
                assert(cfg_views(out@.drop_last()) + (seq![wv] + t) =~= cfg_views(out@) + t);
            }
        }
    }
    proof {
        assert(dv.skip(n as int) =~= Seq::<Seq<char>>::empty());
        assert(parse_library_lines(Seq::<Seq<char>>::empty()) == Some(Seq::<WapCfgV>::empty()));
        assert(cfg_views(out@) + Seq::<WapCfgV>::empty() =~= cfg_views(out@));
    }
    Some(out)
}

/// A quoted-field line body never holds a newline.
proof fn lemma_kv_body_clean(key: Seq<char>, val: Seq<char>)
    requires
        forall|i: int| 0 <= i < key.len() ==> key[i] != '\n',
    ensures
        forall|i: int|
            0 <= i < kv_body(key, val).len() ==> #[trigger] kv_body(key, val)[i] != '\n',
{
    lemma_escape_clean(val);
    let b = kv_body(key, val);
    let e = escape(val);
    assert forall|i: int| 0 <= i < b.len() implies #[trigger] b[i] != '\n' by {
        if i < key.len() {
            assert(b[i] == key[i]);
        } else if i < key.len() + 4 {
            assert(b[i] == kv_mid()[i - key.len()]);
        } else if i < key.len() + 4 + e.len() {
            assert(b[i] == e[i - key.len() - 4]);
        } else {
            assert(b[i] == '"');
        }
    }
}

/// Parsing a rendered field line gives the value back.
proof fn lemma_parse_kv_of_body(key: Seq<char>, val: Seq<char>)
    ensures
        parse_kv_line(kv_body(key, val), key) == Some(val),
{
    let p = key + kv_mid();
    let b = kv_body(key, val);
    let e = escape(val);
    assert(b.len() == p.len() + e.len() + 1);
    assert(b.subrange(0, p.len() as int) =~= p);
    assert(b.last() == '"');
    assert(b.subrange(p.len() as int, b.len() - 1) =~= e);
    lemma_unescape_escape(val);
}

/// Loading what was persisted gives the same entries back: parsing the
/// rendered library file reproduces the entry sequence exactly.
#[verifier::rlimit(100)]
pub proof fn lemma_library_round_trip(lib: Seq<WapCfgV>)
    ensures
        parse_library_text(library_text(lib)) == Some(lib),
    decreases lib.len(),
{
    reveal_strlit("mac");
    reveal_strlit("essid");
    reveal_strlit("pwd");
    reveal_strlit("psk");
    if lib.len() == 0 {
        assert(library_text(lib) =~= Seq::<char>::empty());
        assert(split_lines_s(Seq::<char>::empty()) =~= Seq::<Seq<char>>::empty());
        assert(lib =~= Seq::<WapCfgV>::empty());
    } else {
        let w = lib[0];
        let rest = lib.drop_first();
        lemma_library_round_trip(rest);
        let t = library_text(lib);
        let rt = library_text(rest);
        let h = header_body();
        let l1 = kv_body("mac"@, w.mac);
        let l2 = kv_body("essid"@, w.essid);
        let l3 = kv_body("pwd"@, w.pwd);
        let l4 = kv_body("psk"@, w.psk);

        assert(forall|i: int| 0 <= i < h.len() ==> h[i] != '\n');
        assert(forall|i: int| 0 <= i < ("mac"@).len() ==> ("mac"@)[i] != '\n');
        assert(forall|i: int| 0 <= i < ("essid"@).len() ==> ("essid"@)[i] != '\n');
        assert(forall|i: int| 0 <= i < ("pwd"@).len() ==> ("pwd"@)[i] != '\n');
        assert(forall|i: int| 0 <= i < ("psk"@).len() ==> ("psk"@)[i] != '\n');
        lemma_kv_body_clean("mac"@, w.mac);
        lemma_kv_body_clean("essid"@, w.essid);
        lemma_kv_body_clean("pwd"@, w.pwd);
        lemma_kv_body_clean("psk"@, w.psk);

        let t4 = l4 + seq!['\n'] + rt;
        let t3 = l3 + seq!['\n'] + t4;
        let t2 = l2 + seq!['\n'] + t3;
        let t1 = l1 + seq!['\n'] + t2;
        assert(t =~= h + seq!['\n'] + t1);
        lemma_split_lines_prepend(h, t1);
        lemma_split_lines_prepend(l1, t2);
        lemma_split_lines_prepend(l2, t3);
        lemma_split_lines_prepend(l3, t4);
        lemma_split_lines_prepend(l4, rt);
        let ls = split_lines_s(t);
        assert(split_lines_s(h + seq!['\n'] + t1) == seq![h] + split_lines_s(t1));
        assert(ls =~~= seq![h, l1, l2, l3, l4] + split_lines_s(rt));
        assert(ls.len() >= 5);
        assert(ls[0] == h);
        assert(ls[1] == l1);
        assert(ls[2] == l2);
        assert(ls[3] == l3);
        assert(ls[4] == l4);
        assert(ls.skip(5) =~~= split_lines_s(rt));

        lemma_parse_kv_of_body("mac"@, w.mac);
        lemma_parse_kv_of_body("essid"@, w.essid);
        lemma_parse_kv_of_body("pwd"@, w.pwd);
        lemma_parse_kv_of_body("psk"@, w.psk);
        assert(parse_entry_lines(ls[0], ls[1], ls[2], ls[3], ls[4]) == Some(w)) by {
            assert(WapCfgV { mac: w.mac, essid: w.essid, pwd: w.pwd, psk: w.psk } == w);
        }
        assert(parse_library_lines(ls.skip(5)) == Some(rest));
        assert(seq![w] + rest =~= lib);
    }
}

} // verus!
