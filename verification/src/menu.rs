//! The selectable-item capability the external menu facility consumes:
//! a key length and an aligned display line, implemented per record type.

use vstd::prelude::*;

use crate::record::{Wap, WapCfg};
use crate::text::push_str_chars;
use vstd::string::StrSliceExecFns;

verus! {

/// `n` spaces.
pub open spec fn spaces(n: int) -> Seq<char> {
    Seq::new(if n >= 0 {
        n as nat
    } else {
        0
    }, |i: int| ' ')
}

/// `s` left-aligned in a field of width `w`.
pub open spec fn pad_right(s: Seq<char>, w: int) -> Seq<char> {
    if s.len() >= w {
        s
    } else {
        s + spaces(w - s.len())
    }
}

/// `s` right-aligned in a field of width `w`.
pub open spec fn pad_left(s: Seq<char>, w: int) -> Seq<char> {
    if s.len() >= w {
        s
    } else {
        spaces(w - s.len()) + s
    }
}

/// The digit character for one decimal digit.
pub open spec fn digit_char_of(d: int) -> char {
    if d == 0 {
        '0'
    } else if d == 1 {
        '1'
    } else if d == 2 {
        '2'
    } else if d == 3 {
        '3'
    } else if d == 4 {
        '4'
    } else if d == 5 {
        '5'
    } else if d == 6 {
        '6'
    } else if d == 7 {
        '7'
    } else if d == 8 {
        '8'
    } else {
        '9'
    }
}

/// The decimal digits of a nonnegative number, most significant first.
pub open spec fn dec_digits(n: int) -> Seq<char>
    decreases n,
{
    if n < 10 {
        seq![digit_char_of(n)]
    } else {
        dec_digits(n / 10) + seq![digit_char_of(n % 10)]
    }
}

/// A signed number in decimal notation.
pub open spec fn dec_int(v: int) -> Seq<char> {
    if v < 0 {
        seq!['-'] + dec_digits(-v)
    } else {
        dec_digits(v)
    }
}

fn digit_char(d: u64) -> (r: char)
    requires
        d < 10,
    ensures
        r == digit_char_of(d as int),
{
    if d == 0 {
        '0'
    } else if d == 1 {
        '1'
    } else if d == 2 {
        '2'
    } else if d == 3 {
        '3'
    } else if d == 4 {
        '4'
    } else if d == 5 {
        '5'
    } else if d == 6 {
        '6'
    } else if d == 7 {
        '7'
    } else if d == 8 {
        '8'
    } else {
        '9'
    }
}

/// Appends the decimal digits of `n`.
fn push_dec_u64(out: &mut Vec<char>, n: u64)
    ensures
        final(out)@ == old(out)@ + dec_digits(n as int),
    decreases n,
{
    if n < 10 {
        out.push(digit_char(n));
        proof {
            assert(out@ =~= old(out)@ + dec_digits(n as int));
        }
    } else {
        push_dec_u64(out, n / 10);
        out.push(digit_char(n % 10));
        proof {
            assert(out@ =~= old(out)@ + dec_digits(n as int));
        }
    }
}

/// Appends `v` in decimal notation.
fn push_dec_i64(out: &mut Vec<char>, v: i64)
    ensures
        final(out)@ == old(out)@ + dec_int(v as int),
{
    if v < 0 {
        out.push('-');
        let mag: u64 = if v == i64::MIN {
            9223372036854775808u64
        } else {
            (-v) as u64
        };
        proof {
            assert(mag as int == -(v as int));
        }
        push_dec_u64(out, mag);
        proof {
            assert(out@ =~= old(out)@ + dec_int(v as int));
        }
    } else {
        push_dec_u64(out, v as u64);
    }
}

/// Appends `k` spaces.
fn push_spaces(out: &mut Vec<char>, k: usize)
    ensures
        final(out)@ == old(out)@ + spaces(k as int),
{
    let mut i: usize = 0;
    proof {
        assert(out@ =~= old(out)@ + spaces(0));
    }
    while i < k
        invariant
            i <= k,
            out@ == old(out)@ + spaces(i as int),
        decreases k - i,
    {
        out.push(' ');
        i = i + 1;
        proof {
            assert(out@ =~= old(out)@ + spaces(i as int));
        }
    }
}

/// Appends `s` left-aligned in a field of width `w`.
fn push_padded_right(out: &mut Vec<char>, s: &str, w: usize)
    ensures
        final(out)@ == old(out)@ + pad_right(s@, w as int),
{
    let n = s.unicode_len();
    push_str_chars(out, s);
    if n < w {
        push_spaces(out, w - n);
        proof {
            assert(out@ =~= old(out)@ + pad_right(s@, w as int));
        }
    }
}

/// Appends the characters of `v`.
fn push_chars(out: &mut Vec<char>, v: &Vec<char>)
    ensures
        final(out)@ == old(out)@ + v@,
{
    let n = v.len();
    let mut i: usize = 0;
    proof {
        assert(out@ =~= old(out)@ + v@.subrange(0, 0));
    }
    while i < n
        invariant
            i <= n,
            n == v@.len(),
            out@ == old(out)@ + v@.subrange(0, i as int),
        decreases n - i,
    {
        out.push(v[i]);
        i = i + 1;
        proof {
            assert(out@ =~= old(out)@ + v@.subrange(0, i as int));
        }
    }
    proof {
        assert(v@.subrange(0, n as int) =~= v@);
    }
}

/// Appends the characters of `v` right-aligned in a field of width `w`.
fn push_padded_left_chars(out: &mut Vec<char>, v: &Vec<char>, w: usize)
    ensures
        final(out)@ == old(out)@ + pad_left(v@, w as int),
{
    let n = v.len();
    if n < w {
        push_spaces(out, w - n);
    }
    push_chars(out, v);
    proof {
        assert(out@ =~= old(out)@ + pad_left(v@, w as int));
    }
}

/// What the menu facility asks of anything it can present: the length of
/// the item's key column, and the display line rendered against the
/// widest key in the list.
pub trait MenuItem {
    /// The key column's content length.
    spec fn spec_key_len(&self) -> nat;

    /// The display line for a key column of width `key_len`.
    spec fn spec_line(&self, key_len: int) -> Seq<char>;

    fn key_len(&self) -> (r: usize)
        ensures
            r == self.spec_key_len(),
    ;

    fn line(&self, key_len: usize) -> (r: String)
        ensures
            r@ == self.spec_line(key_len as int),
    ;
}

impl MenuItem for WapCfg {
    /// The ESSID is the key.
    open spec fn spec_key_len(&self) -> nat {
        self@.essid.len()
    }

    /// The ESSID, aligned, then the hardware address.
    open spec fn spec_line(&self, key_len: int) -> Seq<char> {
        pad_right(self@.essid, key_len) + "  "@ + self@.mac
    }

    fn key_len(&self) -> (r: usize) {
        self.essid.as_str().unicode_len()
    }

    fn line(&self, key_len: usize) -> (r: String) {
        let mut out: Vec<char> = Vec::new();
        push_padded_right(&mut out, self.essid.as_str(), key_len);
        push_str_chars(&mut out, "  ");
        push_str_chars(&mut out, self.mac.as_str());
        proof {
            assert(out@ =~= self.spec_line(key_len as int));
        }
        crate::text::string_from_chars(&out)
    }
}

impl MenuItem for Wap {
    /// The ESSID is the key.
    open spec fn spec_key_len(&self) -> nat {
        self@.essid.len()
    }

    /// A saved-network mark, the ESSID aligned, the level and frequency
    /// right-aligned, the hardware address, and the prior ESSID when the
    /// broadcast name drifted.
    open spec fn spec_line(&self, key_len: int) -> Seq<char> {
        let mark: char = if self@.psk is Some {
            '*'
        } else {
            ' '
        };
        seq![mark, ' '] + pad_right(self@.essid, key_len) + seq![' '] + pad_left(
            dec_int(self@.level),
            4,
        ) + " dBm  "@ + pad_left(self@.freq, 4) + "  "@ + self@.mac + (match self@.old_essid {
            Some(o) => seq![' '] + o,
            None => Seq::empty(),
        })
    }

    fn key_len(&self) -> (r: usize) {
        self.essid.as_str().unicode_len()
    }

    fn line(&self, key_len: usize) -> (r: String) {
        let mut out: Vec<char> = Vec::new();
        let mark: char = match &self.psk {
            Some(_) => '*',
            None => ' ',
        };
        out.push(mark);
        out.push(' ');
        push_padded_right(&mut out, self.essid.as_str(), key_len);
        out.push(' ');
        let mut lvl: Vec<char> = Vec::new();
        push_dec_i64(&mut lvl, self.level);
        push_padded_left_chars(&mut out, &lvl, 4);
        push_str_chars(&mut out, " dBm  ");
        let freq_chars = crate::text::chars_of(self.freq.as_str());
        push_padded_left_chars(&mut out, &freq_chars, 4);
        push_str_chars(&mut out, "  ");
        push_str_chars(&mut out, self.mac.as_str());
        match &self.old_essid {
            Some(o) => {
                out.push(' ');
                push_str_chars(&mut out, o.as_str());
            },
            None => {},
        }
        proof {
            assert(out@ =~= self.spec_line(key_len as int));
        }
        crate::text::string_from_chars(&out)
    }
}

/// `s` without its leading whitespace.
pub open spec fn trim_start(s: Seq<char>) -> Seq<char>
    decreases s.len(),
{
    if s.len() > 0 && crate::text::is_ws_char(s[0]) {
        trim_start(s.drop_first())
    } else {
        s
    }
}

/// `s` without its trailing whitespace.
pub open spec fn trim_end(s: Seq<char>) -> Seq<char>
    decreases s.len(),
{
    if s.len() > 0 && crate::text::is_ws_char(s.last()) {
        trim_end(s.drop_last())
    } else {
        s
    }
}

/// `s` without surrounding whitespace.
pub open spec fn trim_ws(s: Seq<char>) -> Seq<char> {
    trim_end(trim_start(s))
}

proof fn lemma_trim_start_skip(s: Seq<char>, a: int)
    requires
        0 <= a <= s.len(),
        forall|j: int| 0 <= j < a ==> crate::text::is_ws_char(#[trigger] s[j]),
        a < s.len() ==> !crate::text::is_ws_char(s[a]),
    ensures
        trim_start(s) == s.skip(a),
    decreases a,
{
    if a == 0 {
        assert(s.skip(0) =~= s);
    } else {
        assert(crate::text::is_ws_char(s[0]));
        let t = s.drop_first();
        assert(forall|j: int| 0 <= j < t.len() ==> t[j] == s[j + 1]);
        lemma_trim_start_skip(t, a - 1);
        assert(t.skip(a - 1) =~= s.skip(a));
    }
}

proof fn lemma_trim_end_take(s: Seq<char>, b: int)
    requires
        0 <= b <= s.len(),
        forall|j: int| b <= j < s.len() ==> crate::text::is_ws_char(#[trigger] s[j]),
        b > 0 ==> !crate::text::is_ws_char(s[b - 1]),
    ensures
        trim_end(s) == s.take(b),
    decreases s.len(),
{
    if b == s.len() {
        if s.len() > 0 && crate::text::is_ws_char(s.last()) {
            assert(!crate::text::is_ws_char(s[b - 1]));
        }
        assert(s.take(b) =~= s);
    } else {
        assert(crate::text::is_ws_char(s.last()));
        let t = s.drop_last();
        lemma_trim_end_take(t, b);
        assert(t.take(b) =~= s.take(b));
    }
}

/// The replacement of a line's final character by an ellipsis.
pub open spec fn ellipsisify(out: Seq<char>) -> Seq<char> {
    if out.len() > 0 {
        out.drop_last().push('\u{2026}')
    } else {
        seq!['\u{2026}']
    }
}

/// The whitespace-collapsing walk: each character of `t` is consumed in
/// turn; once `out` is full, the walk stops, marking truncation with an
/// ellipsis exactly when at least two characters were still unread.
/// Interior whitespace runs collapse to a single space.
pub open spec fn collapse_go(t: Seq<char>, max: int, out: Seq<char>, last_ws: bool) -> Seq<char>
    decreases t.len(),
{
    if t.len() == 0 {
        out
    } else if out.len() >= max {
        if t.len() >= 2 {
            ellipsisify(out)
        } else {
            out
        }
    } else {
        let c = t[0];
        if crate::text::is_ws_char(c) {
            if last_ws {
                collapse_go(t.drop_first(), max, out, true)
            } else {
                collapse_go(t.drop_first(), max, out.push(' '), true)
            }
        } else {
            collapse_go(t.drop_first(), max, out.push(c), false)
        }
    }
}

/// What `collapse_whitespace` returns.
pub open spec fn spec_collapse(text: Seq<char>, max: int) -> Seq<char> {
    collapse_go(trim_ws(text), max, Seq::empty(), true)
}

/// A copy of `text` with surrounding whitespace stripped, interior
/// whitespace runs collapsed to single spaces, and at most `max_len`
/// characters kept, the last replaced by an ellipsis when more text
/// followed.
pub fn collapse_whitespace(text: &str, max_len: usize) -> (r: String)
    ensures
        r@ == spec_collapse(text@, max_len as int),
{
    let v = crate::text::chars_of(text);
    let n = v.len();
    let mut a: usize = 0;
    while a < n && crate::text::is_ws(v[a])
        invariant
            a <= n,
            n == v@.len(),
            forall|j: int| 0 <= j < a ==> crate::text::is_ws_char(#[trigger] v@[j]),
        decreases n - a,
    {
        a = a + 1;
    }
    let mut b: usize = n;
    while b > a && crate::text::is_ws(v[b - 1])
        invariant
            a <= b <= n,
            n == v@.len(),
            forall|j: int| b <= j < n ==> crate::text::is_ws_char(#[trigger] v@[j]),
        decreases b,
    {
        b = b - 1;
    }
    let ghost t = v@.subrange(a as int, b as int);
    proof {
        lemma_trim_start_skip(v@, a as int);
        let sk = v@.skip(a as int);
        assert(forall|j: int| 0 <= j < sk.len() ==> sk[j] == v@[a + j]);
        assert forall|j: int| b - a <= j < sk.len() implies crate::text::is_ws_char(
            #[trigger] sk[j],
        ) by {
            assert(sk[j] == v@[a + j]);
        }
        if b > a {
            assert(sk[b - a - 1] == v@[b - 1]);
        }
        lemma_trim_end_take(sk, b - a);
        assert(sk.take(b - a) =~= t);
        assert(trim_ws(v@) == t);
    }
    let mut out: Vec<char> = Vec::new();
    let mut last_ws: bool = true;
    let mut i: usize = a;
    proof {
        assert(out@ =~= Seq::<char>::empty());
        assert(t.skip(0) =~= t);
        assert(trim_ws(text@) == t);
        assert(spec_collapse(text@, max_len as int) == collapse_go(
            t.skip(0),
            max_len as int,
            out@,
            true,
        ));
    }
    while i < b && out.len() < max_len
        invariant
            a <= i <= b <= n,
            n == v@.len(),
            t == v@.subrange(a as int, b as int),
            out@.len() <= max_len,
            spec_collapse(text@, max_len as int) == collapse_go(
                t.skip(i - a),
                max_len as int,
                out@,
                last_ws,
            ),
        decreases b - i,
    {
        let ghost rem = t.skip(i - a);
        let c = v[i];
        proof {
            assert(rem[0] == t[i - a]);
            assert(t[i - a] == v@[i as int]);
            assert(rem.drop_first() =~= t.skip(i + 1 - a));
        }
        if crate::text::is_ws(c) {
            if !last_ws {
                out.push(' ');
                last_ws = true;
            }
        } else {
            out.push(c);
            last_ws = false;
        }
        i = i + 1;
    }
    let ghost rem = t.skip(i - a);
    if i < b {
        proof {
            assert(out@.len() >= max_len);
            assert(rem.len() == b - i >= 1);
        }
        if b - i >= 2 {
            proof {
                assert(collapse_go(rem, max_len as int, out@, last_ws) == ellipsisify(out@));
            }
            let ghost out0 = out@;
            let _ = out.pop();
            out.push('\u{2026}');
            proof {
                if out0.len() > 0 {
                    assert(out@ =~= out0.drop_last().push('\u{2026}'));
                } else {
                    assert(out@ =~= seq!['\u{2026}']);
                }
            }
        } else {
            proof {
                assert(collapse_go(rem, max_len as int, out@, last_ws) == out@);
            }
        }
    } else {
        proof {
            assert(rem =~= Seq::<char>::empty());
            assert(collapse_go(rem, max_len as int, out@, last_ws) == out@);
        }
    }
    crate::text::string_from_chars(&out)
}

} // verus!
