//! Character-level utilities shared by the parsers and renderers:
//! character classes, conversions between `&str`/`String` and `Vec<char>`,
//! first-occurrence search, and decimal-digit values.

use vstd::prelude::*;
use vstd::string::StrSliceExecFns;

verus! {

/// The Unicode `White_Space` code points, the class the scan markers and
/// the derivation-tool pattern treat as whitespace.
pub open spec fn is_ws_char(c: char) -> bool {
    let u = c as u32;
    (0x09 <= u <= 0x0d) || u == 0x20 || u == 0x85 || u == 0xa0 || u == 0x1680 || (0x2000 <= u
        <= 0x200a) || u == 0x2028 || u == 0x2029 || u == 0x202f || u == 0x205f || u == 0x3000
}

/// Decimal digit `0`..`9`.
pub open spec fn is_digit_char(c: char) -> bool {
    0x30 <= (c as u32) <= 0x39
}

/// Lowercase hexadecimal digit `0`..`9`, `a`..`f`.
pub open spec fn is_hex_char(c: char) -> bool {
    is_digit_char(c) || (0x61 <= (c as u32) <= 0x66)
}

/// A character allowed in a hardware address: a lowercase hex digit or `:`.
pub open spec fn is_hwaddr_char(c: char) -> bool {
    is_hex_char(c) || c == ':'
}

pub open spec fn all_digits(s: Seq<char>) -> bool {
    forall|i: int| 0 <= i < s.len() ==> is_digit_char(#[trigger] s[i])
}

pub open spec fn all_hwaddr_chars(s: Seq<char>) -> bool {
    forall|i: int| 0 <= i < s.len() ==> is_hwaddr_char(#[trigger] s[i])
}

pub(crate) fn is_ws(c: char) -> (r: bool)
    ensures
        r == is_ws_char(c),
{
    let u = c as u32;
    (0x09 <= u && u <= 0x0d) || u == 0x20 || u == 0x85 || u == 0xa0 || u == 0x1680 || (0x2000 <= u
        && u <= 0x200a) || u == 0x2028 || u == 0x2029 || u == 0x202f || u == 0x205f || u == 0x3000
}

pub(crate) fn is_digit(c: char) -> (r: bool)
    ensures
        r == is_digit_char(c),
{
    let u = c as u32;
    0x30 <= u && u <= 0x39
}

pub(crate) fn is_hex(c: char) -> (r: bool)
    ensures
        r == is_hex_char(c),
{
    let u = c as u32;
    (0x30 <= u && u <= 0x39) || (0x61 <= u && u <= 0x66)
}

pub(crate) fn is_hwaddr(c: char) -> (r: bool)
    ensures
        r == is_hwaddr_char(c),
{
    is_hex(c) || c == ':'
}

/// The characters of `s`, in order, as a vector.
pub(crate) fn chars_of(s: &str) -> (v: Vec<char>)
    ensures
        v@ == s@,
{
    let n = s.unicode_len();
    let mut v: Vec<char> = Vec::new();
    let mut i: usize = 0;
    while i < n
        invariant
            i <= n,
            n == s@.len(),
            v@ == s@.subrange(0, i as int),
        decreases n - i,
    {
        let c = s.get_char(i);
        v.push(c);
        i = i + 1;
        proof {
            assert(v@ =~= s@.subrange(0, i as int));
        }
    }
    proof {
        assert(v@ =~= s@);
    }
    v
}

/// Relies on `String: FromIterator<char>` (`Iterator::collect`): the
/// collected string consists of exactly the iterated characters, in order.
#[verifier::external_body]
pub(crate) fn string_from_chars(v: &Vec<char>) -> (s: String)
    ensures
        s@ == v@,
{
    v.iter().collect()
}

/// Appends the characters of `s` to `out`.
pub(crate) fn push_str_chars(out: &mut Vec<char>, s: &str)
    ensures
        final(out)@ == old(out)@ + s@,
{
    let n = s.unicode_len();
    let mut i: usize = 0;
    while i < n
        invariant
            i <= n,
            n == s@.len(),
            out@ == old(out)@ + s@.subrange(0, i as int),
        decreases n - i,
    {
        let c = s.get_char(i);
        out.push(c);
        i = i + 1;
        proof {
            assert(out@ =~= old(out)@ + s@.subrange(0, i as int));
        }
    }
    proof {
        assert(out@ =~= old(out)@ + s@);
    }
}

/// Index of the first occurrence of `c` in `s`, or `-1` when absent.
pub open spec fn first_index_of(s: Seq<char>, c: char) -> int
    decreases s.len(),
{
    if s.len() == 0 {
        -1
    } else if s[0] == c {
        0
    } else {
        let r = first_index_of(s.drop_first(), c);
        if r == -1 {
            -1
        } else {
            r + 1
        }
    }
}

/// What `first_index_of` returns: either no occurrence at all, or the
/// position of an occurrence that nothing earlier matches.
pub proof fn lemma_first_index_of(s: Seq<char>, c: char)
    ensures
        first_index_of(s, c) == -1 ==> forall|i: int| 0 <= i < s.len() ==> s[i] != c,
        first_index_of(s, c) != -1 ==> {
            let r = first_index_of(s, c);
            &&& 0 <= r < s.len()
            &&& s[r] == c
            &&& forall|i: int| 0 <= i < r ==> s[i] != c
        },
    decreases s.len(),
{
    if s.len() == 0 {
    } else if s[0] == c {
    } else {
        let t = s.drop_first();
        lemma_first_index_of(t, c);
        assert(forall|i: int| 0 <= i < t.len() ==> t[i] == s[i + 1]);
        let rt = first_index_of(t, c);
        if rt == -1 {
            assert forall|i: int| 0 <= i < s.len() implies s[i] != c by {
                if i > 0 {
                    assert(t[i - 1] != c);
                }
            }
        } else {
            assert(s[rt + 1] == c);
            assert forall|i: int| 0 <= i < rt + 1 implies s[i] != c by {
                if i > 0 {
                    assert(t[i - 1] != c);
                }
            }
        }
    }
}

/// First position at or after `from` holding `c`, scanning `v`.
pub(crate) fn find_char_from(v: &Vec<char>, from: usize, c: char) -> (r: Option<usize>)
    requires
        from <= v@.len(),
    ensures
        match r {
            Some(i) => from <= i < v@.len() && v@[i as int] == c && forall|j: int|
                from <= j < i ==> v@[j] != c,
            None => forall|j: int| from <= j < v@.len() ==> v@[j] != c,
        },
{
    let n = v.len();
    let mut i: usize = from;
    while i < n
        invariant
            from <= i <= n,
            n == v@.len(),
            forall|j: int| from <= j < i ==> v@[j] != c,
        decreases n - i,
    {
        if v[i] == c {
            return Some(i);
        }
        i = i + 1;
    }
    None
}

/// Ties `find_char_from` at the start of a suffix to `first_index_of` of
/// that suffix: the two agree position for position.
pub proof fn lemma_first_index_of_subrange(s: Seq<char>, c: char, r: int)
    requires
        r == -1 ==> forall|i: int| 0 <= i < s.len() ==> s[i] != c,
        r != -1 ==> 0 <= r < s.len() && s[r] == c && forall|i: int| 0 <= i < r ==> s[i] != c,
    ensures
        first_index_of(s, c) == r,
{
    lemma_first_index_of(s, c);
    let f = first_index_of(s, c);
    if f == -1 {
        if r != -1 {
            assert(s[r] != c);
        }
    } else {
        if r == -1 {
            assert(s[f] != c);
        } else {
            if f < r {
                assert(s[f] != c);
            }
            if r < f {
                assert(s[r] != c);
            }
        }
    }
}

/// `find_char_from`, restated against the suffix that starts at `from`:
/// the result is the suffix-relative first occurrence.
pub(crate) fn find_char_rel(v: &Vec<char>, from: usize, c: char) -> (r: Option<usize>)
    requires
        from <= v@.len(),
    ensures
        match r {
            Some(i) => from <= i < v@.len() && first_index_of(
                v@.subrange(from as int, v@.len() as int),
                c,
            ) == i - from,
            None => first_index_of(v@.subrange(from as int, v@.len() as int), c) == -1,
        },
{
    let r = find_char_from(v, from, c);
    proof {
        let sub = v@.subrange(from as int, v@.len() as int);
        assert(forall|j: int| 0 <= j < sub.len() ==> sub[j] == v@[from + j]);
        match r {
            Some(i) => {
                assert(sub[i - from] == c);
                assert forall|j: int| 0 <= j < i - from implies sub[j] != c by {
                    assert(v@[from + j] != c);
                }
                lemma_first_index_of_subrange(sub, c, i - from);
            },
            None => {
                assert forall|j: int| 0 <= j < sub.len() implies sub[j] != c by {
                    assert(v@[from + j] != c);
                }
                lemma_first_index_of_subrange(sub, c, -1);
            },
        }
    }
    r
}

/// The characters `v[a..b]` as a fresh vector.
pub(crate) fn subvec(v: &Vec<char>, a: usize, b: usize) -> (r: Vec<char>)
    requires
        a <= b <= v@.len(),
    ensures
        r@ == v@.subrange(a as int, b as int),
{
    let mut r: Vec<char> = Vec::new();
    let mut i: usize = a;
    while i < b
        invariant
            a <= i <= b <= v@.len(),
            r@ == v@.subrange(a as int, i as int),
        decreases b - i,
    {
        r.push(v[i]);
        i = i + 1;
        proof {
            assert(r@ =~= v@.subrange(a as int, i as int));
        }
    }
    r
}

/// The characters `v[a..b]` as a string.
pub(crate) fn string_of_range(v: &Vec<char>, a: usize, b: usize) -> (r: String)
    requires
        a <= b <= v@.len(),
    ensures
        r@ == v@.subrange(a as int, b as int),
{
    let s = subvec(v, a, b);
    string_from_chars(&s)
}

/// Every character of `v[a..b]` is a hardware-address character.
pub(crate) fn all_hwaddr_range(v: &Vec<char>, a: usize, b: usize) -> (r: bool)
    requires
        a <= b <= v@.len(),
    ensures
        r == all_hwaddr_chars(v@.subrange(a as int, b as int)),
{
    let ghost sub = v@.subrange(a as int, b as int);
    let mut i: usize = a;
    while i < b
        invariant
            a <= i <= b <= v@.len(),
            sub == v@.subrange(a as int, b as int),
            forall|j: int| 0 <= j < i - a ==> is_hwaddr_char(#[trigger] sub[j]),
        decreases b - i,
    {
        proof {
            assert(sub[i - a] == v@[i as int]);
        }
        if !is_hwaddr(v[i]) {
            return false;
        }
        i = i + 1;
    }
    true
}

/// Every character of `v[a..b]` is a decimal digit.
pub(crate) fn all_digits_range(v: &Vec<char>, a: usize, b: usize) -> (r: bool)
    requires
        a <= b <= v@.len(),
    ensures
        r == all_digits(v@.subrange(a as int, b as int)),
{
    let ghost sub = v@.subrange(a as int, b as int);
    let mut i: usize = a;
    while i < b
        invariant
            a <= i <= b <= v@.len(),
            sub == v@.subrange(a as int, b as int),
            forall|j: int| 0 <= j < i - a ==> is_digit_char(#[trigger] sub[j]),
        decreases b - i,
    {
        proof {
            assert(sub[i - a] == v@[i as int]);
        }
        if !is_digit(v[i]) {
            return false;
        }
        i = i + 1;
    }
    true
}

/// Character-for-character string equality.
pub(crate) fn str_eq(a: &str, b: &str) -> (r: bool)
    ensures
        r == (a@ == b@),
{
    let n = a.unicode_len();
    if n != b.unicode_len() {
        return false;
    }
    let mut i: usize = 0;
    while i < n
        invariant
            i <= n,
            n == a@.len(),
            n == b@.len(),
            forall|j: int| 0 <= j < i ==> a@[j] == b@[j],
        decreases n - i,
    {
        if a.get_char(i) != b.get_char(i) {
            return false;
        }
        i = i + 1;
    }
    proof {
        assert(a@ =~= b@);
    }
    true
}

/// Numeric value of a decimal digit character.
pub open spec fn digit_val(c: char) -> int {
    (c as u32) - 0x30
}

/// Value of a most-significant-digit-first decimal digit string.
pub open spec fn dec_val(s: Seq<char>) -> int
    decreases s.len(),
{
    if s.len() == 0 {
        0
    } else {
        10 * dec_val(s.drop_last()) + digit_val(s.last())
    }
}

pub proof fn lemma_dec_val_nonneg(s: Seq<char>)
    requires
        all_digits(s),
    ensures
        dec_val(s) >= 0,
    decreases s.len(),
{
    if s.len() > 0 {
        lemma_dec_val_nonneg(s.drop_last());
    }
}

/// Extending a digit string to the right never decreases its value.
pub proof fn lemma_dec_val_prefix(s: Seq<char>, i: int)
    requires
        all_digits(s),
        0 <= i <= s.len(),
    ensures
        dec_val(s.subrange(0, i)) <= dec_val(s),
    decreases s.len() - i,
{
    if i < s.len() {
        lemma_dec_val_prefix(s, i + 1);
        let a = s.subrange(0, i);
        let b = s.subrange(0, i + 1);
        assert(b.drop_last() =~= a);
        lemma_dec_val_nonneg(a);
        assert(dec_val(b) == 10 * dec_val(a) + digit_val(b.last()));
    } else {
        assert(s.subrange(0, i) =~= s);
    }
}

/// Value of the digit run `v[start..end]`, as long as it stays within
/// `cap`; `None` exactly when the value exceeds `cap`.
pub(crate) fn parse_digits_u64(v: &Vec<char>, start: usize, end: usize, cap: u64) -> (r: Option<u64>)
    requires
        start <= end <= v@.len(),
        all_digits(v@.subrange(start as int, end as int)),
    ensures
        match r {
            Some(x) => x <= cap && x as int == dec_val(v@.subrange(start as int, end as int)),
            None => dec_val(v@.subrange(start as int, end as int)) > cap,
        },
{
    let ghost whole = v@.subrange(start as int, end as int);
    let mut acc: u64 = 0;
    let mut i: usize = start;
    while i < end
        invariant
            start <= i <= end <= v@.len(),
            all_digits(whole),
            whole == v@.subrange(start as int, end as int),
            acc <= cap,
            acc as int == dec_val(v@.subrange(start as int, i as int)),
        decreases end - i,
    {
        proof {
            assert(whole[i - start] == v@[i as int]);
        }
        let c = v[i];
        let d: u32 = (c as u32) - 0x30;
        let next: u128 = (acc as u128) * 10 + (d as u128);
        proof {
            let a = v@.subrange(start as int, i as int);
            let b = v@.subrange(start as int, i + 1);
            assert(b.drop_last() =~= a);
            assert(b.last() == v@[i as int]);
            assert(dec_val(b) == 10 * dec_val(a) + digit_val(b.last()));
        }
        if next > cap as u128 {
            proof {
                lemma_dec_val_prefix(whole, i + 1 - start);
                assert(whole.subrange(0, i + 1 - start) =~= v@.subrange(start as int, i + 1));
            }
            return None;
        }
        acc = next as u64;
        i = i + 1;
    }
    proof {
        assert(v@.subrange(start as int, i as int) =~= whole);
    }
    Some(acc)
}

/// `needle` occurs in `hay` starting at position `i`.
pub open spec fn has_sub_at(hay: Seq<char>, needle: Seq<char>, i: int) -> bool {
    0 <= i && i + needle.len() <= hay.len() && hay.subrange(i, i + needle.len()) == needle
}

/// `needle` occurs somewhere in `hay`.
pub open spec fn contains_sub(hay: Seq<char>, needle: Seq<char>) -> bool {
    exists|i: int| has_sub_at(hay, needle, i)
}

fn matches_at(hay: &Vec<char>, needle: &Vec<char>, i: usize) -> (r: bool)
    requires
        i + needle@.len() <= hay@.len(),
    ensures
        r == (hay@.subrange(i as int, i + needle@.len()) == needle@),
{
    let hay_len = hay.len();
    let m = needle.len();
    let mut j: usize = 0;
    while j < m
        invariant
            j <= m,
            m == needle@.len(),
            hay_len == hay@.len(),
            i + m <= hay@.len(),
            forall|k: int| 0 <= k < j ==> hay@[i + k] == needle@[k],
        decreases m - j,
    {
        if hay[i + j] != needle[j] {
            proof {
                assert(hay@.subrange(i as int, i + needle@.len())[j as int] == hay@[i + j]);
            }
            return false;
        }
        j = j + 1;
    }
    proof {
        assert(hay@.subrange(i as int, i + needle@.len()) =~= needle@);
    }
    true
}

/// Substring containment over character vectors.
pub(crate) fn contains_chars(hay: &Vec<char>, needle: &Vec<char>) -> (r: bool)
    ensures
        r == contains_sub(hay@, needle@),
{
    let n = hay.len();
    let m = needle.len();
    if m > n {
        proof {
            assert(!contains_sub(hay@, needle@)) by {
                if contains_sub(hay@, needle@) {
                    let i = choose|i: int| has_sub_at(hay@, needle@, i);
                    assert(i + needle@.len() <= hay@.len());
                }
            }
        }
        return false;
    }
    if m == 0 {
        proof {
            assert(hay@.subrange(0, 0) =~= needle@);
            assert(has_sub_at(hay@, needle@, 0));
        }
        return true;
    }
    let mut i: usize = 0;
    while i <= n - m
        invariant
            1 <= m <= n,
            n == hay@.len(),
            m == needle@.len(),
            i <= n - m + 1,
            forall|k: int| 0 <= k < i ==> !has_sub_at(hay@, needle@, k),
        decreases n - i,
    {
        if matches_at(hay, needle, i) {
            proof {
                assert(has_sub_at(hay@, needle@, i as int));
            }
            return true;
        }
        i = i + 1;
    }
    proof {
        assert(!contains_sub(hay@, needle@)) by {
            if contains_sub(hay@, needle@) {
                let k = choose|k: int| has_sub_at(hay@, needle@, k);
                assert(k + needle@.len() <= hay@.len());
                assert(!has_sub_at(hay@, needle@, k));
            }
        }
    }
    false
}

/// The lines of `s`: maximal `'\n'`-free runs.  A final line without a
/// terminating newline still counts; a trailing newline adds no line.
pub open spec fn split_lines_s(s: Seq<char>) -> Seq<Seq<char>>
    decreases s.len(),
{
    if s.len() == 0 {
        Seq::empty()
    } else if s[0] == '\n' {
        seq![Seq::<char>::empty()] + split_lines_s(s.drop_first())
    } else {
        let rest = split_lines_s(s.drop_first());
        if s.len() == 1 {
            seq![s]
        } else {
            seq![seq![s[0]] + rest[0]] + rest.drop_first()
        }
    }
}

/// A newline-free, newline-terminated line prepends itself to the split.
pub proof fn lemma_split_lines_prepend(line: Seq<char>, rest: Seq<char>)
    requires
        forall|i: int| 0 <= i < line.len() ==> line[i] != '\n',
    ensures
        split_lines_s(line + seq!['\n'] + rest) == seq![line] + split_lines_s(rest),
    decreases line.len(),
{
    let s = line + seq!['\n'] + rest;
    if line.len() == 0 {
        assert(s =~= seq!['\n'] + rest);
        assert(s[0] == '\n');
        assert(s.drop_first() =~= rest);
        assert(line =~= Seq::<char>::empty());
        assert(split_lines_s(s) =~~= seq![line] + split_lines_s(rest));
    } else {
        assert(s[0] == line[0]);
        assert(s[0] != '\n');
        assert(s.len() > 1);
        let line1 = line.drop_first();
        lemma_split_lines_prepend(line1, rest);
        assert(s.drop_first() =~= line1 + seq!['\n'] + rest);
        let rest0 = split_lines_s(s.drop_first());
        assert(rest0 == seq![line1] + split_lines_s(rest));
        assert(rest0[0] == line1);
        assert(rest0.drop_first() =~~= split_lines_s(rest));
        assert(seq![s[0]] + rest0[0] =~= line);
        assert(split_lines_s(s) =~~= seq![line] + split_lines_s(rest));
    }
}

/// A nonempty newline-free text is a single line.
pub proof fn lemma_split_lines_single(s: Seq<char>)
    requires
        s.len() > 0,
        forall|i: int| 0 <= i < s.len() ==> s[i] != '\n',
    ensures
        split_lines_s(s) == seq![s],
    decreases s.len(),
{
    if s.len() == 1 {
    } else {
        let s1 = s.drop_first();
        lemma_split_lines_single(s1);
        let rest = split_lines_s(s1);
        assert(rest[0] == s1);
        assert(rest.drop_first() =~~= Seq::<Seq<char>>::empty());
        assert(seq![s[0]] + rest[0] =~= s);
        assert(split_lines_s(s) =~~= seq![s]);
    }
}

/// Splits `v` into its lines.
pub(crate) fn split_lines(v: &Vec<char>) -> (r: Vec<Vec<char>>)
    ensures
        r.deep_view() == split_lines_s(v@),
{
    let n = v.len();
    let mut done: Vec<Vec<char>> = Vec::new();
    let mut cur: Vec<char> = Vec::new();
    let mut start: usize = 0;
    let mut pos: usize = 0;
    proof {
        assert(v@.subrange(0, n as int) =~= v@);
        assert(done.deep_view() + split_lines_s(v@) =~~= split_lines_s(v@));
    }
    while pos < n
        invariant
            start <= pos <= n,
            n == v@.len(),
            cur@ == v@.subrange(start as int, pos as int),
            forall|i: int| start <= i < pos ==> v@[i] != '\n',
            split_lines_s(v@) == done.deep_view() + split_lines_s(
                v@.subrange(start as int, n as int),
            ),
        decreases n - pos,
    {
        let c = v[pos];
        if c == '\n' {
            proof {
                let tail = v@.subrange(start as int, n as int);
                let after = v@.subrange(pos + 1, n as int);
                assert(tail =~= cur@ + seq!['\n'] + after);
                lemma_split_lines_prepend(cur@, after);
            }
            let ghost done0 = done.deep_view();
            let ghost cur0 = cur@;
            done.push(cur);
            cur = Vec::new();
            pos = pos + 1;
            start = pos;
            proof {
                let after = v@.subrange(start as int, n as int);
                assert(done.deep_view() =~~= done0 + seq![cur0]);
                assert(cur@ =~= v@.subrange(start as int, pos as int));
                assert(done0 + (seq![cur0] + split_lines_s(after)) =~~= (done0 + seq![cur0])
                    + split_lines_s(after));
            }
        } else {
            cur.push(c);
            pos = pos + 1;
            proof {
                assert(cur@ =~= v@.subrange(start as int, pos as int));
            }
        }
    }
    if cur.len() > 0 {
        proof {
            lemma_split_lines_single(v@.subrange(start as int, n as int));
        }
        let ghost done0 = done.deep_view();
        let ghost cur0 = cur@;
        done.push(cur);
        proof {
            assert(done.deep_view() =~~= done0 + seq![cur0]);
            assert(done.deep_view() =~~= split_lines_s(v@));
        }
    } else {
        proof {
            assert(v@.subrange(start as int, n as int) =~= Seq::<char>::empty());
            assert(done.deep_view() + split_lines_s(Seq::<char>::empty()) =~~= done.deep_view());
            assert(done.deep_view() =~~= split_lines_s(v@));
        }
    }
    done
}

} // verus!
