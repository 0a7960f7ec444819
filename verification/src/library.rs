//! The credential library: the durable mapping from an access point's
//! hardware address to its saved credentials, with its persistence.

use vstd::prelude::*;

use crate::err::WifiError;
use crate::libtext::{library_text, parse_library, parse_library_text, render_library};
use crate::order::{sort_by_essid, sorted_by_essid};
use crate::record::{cfg_views, WapCfg, WapCfgV};
use crate::text::str_eq;

verus! {

/// No two entries may claim the same hardware address.
pub open spec fn wf_lib(s: Seq<WapCfgV>) -> bool {
    forall|i: int, j: int| 0 <= i < j < s.len() ==> s[i].mac != s[j].mac
}

/// Position of the first entry saved under `mac`, or `-1`.
pub open spec fn first_mac_index(s: Seq<WapCfgV>, mac: Seq<char>) -> int
    decreases s.len(),
{
    if s.len() == 0 {
        -1
    } else if s[0].mac == mac {
        0
    } else {
        let r = first_mac_index(s.drop_first(), mac);
        if r == -1 {
            -1
        } else {
            r + 1
        }
    }
}

/// What `first_mac_index` returns: either no entry at all under `mac`, or
/// the position of one that nothing earlier matches.
pub proof fn lemma_first_mac_index(s: Seq<WapCfgV>, mac: Seq<char>)
    ensures
        first_mac_index(s, mac) == -1 ==> forall|i: int| 0 <= i < s.len() ==> s[i].mac != mac,
        first_mac_index(s, mac) != -1 ==> {
            let r = first_mac_index(s, mac);
            &&& 0 <= r < s.len()
            &&& s[r].mac == mac
            &&& forall|i: int| 0 <= i < r ==> s[i].mac != mac
        },
    decreases s.len(),
{
    if s.len() == 0 {
    } else if s[0].mac == mac {
    } else {
        let t = s.drop_first();
        lemma_first_mac_index(t, mac);
        assert(forall|i: int| 0 <= i < t.len() ==> t[i] == s[i + 1]);
        let rt = first_mac_index(t, mac);
        if rt == -1 {
            assert forall|i: int| 0 <= i < s.len() implies s[i].mac != mac by {
                if i > 0 {
                    assert(t[i - 1].mac != mac);
                }
            }
        } else {
            assert(s[rt + 1].mac == mac);
            assert forall|i: int| 0 <= i < rt + 1 implies s[i].mac != mac by {
                if i > 0 {
                    assert(t[i - 1].mac != mac);
                }
            }
        }
    }
}

/// The entry saved under `mac`, if any.
pub open spec fn spec_find(s: Seq<WapCfgV>, mac: Seq<char>) -> Option<WapCfgV> {
    let i = first_mac_index(s, mac);
    if i == -1 {
        None
    } else {
        Some(s[i])
    }
}

/// Insertion overwrites the entry under the same hardware address, or
/// appends a new one.
pub open spec fn spec_insert(s: Seq<WapCfgV>, w: WapCfgV) -> Seq<WapCfgV> {
    let i = first_mac_index(s, w.mac);
    if i == -1 {
        s.push(w)
    } else {
        s.update(i, w)
    }
}

/// Removal drops the entry under `mac`, if any.
pub open spec fn spec_remove(s: Seq<WapCfgV>, mac: Seq<char>) -> Seq<WapCfgV> {
    let i = first_mac_index(s, mac);
    if i == -1 {
        s
    } else {
        s.remove(i)
    }
}

/// What loading a library file yields: the parsed entries, provided no
/// hardware address occurs twice.
pub open spec fn spec_load(t: Seq<char>) -> Option<Seq<WapCfgV>> {
    match parse_library_text(t) {
        None => None,
        Some(es) => if wf_lib(es) {
            Some(es)
        } else {
            None
        },
    }
}

/// The persisted credential store: entries in insertion order, uniquely
/// keyed by hardware address.
pub struct Library {
    entries: Vec<WapCfg>,
}

impl View for Library {
    type V = Seq<WapCfgV>;

    closed spec fn view(&self) -> Seq<WapCfgV> {
        cfg_views(self.entries@)
    }
}

impl Library {
    /// The key uniqueness invariant.
    pub open spec fn wf(&self) -> bool {
        wf_lib(self@)
    }

    /// An empty library.
    pub fn new() -> (r: Library)
        ensures
            r@ == Seq::<WapCfgV>::empty(),
            r.wf(),
    {
        let r = Library { entries: Vec::new() };
        proof {
            assert(r@ =~= Seq::<WapCfgV>::empty());
        }
        r
    }

    /// How many networks are saved.
    pub fn len(&self) -> (r: usize)
        ensures
            r == self@.len(),
    {
        self.entries.len()
    }

    /// The saved entries, in insertion order.
    pub fn entries(&self) -> (r: &Vec<WapCfg>)
        ensures
            cfg_views(r@) == self@,
    {
        &self.entries
    }

    /// The entry saved under `mac`, if any.
    pub fn get(&self, mac: &str) -> (r: Option<&WapCfg>)
        ensures
            match r {
                Some(w) => spec_find(self@, mac@) == Some(w@),
                None => spec_find(self@, mac@) is None,
            },
    {
        let n = self.entries.len();
        let mut i: usize = 0;
        while i < n
            invariant
                i <= n,
                n == self.entries@.len(),
                forall|j: int| 0 <= j < i ==> cfg_views(self.entries@)[j].mac != mac@,
            decreases n - i,
        {
            let e = &self.entries[i];
            if str_eq(e.mac.as_str(), mac) {
                proof {
                    assert(cfg_views(self.entries@)[i as int] == e@);
                    lemma_first_mac_index(self@, mac@);
                    if first_mac_index(self@, mac@) == -1 {
                        assert(self@[i as int].mac != mac@);
                    }
                    let f = first_mac_index(self@, mac@);
                    if f < i {
                        assert(self@[f].mac != mac@);
                    }
                    if i < f {
                        assert(self@[i as int].mac != mac@);
                    }
                }
                return Some(e);
            }
            proof {
                assert(cfg_views(self.entries@)[i as int] == self.entries@[i as int]@);
            }
            i = i + 1;
        }
        proof {
            lemma_first_mac_index(self@, mac@);
            if first_mac_index(self@, mac@) != -1 {
                let f = first_mac_index(self@, mac@);
                assert(self@[f].mac != mac@);
            }
        }
        None
    }

    /// Saves `w`, overwriting any entry already under its hardware
    /// address.
    pub fn insert(&mut self, w: WapCfg)
        requires
            old(self).wf(),
        ensures
            final(self)@ == spec_insert(old(self)@, w@),
            final(self).wf(),
    {
        let ghost s0 = self@;
        let ghost wv = w@;
        let n = self.entries.len();
        let mut i: usize = 0;
        while i < n
            invariant
                i <= n,
                n == self.entries@.len(),
                s0 == cfg_views(self.entries@),
                s0 == old(self)@,
                wf_lib(s0),
                wv == w@,
                forall|j: int| 0 <= j < i ==> cfg_views(self.entries@)[j].mac != w@.mac,
            decreases n - i,
        {
            let same = {
                let e = &self.entries[i];
                str_eq(e.mac.as_str(), w.mac.as_str())
            };
            if same {
                proof {
                    assert(s0[i as int] == self.entries@[i as int]@);
                    lemma_first_mac_index(s0, wv.mac);
                    let f = first_mac_index(s0, wv.mac);
                    if f == -1 {
                        assert(s0[i as int].mac != wv.mac);
                    }
                    if f < i {
                        assert(s0[f].mac != wv.mac);
                    }
                    if i < f {
                        assert(s0[i as int].mac != wv.mac);
                    }
                }
                self.entries.set(i, w);
                proof {
                    assert(self@ =~= s0.update(i as int, wv));
                    assert(self@ == spec_insert(s0, wv));
                    assert forall|a: int, b: int|
                        0 <= a < b < self@.len() implies self@[a].mac != self@[b].mac by {
                        assert(s0[i as int].mac == wv.mac);
                        if a != i && b != i {
                            assert(self@[a] == s0[a]);
                            assert(self@[b] == s0[b]);
                        } else if a == i {
                            assert(self@[b] == s0[b]);
                            assert(s0[a].mac != s0[b].mac);
                        } else {
                            assert(self@[a] == s0[a]);
                            assert(s0[a].mac != s0[b].mac);
                        }
                    }
                }
                return ;
            }
            proof {
                assert(cfg_views(self.entries@)[i as int] == self.entries@[i as int]@);
            }
            i = i + 1;
        }
        proof {
            lemma_first_mac_index(s0, wv.mac);
            if first_mac_index(s0, wv.mac) != -1 {
                let f = first_mac_index(s0, wv.mac);
                assert(s0[f].mac != wv.mac);
            }
        }
        self.entries.push(w);
        proof {
            assert(self@ =~= s0.push(wv));
            assert(self@ == spec_insert(s0, wv));
            assert forall|a: int, b: int|
                0 <= a < b < self@.len() implies self@[a].mac != self@[b].mac by {
                if b == s0.len() {
                    assert(self@[a] == s0[a]);
                    assert(s0[a].mac != wv.mac);
                } else {
                    assert(self@[a] == s0[a]);
                    assert(self@[b] == s0[b]);
                }
            }
        }
    }

    /// Forgets the entry under `mac`, if any.
    pub fn remove(&mut self, mac: &str)
        requires
            old(self).wf(),
        ensures
            final(self)@ == spec_remove(old(self)@, mac@),
            final(self).wf(),
    {
        let ghost s0 = self@;
        let n = self.entries.len();
        let mut i: usize = 0;
        while i < n
            invariant
                i <= n,
                n == self.entries@.len(),
                s0 == cfg_views(self.entries@),
                s0 == old(self)@,
                wf_lib(s0),
                forall|j: int| 0 <= j < i ==> cfg_views(self.entries@)[j].mac != mac@,
            decreases n - i,
        {
            let same = {
                let e = &self.entries[i];
                str_eq(e.mac.as_str(), mac)
            };
            if same {
                proof {
                    assert(s0[i as int] == self.entries@[i as int]@);
                    lemma_first_mac_index(s0, mac@);
                    let f = first_mac_index(s0, mac@);
                    if f == -1 {
                        assert(s0[i as int].mac != mac@);
                    }
                    if f < i {
                        assert(s0[f].mac != mac@);
                    }
                    if i < f {
                        assert(s0[i as int].mac != mac@);
                    }
                }
                let _ = self.entries.remove(i);
                proof {
                    assert(self@ =~= s0.remove(i as int));
                    assert(self@ == spec_remove(s0, mac@));
                    assert forall|a: int, b: int|
                        0 <= a < b < self@.len() implies self@[a].mac != self@[b].mac by {
                        let a0 = if a < i { a } else { a + 1 };
                        let b0 = if b < i { b } else { b + 1 };
                        assert(self@[a] == s0[a0]);
                        assert(self@[b] == s0[b0]);
                    }
                }
                return ;
            }
            proof {
                assert(cfg_views(self.entries@)[i as int] == self.entries@[i as int]@);
            }
            i = i + 1;
        }
        proof {
            lemma_first_mac_index(s0, mac@);
            if first_mac_index(s0, mac@) != -1 {
                let f = first_mac_index(s0, mac@);
                assert(s0[f].mac != mac@);
            }
            assert(self@ == spec_remove(s0, mac@));
        }
    }

    /// The saved entries, copied and ordered by ESSID for presentation.
    pub fn entries_by_essid(&self) -> (r: Vec<WapCfg>)
        ensures
            sorted_by_essid(cfg_views(r@)),
            cfg_views(r@).to_multiset() == self@.to_multiset(),
    {
        let n = self.entries.len();
        let mut copy: Vec<WapCfg> = Vec::new();
        let mut i: usize = 0;
        while i < n
            invariant
                i <= n,
                n == self.entries@.len(),
                copy@.len() == i,
                forall|j: int| 0 <= j < i ==> copy@[j]@ == self.entries@[j]@,
            decreases n - i,
        {
            let d = self.entries[i].duplicate();
            copy.push(d);
            i = i + 1;
        }
        proof {
            assert(cfg_views(copy@) =~= cfg_views(self.entries@));
        }
        sort_by_essid(copy)
    }

    /// Renders the whole library into its file format.
    pub fn to_text(&self) -> (r: String)
        ensures
            r@ == library_text(self@),
    {
        render_library(&self.entries)
    }

    /// Loads a library from its file format; fails exactly when the text
    /// is not a well-formed library file with unique hardware addresses.
    pub fn from_text(text: &str) -> (r: Result<Library, WifiError>)
        ensures
            match r {
                Ok(lib) => spec_load(text@) == Some(lib@) && lib.wf(),
                Err(e) => e == WifiError::Persistence && spec_load(text@) is None,
            },
    {
        let entries = match parse_library(text) {
            Some(es) => es,
            None => {
                return Err(WifiError::Persistence);
            },
        };
        if !unique_macs(&entries) {
            return Err(WifiError::Persistence);
        }
        Ok(Library { entries })
    }
}

/// Whether no two entries share a hardware address.
fn unique_macs(entries: &Vec<WapCfg>) -> (r: bool)
    ensures
        r == wf_lib(cfg_views(entries@)),
{
    let ghost s = cfg_views(entries@);
    let n = entries.len();
    let mut i: usize = 0;
    while i < n
        invariant
            i <= n,
            n == entries@.len(),
            s == cfg_views(entries@),
            forall|a: int, b: int| 0 <= a < b < s.len() && a < i ==> s[a].mac != s[b].mac,
        decreases n - i,
    {
        let mut j: usize = i + 1;
        while j < n
            invariant
                i < j <= n || (i + 1 > n && j == i + 1),
                i < n,
                n == entries@.len(),
                s == cfg_views(entries@),
                forall|b: int| i < b < j ==> s[i as int].mac != s[b].mac,
            decreases n - j,
        {
            let same = {
                let a = &entries[i];
                let b = &entries[j];
                str_eq(a.mac.as_str(), b.mac.as_str())
            };
            if same {
                proof {
                    assert(s[i as int] == entries@[i as int]@);
                    assert(s[j as int] == entries@[j as int]@);
                    assert(s[i as int].mac == s[j as int].mac);
                }
                return false;
            }
            proof {
                assert(s[i as int] == entries@[i as int]@);
                assert(s[j as int] == entries@[j as int]@);
            }
            j = j + 1;
        }
        i = i + 1;
    }
    true
}

/// Persisting a well-formed library and loading it back reproduces the
/// same mapping: every key and every field survives the round trip.
pub proof fn lemma_load_after_save(lib: Seq<WapCfgV>)
    requires
        wf_lib(lib),
    ensures
        spec_load(library_text(lib)) == Some(lib),
{
    crate::libtext::lemma_library_round_trip(lib);
}

} // verus!
