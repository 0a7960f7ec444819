//! Orderings and the two sorts the engine needs: scan records by
//! descending signal level (strongest first, ties keeping their scan
//! order), and saved credentials by ESSID for display.

use vstd::prelude::*;
use vstd::seq_lib::{to_multiset_insert, to_multiset_remove};

use crate::record::{cfg_views, Wap, WapCfg, WapCfgV, WapV};
use crate::parse::wap_views;
use vstd::string::StrSliceExecFns;

verus! {

/// Lexicographic order on character sequences, by code point.
pub open spec fn lex_le(a: Seq<char>, b: Seq<char>) -> bool
    decreases a.len(),
{
    if a.len() == 0 {
        true
    } else if b.len() == 0 {
        false
    } else if a[0] != b[0] {
        (a[0] as u32) < (b[0] as u32)
    } else {
        lex_le(a.drop_first(), b.drop_first())
    }
}

pub proof fn lemma_lex_le_total(a: Seq<char>, b: Seq<char>)
    ensures
        lex_le(a, b) || lex_le(b, a),
    decreases a.len(),
{
    if a.len() == 0 {
    } else if b.len() == 0 {
    } else if a[0] != b[0] {
        assert((a[0] as u32) != (b[0] as u32)) by {
            if (a[0] as u32) == (b[0] as u32) {
                vstd::utf8::char_u32_cast(a[0], a[0] as u32);
                vstd::utf8::char_u32_cast(b[0], b[0] as u32);
            }
        }
    } else {
        lemma_lex_le_total(a.drop_first(), b.drop_first());
    }
}

pub proof fn lemma_lex_le_trans(a: Seq<char>, b: Seq<char>, c: Seq<char>)
    requires
        lex_le(a, b),
        lex_le(b, c),
    ensures
        lex_le(a, c),
    decreases a.len(),
{
    if a.len() == 0 {
    } else if b.len() == 0 {
    } else if c.len() == 0 {
    } else {
        if a[0] == b[0] && b[0] == c[0] {
            lemma_lex_le_trans(a.drop_first(), b.drop_first(), c.drop_first());
        }
    }
}

/// When two strings agree on a prefix, their order is the order of the
/// remainders.
proof fn lemma_lex_le_skip(a: Seq<char>, b: Seq<char>, i: int)
    requires
        0 <= i <= a.len(),
        i <= b.len(),
        forall|j: int| 0 <= j < i ==> a[j] == b[j],
    ensures
        lex_le(a, b) == lex_le(a.skip(i), b.skip(i)),
    decreases i,
{
    if i > 0 {
        assert(a.len() > 0);
        assert(b.len() > 0);
        assert(a[0] == b[0]);
        let a1 = a.drop_first();
        let b1 = b.drop_first();
        assert(forall|j: int| 0 <= j < i - 1 ==> a1[j] == b1[j] && a1[j] == a[j + 1]);
        lemma_lex_le_skip(a1, b1, i - 1);
        assert(a1.skip(i - 1) =~= a.skip(i));
        assert(b1.skip(i - 1) =~= b.skip(i));
    } else {
        assert(a.skip(0) =~= a);
        assert(b.skip(0) =~= b);
    }
}

/// Decides the lexicographic order of two strings.
pub fn str_lex_le(a: &str, b: &str) -> (r: bool)
    ensures
        r == lex_le(a@, b@),
{
    let na = a.unicode_len();
    let nb = b.unicode_len();
    let mut i: usize = 0;
    while i < na && i < nb
        invariant
            i <= na,
            i <= nb,
            na == a@.len(),
            nb == b@.len(),
            forall|j: int| 0 <= j < i ==> a@[j] == b@[j],
        decreases na - i,
    {
        let ca = a.get_char(i);
        let cb = b.get_char(i);
        if ca != cb {
            proof {
                lemma_lex_le_skip(a@, b@, i as int);
                assert(a@.skip(i as int)[0] == ca);
                assert(b@.skip(i as int)[0] == cb);
                assert(a@.skip(i as int).len() > 0);
                assert(b@.skip(i as int).len() > 0);
            }
            return (ca as u32) < (cb as u32);
        }
        i = i + 1;
    }
    proof {
        lemma_lex_le_skip(a@, b@, i as int);
    }
    if i == na {
        proof {
            assert(a@.skip(i as int).len() == 0);
        }
        true
    } else {
        proof {
            assert(b@.skip(i as int).len() == 0);
            assert(a@.skip(i as int).len() > 0);
        }
        false
    }
}

/// Scan records in non-increasing signal order.
pub open spec fn sorted_by_level_desc(s: Seq<WapV>) -> bool {
    forall|i: int, j: int| 0 <= i <= j < s.len() ==> s[i].level >= s[j].level
}

/// The subsequence of records at exactly one signal level.
pub open spec fn level_filter(s: Seq<WapV>, lv: int) -> Seq<WapV> {
    s.filter(|w: WapV| w.level == lv)
}

/// A filter keeps nothing when nothing qualifies.
proof fn lemma_filter_none<A>(s: Seq<A>, pred: spec_fn(A) -> bool)
    requires
        forall|i: int| 0 <= i < s.len() ==> !pred(#[trigger] s[i]),
    ensures
        s.filter(pred) == Seq::<A>::empty(),
    decreases s.len(),
{
    reveal(Seq::filter);
    if s.len() > 0 {
        lemma_filter_none(s.drop_last(), pred);
    }
}

/// A filter of one element keeps it exactly when it qualifies.
proof fn lemma_filter_singleton<A>(x: A, pred: spec_fn(A) -> bool)
    ensures
        pred(x) ==> seq![x].filter(pred) == seq![x],
        !pred(x) ==> seq![x].filter(pred) == Seq::<A>::empty(),
{
    reveal(Seq::filter);
    assert(seq![x].drop_last() =~= Seq::<A>::empty());
    assert(Seq::<A>::empty().filter(pred) == Seq::<A>::empty());
    if pred(x) {
        assert(seq![x].filter(pred) =~= Seq::<A>::empty().push(x));
        assert(Seq::<A>::empty().push(x) =~= seq![x]);
    }
}

/// Sorts scan records by descending signal level.  The result is a
/// permutation of the input, adjacent levels never increase, and records
/// of equal level keep their input order.
pub fn sort_by_level(waps: Vec<Wap>) -> (r: Vec<Wap>)
    ensures
        sorted_by_level_desc(wap_views(r@)),
        r@.to_multiset() == waps@.to_multiset(),
        forall|lv: int| #[trigger] level_filter(wap_views(r@), lv) == level_filter(
            wap_views(waps@),
            lv,
        ),
{
    broadcast use vstd::seq_lib::group_to_multiset_ensures;
    broadcast use Seq::filter_distributes_over_add;
    broadcast use vstd::multiset::group_multiset_axioms;

    let ghost orig = waps@;
    let mut src = waps;
    let mut out: Vec<Wap> = Vec::new();
    let ghost k: int = 0;
    proof {
        assert(out@.to_multiset().add(src@.to_multiset()) =~= orig.to_multiset());
        assert(orig.take(0) =~= Seq::<Wap>::empty());
        assert(wap_views(Seq::<Wap>::empty()) =~= Seq::<WapV>::empty());
        lemma_filter_none(Seq::<WapV>::empty(), |w: WapV| true);
        assert forall|lv: int| #[trigger] level_filter(wap_views(out@), lv) == level_filter(
            wap_views(orig.take(k)),
            lv,
        ) by {
            reveal(Seq::filter);
            assert(wap_views(out@) =~= Seq::<WapV>::empty());
            assert(wap_views(orig.take(k)) =~= Seq::<WapV>::empty());
        }
    }
    while src.len() > 0
        invariant
            0 <= k <= orig.len(),
            src@ =~= orig.skip(k),
            sorted_by_level_desc(wap_views(out@)),
            out@.to_multiset().add(src@.to_multiset()) == orig.to_multiset(),
            forall|lv: int| #[trigger] level_filter(wap_views(out@), lv) == level_filter(
                wap_views(orig.take(k)),
                lv,
            ),
        decreases src@.len(),
    {
        let ghost src0 = src@;
        let ghost out0 = out@;
        let w = src.remove(0);
        let ghost wv = w@;
        proof {
            assert(src0[0] == w);
            assert(src@ =~= orig.skip(k + 1));
            to_multiset_remove(src0, 0);
            assert(src0.contains(w)) by {
                assert(src0[0] == w);
            }
            vstd::seq_lib::to_multiset_contains(src0, w);
            assert(src0.to_multiset().count(w) > 0);
        }
        // find the first position with a strictly weaker signal
        let n_out = out.len();
        let mut p: usize = 0;
        while p < n_out && out[p].level >= w.level
            invariant
                0 <= p <= n_out,
                n_out == out@.len(),
                out@ == out0,
                w@ == wv,
                forall|q: int| 0 <= q < p ==> wap_views(out@)[q].level >= wv.level,
            decreases n_out - p,
        {
            proof {
                assert(wap_views(out@)[p as int] == out@[p as int]@);
            }
            p = p + 1;
        }
        proof {
            assert(p < n_out ==> wap_views(out@)[p as int].level < wv.level) by {
                if p < n_out {
                    assert(wap_views(out@)[p as int] == out@[p as int]@);
                }
            }
        }
        let ghost ins_at: int = p as int;
        out.insert(p, w);
        proof {
            let ov0 = wap_views(out0);
            let ov1 = wap_views(out@);
            assert(out@ == out0.insert(ins_at, w));
            to_multiset_insert(out0, ins_at, w);
            assert(out@.to_multiset().add(src@.to_multiset()) =~= orig.to_multiset());

            // views commute with the insertion
            out0.insert_ensures(ins_at, w);
            assert(ov1 =~= ov0.insert(ins_at, wv)) by {
                assert(ov1.len() == out@.len());
                assert forall|q: int| 0 <= q < ov1.len() implies ov1[q] == ov0.insert(
                    ins_at,
                    wv,
                )[q] by {
                    assert(ov1[q] == out@[q]@);
                    if q < ins_at {
                        assert(out@[q] == out0[q]);
                        assert(ov0[q] == out0[q]@);
                    } else if q == ins_at {
                    } else {
                        assert(out@[q] == out0[q - 1]);
                        assert(ov0[q - 1] == out0[q - 1]@);
                    }
                }
            }

            // sortedness
            ov0.insert_ensures(ins_at, wv);
            assert(sorted_by_level_desc(ov1)) by {
                assert forall|i: int, j: int|
                    0 <= i <= j < ov1.len() implies ov1[i].level >= ov1[j].level by {
                    let a = ov0.insert(ins_at, wv);
                    assert(ov1 == a);
                    if i < ins_at && j < ins_at {
                    } else if i == ins_at || j == ins_at {
                        if i == ins_at && j > ins_at {
                            assert(a[j] == ov0[j - 1]);
                            assert(ov0[ins_at].level < wv.level);
                            assert(ov0[ins_at].level >= ov0[j - 1].level);
                        } else if j == ins_at && i < ins_at {
                            assert(a[i] == ov0[i]);
                        }
                    } else if i > ins_at && j > ins_at {
                        assert(a[i] == ov0[i - 1]);
                        assert(a[j] == ov0[j - 1]);
                    }
                }
            }

            // stability
            let pre = ov0.take(ins_at);
            let post = ov0.skip(ins_at);
            assert(ov0 =~= pre + post);
            assert(ov1 =~= (pre + seq![wv]) + post);
            assert forall|lv: int| #[trigger] level_filter(ov1, lv) == level_filter(
                wap_views(orig.take(k + 1)),
                lv,
            ) by {
                let pred = |x: WapV| x.level == lv;
                assert(ov1.filter(pred) == pre.filter(pred) + seq![wv].filter(pred)
                    + post.filter(pred));
                assert(ov0.filter(pred) == pre.filter(pred) + post.filter(pred));
                assert(wap_views(orig.take(k + 1)) =~= wap_views(orig.take(k)) + seq![wv]) by {
                    assert(orig.take(k + 1) =~= orig.take(k).push(orig[k]));
                    assert(orig[k] == src0[0]);
                }
                assert(wap_views(orig.take(k)) + seq![wv] == wap_views(orig.take(k + 1)));
                assert((wap_views(orig.take(k)) + seq![wv]).filter(pred) == wap_views(
                    orig.take(k),
                ).filter(pred) + seq![wv].filter(pred));
                lemma_filter_singleton(wv, pred);
                if lv == wv.level {
                    assert(post.filter(pred) =~= Seq::<WapV>::empty()) by {
                        assert forall|q: int| 0 <= q < post.len() implies !pred(
                            #[trigger] post[q],
                        ) by {
                            assert(post[q] == ov0[ins_at + q]);
                            if ins_at < ov0.len() {
                                assert(ov0[ins_at].level >= ov0[ins_at + q].level);
                                assert(ov0[ins_at].level < wv.level);
                            }
                        }
                        lemma_filter_none(post, pred);
                    }
                    assert(level_filter(ov0, lv) == ov0.filter(pred));
                    assert(ov1.filter(pred) =~= ov0.filter(pred) + seq![wv]);
                } else {
                    assert(ov1.filter(pred) =~= ov0.filter(pred));
                }
                assert(level_filter(ov0, lv) == level_filter(wap_views(orig.take(k)), lv));
            }
        }
        proof {
            k = k + 1;
        }
    }
    proof {
        assert(src@.to_multiset().len() == 0);
        assert(out@.to_multiset() =~= orig.to_multiset());
        assert(orig.take(k) =~= orig);
    }
    out
}

/// Saved credentials in non-decreasing ESSID order.
pub open spec fn sorted_by_essid(s: Seq<WapCfgV>) -> bool {
    forall|i: int, j: int| 0 <= i <= j < s.len() ==> lex_le(s[i].essid, s[j].essid)
}

/// Sorts saved credentials by ESSID.  The result is a permutation of the
/// input in non-decreasing ESSID order.
pub fn sort_by_essid(cfgs: Vec<WapCfg>) -> (r: Vec<WapCfg>)
    ensures
        sorted_by_essid(cfg_views(r@)),
        r@.to_multiset() == cfgs@.to_multiset(),
        cfg_views(r@).to_multiset() == cfg_views(cfgs@).to_multiset(),
{
    broadcast use vstd::seq_lib::group_to_multiset_ensures;
    broadcast use vstd::multiset::group_multiset_axioms;

    let ghost orig = cfgs@;
    let mut src = cfgs;
    let mut out: Vec<WapCfg> = Vec::new();
    proof {
        assert(out@.to_multiset().add(src@.to_multiset()) =~= orig.to_multiset());
        assert(cfg_views(out@).to_multiset().add(cfg_views(src@).to_multiset()) =~= cfg_views(
            orig,
        ).to_multiset());
    }
    while src.len() > 0
        invariant
            sorted_by_essid(cfg_views(out@)),
            out@.to_multiset().add(src@.to_multiset()) == orig.to_multiset(),
            cfg_views(out@).to_multiset().add(cfg_views(src@).to_multiset()) == cfg_views(
                orig,
            ).to_multiset(),
        decreases src@.len(),
    {
        let ghost src0 = src@;
        let ghost out0 = out@;
        let w = src.remove(0);
        let ghost wv = w@;
        proof {
            assert(src0[0] == w);
            to_multiset_remove(src0, 0);
            assert(src0.contains(w)) by {
                assert(src0[0] == w);
            }
            vstd::seq_lib::to_multiset_contains(src0, w);
            assert(src0.to_multiset().count(w) > 0);
            assert(cfg_views(src@) =~= cfg_views(src0).remove(0));
            to_multiset_remove(cfg_views(src0), 0);
            assert(cfg_views(src0)[0] == wv);
            assert(cfg_views(src0).contains(wv)) by {
                assert(cfg_views(src0)[0] == wv);
            }
            vstd::seq_lib::to_multiset_contains(cfg_views(src0), wv);
            assert(cfg_views(src0).to_multiset().count(wv) > 0);
        }
        let n_out = out.len();
        let mut p: usize = 0;
        while p < n_out && str_lex_le(out[p].essid.as_str(), w.essid.as_str())
            invariant
                0 <= p <= n_out,
                n_out == out@.len(),
                out@ == out0,
                w@ == wv,
                forall|q: int| 0 <= q < p ==> lex_le(cfg_views(out@)[q].essid, wv.essid),
            decreases n_out - p,
        {
            proof {
                assert(cfg_views(out@)[p as int] == out@[p as int]@);
            }
            p = p + 1;
        }
        proof {
            if p < n_out {
                assert(cfg_views(out@)[p as int] == out@[p as int]@);
                assert(!lex_le(cfg_views(out@)[p as int].essid, wv.essid));
                lemma_lex_le_total(cfg_views(out@)[p as int].essid, wv.essid);
            }
        }
        let ghost ins_at: int = p as int;
        out.insert(p, w);
        proof {
            let ov0 = cfg_views(out0);
            let ov1 = cfg_views(out@);
            assert(out@ == out0.insert(ins_at, w));
            to_multiset_insert(out0, ins_at, w);
            assert(out@.to_multiset().add(src@.to_multiset()) =~= orig.to_multiset());

            to_multiset_insert(ov0, ins_at, wv);
            out0.insert_ensures(ins_at, w);
            ov0.insert_ensures(ins_at, wv);
            assert(ov1 =~= ov0.insert(ins_at, wv)) by {
                assert forall|q: int| 0 <= q < ov1.len() implies ov1[q] == ov0.insert(
                    ins_at,
                    wv,
                )[q] by {
                    assert(ov1[q] == out@[q]@);
                    if q < ins_at {
                        assert(out@[q] == out0[q]);
                        assert(ov0[q] == out0[q]@);
                    } else if q > ins_at {
                        assert(out@[q] == out0[q - 1]);
                        assert(ov0[q - 1] == out0[q - 1]@);
                    }
                }
            }
            assert(sorted_by_essid(ov1)) by {
                assert forall|i: int, j: int| 0 <= i <= j < ov1.len() implies lex_le(
                    ov1[i].essid,
                    ov1[j].essid,
                ) by {
                    let a = ov0.insert(ins_at, wv);
                    assert(ov1 == a);
                    if i == j {
                        lemma_lex_le_total(a[i].essid, a[i].essid);
                    } else if i < ins_at && j < ins_at {
                    } else if i == ins_at && j > ins_at {
                        assert(a[j] == ov0[j - 1]);
                        assert(lex_le(wv.essid, ov0[ins_at].essid));
                        assert(lex_le(ov0[ins_at].essid, ov0[j - 1].essid));
                        lemma_lex_le_trans(wv.essid, ov0[ins_at].essid, ov0[j - 1].essid);
                    } else if j == ins_at && i < ins_at {
                        assert(a[i] == ov0[i]);
                    } else if i > ins_at && j > ins_at {
                        assert(a[i] == ov0[i - 1]);
                        assert(a[j] == ov0[j - 1]);
                    }
                }
            }
        }
    }
    proof {
        assert(src@.to_multiset().len() == 0);
        assert(out@.to_multiset() =~= orig.to_multiset());
        assert(cfg_views(src@).to_multiset().len() == 0);
        assert(cfg_views(out@).to_multiset() =~= cfg_views(orig).to_multiset());
    }
    out
}

} // verus!
