//! Laws relating the operations: what an edit does to the entry sequence a
//! later read reports. Each is stated over the spec functions the
//! operations' own contracts use, so it composes with them directly.
use vstd::prelude::*;
use crate::edit::{
    entry_key, entry_val, find_ord, remove_segs, seg_entries, seg_matches, upd_seg, update_segs,
};
use crate::escape::{lemma_unescape_attr_escape, lemma_unescape_escape};
use crate::insert::{
    batch_fold, batch_target, ins_sorted, insert_point_ok, insert_point_segs, item_pos,
    root_close_lit, root_close_pos, stable_sorted, synth_entry,
};
use crate::model::{is_item, item_count, SegModel};

verus! {

/// The pair sequence with every pair keyed `k` rebound to `v`.
pub open spec fn upd_pairs(ps: Seq<(Seq<u8>, Seq<u8>)>, k: Seq<u8>, v: Seq<u8>) -> Seq<
    (Seq<u8>, Seq<u8>),
>
    decreases ps.len(),
{
    if ps.len() == 0 {
        Seq::empty()
    } else {
        seq![
            if ps[0].0 == k {
                (k, v)
            } else {
                ps[0]
            },
        ] + upd_pairs(ps.skip(1), k, v)
    }
}

/// Rebinding is pointwise: same length, and each pair either kept or, when
/// its key is `k`, mapped to `(k, v)`.
pub proof fn lemma_upd_pairs_pointwise(ps: Seq<(Seq<u8>, Seq<u8>)>, k: Seq<u8>, v: Seq<u8>)
    ensures
        upd_pairs(ps, k, v).len() == ps.len(),
        forall|i: int|
            0 <= i < ps.len() ==> upd_pairs(ps, k, v)[i] == (if ps[i].0 == k {
                (k, v)
            } else {
                ps[i]
            }),
    decreases ps.len(),
{
    if ps.len() > 0 {
        lemma_upd_pairs_pointwise(ps.skip(1), k, v);
    }
}

/// Law: the round trip through a value update. Reading the entries of an
/// updated document yields the entries of the original with exactly the
/// pairs keyed `k` rebound to the new value — whatever bytes the value
/// holds, since unescaping undoes the minimal escaping the update wrote.
pub proof fn lemma_update_round_trip(ss: Seq<SegModel>, k: Seq<u8>, v: Seq<u8>)
    ensures
        seg_entries(update_segs(ss, k, v)) == upd_pairs(seg_entries(ss), k, v),
    decreases ss.len(),
{
    if ss.len() == 0 {
        assert(update_segs(ss, k, v) =~= Seq::<SegModel>::empty());
        assert(seg_entries(update_segs(ss, k, v)) =~= upd_pairs(seg_entries(ss), k, v));
    } else {
        let us = update_segs(ss, k, v);
        assert(us.skip(1) =~= update_segs(ss.skip(1), k, v));
        lemma_update_round_trip(ss.skip(1), k, v);
        assert(us[0] == upd_seg(ss[0], k, v));
        match ss[0] {
            SegModel::Item(e) => {
                if entry_key(e) == k {
                    lemma_unescape_escape(v);
                    if k.len() > 0 {
                        let hd = seq![(k, entry_val(e))];
                        assert(seg_entries(ss) == hd + seg_entries(ss.skip(1)));
                        assert((hd + seg_entries(ss.skip(1)))[0] == (k, entry_val(e)));
                        assert((hd + seg_entries(ss.skip(1))).skip(1) =~= seg_entries(ss.skip(1)));
                        assert(seg_entries(us) =~= upd_pairs(seg_entries(ss), k, v));
                    } else {
                        assert(seg_entries(us) == seg_entries(us.skip(1)));
                        assert(seg_entries(ss) == seg_entries(ss.skip(1)));
                    }
                } else {
                    if entry_key(e).len() > 0 {
                        let hd = seq![(entry_key(e), entry_val(e))];
                        assert(seg_entries(ss) == hd + seg_entries(ss.skip(1)));
                        assert((hd + seg_entries(ss.skip(1)))[0] == (entry_key(e), entry_val(e)));
                        assert((hd + seg_entries(ss.skip(1))).skip(1) =~= seg_entries(ss.skip(1)));
                        assert(seg_entries(us) =~= upd_pairs(seg_entries(ss), k, v));
                    } else {
                        assert(seg_entries(us) == seg_entries(us.skip(1)));
                        assert(seg_entries(ss) == seg_entries(ss.skip(1)));
                    }
                }
            },
            _ => {
                assert(seg_entries(us) == seg_entries(us.skip(1)));
                assert(seg_entries(ss) == seg_entries(ss.skip(1)));
            },
        }
    }
}

/// Entry extraction distributes over concatenation.
pub proof fn lemma_seg_entries_concat(a: Seq<SegModel>, b: Seq<SegModel>)
    ensures
        seg_entries(a + b) == seg_entries(a) + seg_entries(b),
    decreases a.len(),
{
    if a.len() == 0 {
        assert(a + b =~= b);
        assert(seg_entries(a) + seg_entries(b) =~= seg_entries(b));
    } else {
        assert((a + b).skip(1) =~= a.skip(1) + b);
        lemma_seg_entries_concat(a.skip(1), b);
        assert((a + b)[0] == a[0]);
        assert(seg_entries(a + b) =~= seg_entries(a) + seg_entries(b));
    }
}

/// The pair sequence with every pair keyed `k` removed.
pub open spec fn rm_pairs(ps: Seq<(Seq<u8>, Seq<u8>)>, k: Seq<u8>) -> Seq<(Seq<u8>, Seq<u8>)>
    decreases ps.len(),
{
    if ps.len() == 0 {
        Seq::empty()
    } else if ps[0].0 == k {
        rm_pairs(ps.skip(1), k)
    } else {
        seq![ps[0]] + rm_pairs(ps.skip(1), k)
    }
}

/// Entry extraction on a single segment.
pub proof fn lemma_seg_entries_single(s: SegModel)
    ensures
        seg_entries(seq![s]) == (match s {
            SegModel::Item(e) => if entry_key(e).len() > 0 {
                seq![(entry_key(e), entry_val(e))]
            } else {
                Seq::<(Seq<u8>, Seq<u8>)>::empty()
            },
            _ => Seq::<(Seq<u8>, Seq<u8>)>::empty(),
        }),
{
    let one = seq![s];
    assert(one.len() == 1);
    assert(one[0] == s);
    assert(one.skip(1) =~= Seq::<SegModel>::empty());
    assert(seg_entries(Seq::<SegModel>::empty()) == Seq::<(Seq<u8>, Seq<u8>)>::empty());
    match s {
        SegModel::Item(e) => {
            if entry_key(e).len() > 0 {
                assert(seg_entries(one) == seq![(entry_key(e), entry_val(e))] + seg_entries(
                    one.skip(1),
                ));
                assert(seq![(entry_key(e), entry_val(e))] + Seq::<(Seq<u8>, Seq<u8>)>::empty()
                    =~= seq![(entry_key(e), entry_val(e))]);
            } else {
                assert(seg_entries(one) == seg_entries(one.skip(1)));
            }
        },
        _ => {
            assert(seg_entries(one) == seg_entries(one.skip(1)));
        },
    }
}

/// Law: what a removal leaves behind. Reading the entries of a document
/// after removing key `k` yields the original entries with exactly the
/// pairs keyed `k` taken out; the collapsed whitespace changes nothing a
/// read reports.
pub proof fn lemma_remove_entries_effect(ss: Seq<SegModel>, k: Seq<u8>)
    requires
        k.len() > 0,
    ensures
        seg_entries(remove_segs(ss, k)) == rm_pairs(seg_entries(ss), k),
    decreases ss.len(),
{
    if ss.len() == 0 {
        assert(seg_entries(remove_segs(ss, k)) =~= rm_pairs(seg_entries(ss), k));
    } else {
        lemma_remove_entries_effect(ss.skip(1), k);
        if seg_matches(ss[0], k) {
            match ss[0] {
                SegModel::Item(e) => {
                    let hd = seq![(k, entry_val(e))];
                    assert(seg_entries(ss) == hd + seg_entries(ss.skip(1)));
                    assert((hd + seg_entries(ss.skip(1)))[0] == (k, entry_val(e)));
                    assert((hd + seg_entries(ss.skip(1))).skip(1) =~= seg_entries(ss.skip(1)));
                },
                _ => {},
            }
        } else if ss.len() >= 2 && crate::edit::is_ws_chars(ss[0]) && seg_matches(ss[1], k) {
            assert(seg_entries(ss) == seg_entries(ss.skip(1)));
        } else {
            assert(remove_segs(ss, k) == seq![ss[0]] + remove_segs(ss.skip(1), k));
            lemma_seg_entries_concat(seq![ss[0]], remove_segs(ss.skip(1), k));
            lemma_seg_entries_single(ss[0]);
            match ss[0] {
                SegModel::Item(e) => {
                    if entry_key(e).len() > 0 {
                        let hd = seq![(entry_key(e), entry_val(e))];
                        assert(seg_entries(seq![ss[0]]) =~= hd);
                        assert(seg_entries(ss) == hd + seg_entries(ss.skip(1)));
                        assert((hd + seg_entries(ss.skip(1)))[0] == (entry_key(e), entry_val(e)));
                        assert((hd + seg_entries(ss.skip(1))).skip(1) =~= seg_entries(ss.skip(1)));
                        assert(seg_entries(remove_segs(ss, k)) =~= rm_pairs(seg_entries(ss), k));
                    } else {
                        assert(seg_entries(seq![ss[0]]) =~= Seq::<(Seq<u8>, Seq<u8>)>::empty());
                        assert(seg_entries(remove_segs(ss, k)) =~= rm_pairs(seg_entries(ss), k));
                    }
                },
                _ => {
                    assert(seg_entries(seq![ss[0]]) =~= Seq::<(Seq<u8>, Seq<u8>)>::empty());
                    assert(seg_entries(remove_segs(ss, k)) =~= rm_pairs(seg_entries(ss), k));
                },
            }
        }
    }
}

/// Law: what a point insert adds. Inserting `(k, v)` in front of the entry
/// with rank `idx` splices exactly the pair `(k, v)` into the entry
/// sequence at that entry's segment position, leaving every other pair in
/// place — unescaping undoes both escapings the splice wrote.
pub proof fn lemma_insert_entries_effect(
    ss: Seq<SegModel>,
    k: Seq<u8>,
    v: Seq<u8>,
    idx: int,
    eol: Seq<u8>,
    unit: Seq<u8>,
)
    requires
        k.len() > 0,
        0 <= idx < item_count(ss),
    ensures
        seg_entries(insert_point_segs(ss, k, v, idx, eol, unit)) == seg_entries(
            ss.take(item_pos(ss, idx)),
        ) + seq![(k, v)] + seg_entries(ss.skip(item_pos(ss, idx))),
        seg_entries(ss.take(item_pos(ss, idx))) + seg_entries(ss.skip(item_pos(ss, idx)))
            == seg_entries(ss),
{
    let p = item_pos(ss, idx);
    lemma_item_pos_bounds(ss, idx);
    let ind = crate::insert::local_indent(ss, p, unit);
    let ne = synth_entry(k, v, eol + ind + unit, eol + ind);
    let mid = seq![SegModel::Item(ne), SegModel::Chars(eol + ind)];
    let out = insert_point_segs(ss, k, v, idx, eol, unit);
    assert(out == ss.take(p) + mid + ss.skip(p));
    lemma_seg_entries_concat(ss.take(p) + mid, ss.skip(p));
    lemma_seg_entries_concat(ss.take(p), mid);
    lemma_unescape_attr_escape(k);
    lemma_unescape_escape(v);
    assert(entry_key(ne) == k);
    assert(entry_val(ne) == v);
    assert(mid =~= seq![SegModel::Item(ne)] + seq![SegModel::Chars(eol + ind)]);
    lemma_seg_entries_concat(seq![SegModel::Item(ne)], seq![SegModel::Chars(eol + ind)]);
    lemma_seg_entries_single(SegModel::Item(ne));
    lemma_seg_entries_single(SegModel::Chars(eol + ind));
    assert(seg_entries(mid) =~= seq![(k, v)]);
    lemma_seg_entries_concat(ss.take(p), ss.skip(p));
    assert(ss.take(p) + ss.skip(p) =~= ss);
}

/// The target of a rank below the entry count is a real entry position.
pub proof fn lemma_item_pos_bounds(ss: Seq<SegModel>, n: int)
    requires
        0 <= n < item_count(ss),
    ensures
        0 <= item_pos(ss, n) < ss.len(),
        is_item(ss[item_pos(ss, n)]),
    decreases ss.len(),
{
    if ss.len() > 0 {
        if is_item(ss[0]) {
            if n > 0 {
                lemma_item_pos_bounds(ss.skip(1), n - 1);
            }
        } else {
            lemma_item_pos_bounds(ss.skip(1), n);
        }
    }
}

/// Law: the stable sort behind batch insertion keeps caller order for two
/// items whose target ranks tie (or already stand in order).
pub proof fn lemma_sort_keeps_tie_order(a: (Seq<u8>, Seq<u8>, int), b: (Seq<u8>, Seq<u8>, int))
    requires
        a.2 <= b.2,
    ensures
        stable_sorted(seq![a, b]) == seq![a, b],
{
    let two = seq![a, b];
    assert(two.drop_last() =~= seq![a]);
    assert(two.last() == b);
    assert(seq![a].drop_last() =~= Seq::<(Seq<u8>, Seq<u8>, int)>::empty());
    assert(seq![a].last() == a);
    assert(seq![a].len() == 1);
    assert(stable_sorted(Seq::<(Seq<u8>, Seq<u8>, int)>::empty())
        == Seq::<(Seq<u8>, Seq<u8>, int)>::empty());
    assert(stable_sorted(seq![a]) == ins_sorted(
        stable_sorted(seq![a].drop_last()),
        seq![a].last(),
    ));
    assert(ins_sorted(Seq::<(Seq<u8>, Seq<u8>, int)>::empty(), a) == seq![a]);
    assert(seq![a].push(b) =~= seq![a, b]);
    assert(stable_sorted(two) == seq![a, b]);
}

/// Removal with a key no pair carries changes nothing.
pub proof fn lemma_rm_pairs_absent(ps: Seq<(Seq<u8>, Seq<u8>)>, k: Seq<u8>)
    requires
        forall|j: int| 0 <= j < ps.len() ==> (#[trigger] ps[j]).0 != k,
    ensures
        rm_pairs(ps, k) == ps,
    decreases ps.len(),
{
    if ps.len() > 0 {
        lemma_rm_pairs_absent(ps.skip(1), k);
        assert(seq![ps[0]] + ps.skip(1) =~= ps);
    }
}

/// With `k` bound exactly once, at position `i`, removal deletes exactly
/// that pair and leaves every other pair in place.
pub proof fn lemma_rm_pairs_unique(ps: Seq<(Seq<u8>, Seq<u8>)>, k: Seq<u8>, i: int)
    requires
        0 <= i < ps.len(),
        ps[i].0 == k,
        forall|j: int| 0 <= j < ps.len() && j != i ==> (#[trigger] ps[j]).0 != k,
    ensures
        rm_pairs(ps, k) == ps.take(i) + ps.skip(i + 1),
    decreases ps.len(),
{
    if i == 0 {
        assert(forall|j: int|
            0 <= j < ps.skip(1).len() ==> (#[trigger] ps.skip(1)[j]).0 != k);
        lemma_rm_pairs_absent(ps.skip(1), k);
        assert(ps.take(0) + ps.skip(1) =~= ps.skip(1));
    } else {
        assert(ps.skip(1)[i - 1].0 == k);
        assert(forall|j: int|
            0 <= j < ps.skip(1).len() && j != i - 1 ==> (#[trigger] ps.skip(1)[j]).0 != k);
        lemma_rm_pairs_unique(ps.skip(1), k, i - 1);
        assert(rm_pairs(ps, k) == seq![ps[0]] + rm_pairs(ps.skip(1), k));
        assert(ps.skip(1).skip(i) =~= ps.skip(i + 1));
        assert(seq![ps[0]] + (ps.skip(1).take(i - 1) + ps.skip(1).skip(i)) =~= ps.take(i)
            + ps.skip(i + 1));
    }
}

/// The reported position of the closing root tag is a real closing root
/// tag.
pub proof fn lemma_root_close_at(ss: Seq<SegModel>, m: int)
    requires
        root_close_pos(ss) == Some(m),
    ensures
        0 <= m < ss.len(),
        ss[m] == SegModel::Markup(root_close_lit()),
    decreases ss.len(),
{
    if ss.len() > 0 {
        if ss.last() == SegModel::Markup(root_close_lit()) {
        } else {
            lemma_root_close_at(ss.drop_last(), m);
            assert(ss.drop_last()[m] == ss[m]);
        }
    }
}

/// Law: what an append adds. Inserting past the last entry splices exactly
/// the pair `(k, v)` in front of the closing root tag, leaving every other
/// pair in place; the reshaped surrounding whitespace changes nothing a
/// read reports.
pub proof fn lemma_insert_append_effect(
    ss: Seq<SegModel>,
    k: Seq<u8>,
    v: Seq<u8>,
    idx: int,
    eol: Seq<u8>,
    unit: Seq<u8>,
    m: int,
)
    requires
        k.len() > 0,
        idx >= item_count(ss),
        root_close_pos(ss) == Some(m),
    ensures
        seg_entries(insert_point_segs(ss, k, v, idx, eol, unit)) == seg_entries(ss.take(m))
            + seq![(k, v)] + seg_entries(ss.skip(m)),
        seg_entries(ss.take(m)) + seg_entries(ss.skip(m)) == seg_entries(ss),
{
    lemma_root_close_at(ss, m);
    let ne = synth_entry(k, v, eol + unit + unit, eol + unit);
    lemma_unescape_attr_escape(k);
    lemma_unescape_escape(v);
    assert(entry_key(ne) == k);
    assert(entry_val(ne) == v);
    let out = insert_point_segs(ss, k, v, idx, eol, unit);
    if m > 0 && (ss[m - 1] is Chars) {
        let tb = crate::util::trim_end_ws(ss[m - 1]->Chars_0);
        let mid = seq![
            SegModel::Chars(tb + eol + unit),
            SegModel::Item(ne),
            SegModel::Chars(eol),
        ];
        assert(out == ss.take(m - 1) + mid + ss.skip(m));
        lemma_seg_entries_concat(ss.take(m - 1) + mid, ss.skip(m));
        lemma_seg_entries_concat(ss.take(m - 1), mid);
        assert(mid =~= seq![SegModel::Chars(tb + eol + unit)] + (seq![SegModel::Item(ne)] + seq![
            SegModel::Chars(eol),
        ]));
        lemma_seg_entries_concat(
            seq![SegModel::Chars(tb + eol + unit)],
            seq![SegModel::Item(ne)] + seq![SegModel::Chars(eol)],
        );
        lemma_seg_entries_concat(seq![SegModel::Item(ne)], seq![SegModel::Chars(eol)]);
        lemma_seg_entries_single(SegModel::Chars(tb + eol + unit));
        lemma_seg_entries_single(SegModel::Item(ne));
        lemma_seg_entries_single(SegModel::Chars(eol));
        assert(seg_entries(mid) =~= seq![(k, v)]);
        assert(ss.take(m) =~= ss.take(m - 1) + seq![ss[m - 1]]);
        lemma_seg_entries_concat(ss.take(m - 1), seq![ss[m - 1]]);
        lemma_seg_entries_single(ss[m - 1]);
        assert(seg_entries(ss.take(m)) =~= seg_entries(ss.take(m - 1)));
        assert(seg_entries(out) =~= seg_entries(ss.take(m)) + seq![(k, v)] + seg_entries(
            ss.skip(m),
        ));
    } else {
        let mid = seq![SegModel::Chars(eol + unit), SegModel::Item(ne), SegModel::Chars(eol)];
        assert(out == ss.take(m) + mid + ss.skip(m));
        lemma_seg_entries_concat(ss.take(m) + mid, ss.skip(m));
        lemma_seg_entries_concat(ss.take(m), mid);
        assert(mid =~= seq![SegModel::Chars(eol + unit)] + (seq![SegModel::Item(ne)] + seq![
            SegModel::Chars(eol),
        ]));
        lemma_seg_entries_concat(
            seq![SegModel::Chars(eol + unit)],
            seq![SegModel::Item(ne)] + seq![SegModel::Chars(eol)],
        );
        lemma_seg_entries_concat(seq![SegModel::Item(ne)], seq![SegModel::Chars(eol)]);
        lemma_seg_entries_single(SegModel::Chars(eol + unit));
        lemma_seg_entries_single(SegModel::Item(ne));
        lemma_seg_entries_single(SegModel::Chars(eol));
        assert(seg_entries(mid) =~= seq![(k, v)]);
        assert(seg_entries(out) =~= seg_entries(ss.take(m)) + seq![(k, v)] + seg_entries(
            ss.skip(m),
        ));
    }
    lemma_seg_entries_concat(ss.take(m), ss.skip(m));
    assert(ss.take(m) + ss.skip(m) =~= ss);
}

/// Every entry of the document carries a nonempty name.
pub open spec fn all_keyed(ss: Seq<SegModel>) -> bool {
    forall|j: int|
        0 <= j < ss.len() ==> (match #[trigger] ss[j] {
            SegModel::Item(e) => entry_key(e).len() > 0,
            _ => true,
        })
}

/// How many entries carry the key `k`.
pub open spec fn match_count(ss: Seq<SegModel>, k: Seq<u8>) -> int
    decreases ss.len(),
{
    if ss.len() == 0 {
        0
    } else {
        (if seg_matches(ss[0], k) {
            1int
        } else {
            0int
        }) + match_count(ss.skip(1), k)
    }
}

/// When every entry is named, the entry count and the pair count agree.
pub proof fn lemma_item_count_is_pair_count(ss: Seq<SegModel>)
    requires
        all_keyed(ss),
    ensures
        item_count(ss) == seg_entries(ss).len(),
    decreases ss.len(),
{
    if ss.len() > 0 {
        assert(all_keyed(ss.skip(1))) by {
            assert(forall|j: int| 0 <= j < ss.skip(1).len() ==> ss.skip(1)[j] == ss[j + 1]);
        }
        lemma_item_count_is_pair_count(ss.skip(1));
    }
}

/// The reported ordinal names the pair the key occupies: the pair at that
/// position carries the key and, when the key is bound exactly once, no
/// other pair does.
pub proof fn lemma_ord_names_pair(ss: Seq<SegModel>, k: Seq<u8>, i: int)
    requires
        all_keyed(ss),
        find_ord(ss, k) == Some(i),
    ensures
        0 <= i < seg_entries(ss).len(),
        seg_entries(ss)[i].0 == k,
        match_count(ss, k) == 1 ==> forall|j: int|
            0 <= j < seg_entries(ss).len() && j != i ==> (#[trigger] seg_entries(ss)[j]).0 != k,
    decreases ss.len(),
{
    assert(ss.len() > 0);
    assert(all_keyed(ss.skip(1))) by {
        assert(forall|j: int| 0 <= j < ss.skip(1).len() ==> ss.skip(1)[j] == ss[j + 1]);
    }
    if seg_matches(ss[0], k) {
        match ss[0] {
            SegModel::Item(e) => {
                let hd = seq![(k, entry_val(e))];
                assert(seg_entries(ss) == hd + seg_entries(ss.skip(1)));
                assert(seg_entries(ss)[0].0 == k);
                if match_count(ss, k) == 1 {
                    lemma_no_match_no_pair(ss.skip(1), k);
                }
            },
            _ => {},
        }
    } else if is_item(ss[0]) {
        match ss[0] {
            SegModel::Item(e) => {
                let m = find_ord(ss.skip(1), k);
                assert(m is Some && i == m->Some_0 + 1);
                lemma_ord_names_pair(ss.skip(1), k, i - 1);
                let hd = seq![(entry_key(e), entry_val(e))];
                assert(seg_entries(ss) == hd + seg_entries(ss.skip(1)));
                assert(seg_entries(ss)[i] == seg_entries(ss.skip(1))[i - 1]);
                if match_count(ss, k) == 1 {
                    assert(match_count(ss.skip(1), k) == 1);
                    assert forall|j: int|
                        0 <= j < seg_entries(ss).len() && j != i implies (#[trigger] seg_entries(
                        ss,
                    )[j]).0 != k by {
                        if j == 0 {
                            assert(seg_entries(ss)[0] == (entry_key(e), entry_val(e)));
                            assert(entry_key(e) != k);
                        } else {
                            assert(seg_entries(ss)[j] == seg_entries(ss.skip(1))[j - 1]);
                        }
                    }
                }
            },
            _ => {},
        }
    } else {
        lemma_ord_names_pair(ss.skip(1), k, i);
        assert(seg_entries(ss) == seg_entries(ss.skip(1)));
        if match_count(ss, k) == 1 {
            assert(match_count(ss.skip(1), k) == 1);
        }
    }
}

/// Where no entry matches, no pair carries the key.
pub proof fn lemma_no_match_no_pair(ss: Seq<SegModel>, k: Seq<u8>)
    requires
        match_count(ss, k) == 0,
    ensures
        forall|j: int|
            0 <= j < seg_entries(ss).len() ==> (#[trigger] seg_entries(ss)[j]).0 != k,
    decreases ss.len(),
{
    if ss.len() > 0 {
        lemma_match_count_nonneg(ss.skip(1), k);
        lemma_no_match_no_pair(ss.skip(1), k);
        match ss[0] {
            SegModel::Item(e) => {
                if entry_key(e).len() > 0 {
                    let hd = seq![(entry_key(e), entry_val(e))];
                    assert(seg_entries(ss) == hd + seg_entries(ss.skip(1)));
                    assert(entry_key(e) != k);
                    assert forall|j: int|
                        0 <= j < seg_entries(ss).len() implies (#[trigger] seg_entries(ss)[j]).0
                        != k by {
                        if j > 0 {
                            assert(seg_entries(ss)[j] == seg_entries(ss.skip(1))[j - 1]);
                        }
                    }
                }
            },
            _ => {},
        }
    }
}

/// A match count is never negative.
pub proof fn lemma_match_count_nonneg(ss: Seq<SegModel>, k: Seq<u8>)
    ensures
        match_count(ss, k) >= 0,
    decreases ss.len(),
{
    if ss.len() > 0 {
        lemma_match_count_nonneg(ss.skip(1), k);
    }
}

/// Removal keeps every surviving entry named.
pub proof fn lemma_remove_keeps_keyed(ss: Seq<SegModel>, k: Seq<u8>)
    requires
        all_keyed(ss),
    ensures
        all_keyed(remove_segs(ss, k)),
    decreases ss.len(),
{
    if ss.len() > 0 {
        assert(all_keyed(ss.skip(1))) by {
            assert(forall|j: int| 0 <= j < ss.skip(1).len() ==> ss.skip(1)[j] == ss[j + 1]);
        }
        lemma_remove_keeps_keyed(ss.skip(1), k);
        if !seg_matches(ss[0], k) && !(ss.len() >= 2 && crate::edit::is_ws_chars(ss[0])
            && seg_matches(ss[1], k)) {
            let out = seq![ss[0]] + remove_segs(ss.skip(1), k);
            assert forall|j: int|
                0 <= j < out.len() implies (match #[trigger] out[j] {
                SegModel::Item(e) => entry_key(e).len() > 0,
                _ => true,
            }) by {
                if j == 0 {
                    assert(out[0] == ss[0]);
                } else {
                    assert(out[j] == remove_segs(ss.skip(1), k)[j - 1]);
                }
            }
        }
    }
}

/// The pairs before and after the entry at rank `n` are exactly the first
/// `n` pairs and the rest: segment position and pair position agree when
/// every entry is named.
pub proof fn lemma_pairs_split_at_rank(ss: Seq<SegModel>, n: int)
    requires
        all_keyed(ss),
        0 <= n < item_count(ss),
    ensures
        seg_entries(ss.take(item_pos(ss, n))) == seg_entries(ss).take(n),
        seg_entries(ss.skip(item_pos(ss, n))) == seg_entries(ss).skip(n),
    decreases ss.len(),
{
    assert(ss.len() > 0);
    assert(all_keyed(ss.skip(1))) by {
        assert(forall|j: int| 0 <= j < ss.skip(1).len() ==> ss.skip(1)[j] == ss[j + 1]);
    }
    if is_item(ss[0]) {
        match ss[0] {
            SegModel::Item(e) => {
                let hd = seq![(entry_key(e), entry_val(e))];
                assert(seg_entries(ss) == hd + seg_entries(ss.skip(1)));
                if n == 0 {
                    assert(ss.take(0) =~= Seq::<SegModel>::empty());
                    assert(seg_entries(ss).take(0) =~= Seq::<(Seq<u8>, Seq<u8>)>::empty());
                    assert(ss.skip(0) =~= ss);
                    assert(seg_entries(ss).skip(0) =~= seg_entries(ss));
                } else {
                    lemma_item_count_is_pair_count(ss.skip(1));
                    lemma_pairs_split_at_rank(ss.skip(1), n - 1);
                    let p1 = item_pos(ss.skip(1), n - 1);
                    assert(item_pos(ss, n) == 1 + p1);
                    lemma_item_pos_in_range(ss.skip(1), n - 1);
                    assert(ss.take(1 + p1) =~= seq![ss[0]] + ss.skip(1).take(p1));
                    lemma_seg_entries_concat(seq![ss[0]], ss.skip(1).take(p1));
                    lemma_seg_entries_single(ss[0]);
                    assert(seg_entries(ss.take(1 + p1)) =~= hd + seg_entries(ss.skip(1)).take(
                        n - 1,
                    ));
                    assert(hd + seg_entries(ss.skip(1)).take(n - 1) =~= seg_entries(ss).take(n));
                    assert(ss.skip(1 + p1) =~= ss.skip(1).skip(p1));
                    assert(seg_entries(ss.skip(1)).skip(n - 1) =~= seg_entries(ss).skip(n));
                }
            },
            _ => {},
        }
    } else {
        lemma_item_count_is_pair_count(ss.skip(1));
        lemma_pairs_split_at_rank(ss.skip(1), n);
        let p1 = item_pos(ss.skip(1), n);
        assert(item_pos(ss, n) == 1 + p1);
        lemma_item_pos_in_range(ss.skip(1), n);
        assert(ss.take(1 + p1) =~= seq![ss[0]] + ss.skip(1).take(p1));
        lemma_seg_entries_concat(seq![ss[0]], ss.skip(1).take(p1));
        lemma_seg_entries_single(ss[0]);
        assert(seg_entries(ss) == seg_entries(ss.skip(1)));
        assert(seg_entries(ss.take(1 + p1)) =~= seg_entries(ss).take(n));
        assert(ss.skip(1 + p1) =~= ss.skip(1).skip(p1));
        assert(seg_entries(ss.skip(1 + p1)) =~= seg_entries(ss).skip(n));
    }
}

/// A rank below the entry count names a position inside the sequence.
pub proof fn lemma_item_pos_in_range(ss: Seq<SegModel>, n: int)
    requires
        0 <= n < item_count(ss),
    ensures
        0 <= item_pos(ss, n) <= ss.len(),
{
    lemma_item_pos_bounds(ss, n);
}

/// Law: remove–insert idempotence. In a document whose entries are all
/// named and that binds `k` exactly once, removing `k` and splicing it
/// back, with its old value, at the rank the removal reported restores the
/// entry sequence. The one shape left out is a document holding entries
/// after its closing root tag, which an append cannot reorder around.
pub proof fn lemma_remove_insert_round_trip(
    ss: Seq<SegModel>,
    k: Seq<u8>,
    i: int,
    eol: Seq<u8>,
    unit: Seq<u8>,
)
    requires
        all_keyed(ss),
        k.len() > 0,
        match_count(ss, k) == 1,
        find_ord(ss, k) == Some(i),
        crate::insert::insert_point_ok(remove_segs(ss, k), i),
        (match root_close_pos(remove_segs(ss, k)) {
            Some(m) => i < item_count(remove_segs(ss, k)) || seg_entries(
                remove_segs(ss, k).skip(m),
            ).len() == 0,
            None => true,
        }),
    ensures
        seg_entries(
            insert_point_segs(remove_segs(ss, k), k, seg_entries(ss)[i].1, i, eol, unit),
        ) == seg_entries(ss),
{
    let ps = seg_entries(ss);
    let v = ps[i].1;
    let ss2 = remove_segs(ss, k);
    lemma_ord_names_pair(ss, k, i);
    lemma_remove_entries_effect(ss, k);
    lemma_rm_pairs_unique(ps, k, i);
    lemma_remove_keeps_keyed(ss, k);
    lemma_item_count_is_pair_count(ss2);
    assert(seg_entries(ss2) == ps.take(i) + ps.skip(i + 1));
    assert(seg_entries(ss2).len() == ps.len() - 1);
    assert(ps[i] == (k, v));
    if i < item_count(ss2) {
        lemma_insert_entries_effect(ss2, k, v, i, eol, unit);
        lemma_pairs_split_at_rank(ss2, i);
        assert(seg_entries(ss2).take(i) =~= ps.take(i));
        assert(seg_entries(ss2).skip(i) =~= ps.skip(i + 1));
        assert(ps.take(i) + seq![(k, v)] + ps.skip(i + 1) =~= ps);
    } else {
        assert(root_close_pos(ss2) is Some);
        let m = root_close_pos(ss2)->Some_0;
        lemma_insert_append_effect(ss2, k, v, i, eol, unit, m);
        assert(seg_entries(ss2.skip(m)) =~= Seq::<(Seq<u8>, Seq<u8>)>::empty());
        assert(seg_entries(ss2.take(m)) =~= seg_entries(ss2));
        assert(i == ps.len() - 1);
        assert(ps.skip(i + 1) =~= Seq::<(Seq<u8>, Seq<u8>)>::empty());
        assert(seg_entries(ss2) =~= ps.take(i));
        assert(ps.take(i) + seq![(k, v)] + seg_entries(ss2.skip(m)) =~= ps);
    }
}

/// A point insert of a named key keeps every entry named.
pub proof fn lemma_insert_keeps_keyed(
    ss: Seq<SegModel>,
    k: Seq<u8>,
    v: Seq<u8>,
    idx: int,
    eol: Seq<u8>,
    unit: Seq<u8>,
)
    requires
        all_keyed(ss),
        k.len() > 0,
        0 <= idx < item_count(ss),
    ensures
        all_keyed(insert_point_segs(ss, k, v, idx, eol, unit)),
{
    let p = item_pos(ss, idx);
    lemma_item_pos_bounds(ss, idx);
    lemma_unescape_attr_escape(k);
    let ind = crate::insert::local_indent(ss, p, unit);
    let ne = synth_entry(k, v, eol + ind + unit, eol + ind);
    assert(entry_key(ne) == k);
    let out = insert_point_segs(ss, k, v, idx, eol, unit);
    assert(out == ss.take(p) + seq![SegModel::Item(ne), SegModel::Chars(eol + ind)] + ss.skip(p));
    assert forall|j: int|
        0 <= j < out.len() implies (match #[trigger] out[j] {
        SegModel::Item(e) => entry_key(e).len() > 0,
        _ => true,
    }) by {
        if j < p {
            assert(out[j] == ss[j]);
        } else if j == p {
            assert(out[j] == SegModel::Item(ne));
        } else if j == p + 1 {
            assert(out[j] == SegModel::Chars(eol + ind));
        } else {
            assert(out[j] == ss[j - 2]);
        }
    }
}

/// Law: batch insert ordering. Two items both aiming at the first entry,
/// supplied in order, come out in exactly that order, in front of every
/// original entry.
#[verifier::rlimit(100)]
pub proof fn lemma_batch_insert_pair_order(
    ss: Seq<SegModel>,
    ka: Seq<u8>,
    va: Seq<u8>,
    kb: Seq<u8>,
    vb: Seq<u8>,
    eol: Seq<u8>,
    unit: Seq<u8>,
)
    requires
        all_keyed(ss),
        ka.len() > 0,
        kb.len() > 0,
        item_count(ss) >= 1,
    ensures
        batch_fold(
            ss,
            stable_sorted(seq![(ka, va, 0int), (kb, vb, 0int)]),
            0,
            item_count(ss),
            eol,
            unit,
        ) is Some,
        seg_entries(
            batch_fold(
                ss,
                stable_sorted(seq![(ka, va, 0int), (kb, vb, 0int)]),
                0,
                item_count(ss),
                eol,
                unit,
            )->Some_0,
        ) == seq![(ka, va), (kb, vb)] + seg_entries(ss),
{
    let a = (ka, va, 0int);
    let b = (kb, vb, 0int);
    lemma_sort_keeps_tie_order(a, b);
    let items = seq![a, b];
    let c0 = item_count(ss);
    lemma_item_count_is_pair_count(ss);
    assert(items[0] == a && items[1] == b);
    assert(batch_target(ss, 0, 0, c0) == 0);
    assert(crate::insert::insert_point_ok(ss, 0));
    lemma_insert_entries_effect(ss, ka, va, 0, eol, unit);
    lemma_pairs_split_at_rank(ss, 0);
    let ss1 = insert_point_segs(ss, ka, va, 0, eol, unit);
    assert(seg_entries(ss).take(0) =~= Seq::<(Seq<u8>, Seq<u8>)>::empty());
    assert(seg_entries(ss).skip(0) =~= seg_entries(ss));
    assert(seg_entries(ss1) =~= seq![(ka, va)] + seg_entries(ss));
    lemma_insert_keeps_keyed(ss, ka, va, 0, eol, unit);
    lemma_item_count_is_pair_count(ss1);
    assert(item_count(ss1) == 1 + seg_entries(ss).len());
    assert(1 < item_count(ss1));
    assert(batch_target(ss1, 0, 1, c0) == 1);
    assert(crate::insert::insert_point_ok(ss1, 1));
    lemma_insert_entries_effect(ss1, kb, vb, 1, eol, unit);
    lemma_pairs_split_at_rank(ss1, 1);
    let ss_fin = insert_point_segs(ss1, kb, vb, 1, eol, unit);
    assert(seg_entries(ss1).take(1) =~= seq![(ka, va)]);
    assert(seg_entries(ss1).skip(1) =~= seg_entries(ss));
    assert(seg_entries(ss_fin) =~= seq![(ka, va), (kb, vb)] + seg_entries(ss));
    assert(batch_fold(ss, items, 0, c0, eol, unit) == batch_fold(ss1, items, 1, c0, eol, unit));
    assert(batch_fold(ss1, items, 1, c0, eol, unit) == batch_fold(
        ss_fin,
        items,
        2,
        c0,
        eol,
        unit,
    ));
    assert(batch_fold(ss_fin, items, 2, c0, eol, unit) == Some(ss_fin));
}


/// Counting entry elements distributes over concatenation.
pub proof fn lemma_item_count_concat(a: Seq<SegModel>, b: Seq<SegModel>)
    ensures
        item_count(a + b) == item_count(a) + item_count(b),
    decreases a.len(),
{
    if a.len() == 0 {
        assert(a + b =~= b);
    } else {
        assert((a + b).skip(1) =~= a.skip(1) + b);
        lemma_item_count_concat(a.skip(1), b);
        assert((a + b)[0] == a[0]);
    }
}

/// Counting entry elements of a single segment.
pub proof fn lemma_item_count_single(s: SegModel)
    ensures
        item_count(seq![s]) == (if is_item(s) {
            1int
        } else {
            0int
        }),
{
    assert(seq![s].skip(1) =~= Seq::<SegModel>::empty());
    assert(seq![s][0] == s);
    assert(item_count(Seq::<SegModel>::empty()) == 0);
}

/// An entry's segment position never leaves the segment sequence.
pub proof fn lemma_item_pos_range(ss: Seq<SegModel>, n: int)
    ensures
        0 <= item_pos(ss, n) <= ss.len(),
    decreases ss.len(),
{
    if ss.len() > 0 {
        if is_item(ss[0]) {
            if n != 0 {
                lemma_item_pos_range(ss.skip(1), n - 1);
            }
        } else {
            lemma_item_pos_range(ss.skip(1), n);
        }
    }
}

/// Law: a point insert adds exactly one entry element, wherever it lands.
pub proof fn lemma_insert_point_count(
    ss: Seq<SegModel>,
    k: Seq<u8>,
    v: Seq<u8>,
    idx: int,
    eol: Seq<u8>,
    unit: Seq<u8>,
)
    requires
        insert_point_ok(ss, idx),
    ensures
        item_count(insert_point_segs(ss, k, v, idx, eol, unit)) == item_count(ss) + 1,
{
    let out = insert_point_segs(ss, k, v, idx, eol, unit);
    if idx < item_count(ss) {
        let p = item_pos(ss, idx);
        lemma_item_pos_range(ss, idx);
        let ind = crate::insert::local_indent(ss, p, unit);
        let ne = synth_entry(k, v, eol + ind + unit, eol + ind);
        let mid = seq![SegModel::Item(ne), SegModel::Chars(eol + ind)];
        assert(out == ss.take(p) + mid + ss.skip(p));
        lemma_item_count_concat(ss.take(p) + mid, ss.skip(p));
        lemma_item_count_concat(ss.take(p), mid);
        assert(mid =~= seq![SegModel::Item(ne)] + seq![SegModel::Chars(eol + ind)]);
        lemma_item_count_concat(seq![SegModel::Item(ne)], seq![SegModel::Chars(eol + ind)]);
        lemma_item_count_single(SegModel::Item(ne));
        lemma_item_count_single(SegModel::Chars(eol + ind));
        lemma_item_count_concat(ss.take(p), ss.skip(p));
        assert(ss.take(p) + ss.skip(p) =~= ss);
    } else {
        let m = root_close_pos(ss)->Some_0;
        lemma_root_close_at(ss, m);
        let ne = synth_entry(k, v, eol + unit + unit, eol + unit);
        if m > 0 && (ss[m - 1] is Chars) {
            let tb = crate::util::trim_end_ws(ss[m - 1]->Chars_0);
            let mid = seq![
                SegModel::Chars(tb + eol + unit),
                SegModel::Item(ne),
                SegModel::Chars(eol),
            ];
            assert(out == ss.take(m - 1) + mid + ss.skip(m));
            lemma_item_count_concat(ss.take(m - 1) + mid, ss.skip(m));
            lemma_item_count_concat(ss.take(m - 1), mid);
            assert(mid =~= seq![SegModel::Chars(tb + eol + unit)] + (seq![SegModel::Item(ne)]
                + seq![SegModel::Chars(eol)]));
            lemma_item_count_concat(
                seq![SegModel::Chars(tb + eol + unit)],
                seq![SegModel::Item(ne)] + seq![SegModel::Chars(eol)],
            );
            lemma_item_count_concat(seq![SegModel::Item(ne)], seq![SegModel::Chars(eol)]);
            lemma_item_count_single(SegModel::Chars(tb + eol + unit));
            lemma_item_count_single(SegModel::Item(ne));
            lemma_item_count_single(SegModel::Chars(eol));
            assert(ss =~= ss.take(m - 1) + seq![ss[m - 1]] + ss.skip(m));
            lemma_item_count_concat(ss.take(m - 1) + seq![ss[m - 1]], ss.skip(m));
            lemma_item_count_concat(ss.take(m - 1), seq![ss[m - 1]]);
            lemma_item_count_single(ss[m - 1]);
        } else {
            let mid = seq![SegModel::Chars(eol + unit), SegModel::Item(ne), SegModel::Chars(eol)];
            assert(out == ss.take(m) + mid + ss.skip(m));
            lemma_item_count_concat(ss.take(m) + mid, ss.skip(m));
            lemma_item_count_concat(ss.take(m), mid);
            assert(mid =~= seq![SegModel::Chars(eol + unit)] + (seq![SegModel::Item(ne)] + seq![
                SegModel::Chars(eol),
            ]));
            lemma_item_count_concat(
                seq![SegModel::Chars(eol + unit)],
                seq![SegModel::Item(ne)] + seq![SegModel::Chars(eol)],
            );
            lemma_item_count_concat(seq![SegModel::Item(ne)], seq![SegModel::Chars(eol)]);
            lemma_item_count_single(SegModel::Chars(eol + unit));
            lemma_item_count_single(SegModel::Item(ne));
            lemma_item_count_single(SegModel::Chars(eol));
            lemma_item_count_concat(ss.take(m), ss.skip(m));
            assert(ss.take(m) + ss.skip(m) =~= ss);
        }
    }
}

/// Law: batch insert count. When every requested insertion goes through,
/// the result holds exactly one entry element more per remaining item than
/// the sequence it starts from.
pub proof fn lemma_batch_insert_count(
    ss: Seq<SegModel>,
    items: Seq<(Seq<u8>, Seq<u8>, int)>,
    j: int,
    c0: int,
    eol: Seq<u8>,
    unit: Seq<u8>,
    out: Seq<SegModel>,
)
    requires
        0 <= j <= items.len(),
        batch_fold(ss, items, j, c0, eol, unit) == Some(out),
    ensures
        item_count(out) == item_count(ss) + (items.len() - j),
    decreases items.len() - j,
{
    if j < items.len() {
        let tgt = batch_target(ss, items[j].2, j, c0);
        assert(insert_point_ok(ss, tgt));
        let ss2 = insert_point_segs(ss, items[j].0, items[j].1, tgt, eol, unit);
        lemma_insert_point_count(ss, items[j].0, items[j].1, tgt, eol, unit);
        lemma_batch_insert_count(ss2, items, j + 1, c0, eol, unit, out);
    }
}


/// Law: a batch of one item is the point insert. With the operations'
/// contracts pinning each output to its segment-level effect, this carries
/// the equivalence down to the bytes the two calls produce.
pub proof fn lemma_batch_single_is_point(
    ss: Seq<SegModel>,
    k: Seq<u8>,
    v: Seq<u8>,
    idx: int,
    eol: Seq<u8>,
    unit: Seq<u8>,
)
    ensures
        batch_fold(ss, stable_sorted(seq![(k, v, idx)]), 0, item_count(ss), eol, unit) == (
        if insert_point_ok(ss, idx) {
            Some(insert_point_segs(ss, k, v, idx, eol, unit))
        } else {
            Option::<Seq<SegModel>>::None
        }),
{
    let x = (k, v, idx);
    let one = seq![x];
    assert(one.drop_last() =~= Seq::<(Seq<u8>, Seq<u8>, int)>::empty());
    assert(one.last() == x);
    assert(stable_sorted(Seq::<(Seq<u8>, Seq<u8>, int)>::empty())
        == Seq::<(Seq<u8>, Seq<u8>, int)>::empty());
    assert(stable_sorted(one) == ins_sorted(Seq::<(Seq<u8>, Seq<u8>, int)>::empty(), x));
    assert(ins_sorted(Seq::<(Seq<u8>, Seq<u8>, int)>::empty(), x) =~= one);
    let c0 = item_count(ss);
    let tgt = batch_target(ss, idx, 0, c0);
    crate::model::lemma_item_count_bounds(ss);
    if idx < c0 {
        assert(tgt == idx);
    } else {
        assert(tgt == c0);
        assert(insert_point_ok(ss, tgt) == insert_point_ok(ss, idx));
        if insert_point_ok(ss, idx) {
            assert(insert_point_segs(ss, k, v, tgt, eol, unit) == insert_point_segs(
                ss,
                k,
                v,
                idx,
                eol,
                unit,
            ));
        }
    }
    if insert_point_ok(ss, tgt) {
        let ss2 = insert_point_segs(ss, k, v, tgt, eol, unit);
        assert(batch_fold(ss2, one, 1, c0, eol, unit) == Some(ss2));
    }
}

} // verus!
