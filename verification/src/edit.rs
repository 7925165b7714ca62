//! The structural mutator: every operation is one forward pass over the
//! segment sequence that copies segments verbatim except the targeted ones.
//! Each operation's effect is stated exactly by a spec function over the
//! document model.
use vstd::prelude::*;
use crate::escape::{
    attr_escape, escape_min, lemma_attr_escape_clean, lemma_escape_no_lt, unescape_min,
};
use crate::model::{
    doc_wf, entry_wf, is_item, seg_wf, segs_view, ws_only, Document, Entry, EntryModel, Seg,
    SegModel,
};
use crate::util::{copy_bytes, copy_entry, copy_seg, eq_bytes};

verus! {

/// The key an entry carries, as the bytes it stands for.
pub open spec fn entry_key(e: EntryModel) -> Seq<u8> {
    unescape_min(e.key)
}

/// The value an entry carries, as the bytes it stands for.
pub open spec fn entry_val(e: EntryModel) -> Seq<u8> {
    unescape_min(e.text)
}

/// The key-value pairs a document presents, in document order, skipping
/// entries whose name is empty.
pub open spec fn seg_entries(ss: Seq<SegModel>) -> Seq<(Seq<u8>, Seq<u8>)>
    decreases ss.len(),
{
    if ss.len() == 0 {
        Seq::empty()
    } else {
        match ss[0] {
            SegModel::Item(e) => {
                if entry_key(e).len() > 0 {
                    seq![(entry_key(e), entry_val(e))] + seg_entries(ss.skip(1))
                } else {
                    seg_entries(ss.skip(1))
                }
            },
            _ => seg_entries(ss.skip(1)),
        }
    }
}

/// The segment is an entry whose key reads as `k`.
pub open spec fn seg_matches(s: SegModel, k: Seq<u8>) -> bool {
    match s {
        SegModel::Item(e) => entry_key(e) == k,
        _ => false,
    }
}

/// One segment after a point value update: a matching entry gets the new
/// escaped text, everything else stands untouched.
pub open spec fn upd_seg(s: SegModel, k: Seq<u8>, v: Seq<u8>) -> SegModel {
    match s {
        SegModel::Item(e) => {
            if entry_key(e) == k {
                SegModel::Item(EntryModel { text: escape_min(v), ..e })
            } else {
                s
            }
        },
        _ => s,
    }
}

/// The whole segment sequence after a point value update.
pub open spec fn update_segs(ss: Seq<SegModel>, k: Seq<u8>, v: Seq<u8>) -> Seq<SegModel> {
    Seq::new(ss.len(), |i: int| upd_seg(ss[i], k, v))
}

/// First value bound to `k` in an update list.
pub open spec fn lookup(us: Seq<(Seq<u8>, Seq<u8>)>, k: Seq<u8>) -> Option<Seq<u8>>
    decreases us.len(),
{
    if us.len() == 0 {
        None
    } else if us[0].0 == k {
        Some(us[0].1)
    } else {
        lookup(us.skip(1), k)
    }
}

/// One segment after a batch value update.
pub open spec fn upd_seg_many(s: SegModel, us: Seq<(Seq<u8>, Seq<u8>)>) -> SegModel {
    match s {
        SegModel::Item(e) => {
            match lookup(us, entry_key(e)) {
                Some(v) => SegModel::Item(EntryModel { text: escape_min(v), ..e }),
                None => s,
            }
        },
        _ => s,
    }
}

/// The whole segment sequence after a batch value update.
pub open spec fn update_segs_many(ss: Seq<SegModel>, us: Seq<(Seq<u8>, Seq<u8>)>) -> Seq<
    SegModel,
> {
    Seq::new(ss.len(), |i: int| upd_seg_many(ss[i], us))
}

/// One segment after a rename: a matching entry gets the new escaped key in
/// its name attribute, everything else stands untouched.
pub open spec fn ren_seg(s: SegModel, old_k: Seq<u8>, new_k: Seq<u8>) -> SegModel {
    match s {
        SegModel::Item(e) => {
            if entry_key(e) == old_k {
                SegModel::Item(EntryModel { key: attr_escape(new_k), ..e })
            } else {
                s
            }
        },
        _ => s,
    }
}

/// The whole segment sequence after a rename.
pub open spec fn rename_segs(ss: Seq<SegModel>, old_k: Seq<u8>, new_k: Seq<u8>) -> Seq<SegModel> {
    Seq::new(ss.len(), |i: int| ren_seg(ss[i], old_k, new_k))
}

/// The pairs of an executable pair vector.
pub open spec fn pairs_view(ps: Seq<(Vec<u8>, Vec<u8>)>) -> Seq<(Seq<u8>, Seq<u8>)> {
    Seq::new(ps.len(), |i: int| (ps[i].0@, ps[i].1@))
}

/// A whitespace-only run of character data.
pub open spec fn is_ws_chars(s: SegModel) -> bool {
    match s {
        SegModel::Chars(b) => ws_only(b),
        _ => false,
    }
}

/// The segment sequence after removing every entry whose key reads as `k`,
/// together with the whitespace-only run standing immediately before it.
pub open spec fn remove_segs(ss: Seq<SegModel>, k: Seq<u8>) -> Seq<SegModel>
    decreases ss.len(),
{
    if ss.len() == 0 {
        Seq::empty()
    } else if seg_matches(ss[0], k) {
        remove_segs(ss.skip(1), k)
    } else if ss.len() >= 2 && is_ws_chars(ss[0]) && seg_matches(ss[1], k) {
        remove_segs(ss.skip(1), k)
    } else {
        seq![ss[0]] + remove_segs(ss.skip(1), k)
    }
}

/// The ordinal rank, among entry elements, of the first entry whose key
/// reads as `k`.
pub open spec fn find_ord(ss: Seq<SegModel>, k: Seq<u8>) -> Option<int>
    decreases ss.len(),
{
    if ss.len() == 0 {
        None
    } else if seg_matches(ss[0], k) {
        Some(0)
    } else if is_item(ss[0]) {
        match find_ord(ss.skip(1), k) {
            Some(n) => Some(n + 1),
            None => None,
        }
    } else {
        find_ord(ss.skip(1), k)
    }
}

/// Does this entry's key read as `key`?
fn entry_matches(e: &Entry, key: &Vec<u8>) -> (r: bool)
    ensures
        r == (entry_key(e@) == key@),
{
    let kr = crate::escape::unescape_text(&e.key);
    eq_bytes(&kr, key)
}

/// Is this run of character data whitespace only?
fn seg_is_ws_chars(s: &Seg) -> (r: bool)
    ensures
        r == is_ws_chars(s@),
{
    match s {
        Seg::Chars(b) => {
            let mut i: usize = 0;
            while i < b.len()
                invariant
                    i <= b@.len(),
                    forall|j: int| 0 <= j < i ==> crate::model::wsb(#[trigger] b@[j]),
                decreases b@.len() - i,
            {
                let c = b[i];
                if !(c == 32 || c == 9 || c == 10 || c == 13) {
                    assert(!ws_only(b@));
                    return false;
                }
                i = i + 1;
            }
            true
        },
        _ => false,
    }
}

/// Rewrites the text of every entry whose key reads as `key` to the
/// minimally escaped form of `value`; every other segment is copied
/// verbatim. A missing key leaves the document unchanged.
pub fn update_value(d: &Document, key: &Vec<u8>, value: &Vec<u8>) -> (r: Document)
    requires
        doc_wf(d@),
    ensures
        r@.has_bom == d@.has_bom,
        r@.segs == update_segs(d@.segs, key@, value@),
        doc_wf(r@),
{
    let mut segs: Vec<Seg> = Vec::new();
    let mut i: usize = 0;
    while i < d.segs.len()
        invariant
            i <= d.segs@.len(),
            segs@.len() == i,
            forall|j: int| 0 <= j < i ==> segs_view(segs@)[j] == upd_seg(d@.segs[j], key@, value@),
            forall|j: int| 0 <= j < i ==> seg_wf(#[trigger] segs_view(segs@)[j]),
        decreases d.segs@.len() - i,
    {
        let ghost pre = segs_view(segs@);
        let s = &d.segs[i];
        proof {
            assert(s@ == d@.segs[i as int]);
            assert(seg_wf(s@));
        }
        let ns: Seg = match s {
            Seg::Item(e) => {
                if entry_matches(e, key) {
                    let ne = Entry {
                        open_pre: copy_bytes(&e.open_pre),
                        key: copy_bytes(&e.key),
                        open_post: copy_bytes(&e.open_post),
                        mid: copy_bytes(&e.mid),
                        vopen: copy_bytes(&e.vopen),
                        text: crate::escape::escape_text(value),
                        vclose: copy_bytes(&e.vclose),
                        post: copy_bytes(&e.post),
                        close: copy_bytes(&e.close),
                    };
                    proof {
                        lemma_escape_no_lt(value@);
                        assert(entry_wf(ne@));
                    }
                    Seg::Item(ne)
                } else {
                    copy_seg(s)
                }
            },
            _ => { copy_seg(s) },
        };
        proof {
            assert(ns@ == upd_seg(d@.segs[i as int], key@, value@));
            assert(seg_wf(ns@));
        }
        segs.push(ns);
        proof {
            assert(segs_view(segs@) =~= pre.push(segs@[i as int]@));
        }
        i = i + 1;
    }
    let r = Document { has_bom: d.has_bom, segs };
    proof {
        assert(r@.segs =~= update_segs(d@.segs, key@, value@));
    }
    r
}

/// Looks `key` up in an executable update list.
fn lookup_exec(us: &Vec<(Vec<u8>, Vec<u8>)>, key: &Vec<u8>) -> (r: Option<usize>)
    ensures
        match r {
            Some(ix) => ix < us@.len() && lookup(pairs_view(us@), key@) == Some(us@[ix as int].1@),
            None => lookup(pairs_view(us@), key@) is None,
        },
{
    let ghost pv = pairs_view(us@);
    let mut i: usize = 0;
    proof {
        assert(pv.skip(0) =~= pv);
    }
    while i < us.len()
        invariant
            i <= us@.len(),
            lookup(pairs_view(us@), key@) == lookup(pairs_view(us@).skip(i as int), key@),
        decreases us@.len() - i,
    {
        proof {
            assert(pv.skip(i as int).len() > 0);
            assert(pv.skip(i as int)[0] == pv[i as int]);
            assert(pv.skip(i as int).skip(1) =~= pv.skip(i + 1));
        }
        if eq_bytes(&us[i].0, key) {
            return Some(i);
        }
        i = i + 1;
    }
    proof {
        assert(pv.skip(us@.len() as int) =~= Seq::<(Seq<u8>, Seq<u8>)>::empty());
    }
    None
}

/// Rewrites the text of every entry whose key stands in `updates`; every
/// other segment is copied verbatim. An empty list changes nothing.
pub fn update_values(d: &Document, updates: &Vec<(Vec<u8>, Vec<u8>)>) -> (r: Document)
    requires
        doc_wf(d@),
    ensures
        r@.has_bom == d@.has_bom,
        r@.segs == update_segs_many(d@.segs, pairs_view(updates@)),
        doc_wf(r@),
        updates@.len() == 0 ==> r@.segs == d@.segs,
{
    let mut segs: Vec<Seg> = Vec::new();
    let mut i: usize = 0;
    while i < d.segs.len()
        invariant
            i <= d.segs@.len(),
            segs@.len() == i,
            forall|j: int|
                0 <= j < i ==> segs_view(segs@)[j] == upd_seg_many(
                    d@.segs[j],
                    pairs_view(updates@),
                ),
            forall|j: int| 0 <= j < i ==> seg_wf(#[trigger] segs_view(segs@)[j]),
        decreases d.segs@.len() - i,
    {
        let ghost pre = segs_view(segs@);
        let s = &d.segs[i];
        proof {
            assert(s@ == d@.segs[i as int]);
            assert(seg_wf(s@));
        }
        let ns: Seg = match s {
            Seg::Item(e) => {
                let kr = crate::escape::unescape_text(&e.key);
                match lookup_exec(updates, &kr) {
                    Some(ix) => {
                        let ne = Entry {
                            open_pre: copy_bytes(&e.open_pre),
                            key: copy_bytes(&e.key),
                            open_post: copy_bytes(&e.open_post),
                            mid: copy_bytes(&e.mid),
                            vopen: copy_bytes(&e.vopen),
                            text: crate::escape::escape_text(&updates[ix].1),
                            vclose: copy_bytes(&e.vclose),
                            post: copy_bytes(&e.post),
                            close: copy_bytes(&e.close),
                        };
                        proof {
                            lemma_escape_no_lt(updates@[ix as int].1@);
                            assert(entry_wf(ne@));
                        }
                        Seg::Item(ne)
                    },
                    None => { copy_seg(s) },
                }
            },
            _ => { copy_seg(s) },
        };
        proof {
            assert(ns@ == upd_seg_many(d@.segs[i as int], pairs_view(updates@)));
            assert(seg_wf(ns@));
        }
        segs.push(ns);
        proof {
            assert(segs_view(segs@) =~= pre.push(segs@[i as int]@));
        }
        i = i + 1;
    }
    let r = Document { has_bom: d.has_bom, segs };
    proof {
        assert(r@.segs =~= update_segs_many(d@.segs, pairs_view(updates@)));
        if updates@.len() == 0 {
            assert(pairs_view(updates@).len() == 0);
            assert(r@.segs =~= d@.segs);
        }
    }
    r
}

/// Rewrites the name attribute of every entry whose key reads as `old_key`
/// to the escaped form of `new_key`; values, whitespace, and every other
/// segment stand untouched. A missing key leaves the document unchanged.
pub fn rename_key(d: &Document, old_key: &Vec<u8>, new_key: &Vec<u8>) -> (r: Document)
    requires
        doc_wf(d@),
    ensures
        r@.has_bom == d@.has_bom,
        r@.segs == rename_segs(d@.segs, old_key@, new_key@),
        doc_wf(r@),
{
    let mut segs: Vec<Seg> = Vec::new();
    let mut i: usize = 0;
    while i < d.segs.len()
        invariant
            i <= d.segs@.len(),
            segs@.len() == i,
            forall|j: int|
                0 <= j < i ==> segs_view(segs@)[j] == ren_seg(d@.segs[j], old_key@, new_key@),
            forall|j: int| 0 <= j < i ==> seg_wf(#[trigger] segs_view(segs@)[j]),
        decreases d.segs@.len() - i,
    {
        let ghost pre = segs_view(segs@);
        let s = &d.segs[i];
        proof {
            assert(s@ == d@.segs[i as int]);
            assert(seg_wf(s@));
        }
        let ns: Seg = match s {
            Seg::Item(e) => {
                if entry_matches(e, old_key) {
                    let ne = Entry {
                        open_pre: copy_bytes(&e.open_pre),
                        key: crate::escape::escape_attr_value(new_key),
                        open_post: copy_bytes(&e.open_post),
                        mid: copy_bytes(&e.mid),
                        vopen: copy_bytes(&e.vopen),
                        text: copy_bytes(&e.text),
                        vclose: copy_bytes(&e.vclose),
                        post: copy_bytes(&e.post),
                        close: copy_bytes(&e.close),
                    };
                    proof {
                        lemma_attr_escape_clean(new_key@);
                        assert(entry_wf(ne@));
                    }
                    Seg::Item(ne)
                } else {
                    copy_seg(s)
                }
            },
            _ => { copy_seg(s) },
        };
        proof {
            assert(ns@ == ren_seg(d@.segs[i as int], old_key@, new_key@));
            assert(seg_wf(ns@));
        }
        segs.push(ns);
        proof {
            assert(segs_view(segs@) =~= pre.push(segs@[i as int]@));
        }
        i = i + 1;
    }
    let r = Document { has_bom: d.has_bom, segs };
    proof {
        assert(r@.segs =~= rename_segs(d@.segs, old_key@, new_key@));
    }
    r
}

proof fn lemma_seg_entries_push(ss: Seq<SegModel>, s: SegModel)
    ensures
        seg_entries(ss.push(s)) == seg_entries(ss) + (match s {
            SegModel::Item(e) => if entry_key(e).len() > 0 {
                seq![(entry_key(e), entry_val(e))]
            } else {
                Seq::empty()
            },
            _ => Seq::empty(),
        }),
    decreases ss.len(),
{
    let tail: Seq<(Seq<u8>, Seq<u8>)> = match s {
        SegModel::Item(e) => if entry_key(e).len() > 0 {
            seq![(entry_key(e), entry_val(e))]
        } else {
            Seq::empty()
        },
        _ => Seq::empty(),
    };
    if ss.len() == 0 {
        assert(ss.push(s).skip(1) =~= Seq::<SegModel>::empty());
        assert(ss.push(s)[0] == s);
        match s {
            SegModel::Item(e) => {
                if entry_key(e).len() > 0 {
                    assert(seg_entries(ss.push(s)) == seq![(entry_key(e), entry_val(e))]
                        + seg_entries(Seq::<SegModel>::empty()));
                } else {
                    assert(seg_entries(ss.push(s)) == seg_entries(Seq::<SegModel>::empty()));
                }
            },
            _ => {
                assert(seg_entries(ss.push(s)) == seg_entries(Seq::<SegModel>::empty()));
            },
        }
        assert(seg_entries(ss.push(s)) =~= seg_entries(ss) + tail);
    } else {
        assert(ss.push(s).skip(1) =~= ss.skip(1).push(s));
        lemma_seg_entries_push(ss.skip(1), s);
        assert(ss.push(s)[0] == ss[0]);
        match ss[0] {
            SegModel::Item(e) => {
                if entry_key(e).len() > 0 {
                    assert(seg_entries(ss.push(s)) == seq![(entry_key(e), entry_val(e))]
                        + seg_entries(ss.skip(1).push(s)));
                    assert(seg_entries(ss) == seq![(entry_key(e), entry_val(e))] + seg_entries(
                        ss.skip(1),
                    ));
                } else {
                    assert(seg_entries(ss.push(s)) == seg_entries(ss.skip(1).push(s)));
                }
            },
            _ => {
                assert(seg_entries(ss.push(s)) == seg_entries(ss.skip(1).push(s)));
            },
        }
        assert(seg_entries(ss.push(s)) =~= seg_entries(ss) + tail);
    }
}

/// Extracts the key-value pairs of the document, in document order, values
/// unescaped, entries with an empty name skipped.
pub fn entries(d: &Document) -> (r: Vec<(Vec<u8>, Vec<u8>)>)
    ensures
        pairs_view(r@) == seg_entries(d@.segs),
{
    let mut out: Vec<(Vec<u8>, Vec<u8>)> = Vec::new();
    let mut i: usize = 0;
    proof {
        assert(segs_view(d.segs@).take(0) =~= Seq::<SegModel>::empty());
        assert(pairs_view(out@) =~= seg_entries(segs_view(d.segs@).take(0)));
    }
    while i < d.segs.len()
        invariant
            i <= d.segs@.len(),
            pairs_view(out@) == seg_entries(segs_view(d.segs@).take(i as int)),
        decreases d.segs@.len() - i,
    {
        let ghost sv = segs_view(d.segs@);
        let ghost pre = pairs_view(out@);
        match &d.segs[i] {
            Seg::Item(e) => {
                let k = crate::escape::unescape_text(&e.key);
                if k.len() > 0 {
                    let v = crate::escape::unescape_text(&e.text);
                    out.push((k, v));
                    proof {
                        assert(pairs_view(out@) =~= pre + seq![
                            (entry_key(e@), entry_val(e@)),
                        ]);
                    }
                }
            },
            _ => {},
        }
        proof {
            assert(sv.take(i + 1) =~= sv.take(i as int).push(sv[i as int]));
            lemma_seg_entries_push(sv.take(i as int), sv[i as int]);
            assert(pairs_view(out@) =~= seg_entries(sv.take(i + 1)));
        }
        i = i + 1;
    }
    proof {
        assert(segs_view(d.segs@).take(d.segs@.len() as int) =~= segs_view(d.segs@));
    }
    out
}

/// Shifts an optional ordinal by the number of entries already passed.
pub open spec fn ord_shift(o: Option<int>, c: int) -> Option<int> {
    match o {
        Some(n) => Some(n + c),
        None => None,
    }
}

/// Finds the ordinal rank of the first entry whose key reads as `key`.
pub fn find_ordinal(d: &Document, key: &Vec<u8>) -> (r: Option<usize>)
    ensures
        match r {
            Some(u) => find_ord(d@.segs, key@) == Some(u as int),
            None => find_ord(d@.segs, key@) is None,
        },
{
    let ghost sv = segs_view(d.segs@);
    let mut i: usize = 0;
    let mut c: usize = 0;
    proof {
        assert(sv.skip(0) =~= sv);
    }
    while i < d.segs.len()
        invariant
            i <= d.segs@.len(),
            c <= i,
            find_ord(segs_view(d.segs@), key@) == ord_shift(
                find_ord(segs_view(d.segs@).skip(i as int), key@),
                c as int,
            ),
        decreases d.segs@.len() - i,
    {
        proof {
            assert(sv.skip(i as int).len() > 0);
            assert(sv.skip(i as int)[0] == sv[i as int]);
            assert(sv.skip(i as int).skip(1) =~= sv.skip(i + 1));
        }
        match &d.segs[i] {
            Seg::Item(e) => {
                if entry_matches(e, key) {
                    return Some(c);
                }
                c = c + 1;
            },
            _ => {},
        }
        i = i + 1;
    }
    proof {
        assert(sv.skip(d.segs@.len() as int) =~= Seq::<SegModel>::empty());
    }
    None
}

/// Removes every entry whose key reads as `key`, along with the
/// whitespace-only run standing immediately before each one, and reports
/// the ordinal rank the first such entry occupied. A missing key leaves the
/// document unchanged and reports no rank.
pub fn remove_entry(d: &Document, key: &Vec<u8>) -> (r: (Document, Option<usize>))
    requires
        doc_wf(d@),
    ensures
        r.0@.has_bom == d@.has_bom,
        r.0@.segs == remove_segs(d@.segs, key@),
        doc_wf(r.0@),
        match r.1 {
            Some(u) => find_ord(d@.segs, key@) == Some(u as int),
            None => find_ord(d@.segs, key@) is None,
        },
{
    let ord = find_ordinal(d, key);
    let ghost sv = segs_view(d.segs@);
    let mut segs: Vec<Seg> = Vec::new();
    let mut i: usize = 0;
    proof {
        assert(sv.skip(0) =~= sv);
        assert(segs_view(segs@) + remove_segs(sv.skip(0), key@) =~= remove_segs(sv, key@));
    }
    while i < d.segs.len()
        invariant
            i <= d.segs@.len(),
            remove_segs(segs_view(d.segs@), key@) == segs_view(segs@) + remove_segs(
                segs_view(d.segs@).skip(i as int),
                key@,
            ),
            forall|j: int|
                0 <= j < segs_view(segs@).len() ==> seg_wf(#[trigger] segs_view(segs@)[j]),
        decreases d.segs@.len() - i,
    {
        let ghost pre = segs_view(segs@);
        proof {
            assert(sv.skip(i as int).len() > 0);
            assert(sv.skip(i as int)[0] == sv[i as int]);
            assert(sv.skip(i as int).skip(1) =~= sv.skip(i + 1));
            if sv.skip(i as int).len() >= 2 {
                assert(sv.skip(i as int)[1] == sv[i + 1]);
            }
        }
        let s = &d.segs[i];
        let drop_here = match s {
            Seg::Item(e) => entry_matches(e, key),
            _ => false,
        };
        if drop_here {
        } else {
            let mut drop_ws = false;
            if i + 1 < d.segs.len() {
                if seg_is_ws_chars(s) {
                    match &d.segs[i + 1] {
                        Seg::Item(e2) => {
                            drop_ws = entry_matches(e2, key);
                        },
                        _ => {},
                    }
                }
            }
            if !drop_ws {
                segs.push(copy_seg(s));
                proof {
                    assert(segs_view(segs@) =~= pre.push(sv[i as int]));
                    assert(pre.push(sv[i as int]) + remove_segs(sv.skip(i + 1), key@) =~= pre + (
                    seq![sv[i as int]] + remove_segs(sv.skip(i + 1), key@)));
                    assert(seg_wf(sv[i as int]));
                }
            }
        }
        i = i + 1;
    }
    proof {
        assert(sv.skip(d.segs@.len() as int) =~= Seq::<SegModel>::empty());
        assert(segs_view(segs@) + remove_segs(Seq::<SegModel>::empty(), key@) =~= segs_view(
            segs@,
        ));
    }
    let out = Document { has_bom: d.has_bom, segs };
    (out, ord)
}

/// `k` is one of the listed keys.
pub open spec fn key_in(ks: Seq<Seq<u8>>, k: Seq<u8>) -> bool {
    exists|j: int| 0 <= j < ks.len() && ks[j] == k
}

/// The models of an executable key vector.
pub open spec fn keys_view(ks: Seq<Vec<u8>>) -> Seq<Seq<u8>> {
    Seq::new(ks.len(), |i: int| ks[i]@)
}

/// The segment is an entry whose key reads as one of `ks`.
pub open spec fn seg_matches_any(s: SegModel, ks: Seq<Seq<u8>>) -> bool {
    match s {
        SegModel::Item(e) => key_in(ks, entry_key(e)),
        _ => false,
    }
}

/// The segment sequence after removing every entry whose key is listed,
/// each with the whitespace-only run standing immediately before it.
pub open spec fn remove_segs_multi(ss: Seq<SegModel>, ks: Seq<Seq<u8>>) -> Seq<SegModel>
    decreases ss.len(),
{
    if ss.len() == 0 {
        Seq::empty()
    } else if seg_matches_any(ss[0], ks) {
        remove_segs_multi(ss.skip(1), ks)
    } else if ss.len() >= 2 && is_ws_chars(ss[0]) && seg_matches_any(ss[1], ks) {
        remove_segs_multi(ss.skip(1), ks)
    } else {
        seq![ss[0]] + remove_segs_multi(ss.skip(1), ks)
    }
}

/// The reported ordinals: one pair per listed key that the document holds,
/// in the order the keys were given, each with the rank the key occupied.
pub open spec fn ords_spec(ss: Seq<SegModel>, ks: Seq<Seq<u8>>) -> Seq<(Seq<u8>, int)>
    decreases ks.len(),
{
    if ks.len() == 0 {
        Seq::empty()
    } else {
        (match find_ord(ss, ks[0]) {
            Some(n) => seq![(ks[0], n)],
            None => Seq::empty(),
        }) + ords_spec(ss, ks.skip(1))
    }
}

/// The pairs of an executable ordinal vector.
pub open spec fn ords_view(ps: Seq<(Vec<u8>, usize)>) -> Seq<(Seq<u8>, int)> {
    Seq::new(ps.len(), |i: int| (ps[i].0@, ps[i].1 as int))
}

/// Does this entry's key read as one of `keys`?
fn entry_matches_any(e: &Entry, keys: &Vec<Vec<u8>>) -> (r: bool)
    ensures
        r == key_in(keys_view(keys@), entry_key(e@)),
{
    let kr = crate::escape::unescape_text(&e.key);
    let mut i: usize = 0;
    while i < keys.len()
        invariant
            i <= keys@.len(),
            kr@ == entry_key(e@),
            forall|j: int| 0 <= j < i ==> keys_view(keys@)[j] != entry_key(e@),
        decreases keys@.len() - i,
    {
        if eq_bytes(&keys[i], &kr) {
            proof {
                assert(keys_view(keys@)[i as int] == entry_key(e@));
            }
            return true;
        }
        i = i + 1;
    }
    false
}

/// Removes every entry whose key is listed, along with the whitespace-only
/// run standing immediately before each one, and reports, per listed key
/// the document held, the ordinal rank it occupied. Missing keys are
/// skipped silently.
pub fn remove_entries(d: &Document, keys: &Vec<Vec<u8>>) -> (r: (Document, Vec<(Vec<u8>, usize)>))
    requires
        doc_wf(d@),
    ensures
        r.0@.has_bom == d@.has_bom,
        r.0@.segs == remove_segs_multi(d@.segs, keys_view(keys@)),
        doc_wf(r.0@),
        ords_view(r.1@) == ords_spec(d@.segs, keys_view(keys@)),
{
    let ghost kv = keys_view(keys@);
    let mut ords: Vec<(Vec<u8>, usize)> = Vec::new();
    let mut i: usize = 0;
    proof {
        assert(ords_view(ords@) =~= Seq::<(Seq<u8>, int)>::empty());
        assert(ords_view(ords@) + ords_spec(d@.segs, kv.skip(0)) =~= ords_spec(d@.segs, kv)) by {
            assert(kv.skip(0) =~= kv);
        }
    }
    while i < keys.len()
        invariant
            i <= keys@.len(),
            ords_spec(d@.segs, keys_view(keys@)) == ords_view(ords@) + ords_spec(
                d@.segs,
                keys_view(keys@).skip(i as int),
            ),
        decreases keys@.len() - i,
    {
        let ghost pre = ords_view(ords@);
        proof {
            assert(kv.skip(i as int).len() > 0);
            assert(kv.skip(i as int)[0] == kv[i as int]);
            assert(kv.skip(i as int).skip(1) =~= kv.skip(i + 1));
        }
        match find_ordinal(d, &keys[i]) {
            Some(n) => {
                ords.push((copy_bytes(&keys[i]), n));
                proof {
                    assert(ords_view(ords@) =~= pre + seq![(kv[i as int], n as int)]);
                    assert(pre + (seq![(kv[i as int], n as int)] + ords_spec(
                        d@.segs,
                        kv.skip(i + 1),
                    )) =~= ords_view(ords@) + ords_spec(d@.segs, kv.skip(i + 1)));
                }
            },
            None => {
                proof {
                    assert(Seq::<(Seq<u8>, int)>::empty() + ords_spec(d@.segs, kv.skip(i + 1))
                        =~= ords_spec(d@.segs, kv.skip(i + 1)));
                }
            },
        }
        i = i + 1;
    }
    proof {
        assert(kv.skip(keys@.len() as int) =~= Seq::<Seq<u8>>::empty());
        assert(ords_view(ords@) + Seq::<(Seq<u8>, int)>::empty() =~= ords_view(ords@));
    }
    let ghost sv = segs_view(d.segs@);
    let mut segs: Vec<Seg> = Vec::new();
    let mut p: usize = 0;
    proof {
        assert(sv.skip(0) =~= sv);
        assert(segs_view(segs@) + remove_segs_multi(sv.skip(0), kv) =~= remove_segs_multi(sv, kv));
    }
    while p < d.segs.len()
        invariant
            p <= d.segs@.len(),
            remove_segs_multi(segs_view(d.segs@), keys_view(keys@)) == segs_view(segs@)
                + remove_segs_multi(segs_view(d.segs@).skip(p as int), keys_view(keys@)),
            forall|j: int|
                0 <= j < segs_view(segs@).len() ==> seg_wf(#[trigger] segs_view(segs@)[j]),
        decreases d.segs@.len() - p,
    {
        let ghost spre = segs_view(segs@);
        proof {
            assert(sv.skip(p as int).len() > 0);
            assert(sv.skip(p as int)[0] == sv[p as int]);
            assert(sv.skip(p as int).skip(1) =~= sv.skip(p + 1));
            if sv.skip(p as int).len() >= 2 {
                assert(sv.skip(p as int)[1] == sv[p + 1]);
            }
        }
        let s = &d.segs[p];
        let drop_here = match s {
            Seg::Item(e) => entry_matches_any(e, keys),
            _ => false,
        };
        if drop_here {
        } else {
            let mut drop_ws = false;
            if p + 1 < d.segs.len() {
                if seg_is_ws_chars(s) {
                    match &d.segs[p + 1] {
                        Seg::Item(e2) => {
                            drop_ws = entry_matches_any(e2, keys);
                        },
                        _ => {},
                    }
                }
            }
            if !drop_ws {
                segs.push(copy_seg(s));
                proof {
                    assert(segs_view(segs@) =~= spre.push(sv[p as int]));
                    assert(spre.push(sv[p as int]) + remove_segs_multi(sv.skip(p + 1), kv) =~= spre
                        + (seq![sv[p as int]] + remove_segs_multi(sv.skip(p + 1), kv)));
                    assert(seg_wf(sv[p as int]));
                }
            }
        }
        p = p + 1;
    }
    proof {
        assert(sv.skip(d.segs@.len() as int) =~= Seq::<SegModel>::empty());
        assert(segs_view(segs@) + remove_segs_multi(Seq::<SegModel>::empty(), kv) =~= segs_view(
            segs@,
        ));
    }
    (Document { has_bom: d.has_bom, segs }, ords)
}

} // verus!
