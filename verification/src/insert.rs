//! Entry insertion: synthesizing a well-formed entry element and splicing it
//! in front of the entry at a requested ordinal rank, or immediately before
//! the closing root tag when the rank exceeds the entry count. Batch
//! insertion applies point inserts over a stably sorted item list.
use vstd::prelude::*;
use crate::escape::{
    attr_escape, escape_min, lemma_attr_escape_clean, lemma_escape_no_lt,
};
use crate::model::{
    data_close_at, data_start_at, doc_wf, entry_wf, inert, is_item, item_count, seg_bytes, seg_wf,
    segs_view, value_close_at, value_start_at, ws_only, wsb, Document, Entry, EntryModel,
    ResxError, Seg, SegModel, B_LT,
};
use crate::util::{
    blank_prefix, blank_suffix, copy_bytes, copy_seg, eq_bytes, push_bytes, take_blank_suffix,
    trim_end, trim_end_ws,
};

verus! {

/// `<data name="`
pub open spec fn open_pre_lit() -> Seq<u8> {
    seq![60u8, 100u8, 97u8, 116u8, 97u8, 32u8, 110u8, 97u8, 109u8, 101u8, 61u8, 34u8]
}

/// `" xml:space="preserve">`
pub open spec fn open_post_lit() -> Seq<u8> {
    seq![
        34u8, 32u8, 120u8, 109u8, 108u8, 58u8, 115u8, 112u8, 97u8, 99u8, 101u8, 61u8, 34u8, 112u8,
        114u8, 101u8, 115u8, 101u8, 114u8, 118u8, 101u8, 34u8, 62u8,
    ]
}

/// `<value>`
pub open spec fn vopen_lit() -> Seq<u8> {
    seq![60u8, 118u8, 97u8, 108u8, 117u8, 101u8, 62u8]
}

/// `</value>`
pub open spec fn vclose_lit() -> Seq<u8> {
    seq![60u8, 47u8, 118u8, 97u8, 108u8, 117u8, 101u8, 62u8]
}

/// `</data>`
pub open spec fn close_lit() -> Seq<u8> {
    seq![60u8, 47u8, 100u8, 97u8, 116u8, 97u8, 62u8]
}

/// `</root>`
pub open spec fn root_close_lit() -> Seq<u8> {
    seq![60u8, 47u8, 114u8, 111u8, 111u8, 116u8, 62u8]
}

/// The entry element synthesized for a new key and value: fixed tag shapes,
/// escaped key and value, and caller-chosen whitespace runs around the value
/// line.
pub open spec fn synth_entry(k: Seq<u8>, v: Seq<u8>, mid: Seq<u8>, post: Seq<u8>) -> EntryModel {
    EntryModel {
        open_pre: open_pre_lit(),
        key: attr_escape(k),
        open_post: open_post_lit(),
        mid: mid,
        vopen: vopen_lit(),
        text: escape_min(v),
        vclose: vclose_lit(),
        post: post,
        close: close_lit(),
    }
}

/// Whitespace starts no tag at all.
pub proof fn lemma_ws_inert(s: Seq<u8>)
    requires
        ws_only(s),
    ensures
        inert(s),
{
    assert forall|i: int|
        !data_start_at(s, i) && !data_close_at(s, i) && !value_start_at(s, i) && !value_close_at(
            s,
            i,
        ) by {
        if data_start_at(s, i) {
            assert(s.subrange(i, i + 5)[0] == 60u8);
            assert(wsb(s[i]));
        }
        if data_close_at(s, i) {
            assert(s.subrange(i, i + 6)[0] == 60u8);
            assert(wsb(s[i]));
        }
        if value_start_at(s, i) {
            assert(s.subrange(i, i + 6)[0] == 60u8);
            assert(wsb(s[i]));
        }
        if value_close_at(s, i) {
            assert(s.subrange(i, i + 7)[0] == 60u8);
            assert(wsb(s[i]));
        }
    }
}

/// A synthesized entry is well formed whenever its whitespace runs are
/// whitespace.
pub proof fn lemma_synth_wf(k: Seq<u8>, v: Seq<u8>, mid: Seq<u8>, post: Seq<u8>)
    requires
        ws_only(mid),
        ws_only(post),
    ensures
        entry_wf(synth_entry(k, v, mid, post)),
{
    let e = synth_entry(k, v, mid, post);
    lemma_attr_escape_clean(k);
    lemma_escape_no_lt(v);
    lemma_ws_inert(mid);
    lemma_ws_inert(post);
    assert(e.open_pre.subrange(0, 5) =~= crate::model::data_open_pat());
    assert(e.open_pre.subrange(e.open_pre.len() - 7, e.open_pre.len() as int)
        =~= crate::model::name_pat());
    assert(e.vopen.subrange(0, 6) =~= crate::model::value_open_pat());
    assert(e.vclose.subrange(0, 7) =~= crate::model::value_close_pat());
    assert(e.close.subrange(0, 6) =~= crate::model::data_close_pat());
    assert(entry_wf(e));
}

/// Builds the `<data name="` bytes.
fn lit_open_pre() -> (r: Vec<u8>)
    ensures
        r@ == open_pre_lit(),
{
    let mut v: Vec<u8> = Vec::new();
    v.push(60);
    v.push(100);
    v.push(97);
    v.push(116);
    v.push(97);
    v.push(32);
    v.push(110);
    v.push(97);
    v.push(109);
    v.push(101);
    v.push(61);
    v.push(34);
    assert(v@ =~= open_pre_lit());
    v
}

/// Builds the `" xml:space="preserve">` bytes.
fn lit_open_post() -> (r: Vec<u8>)
    ensures
        r@ == open_post_lit(),
{
    let mut v: Vec<u8> = Vec::new();
    v.push(34);
    v.push(32);
    v.push(120);
    v.push(109);
    v.push(108);
    v.push(58);
    v.push(115);
    v.push(112);
    v.push(97);
    v.push(99);
    v.push(101);
    v.push(61);
    v.push(34);
    v.push(112);
    v.push(114);
    v.push(101);
    v.push(115);
    v.push(101);
    v.push(114);
    v.push(118);
    v.push(101);
    v.push(34);
    v.push(62);
    assert(v@ =~= open_post_lit());
    v
}

/// Builds the `<value>` bytes.
fn lit_vopen() -> (r: Vec<u8>)
    ensures
        r@ == vopen_lit(),
{
    let mut v: Vec<u8> = Vec::new();
    v.push(60);
    v.push(118);
    v.push(97);
    v.push(108);
    v.push(117);
    v.push(101);
    v.push(62);
    assert(v@ =~= vopen_lit());
    v
}

/// Builds the `</value>` bytes.
fn lit_vclose() -> (r: Vec<u8>)
    ensures
        r@ == vclose_lit(),
{
    let mut v: Vec<u8> = Vec::new();
    v.push(60);
    v.push(47);
    v.push(118);
    v.push(97);
    v.push(108);
    v.push(117);
    v.push(101);
    v.push(62);
    assert(v@ =~= vclose_lit());
    v
}

/// Builds the `</data>` bytes.
fn lit_close() -> (r: Vec<u8>)
    ensures
        r@ == close_lit(),
{
    let mut v: Vec<u8> = Vec::new();
    v.push(60);
    v.push(47);
    v.push(100);
    v.push(97);
    v.push(116);
    v.push(97);
    v.push(62);
    assert(v@ =~= close_lit());
    v
}

/// Builds the `</root>` bytes.
fn lit_root_close() -> (r: Vec<u8>)
    ensures
        r@ == root_close_lit(),
{
    let mut v: Vec<u8> = Vec::new();
    v.push(60);
    v.push(47);
    v.push(114);
    v.push(111);
    v.push(111);
    v.push(116);
    v.push(62);
    assert(v@ =~= root_close_lit());
    v
}

/// Builds a synthesized entry.
fn build_synth(key: &Vec<u8>, value: &Vec<u8>, mid: Vec<u8>, post: Vec<u8>) -> (r: Entry)
    ensures
        r@ == synth_entry(key@, value@, mid@, post@),
{
    Entry {
        open_pre: lit_open_pre(),
        key: crate::escape::escape_attr_value(key),
        open_post: lit_open_post(),
        mid,
        vopen: lit_vopen(),
        text: crate::escape::escape_text(value),
        vclose: lit_vclose(),
        post,
        close: lit_close(),
    }
}

/// The segment position of the entry with ordinal rank `n`.
pub open spec fn item_pos(ss: Seq<SegModel>, n: int) -> int
    decreases ss.len(),
{
    if ss.len() == 0 {
        0
    } else if is_item(ss[0]) {
        if n == 0 {
            0
        } else {
            1 + item_pos(ss.skip(1), n - 1)
        }
    } else {
        1 + item_pos(ss.skip(1), n)
    }
}

/// The position of the last closing root tag, if any.
pub open spec fn root_close_pos(ss: Seq<SegModel>) -> Option<int>
    decreases ss.len(),
{
    if ss.len() == 0 {
        None
    } else if ss.last() == SegModel::Markup(root_close_lit()) {
        Some(ss.len() - 1)
    } else {
        root_close_pos(ss.drop_last())
    }
}

/// The indentation in force just before segment position `p`, in three
/// steps: the trailing blank run of the preceding character data; when that
/// is empty, the blank run immediately following the splice point; when
/// that too is empty, the inferred unit. A point insert splices directly in
/// front of an entry element, whose first byte is `<`, so the middle step
/// contributes nothing there today; it stands because it is part of the
/// stated policy, for any splice point that does open with blanks.
#[verifier::opaque]
pub open spec fn local_indent(ss: Seq<SegModel>, p: int, unit: Seq<u8>) -> Seq<u8> {
    let before = if p > 0 && 0 < ss.len() && p <= ss.len() && (ss[p - 1] is Chars) {
        blank_suffix(ss[p - 1]->Chars_0)
    } else {
        Seq::empty()
    };
    let after = if 0 <= p < ss.len() {
        blank_prefix(seg_bytes(ss[p]))
    } else {
        Seq::empty()
    };
    if before.len() > 0 {
        before
    } else if after.len() > 0 {
        after
    } else {
        unit
    }
}

/// A point insert can be carried out: either the rank names an existing
/// entry, or there is a closing root tag to append in front of.
pub open spec fn insert_point_ok(ss: Seq<SegModel>, idx: int) -> bool {
    idx < item_count(ss) || root_close_pos(ss) is Some
}

/// The segment sequence after a point insert of `(k, v)` at rank `idx`,
/// with line ending `eol` and indentation unit `unit`.
pub open spec fn insert_point_segs(
    ss: Seq<SegModel>,
    k: Seq<u8>,
    v: Seq<u8>,
    idx: int,
    eol: Seq<u8>,
    unit: Seq<u8>,
) -> Seq<SegModel> {
    if idx < item_count(ss) {
        let p = item_pos(ss, idx);
        let ind = local_indent(ss, p, unit);
        let ne = synth_entry(k, v, eol + ind + unit, eol + ind);
        ss.take(p) + seq![SegModel::Item(ne), SegModel::Chars(eol + ind)] + ss.skip(p)
    } else {
        let ne = synth_entry(k, v, eol + unit + unit, eol + unit);
        match root_close_pos(ss) {
            Some(m) => {
                if m > 0 && (ss[m - 1] is Chars) {
                    let tb = trim_end_ws(ss[m - 1]->Chars_0);
                    ss.take(m - 1) + seq![
                        SegModel::Chars(tb + eol + unit),
                        SegModel::Item(ne),
                        SegModel::Chars(eol),
                    ] + ss.skip(m)
                } else {
                    ss.take(m) + seq![
                        SegModel::Chars(eol + unit),
                        SegModel::Item(ne),
                        SegModel::Chars(eol),
                    ] + ss.skip(m)
                }
            },
            None => ss,
        }
    }
}

/// Counts the entry elements of the document.
pub fn count_items(d: &Document) -> (r: usize)
    ensures
        r == item_count(d@.segs),
{
    let ghost sv = segs_view(d.segs@);
    let mut c: usize = 0;
    let mut i: usize = 0;
    proof {
        assert(sv.skip(0) =~= sv);
    }
    while i < d.segs.len()
        invariant
            i <= d.segs@.len(),
            c <= i,
            item_count(segs_view(d.segs@)) == c + item_count(segs_view(d.segs@).skip(i as int)),
        decreases d.segs@.len() - i,
    {
        proof {
            assert(sv.skip(i as int).len() > 0);
            assert(sv.skip(i as int)[0] == sv[i as int]);
            assert(sv.skip(i as int).skip(1) =~= sv.skip(i + 1));
        }
        match &d.segs[i] {
            Seg::Item(_) => {
                c = c + 1;
            },
            _ => {},
        }
        i = i + 1;
    }
    proof {
        assert(sv.skip(d.segs@.len() as int) =~= Seq::<SegModel>::empty());
    }
    c
}

/// Finds the segment position of the entry with ordinal rank `n`.
fn find_item_pos(d: &Document, n: usize) -> (r: usize)
    requires
        n < item_count(d@.segs),
    ensures
        r < d.segs@.len(),
        r == item_pos(d@.segs, n as int),
        is_item(d@.segs[r as int]),
{
    let ghost sv = segs_view(d.segs@);
    let mut c: usize = 0;
    let mut i: usize = 0;
    proof {
        assert(sv.skip(0) =~= sv);
    }
    while i < d.segs.len()
        invariant
            i <= d.segs@.len(),
            c <= i,
            c <= n,
            item_count(segs_view(d.segs@)) == c + item_count(segs_view(d.segs@).skip(i as int)),
            item_pos(segs_view(d.segs@), n as int) == i + item_pos(
                segs_view(d.segs@).skip(i as int),
                n - c,
            ),
        decreases d.segs@.len() - i,
    {
        proof {
            assert(sv.skip(i as int).len() > 0);
            assert(sv.skip(i as int)[0] == sv[i as int]);
            assert(sv.skip(i as int).skip(1) =~= sv.skip(i + 1));
        }
        match &d.segs[i] {
            Seg::Item(_) => {
                if c == n {
                    return i;
                }
                c = c + 1;
            },
            _ => {},
        }
        i = i + 1;
    }
    proof {
        assert(sv.skip(d.segs@.len() as int) =~= Seq::<SegModel>::empty());
        assert(false);
    }
    0
}

/// Finds the position of the last closing root tag.
fn find_root_close(d: &Document) -> (r: Option<usize>)
    ensures
        match r {
            Some(m) => m < d.segs@.len() && root_close_pos(d@.segs) == Some(m as int),
            None => root_close_pos(d@.segs) is None,
        },
{
    let ghost sv = segs_view(d.segs@);
    let lit = lit_root_close();
    let mut m: usize = d.segs.len();
    proof {
        assert(sv.take(d.segs@.len() as int) =~= sv);
    }
    while m > 0
        invariant
            m <= d.segs@.len(),
            root_close_pos(segs_view(d.segs@)) == root_close_pos(
                segs_view(d.segs@).take(m as int),
            ),
        decreases m,
    {
        proof {
            assert(sv.take(m as int).len() == m);
            assert(sv.take(m as int).last() == sv[m - 1]);
            assert(sv.take(m as int).drop_last() =~= sv.take(m - 1));
        }
        let hit = match &d.segs[m - 1] {
            Seg::Markup(b) => eq_bytes(b, &lit),
            _ => false,
        };
        if hit {
            return Some(m - 1);
        }
        m = m - 1;
    }
    proof {
        assert(sv.take(0) =~= Seq::<SegModel>::empty());
    }
    None
}

/// Appends copies of the segments of `src` from `a` to `b` onto `out`.
fn push_seg_range(out: &mut Vec<Seg>, src: &Vec<Seg>, a: usize, b: usize)
    requires
        a <= b <= src@.len(),
    ensures
        segs_view(final(out)@) == segs_view(old(out)@) + segs_view(src@).subrange(
            a as int,
            b as int,
        ),
{
    let ghost base = segs_view(out@);
    let mut i: usize = a;
    proof {
        assert(segs_view(out@) =~= base + segs_view(src@).subrange(a as int, a as int));
    }
    while i < b
        invariant
            a <= i <= b,
            segs_view(out@) == base + segs_view(src@).subrange(a as int, i as int),
        decreases b - i,
    {
        let ghost pre = segs_view(out@);
        let s = copy_seg(&src[i]);
        proof {
            assert(s@ == segs_view(src@)[i as int]);
        }
        out.push(s);
        proof {
            assert(segs_view(out@) =~= pre.push(segs_view(src@)[i as int]));
            assert(segs_view(src@).subrange(a as int, i + 1) =~= segs_view(src@).subrange(
                a as int,
                i as int,
            ).push(segs_view(src@)[i as int]));
            assert(segs_view(out@) =~= base + segs_view(src@).subrange(a as int, i + 1));
        }
        i = i + 1;
    }
}

/// Splices a synthesized entry for `(key, value)` in front of the entry at
/// rank `index`, or in front of the closing root tag when `index` is past
/// the last entry. Fails exactly when an append is needed and the document
/// has no closing root tag.
pub fn insert_entry(
    d: &Document,
    key: &Vec<u8>,
    value: &Vec<u8>,
    index: usize,
    eol: &Vec<u8>,
    unit: &Vec<u8>,
) -> (r: Result<Document, ResxError>)
    requires
        doc_wf(d@),
        ws_only(eol@),
        eol@.len() > 0,
        ws_only(unit@),
    ensures
        match r {
            Ok(nd) => {
                &&& insert_point_ok(d@.segs, index as int)
                &&& nd@.has_bom == d@.has_bom
                &&& nd@.segs == insert_point_segs(
                    d@.segs,
                    key@,
                    value@,
                    index as int,
                    eol@,
                    unit@,
                )
                &&& doc_wf(nd@)
            },
            Err(er) => er is Malformed && !insert_point_ok(d@.segs, index as int),
        },
{
    let ghost sv = segs_view(d.segs@);
    let cnt = count_items(d);
    let mut segs: Vec<Seg> = Vec::new();
    if index < cnt {
        let p = find_item_pos(d, index);
        let ind: Vec<u8> = if p > 0 {
            match &d.segs[p - 1] {
                Seg::Chars(b) => {
                    let sfx = take_blank_suffix(b);
                    if sfx.len() > 0 {
                        sfx
                    } else {
                        copy_bytes(unit)
                    }
                },
                _ => copy_bytes(unit),
            }
        } else {
            copy_bytes(unit)
        };
        proof {
            reveal(local_indent);
            assert(blank_prefix(seg_bytes(sv[p as int])).len() == 0) by {
                let e = sv[p as int]->Item_0;
                assert(entry_wf(e));
                assert(e.open_pre[0] == 60u8) by {
                    assert(e.open_pre.subrange(0, 5)[0] == 60u8);
                }
                assert(seg_bytes(sv[p as int])[0] == 60u8);
                assert(!crate::model::blank(60u8));
            }
            assert(ind@ == local_indent(sv, p as int, unit@));
            assert(ws_only(ind@)) by {
                if p > 0 && sv[p - 1] is Chars && blank_suffix(sv[p - 1]->Chars_0).len() > 0 {
                    let b = sv[p - 1]->Chars_0;
                    assert(forall|j: int|
                        0 <= j < blank_suffix(b).len() ==> crate::model::blank(
                            #[trigger] blank_suffix(b)[j],
                        )) by {
                        lemma_blank_suffix_blank(b);
                    }
                }
            }
        }
        let mut mid = copy_bytes(eol);
        push_bytes(&mut mid, &ind);
        push_bytes(&mut mid, unit);
        let mut post = copy_bytes(eol);
        push_bytes(&mut post, &ind);
        let mut lead = copy_bytes(eol);
        push_bytes(&mut lead, &ind);
        proof {
            assert(ws_only(mid@));
            assert(ws_only(post@));
            lemma_synth_wf(key@, value@, mid@, post@);
        }
        let ne = build_synth(key, value, mid, post);
        push_seg_range(&mut segs, &d.segs, 0, p);
        segs.push(Seg::Item(ne));
        segs.push(Seg::Chars(lead));
        push_seg_range(&mut segs, &d.segs, p, d.segs.len());
        let nd = Document { has_bom: d.has_bom, segs };
        proof {
            assert(sv.subrange(0, p as int) =~= sv.take(p as int));
            assert(sv.subrange(p as int, sv.len() as int) =~= sv.skip(p as int));
            assert(nd@.segs =~= insert_point_segs(sv, key@, value@, index as int, eol@, unit@));
            assert(doc_wf(nd@)) by {
                assert(forall|j: int|
                    0 <= j < sv.len() ==> seg_wf(#[trigger] sv[j]));
                assert forall|j: int| 0 <= j < nd@.segs.len() implies seg_wf(
                    #[trigger] nd@.segs[j],
                ) by {
                    if j < p {
                        assert(nd@.segs[j] == sv[j]);
                    } else if j >= p + 2 {
                        assert(nd@.segs[j] == sv[j - 2]);
                    }
                }
            }
        }
        Ok(nd)
    } else {
        match find_root_close(d) {
            Some(m) => {
                let mut mid = copy_bytes(eol);
                push_bytes(&mut mid, unit);
                push_bytes(&mut mid, unit);
                let mut post = copy_bytes(eol);
                push_bytes(&mut post, unit);
                proof {
                    assert(ws_only(mid@));
                    assert(ws_only(post@));
                    lemma_synth_wf(key@, value@, mid@, post@);
                }
                let ne = build_synth(key, value, mid, post);
                let trail = copy_bytes(eol);
                let trimmed: bool = m > 0 && matches!(&d.segs[m - 1], Seg::Chars(_));
                if trimmed {
                    let lead: Vec<u8> = match &d.segs[m - 1] {
                        Seg::Chars(b) => {
                            let mut tb = trim_end(b);
                            push_bytes(&mut tb, eol);
                            push_bytes(&mut tb, unit);
                            tb
                        },
                        _ => Vec::new(),
                    };
                    push_seg_range(&mut segs, &d.segs, 0, m - 1);
                    segs.push(Seg::Chars(lead));
                    segs.push(Seg::Item(ne));
                    segs.push(Seg::Chars(trail));
                    push_seg_range(&mut segs, &d.segs, m, d.segs.len());
                } else {
                    push_seg_range(&mut segs, &d.segs, 0, m);
                    let mut lead = copy_bytes(eol);
                    push_bytes(&mut lead, unit);
                    segs.push(Seg::Chars(lead));
                    segs.push(Seg::Item(ne));
                    segs.push(Seg::Chars(trail));
                    push_seg_range(&mut segs, &d.segs, m, d.segs.len());
                }
                let nd = Document { has_bom: d.has_bom, segs };
                proof {
                    if trimmed {
                        assert(sv.subrange(0, m - 1) =~= sv.take(m - 1));
                        assert(sv.subrange(m as int, sv.len() as int) =~= sv.skip(m as int));
                        assert(seg_wf(sv[m - 1]));
                        lemma_trim_end_prefix(sv[m - 1]->Chars_0);
                    } else {
                        assert(sv.subrange(0, m as int) =~= sv.take(m as int));
                        assert(sv.subrange(m as int, sv.len() as int) =~= sv.skip(m as int));
                    }
                    assert(nd@.segs =~= insert_point_segs(
                        sv,
                        key@,
                        value@,
                        index as int,
                        eol@,
                        unit@,
                    ));
                    assert(mid@ =~= eol@ + unit@ + unit@);
                    assert(post@ =~= eol@ + unit@);
                    assert(doc_wf(nd@)) by {
                        assert(forall|j: int|
                            0 <= j < sv.len() ==> seg_wf(#[trigger] sv[j]));
                        let base = if trimmed {
                            m - 1
                        } else {
                            m as int
                        };
                        let ne_spec = synth_entry(key@, value@, eol@ + unit@ + unit@, eol@ + unit@);
                        assert(entry_wf(ne_spec));
                        assert forall|j: int| 0 <= j < nd@.segs.len() implies seg_wf(
                            #[trigger] nd@.segs[j],
                        ) by {
                            if j < base {
                                assert(nd@.segs[j] == sv[j]);
                            } else if j == base {
                                if trimmed {
                                    let b = sv[m - 1]->Chars_0;
                                    let tb = trim_end_ws(b);
                                    assert(nd@.segs[j] == SegModel::Chars(tb + eol@ + unit@));
                                    assert(seg_wf(sv[m - 1]));
                                    assert forall|i: int|
                                        0 <= i < (tb + eol@ + unit@).len() implies (tb + eol@
                                        + unit@)[i] != B_LT by {
                                        if i < tb.len() {
                                            assert((tb + eol@ + unit@)[i] == tb[i]);
                                            assert(tb[i] == b[i]);
                                        } else if i < tb.len() + eol@.len() {
                                            assert((tb + eol@ + unit@)[i] == eol@[i - tb.len()]);
                                            assert(wsb(eol@[i - tb.len()]));
                                        } else {
                                            assert((tb + eol@ + unit@)[i] == unit@[i - tb.len()
                                                - eol@.len()]);
                                            assert(wsb(unit@[i - tb.len() - eol@.len()]));
                                        }
                                    }
                                    assert((tb + eol@ + unit@).len() > 0);
                                } else {
                                    assert(nd@.segs[j] == SegModel::Chars(eol@ + unit@));
                                    assert forall|i: int|
                                        0 <= i < (eol@ + unit@).len() implies (eol@ + unit@)[i]
                                        != B_LT by {
                                        if i < eol@.len() {
                                            assert(wsb(eol@[i]));
                                        } else {
                                            assert(wsb(unit@[i - eol@.len()]));
                                        }
                                    }
                                }
                            } else if j == base + 1 {
                                assert(nd@.segs[j] == SegModel::Item(ne_spec));
                            } else if j == base + 2 {
                                assert(nd@.segs[j] == SegModel::Chars(eol@));
                                assert(forall|i: int| 0 <= i < eol@.len() ==> eol@[i] != B_LT);
                            } else {
                                assert(nd@.segs[j] == sv[j - 3 + (if trimmed {
                                    1int
                                } else {
                                    0int
                                })]);
                            }
                        }
                    }
                }
                Ok(nd)
            },
            None => Err(ResxError::Malformed),
        }
    }
}

/// Trimmed character data is a prefix of what it was.
proof fn lemma_trim_end_prefix(b: Seq<u8>)
    ensures
        trim_end_ws(b).len() <= b.len(),
        forall|i: int| 0 <= i < trim_end_ws(b).len() ==> trim_end_ws(b)[i] == b[i],
    decreases b.len(),
{
    if b.len() > 0 && wsb(b.last()) {
        lemma_trim_end_prefix(b.drop_last());
        assert(forall|i: int| 0 <= i < b.len() - 1 ==> b.drop_last()[i] == b[i]);
    }
}

/// Every byte of a blank suffix is blank.
proof fn lemma_blank_suffix_blank(b: Seq<u8>)
    ensures
        forall|j: int|
            0 <= j < blank_suffix(b).len() ==> crate::model::blank(#[trigger] blank_suffix(b)[j]),
    decreases b.len(),
{
    if b.len() > 0 && crate::model::blank(b.last()) {
        lemma_blank_suffix_blank(b.drop_last());
        assert forall|j: int|
            0 <= j < blank_suffix(b).len() implies crate::model::blank(
            #[trigger] blank_suffix(b)[j],
        ) by {
            if j < blank_suffix(b.drop_last()).len() {
                assert(blank_suffix(b)[j] == blank_suffix(b.drop_last())[j]);
            } else {
                assert(blank_suffix(b)[j] == b.last());
            }
        }
    } else {
        assert(blank_suffix(b).len() == 0);
    }
}

/// One requested batch insertion: a key, a value, and a target ordinal rank.
pub struct ResxInsert {
    pub key: Vec<u8>,
    pub value: Vec<u8>,
    pub index: usize,
}

impl View for ResxInsert {
    type V = (Seq<u8>, Seq<u8>, int);

    open spec fn view(&self) -> (Seq<u8>, Seq<u8>, int) {
        (self.key@, self.value@, self.index as int)
    }
}

/// The models of an executable item vector.
pub open spec fn items_view(v: Seq<ResxInsert>) -> Seq<(Seq<u8>, Seq<u8>, int)> {
    Seq::new(v.len(), |i: int| v[i]@)
}

/// Inserts `x` behind every element whose rank does not exceed its own:
/// one step of a stable insertion sort by target rank.
pub open spec fn ins_sorted(s: Seq<(Seq<u8>, Seq<u8>, int)>, x: (Seq<u8>, Seq<u8>, int)) -> Seq<
    (Seq<u8>, Seq<u8>, int),
>
    decreases s.len(),
{
    if s.len() == 0 {
        seq![x]
    } else if s.last().2 <= x.2 {
        s.push(x)
    } else {
        ins_sorted(s.drop_last(), x).push(s.last())
    }
}

/// The items sorted by ascending target rank, caller order kept for ties.
pub open spec fn stable_sorted(s: Seq<(Seq<u8>, Seq<u8>, int)>) -> Seq<(Seq<u8>, Seq<u8>, int)>
    decreases s.len(),
{
    if s.len() == 0 {
        Seq::empty()
    } else {
        ins_sorted(stable_sorted(s.drop_last()), s.last())
    }
}

proof fn lemma_ins_sorted_split(s: Seq<(Seq<u8>, Seq<u8>, int)>, x: (Seq<u8>, Seq<u8>, int), j: int)
    requires
        0 <= j <= s.len(),
        forall|m: int| j <= m < s.len() ==> s[m].2 > x.2,
        j > 0 ==> s[j - 1].2 <= x.2,
    ensures
        ins_sorted(s, x) == s.take(j) + seq![x] + s.skip(j),
    decreases s.len(),
{
    if s.len() == 0 {
        assert(ins_sorted(s, x) =~= s.take(j) + seq![x] + s.skip(j));
    } else if s.last().2 <= x.2 {
        assert(j == s.len()) by {
            if j < s.len() {
                assert(s[s.len() - 1].2 > x.2);
            }
        }
        assert(ins_sorted(s, x) =~= s.take(j) + seq![x] + s.skip(j));
    } else {
        assert(j < s.len());
        assert(s.drop_last() =~= s.take(s.len() - 1));
        lemma_ins_sorted_split(s.drop_last(), x, j);
        assert(s.drop_last().take(j) =~= s.take(j));
        assert(ins_sorted(s, x) =~= s.take(j) + seq![x] + s.skip(j));
    }
}

/// Copies one item.
fn copy_item(it: &ResxInsert) -> (r: ResxInsert)
    ensures
        r@ == it@,
{
    ResxInsert { key: copy_bytes(&it.key), value: copy_bytes(&it.value), index: it.index }
}

/// Sorts the items by ascending target rank, keeping caller order for ties.
fn sort_items(items: &Vec<ResxInsert>) -> (r: Vec<ResxInsert>)
    ensures
        items_view(r@) == stable_sorted(items_view(items@)),
        r@.len() == items@.len(),
{
    let ghost iv = items_view(items@);
    let mut out: Vec<ResxInsert> = Vec::new();
    let mut i: usize = 0;
    proof {
        assert(items_view(out@) =~= stable_sorted(iv.take(0)));
    }
    while i < items.len()
        invariant
            i <= items@.len(),
            out@.len() == i,
            items_view(out@) == stable_sorted(items_view(items@).take(i as int)),
        decreases items@.len() - i,
    {
        let ghost ov = items_view(out@);
        let x = copy_item(&items[i]);
        let ghost xv = x@;
        let mut j: usize = out.len();
        while j > 0
            invariant
                j <= out@.len(),
                forall|m: int| j <= m < out@.len() ==> items_view(out@)[m].2 > xv.2,
            decreases j,
        {
            if out[j - 1].index > x.index {
                j = j - 1;
            } else {
                break;
            }
        }
        proof {
            lemma_ins_sorted_split(ov, xv, j as int);
        }
        out.insert(j, x);
        proof {
            assert(items_view(out@) =~= ov.take(j as int) + seq![xv] + ov.skip(j as int));
            assert(iv.take(i + 1).drop_last() =~= iv.take(i as int));
            assert(iv.take(i + 1).last() == iv[i as int]);
            assert(xv == iv[i as int]);
            assert(items_view(out@) =~= stable_sorted(iv.take(i + 1)));
        }
        i = i + 1;
    }
    proof {
        assert(iv.take(iv.len() as int) =~= iv);
    }
    out
}

/// The target rank an item uses once `j` earlier items have gone in: ranks
/// past the original entry count append; others shift by the insertions
/// already made before them.
pub open spec fn batch_target(ss: Seq<SegModel>, raw: int, j: int, c0: int) -> int {
    if raw >= c0 {
        item_count(ss)
    } else {
        raw + j
    }
}

/// The result of applying the sorted items one point insert at a time, or
/// nothing if some append finds no closing root tag.
pub open spec fn batch_fold(
    ss: Seq<SegModel>,
    items: Seq<(Seq<u8>, Seq<u8>, int)>,
    j: int,
    c0: int,
    eol: Seq<u8>,
    unit: Seq<u8>,
) -> Option<Seq<SegModel>>
    decreases items.len() - j,
{
    if j < 0 || j >= items.len() {
        Some(ss)
    } else {
        let tgt = batch_target(ss, items[j].2, j, c0);
        if insert_point_ok(ss, tgt) {
            batch_fold(
                insert_point_segs(ss, items[j].0, items[j].1, tgt, eol, unit),
                items,
                j + 1,
                c0,
                eol,
                unit,
            )
        } else {
            None
        }
    }
}

/// Applies every requested insertion in one call: items sorted by ascending
/// target rank, caller order kept for ties, each spliced as a point insert.
/// Fails exactly when an append is needed and the document has no closing
/// root tag; nothing is applied in that case.
pub fn insert_entries(
    d: &Document,
    items: &Vec<ResxInsert>,
    eol: &Vec<u8>,
    unit: &Vec<u8>,
) -> (r: Result<Document, ResxError>)
    requires
        doc_wf(d@),
        ws_only(eol@),
        eol@.len() > 0,
        ws_only(unit@),
        d.segs@.len() + items@.len() < usize::MAX,
    ensures
        match r {
            Ok(nd) => {
                &&& nd@.has_bom == d@.has_bom
                &&& Some(nd@.segs) == batch_fold(
                    d@.segs,
                    stable_sorted(items_view(items@)),
                    0,
                    item_count(d@.segs),
                    eol@,
                    unit@,
                )
                &&& doc_wf(nd@)
            },
            Err(er) => er is Malformed && batch_fold(
                d@.segs,
                stable_sorted(items_view(items@)),
                0,
                item_count(d@.segs),
                eol@,
                unit@,
            ) is None,
        },
{
    let ghost sortedv = stable_sorted(items_view(items@));
    let ghost c0g = item_count(d@.segs);
    let sorted = sort_items(items);
    let cnt0 = count_items(d);
    let mut cs: Vec<Seg> = Vec::new();
    push_seg_range(&mut cs, &d.segs, 0, d.segs.len());
    proof {
        assert(segs_view(cs@) =~= segs_view(d.segs@).subrange(0, d.segs@.len() as int));
        assert(segs_view(d.segs@).subrange(0, d.segs@.len() as int) =~= segs_view(d.segs@));
    }
    let mut cur = Document { has_bom: d.has_bom, segs: cs };
    let mut j: usize = 0;
    while j < sorted.len()
        invariant
            j <= sorted@.len(),
            sorted@.len() == items@.len(),
            items_view(sorted@) == sortedv,
            doc_wf(cur@),
            cur@.has_bom == d@.has_bom,
            cnt0 == c0g,
            batch_fold(d@.segs, sortedv, 0, c0g, eol@, unit@) == batch_fold(
                cur@.segs,
                sortedv,
                j as int,
                c0g,
                eol@,
                unit@,
            ),
        decreases sorted@.len() - j,
    {
        let it = &sorted[j];
        proof {
            assert(it@ == sortedv[j as int]);
        }
        let tgt: usize = if it.index >= cnt0 {
            count_items(&cur)
        } else {
            proof {
                crate::model::lemma_item_count_bounds(d@.segs);
                assert(it.index < cnt0 <= d.segs@.len());
            }
            it.index + j
        };
        proof {
            assert(tgt as int == batch_target(cur@.segs, sortedv[j as int].2, j as int, c0g));
        }
        match insert_entry(&cur, &it.key, &it.value, tgt, eol, unit) {
            Ok(nd) => {
                cur = nd;
            },
            Err(er) => {
                return Err(er);
            },
        }
        j = j + 1;
    }
    Ok(cur)
}

} // verus!
