//! The tokenizer: one forward scan that splits a raw document into segments.
//! Its contract says that the segments are well formed and concatenate back
//! to the input byte for byte, so nothing is lost or invented, and that the
//! scan succeeds exactly where the spec-level reading of the same bytes
//! does, so an outcome is owed and pinned for every input.
//!
//! The grammar is the constrained resource-table schema read strictly, two
//! points deliberately narrower than a lenient reader: an entry element
//! must carry a `name` attribute (one without it is malformed, not an entry
//! with an empty pending key), and a value element holds character data
//! only (markup nested inside it is malformed, not flattened into the
//! text). Both shapes fall outside the schema the mutations are specified
//! over, and refusing them keeps every mutation's byte-level effect exact.
use vstd::prelude::*;
use crate::model::{
    bom_bytes, comment_close_pat, comment_open_pat, comment_span, data_close_at, data_open_pat,
    data_start_at, doc_bytes, doc_wf, entry_bytes, entry_wf, name_pat, pat_at, plain_markup,
    seg_bytes, segs_bytes, segs_view, segs_wf, start_at, tag_delim, value_close_at, value_start_at,
    DocModel, Document, Entry, EntryModel, ResxError, Seg, SegModel, B_GT, B_LT, B_QUOT, B_SLASH,
};
use crate::model::{
    lemma_inert_range, lemma_pat_sub, lemma_segs_bytes_push, lemma_start_sub,
};
use crate::util::{
    byte_pos, copy_range, find_byte, find_lt, find_pat, find_tag_end, gt_end,
    lemma_byte_pos_agrees, lemma_gt_end_agrees, lemma_lt_pos_agrees, lemma_pat_pos_agrees, lt_pos,
    match_at, pat_bom, pat_comment_close, pat_comment_open, pat_data_close, pat_data_open,
    pat_name, pat_pos, pat_value_close, pat_value_open,
};

verus! {

/// Where the scan of an entry's interior stops, as a function of the bytes:
/// from `pos`, skip runs free of `<` and harmless nested tags until the next
/// value-open tag (`stop_close` false) or entry-close tag (`stop_close`
/// true); nothing if a structural tag out of place, a stray `<`, or the end
/// of the input comes first.
pub open spec fn scan_inner_spec(t: Seq<u8>, pos: int, stop_close: bool) -> Option<int>
    decreases t.len() - pos,
{
    let u = lt_pos(t, pos);
    if u >= t.len() {
        None
    } else if !stop_close && value_start_at(t, u) {
        Some(u)
    } else if stop_close && data_close_at(t, u) {
        Some(u)
    } else if value_start_at(t, u) || data_close_at(t, u) || data_start_at(t, u)
        || value_close_at(t, u) {
        None
    } else {
        match gt_end(t, u + 1) {
            Some(w) => if pos < w + 1 && w + 1 <= t.len() {
                scan_inner_spec(t, w + 1, stop_close)
            } else {
                None
            },
            None => None,
        }
    }
}

/// The entry the scan reads from position `j`, with the position just past
/// it, as a function of the bytes; nothing if no well-formed entry element
/// begins there. Each step names the position the executable scan finds.
#[verifier::opaque]
pub open spec fn scan_entry_spec(t: Seq<u8>, j: int) -> Option<(EntryModel, int)> {
    match gt_end(t, j + 1) {
        Some(g) => if t[g - 1] == B_SLASH {
            None
        } else {
            match pat_pos(t, j, g, name_pat()) {
                Some(p) => match byte_pos(t, p + 7, B_QUOT) {
                    Some(q) => if q >= g {
                        None
                    } else {
                        match scan_inner_spec(t, g + 1, false) {
                            Some(mid_end) => match gt_end(t, mid_end + 1) {
                                Some(v1) => if t[v1 - 1] == B_SLASH {
                                    None
                                } else {
                                    let w = lt_pos(t, v1 + 1);
                                    if w >= t.len() || !value_close_at(t, w) {
                                        None
                                    } else {
                                        match gt_end(t, w + 1) {
                                            Some(x) => match scan_inner_spec(t, x + 1, true) {
                                                Some(y) => match gt_end(t, y + 1) {
                                                    Some(z) => Some(
                                                        (
                                                            EntryModel {
                                                                open_pre: t.subrange(j, p + 7),
                                                                key: t.subrange(p + 7, q),
                                                                open_post: t.subrange(q, g + 1),
                                                                mid: t.subrange(g + 1, mid_end),
                                                                vopen: t.subrange(mid_end, v1 + 1),
                                                                text: t.subrange(v1 + 1, w),
                                                                vclose: t.subrange(w, x + 1),
                                                                post: t.subrange(x + 1, y),
                                                                close: t.subrange(y, z + 1),
                                                            },
                                                            z + 1,
                                                        ),
                                                    ),
                                                    None => None,
                                                },
                                                None => None,
                                            },
                                            None => None,
                                        }
                                    }
                                },
                                None => None,
                            },
                            None => None,
                        }
                    },
                    None => None,
                },
                None => None,
            }
        },
        None => None,
    }
}

/// The segments the scan reads from position `i` to the end, as a function
/// of the bytes; nothing wherever the scan would fail. One step of this
/// definition is one iteration of the tokenizer's loop.
pub open spec fn tok_from(t: Seq<u8>, i: int) -> Option<Seq<SegModel>>
    decreases t.len() - i,
{
    if i < 0 || i >= t.len() {
        Some(Seq::empty())
    } else {
        let u = lt_pos(t, i);
        if i < u {
            if u <= t.len() {
                match tok_from(t, u) {
                    Some(rest) => Some(seq![SegModel::Chars(t.subrange(i, u))] + rest),
                    None => None,
                }
            } else {
                None
            }
        } else if pat_at(t, i, comment_open_pat()) {
            match pat_pos(t, i + 4, t.len() as int, comment_close_pat()) {
                Some(c) => if i < c + 3 && c + 3 <= t.len() {
                    match tok_from(t, c + 3) {
                        Some(rest) => Some(seq![SegModel::Markup(t.subrange(i, c + 3))] + rest),
                        None => None,
                    }
                } else {
                    None
                },
                None => None,
            }
        } else if data_start_at(t, i) {
            match scan_entry_spec(t, i) {
                Some(pr) => if i < pr.1 && pr.1 <= t.len() {
                    match tok_from(t, pr.1) {
                        Some(rest) => Some(seq![SegModel::Item(pr.0)] + rest),
                        None => None,
                    }
                } else {
                    None
                },
                None => None,
            }
        } else {
            match gt_end(t, i + 1) {
                Some(g) => if i < g + 1 && g + 1 <= t.len() {
                    match tok_from(t, g + 1) {
                        Some(rest) => Some(seq![SegModel::Markup(t.subrange(i, g + 1))] + rest),
                        None => None,
                    }
                } else {
                    None
                },
                None => None,
            }
        }
    }
}

/// The document the scan reads from raw bytes, as a function of those bytes
/// alone: the byte-order-marker flag from the leading bytes, the segments
/// from everything after the marker; nothing exactly where the scan fails.
/// Every operation's contract speaks of this one reading, so two calls on
/// the same bytes speak of the same document.
pub open spec fn tok_doc(raw: Seq<u8>) -> Option<DocModel> {
    let b = pat_at(raw, 0, bom_bytes());
    match tok_from(raw, if b { 3int } else { 0int }) {
        Some(ss) => Some(DocModel { has_bom: b, segs: ss }),
        None => None,
    }
}

/// A segment prefix joined onto the outcome of scanning the rest.
spec fn tok_cat(pre: Seq<SegModel>, o: Option<Seq<SegModel>>) -> Option<Seq<SegModel>> {
    match o {
        Some(rest) => Some(pre + rest),
        None => None,
    }
}

/// Moving one segment from the outcome's head onto the prefix changes
/// nothing.
proof fn lemma_tok_cat_step(pre: Seq<SegModel>, s: SegModel, o: Option<Seq<SegModel>>)
    ensures
        tok_cat(pre.push(s), o) == tok_cat(pre, tok_cat(seq![s], o)),
{
    match o {
        Some(r) => {
            assert(pre + (seq![s] + r) =~= pre.push(s) + r);
        },
        None => {},
    }
}

/// One unfolding of `tok_from` at a character run.
proof fn lemma_tok_from_chars(t: Seq<u8>, i: int, u: int)
    requires
        0 <= i < t.len(),
        u == lt_pos(t, i),
        i < u <= t.len(),
    ensures
        tok_from(t, i) == tok_cat(seq![SegModel::Chars(t.subrange(i, u))], tok_from(t, u)),
{
}

/// One unfolding of `tok_from` at a comment opening.
proof fn lemma_tok_from_comment(t: Seq<u8>, i: int)
    requires
        0 <= i < t.len(),
        lt_pos(t, i) == i,
        pat_at(t, i, comment_open_pat()),
    ensures
        match pat_pos(t, i + 4, t.len() as int, comment_close_pat()) {
            Some(c) => (i < c + 3 <= t.len()) ==> tok_from(t, i) == tok_cat(
                seq![SegModel::Markup(t.subrange(i, c + 3))],
                tok_from(t, c + 3),
            ),
            None => tok_from(t, i) is None,
        },
{
}

/// One unfolding of `tok_from` at an entry element.
proof fn lemma_tok_from_entry(t: Seq<u8>, i: int)
    requires
        0 <= i < t.len(),
        lt_pos(t, i) == i,
        !pat_at(t, i, comment_open_pat()),
        data_start_at(t, i),
    ensures
        match scan_entry_spec(t, i) {
            Some(pr) => (i < pr.1 <= t.len()) ==> tok_from(t, i) == tok_cat(
                seq![SegModel::Item(pr.0)],
                tok_from(t, pr.1),
            ),
            None => tok_from(t, i) is None,
        },
{
}

/// One unfolding of `tok_from` at plain markup.
proof fn lemma_tok_from_markup(t: Seq<u8>, i: int)
    requires
        0 <= i < t.len(),
        lt_pos(t, i) == i,
        !pat_at(t, i, comment_open_pat()),
        !data_start_at(t, i),
    ensures
        match gt_end(t, i + 1) {
            Some(g) => (i < g + 1 <= t.len()) ==> tok_from(t, i) == tok_cat(
                seq![SegModel::Markup(t.subrange(i, g + 1))],
                tok_from(t, g + 1),
            ),
            None => tok_from(t, i) is None,
        },
{
}

/// Returns true when `b` may close off a tag name.
fn is_delim_byte(b: u8) -> (r: bool)
    ensures
        r == tag_delim(b),
{
    b == 62 || b == 32 || b == 9 || b == 10 || b == 13 || b == 47
}

/// Does a tag whose name lead-in is `pat` begin at position `i`?
fn is_start(t: &Vec<u8>, i: usize, pat: &Vec<u8>) -> (r: bool)
    ensures
        r == start_at(t@, i as int, pat@),
{
    let n = t.len();
    if match_at(t, i, pat) {
        proof {
            assert(i + pat@.len() <= n);
        }
        if i + pat.len() < n {
            is_delim_byte(t[i + pat.len()])
        } else {
            false
        }
    } else {
        false
    }
}

/// Scans the inside of an entry element from `from` to the next value-open
/// tag (`stop_close` false) or entry-close tag (`stop_close` true), skipping
/// harmless nested markup; every skipped `<` is checked to start none of the
/// four structural tags.
fn scan_inner(t: &Vec<u8>, from: usize, stop_close: bool) -> (r: Result<usize, ResxError>)
    requires
        from <= t@.len(),
    ensures
        match r {
            Ok(u) => {
                &&& from <= u < t@.len()
                &&& (stop_close ==> data_close_at(t@, u as int))
                &&& (!stop_close ==> value_start_at(t@, u as int))
                &&& scan_inner_spec(t@, from as int, stop_close) == Some(u as int)
                &&& forall|k: int|
                    from <= k < u && t@[k] == B_LT ==> !data_start_at(t@, k) && !data_close_at(
                        t@,
                        k,
                    ) && !value_start_at(t@, k) && !value_close_at(t@, k)
            },
            Err(er) => er is Malformed && scan_inner_spec(t@, from as int, stop_close) is None,
        },
{
    let pat_do = pat_data_open();
    let pat_dc = pat_data_close();
    let pat_vo = pat_value_open();
    let pat_vc = pat_value_close();
    let mut pos: usize = from;
    loop
        invariant
            from <= pos <= t@.len(),
            scan_inner_spec(t@, from as int, stop_close) == scan_inner_spec(
                t@,
                pos as int,
                stop_close,
            ),
            forall|k: int|
                from <= k < pos && t@[k] == B_LT ==> !data_start_at(t@, k) && !data_close_at(t@, k)
                    && !value_start_at(t@, k) && !value_close_at(t@, k),
        decreases t@.len() - pos,
    {
        let u = find_lt(t, pos);
        proof {
            lemma_lt_pos_agrees(t@, pos as int, u as int);
        }
        if u == t.len() {
            return Err(ResxError::Malformed);
        }
        let hit_open = is_start(t, u, &pat_vo);
        let hit_close = is_start(t, u, &pat_dc);
        if !stop_close && hit_open {
            return Ok(u);
        }
        if stop_close && hit_close {
            return Ok(u);
        }
        if hit_open || hit_close || is_start(t, u, &pat_do) || is_start(t, u, &pat_vc) {
            return Err(ResxError::Malformed);
        }
        match find_tag_end(t, u + 1) {
            Some(w) => {
                proof {
                    lemma_gt_end_agrees(t@, u + 1, Some(w as int));
                    assert(scan_inner_spec(t@, pos as int, stop_close) == scan_inner_spec(
                        t@,
                        w + 1,
                        stop_close,
                    ));
                }
                proof {
                    assert(t@[w as int] == B_GT);
                    assert forall|k: int|
                        from <= k < w + 1 && t@[k] == B_LT implies !data_start_at(t@, k)
                        && !data_close_at(t@, k) && !value_start_at(t@, k) && !value_close_at(
                        t@,
                        k,
                    ) by {
                        if k < pos {
                        } else if k < u {
                            assert(t@[k] != B_LT);
                        } else if k == u {
                        } else {
                            assert(t@[k] != B_LT);
                        }
                    }
                }
                pos = w + 1;
            },
            None => {
                proof {
                    lemma_gt_end_agrees(t@, u + 1, None);
                }
                return Err(ResxError::Malformed);
            },
        }
    }
}

/// Scans one whole entry element beginning at `j`. On success the entry is
/// well formed and its pieces concatenate to exactly the bytes from `j` to
/// the returned end position.
#[verifier::rlimit(100)]
fn scan_entry(t: &Vec<u8>, j: usize) -> (r: Result<(Entry, usize), ResxError>)
    requires
        data_start_at(t@, j as int),
    ensures
        match r {
            Ok(p) => {
                &&& j < p.1 <= t@.len()
                &&& entry_wf(p.0@)
                &&& entry_bytes(p.0@) == t@.subrange(j as int, p.1 as int)
                &&& scan_entry_spec(t@, j as int) == Some((p.0@, p.1 as int))
            },
            Err(er) => er is Malformed && scan_entry_spec(t@, j as int) is None,
        },
{
    let n = t.len();
    let ghost ji = j as int;
    proof {
        reveal(scan_entry_spec);
        assert(j + 5 < n);
        assert(t@.subrange(ji, ji + 5)[0] == 60u8);
        assert(t@.subrange(ji, ji + 5)[1] == 100u8);
        assert(t@.subrange(ji, ji + 5)[2] == 97u8);
        assert(t@.subrange(ji, ji + 5)[3] == 116u8);
        assert(t@.subrange(ji, ji + 5)[4] == 97u8);
        assert(t@[ji] == 60u8 && t@[ji + 1] == 100u8 && t@[ji + 2] == 97u8 && t@[ji + 3] == 116u8
            && t@[ji + 4] == 97u8);
    }
    let g = match find_tag_end(t, j + 1) {
        Some(g) => g,
        None => {
            proof {
                lemma_gt_end_agrees(t@, j as int + 1, None);
            }
            return Err(ResxError::Malformed);
        },
    };
    let ghost gi = g as int;
    proof {
        lemma_gt_end_agrees(t@, j as int + 1, Some(gi));
        assert(g >= j + 5) by {
            if g < j + 5 {
                assert(t@[gi] == B_GT);
            }
        }
    }
    if t[g - 1] == B_SLASH {
        return Err(ResxError::Malformed);
    }
    let pat_nm = pat_name();
    let p = match find_pat(t, j, g, &pat_nm) {
        Some(p) => p,
        None => {
            proof {
                lemma_pat_pos_agrees(t@, j as int, gi, name_pat(), None);
            }
            return Err(ResxError::Malformed);
        },
    };
    proof {
        lemma_pat_pos_agrees(t@, j as int, gi, name_pat(), Some(p as int));
    }
    let ghost pi = p as int;
    proof {
        assert(t@.subrange(pi, pi + 7) =~= crate::model::name_pat());
        assert(t@.subrange(pi, pi + 7)[0] == 32u8);
        assert(t@[pi] == 32u8);
        assert(p >= j + 5) by {
            if p < j + 5 {
                assert(t@[pi] == 60u8 || t@[pi] == 100u8 || t@[pi] == 97u8 || t@[pi] == 116u8);
            }
        }
    }
    let q = match find_byte(t, p + 7, B_QUOT) {
        Some(q) => q,
        None => {
            proof {
                lemma_byte_pos_agrees(t@, p as int + 7, B_QUOT, None);
            }
            return Err(ResxError::Malformed);
        },
    };
    proof {
        lemma_byte_pos_agrees(t@, p as int + 7, B_QUOT, Some(q as int));
    }
    if q >= g {
        return Err(ResxError::Malformed);
    }
    let ghost qi = q as int;
    let open_pre = copy_range(t, j, p + 7);
    let key = copy_range(t, p + 7, q);
    let open_post = copy_range(t, q, g + 1);
    let mid_end = match scan_inner(t, g + 1, false) {
        Ok(u) => u,
        Err(er) => {
            return Err(er);
        },
    };
    let ghost mi = mid_end as int;
    let mid = copy_range(t, g + 1, mid_end);
    proof {
        assert(t@.subrange(mi, mi + 6)[1] == 118u8);
        assert(t@.subrange(mi, mi + 6)[2] == 97u8);
        assert(t@.subrange(mi, mi + 6)[3] == 108u8);
        assert(t@.subrange(mi, mi + 6)[4] == 117u8);
        assert(t@.subrange(mi, mi + 6)[5] == 101u8);
        assert(t@[mi + 1] == 118u8 && t@[mi + 2] == 97u8 && t@[mi + 3] == 108u8 && t@[mi + 4]
            == 117u8 && t@[mi + 5] == 101u8);
    }
    let v1 = match find_tag_end(t, mid_end + 1) {
        Some(v1) => v1,
        None => {
            proof {
                lemma_gt_end_agrees(t@, mid_end as int + 1, None);
            }
            return Err(ResxError::Malformed);
        },
    };
    let ghost v1i = v1 as int;
    proof {
        lemma_gt_end_agrees(t@, mid_end as int + 1, Some(v1i));
        assert(v1 >= mid_end + 6) by {
            if v1 < mid_end + 6 {
                assert(t@[v1i] == B_GT);
            }
        }
    }
    if t[v1 - 1] == B_SLASH {
        return Err(ResxError::Malformed);
    }
    let vopen = copy_range(t, mid_end, v1 + 1);
    let w = find_lt(t, v1 + 1);
    proof {
        lemma_lt_pos_agrees(t@, v1i + 1, w as int);
    }
    if w == t.len() {
        return Err(ResxError::Malformed);
    }
    let ghost wi = w as int;
    let text = copy_range(t, v1 + 1, w);
    let pat_vc = pat_value_close();
    if !is_start(t, w, &pat_vc) {
        return Err(ResxError::Malformed);
    }
    proof {
        assert(t@.subrange(wi, wi + 7)[1] == 47u8);
        assert(t@.subrange(wi, wi + 7)[2] == 118u8);
        assert(t@.subrange(wi, wi + 7)[3] == 97u8);
        assert(t@.subrange(wi, wi + 7)[4] == 108u8);
        assert(t@.subrange(wi, wi + 7)[5] == 117u8);
        assert(t@.subrange(wi, wi + 7)[6] == 101u8);
        assert(t@[wi + 1] == 47u8 && t@[wi + 2] == 118u8 && t@[wi + 3] == 97u8 && t@[wi + 4]
            == 108u8 && t@[wi + 5] == 117u8 && t@[wi + 6] == 101u8);
    }
    let x = match find_tag_end(t, w + 1) {
        Some(x) => x,
        None => {
            proof {
                lemma_gt_end_agrees(t@, wi + 1, None);
            }
            return Err(ResxError::Malformed);
        },
    };
    let ghost xi = x as int;
    proof {
        lemma_gt_end_agrees(t@, wi + 1, Some(xi));
        assert(x >= w + 7) by {
            if x < w + 7 {
                assert(t@[xi] == B_GT);
            }
        }
    }
    let vclose = copy_range(t, w, x + 1);
    let y = match scan_inner(t, x + 1, true) {
        Ok(y) => y,
        Err(er) => {
            return Err(er);
        },
    };
    let ghost yi = y as int;
    let post = copy_range(t, x + 1, y);
    proof {
        assert(t@.subrange(yi, yi + 6)[1] == 47u8);
        assert(t@.subrange(yi, yi + 6)[2] == 100u8);
        assert(t@.subrange(yi, yi + 6)[3] == 97u8);
        assert(t@.subrange(yi, yi + 6)[4] == 116u8);
        assert(t@.subrange(yi, yi + 6)[5] == 97u8);
        assert(t@[yi + 1] == 47u8 && t@[yi + 2] == 100u8 && t@[yi + 3] == 97u8 && t@[yi + 4]
            == 116u8 && t@[yi + 5] == 97u8);
    }
    let z = match find_tag_end(t, y + 1) {
        Some(z) => z,
        None => {
            proof {
                lemma_gt_end_agrees(t@, y as int + 1, None);
            }
            return Err(ResxError::Malformed);
        },
    };
    let ghost zi = z as int;
    proof {
        lemma_gt_end_agrees(t@, y as int + 1, Some(zi));
        assert(z >= y + 6) by {
            if z < y + 6 {
                assert(t@[zi] == B_GT);
            }
        }
    }
    let close = copy_range(t, y, z + 1);
    let e = Entry { open_pre, key, open_post, mid, vopen, text, vclose, post, close };
    proof {
        // The open tag pieces.
        assert(e@.open_pre.len() == pi + 7 - ji >= 12);
        lemma_start_sub(t@, ji, pi + 7, data_open_pat(), 0);
        assert(data_start_at(e@.open_pre, 0));
        assert(e@.open_pre.subrange(pi + 7 - ji - 7, pi + 7 - ji) =~= t@.subrange(pi, pi + 7));
        assert(forall|i: int|
            0 < i < e@.open_pre.len() ==> e@.open_pre[i] == t@[ji + i] && ji + i < gi);
        assert(forall|i: int|
            0 <= i < e@.key.len() ==> e@.key[i] == t@[pi + 7 + i] && pi + 7 + i < qi);
        assert(e@.open_post[0] == t@[qi]);
        assert(e@.open_post.len() == gi + 1 - qi);
        assert(e@.open_post[gi - qi] == t@[gi]);
        assert(forall|i: int|
            0 <= i < e@.open_post.len() - 1 ==> e@.open_post[i] == t@[qi + i] && qi + i < gi);
        // The runs between the structural tags.
        lemma_inert_range(t@, gi + 1, mi);
        lemma_inert_range(t@, xi + 1, yi);
        // The value tags.
        assert(e@.vopen.len() == v1i + 1 - mi >= 7);
        lemma_start_sub(t@, mi, v1i + 1, crate::model::value_open_pat(), 0);
        assert(value_start_at(e@.vopen, 0));
        assert(e@.vopen[v1i - mi] == t@[v1i]);
        assert(e@.vopen[v1i - mi - 1] == t@[v1i - 1]);
        assert(forall|i: int|
            0 < i < e@.vopen.len() - 1 ==> e@.vopen[i] == t@[mi + i] && mi < mi + i < v1i);
        assert(forall|i: int| 0 <= i < e@.text.len() ==> e@.text[i] == t@[v1i + 1 + i]);
        assert(e@.vclose.len() == xi + 1 - wi >= 8);
        lemma_start_sub(t@, wi, xi + 1, crate::model::value_close_pat(), 0);
        assert(value_close_at(e@.vclose, 0));
        assert(e@.vclose[xi - wi] == t@[xi]);
        assert(forall|i: int|
            0 < i < e@.vclose.len() - 1 ==> e@.vclose[i] == t@[wi + i] && wi < wi + i < xi);
        // The close tag.
        assert(e@.close.len() == zi + 1 - yi >= 7);
        lemma_start_sub(t@, yi, zi + 1, crate::model::data_close_pat(), 0);
        assert(data_close_at(e@.close, 0));
        assert(e@.close[zi - yi] == t@[zi]);
        assert(forall|i: int|
            0 < i < e@.close.len() - 1 ==> e@.close[i] == t@[yi + i] && yi < yi + i < zi);
        assert(entry_wf(e@));
        // The pieces concatenate to the scanned range.
        assert(e@.open_pre + e@.key =~= t@.subrange(ji, qi));
        assert(t@.subrange(ji, qi) + e@.open_post =~= t@.subrange(ji, gi + 1));
        assert(t@.subrange(ji, gi + 1) + e@.mid =~= t@.subrange(ji, mi));
        assert(t@.subrange(ji, mi) + e@.vopen =~= t@.subrange(ji, v1i + 1));
        assert(t@.subrange(ji, v1i + 1) + e@.text =~= t@.subrange(ji, wi));
        assert(t@.subrange(ji, wi) + e@.vclose =~= t@.subrange(ji, xi + 1));
        assert(t@.subrange(ji, xi + 1) + e@.post =~= t@.subrange(ji, yi));
        assert(t@.subrange(ji, yi) + e@.close =~= t@.subrange(ji, zi + 1));
        assert(entry_bytes(e@) == t@.subrange(ji, zi + 1));
        assert(scan_entry_spec(t@, ji) == Some((e@, zi + 1)));
    }
    Ok((e, z + 1))
}

/// Splits a raw document into a well-formed segment sequence covering every
/// byte after the optional byte-order marker. Fails exactly when the scan
/// meets structure the entry grammar cannot hold.
#[verifier::rlimit(100)]
pub fn tokenize(input: &Vec<u8>) -> (r: Result<Document, ResxError>)
    ensures
        match r {
            Ok(d) => {
                &&& doc_wf(d@)
                &&& doc_bytes(d@) == input@
                &&& d@.has_bom == pat_at(input@, 0, bom_bytes())
                &&& tok_doc(input@) == Some(d@)
            },
            Err(er) => er is Malformed && tok_doc(input@) is None,
        },
{
    let pat_bm = pat_bom();
    let has_bom = match_at(input, 0, &pat_bm);
    let base: usize = if has_bom {
        3
    } else {
        0
    };
    let ghost bi = base as int;
    let pat_do = pat_data_open();
    let pat_co = pat_comment_open();
    let pat_cc = pat_comment_close();
    let mut segs: Vec<Seg> = Vec::new();
    let mut i: usize = base;
    proof {
        assert(segs_bytes(segs_view(segs@)) =~= input@.subrange(bi, bi));
        assert(segs_view(segs@) =~= Seq::<SegModel>::empty());
        if tok_from(input@, bi) is Some {
            assert(Seq::<SegModel>::empty() + tok_from(input@, bi)->Some_0 =~= tok_from(
                input@,
                bi,
            )->Some_0);
        }
        assert(tok_cat(segs_view(segs@), tok_from(input@, bi)) == tok_from(input@, bi));
    }
    while i < input.len()
        invariant
            base <= i <= input@.len(),
            segs_wf(segs_view(segs@)),
            segs_bytes(segs_view(segs@)) == input@.subrange(bi, i as int),
            tok_cat(segs_view(segs@), tok_from(input@, i as int)) == tok_from(input@, bi),
        decreases input@.len() - i,
    {
        let ghost pre = segs_view(segs@);
        let ghost ii = i as int;
        let u = find_lt(input, i);
        let ghost ui = u as int;
        proof {
            lemma_lt_pos_agrees(input@, ii, ui);
        }
        if u > i {
            let txt = copy_range(input, i, u);
            segs.push(Seg::Chars(txt));
            proof {
                let c = SegModel::Chars(input@.subrange(ii, ui));
                assert(segs_view(segs@) =~= pre.push(c));
                lemma_segs_bytes_push(pre, c);
                assert(input@.subrange(bi, ii) + input@.subrange(ii, ui) =~= input@.subrange(
                    bi,
                    ui,
                ));
                lemma_tok_from_chars(input@, ii, ui);
                lemma_tok_cat_step(pre, c, tok_from(input@, ui));
            }
            i = u;
        } else {
            if match_at(input, i, &pat_co) {
                match find_pat(input, i + 4, input.len(), &pat_cc) {
                    Some(c) => {
                        let ghost ci = c as int;
                        let m = copy_range(input, i, c + 3);
                        proof {
                            let mm = input@.subrange(ii, ci + 3);
                            assert(mm.subrange(0, 4) =~= input@.subrange(ii, ii + 4));
                            assert(pat_at(mm, 0, comment_open_pat()));
                            assert(mm.subrange(mm.len() - 3, mm.len() as int) =~= input@.subrange(
                                ci,
                                ci + 3,
                            ));
                            assert forall|jj: int| 4 <= jj < mm.len() - 3 implies !pat_at(
                                mm,
                                jj,
                                comment_close_pat(),
                            ) by {
                                lemma_pat_sub(input@, ii, ci + 3, comment_close_pat(), jj);
                                assert(!(pat_at(input@, ii + jj, comment_close_pat()) && ii + jj + 3
                                    <= input@.len()));
                            }
                            assert(comment_span(mm));
                        }
                        segs.push(Seg::Markup(m));
                        proof {
                            let s = SegModel::Markup(input@.subrange(ii, ci + 3));
                            assert(segs_view(segs@) =~= pre.push(s));
                            lemma_segs_bytes_push(pre, s);
                            assert(input@.subrange(bi, ii) + input@.subrange(ii, ci + 3)
                                =~= input@.subrange(bi, ci + 3));
                            lemma_pat_pos_agrees(
                                input@,
                                ii + 4,
                                input@.len() as int,
                                comment_close_pat(),
                                Some(ci),
                            );
                            lemma_tok_from_comment(input@, ii);
                            lemma_tok_cat_step(pre, s, tok_from(input@, ci + 3));
                        }
                        i = c + 3;
                    },
                    None => {
                        proof {
                            lemma_pat_pos_agrees(
                                input@,
                                ii + 4,
                                input@.len() as int,
                                comment_close_pat(),
                                None,
                            );
                            lemma_tok_from_comment(input@, ii);
                        }
                        return Err(ResxError::Malformed);
                    },
                }
            } else if is_start(input, i, &pat_do) {
                match scan_entry(input, i) {
                    Ok(pair) => {
                        let (en, end) = pair;
                        let ghost ei = end as int;
                        proof {
                            assert(seg_bytes(SegModel::Item(en@)) == input@.subrange(ii, ei));
                        }
                        segs.push(Seg::Item(en));
                        proof {
                            let s = SegModel::Item(en@);
                            assert(segs_view(segs@) =~= pre.push(s));
                            lemma_segs_bytes_push(pre, s);
                            assert(input@.subrange(bi, ii) + input@.subrange(ii, ei)
                                =~= input@.subrange(bi, ei));
                            lemma_tok_from_entry(input@, ii);
                            lemma_tok_cat_step(pre, s, tok_from(input@, ei));
                        }
                        i = end;
                    },
                    Err(er) => {
                        proof {
                            lemma_tok_from_entry(input@, ii);
                        }
                        return Err(er);
                    },
                }
            } else {
                match find_tag_end(input, i + 1) {
                    Some(g) => {
                        let ghost gi = g as int;
                        let m = copy_range(input, i, g + 1);
                        proof {
                            let mm = input@.subrange(ii, gi + 1);
                            assert(mm[0] == input@[ii]);
                            assert(mm[mm.len() - 1] == input@[gi]);
                            lemma_start_sub(input@, ii, gi + 1, data_open_pat(), 0);
                            assert(!data_start_at(mm, 0));
                            assert(plain_markup(mm));
                        }
                        segs.push(Seg::Markup(m));
                        proof {
                            let s = SegModel::Markup(input@.subrange(ii, gi + 1));
                            assert(segs_view(segs@) =~= pre.push(s));
                            lemma_segs_bytes_push(pre, s);
                            assert(input@.subrange(bi, ii) + input@.subrange(ii, gi + 1)
                                =~= input@.subrange(bi, gi + 1));
                            lemma_gt_end_agrees(input@, ii + 1, Some(gi));
                            lemma_tok_from_markup(input@, ii);
                            lemma_tok_cat_step(pre, s, tok_from(input@, gi + 1));
                        }
                        i = g + 1;
                    },
                    None => {
                        proof {
                            lemma_gt_end_agrees(input@, ii + 1, None);
                            lemma_tok_from_markup(input@, ii);
                        }
                        return Err(ResxError::Malformed);
                    },
                }
            }
        }
    }
    let d = Document { has_bom, segs };
    proof {
        assert(d@.segs == segs_view(segs@));
        assert(segs_bytes(d@.segs) == input@.subrange(bi, input@.len() as int));
        if has_bom {
            assert(input@.subrange(0, 3) == bom_bytes());
            assert(bom_bytes() + input@.subrange(3, input@.len() as int) =~= input@);
        } else {
            assert(input@.subrange(0, input@.len() as int) =~= input@);
        }
        assert(tok_from(input@, input@.len() as int) == Some(Seq::<SegModel>::empty()));
        assert(segs_view(segs@) + Seq::<SegModel>::empty() =~= segs_view(segs@));
        assert(tok_from(input@, bi) == Some(segs_view(segs@)));
        assert(tok_doc(input@) == Some(d@));
    }
    Ok(d)
}

} // verus!
