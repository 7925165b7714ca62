//! The operation surface over raw bytes: every call is one read-tokenize-
//! mutate-render pass. Each contract names a document model of the input —
//! well formed, concatenating back to the input byte for byte — and pins the
//! output as the rendering of that model after the operation's exact
//! spec-level effect. A byte-order marker on the input always reappears on
//! the output.
use vstd::prelude::*;
use crate::edit::{
    find_ord, keys_view, ords_spec, ords_view, pairs_view, remove_segs, remove_segs_multi,
    rename_segs, seg_entries, update_segs, update_segs_many,
};
use crate::infer::{eol_of, indent_of};
use crate::insert::{
    batch_fold, insert_point_ok, insert_point_segs, items_view, stable_sorted, ResxInsert,
};
use crate::model::{bom_bytes, doc_bytes, doc_wf, item_count, pat_at, DocModel, ResxError};
use crate::render::render;
use crate::scan::{tok_doc, tokenize};

verus! {

/// `dm` is a faithful model of the raw bytes: well formed, rendering back
/// to them byte for byte, with the marker flag reading the leading bytes.
pub open spec fn models(raw: Seq<u8>, dm: DocModel) -> bool {
    &&& doc_wf(dm)
    &&& doc_bytes(dm) == raw
    &&& dm.has_bom == pat_at(raw, 0, bom_bytes())
}

/// A document with the marker renders to bytes opening with the marker.
proof fn lemma_bom_kept(dm: DocModel, out: Seq<u8>)
    requires
        out == doc_bytes(dm),
        dm.has_bom,
    ensures
        pat_at(out, 0, bom_bytes()),
{
    assert(out.subrange(0, 3) =~= bom_bytes());
}

/// `name="` then `k` then `"`: the literal text the duplicate pre-check
/// looks for.
pub open spec fn name_lit(k: Seq<u8>) -> Seq<u8> {
    seq![110u8, 97u8, 109u8, 101u8, 61u8, 34u8] + k + seq![34u8]
}

/// The pattern `p` occurs somewhere in `t`.
pub open spec fn contains_pat(t: Seq<u8>, p: Seq<u8>) -> bool {
    exists|i: int| pat_at(t, i, p)
}

/// Reads the document's entries: key-value pairs in document order, values
/// unescaped, entries with an empty name skipped. Fails exactly when the
/// bytes scan to no document.
pub fn parse_resx(doc: &Vec<u8>) -> (r: Result<Vec<(Vec<u8>, Vec<u8>)>, ResxError>)
    ensures
        r is Ok <==> tok_doc(doc@) is Some,
        match r {
            Ok(m) => tok_doc(doc@) matches Some(dm) && models(doc@, dm) && pairs_view(m@)
                == seg_entries(dm.segs),
            Err(er) => er is Malformed,
        },
{
    let d = match tokenize(doc) {
        Ok(d) => d,
        Err(er) => {
            return Err(er);
        },
    };
    let m = crate::edit::entries(&d);
    proof {
        assert(models(doc@, d@));
    }
    Ok(m)
}

/// Rewrites the value of every entry named `key` to the minimally escaped
/// form of `value`; every other byte of the document is reproduced
/// verbatim. A missing key leaves the content unchanged. Fails exactly when
/// the bytes scan to no document.
pub fn update_resx_key(doc: &Vec<u8>, key: &Vec<u8>, value: &Vec<u8>) -> (r: Result<
    Vec<u8>,
    ResxError,
>)
    ensures
        r is Ok <==> tok_doc(doc@) is Some,
        match r {
            Ok(out) => tok_doc(doc@) matches Some(dm) && models(doc@, dm) && out@ == doc_bytes(
                DocModel { has_bom: dm.has_bom, segs: update_segs(dm.segs, key@, value@) },
            ),
            Err(er) => er is Malformed,
        },
        (match r {
            Ok(out) => pat_at(doc@, 0, bom_bytes()) ==> pat_at(out@, 0, bom_bytes()),
            Err(_) => true,
        }),
{
    let d = match tokenize(doc) {
        Ok(d) => d,
        Err(er) => {
            return Err(er);
        },
    };
    let d2 = crate::edit::update_value(&d, key, value);
    let out = render(&d2);
    proof {
        assert(models(doc@, d@));
        assert(d2@ == DocModel { has_bom: d@.has_bom, segs: update_segs(d@.segs, key@, value@) });
        if pat_at(doc@, 0, bom_bytes()) {
            lemma_bom_kept(d2@, out@);
        }
    }
    Ok(out)
}

/// Applies a batch of value updates in one pass; entries whose key is not
/// listed, and every other byte, are reproduced verbatim. An empty batch
/// returns the content unchanged byte for byte. Fails exactly when the
/// bytes scan to no document.
pub fn update_resx_keys(doc: &Vec<u8>, updates: &Vec<(Vec<u8>, Vec<u8>)>) -> (r: Result<
    Vec<u8>,
    ResxError,
>)
    ensures
        r is Ok <==> tok_doc(doc@) is Some,
        match r {
            Ok(out) => tok_doc(doc@) matches Some(dm) && models(doc@, dm) && out@ == doc_bytes(
                DocModel {
                    has_bom: dm.has_bom,
                    segs: update_segs_many(dm.segs, pairs_view(updates@)),
                },
            ),
            Err(er) => er is Malformed,
        },
        (match r {
            Ok(out) => pat_at(doc@, 0, bom_bytes()) ==> pat_at(out@, 0, bom_bytes()),
            Err(_) => true,
        }),
        (match r {
            Ok(out) => updates@.len() == 0 ==> out@ == doc@,
            Err(_) => true,
        }),
{
    let d = match tokenize(doc) {
        Ok(d) => d,
        Err(er) => {
            return Err(er);
        },
    };
    let d2 = crate::edit::update_values(&d, updates);
    let out = render(&d2);
    proof {
        assert(models(doc@, d@));
        assert(d2@ == DocModel {
            has_bom: d@.has_bom,
            segs: update_segs_many(d@.segs, pairs_view(updates@)),
        });
        if pat_at(doc@, 0, bom_bytes()) {
            lemma_bom_kept(d2@, out@);
        }
        if updates@.len() == 0 {
            assert(d2@ == d@);
            assert(out@ == doc@);
        }
    }
    Ok(out)
}

/// Rewrites the name attribute of every entry named `old_key` to the
/// escaped form of `new_key`; values and every other byte are reproduced
/// verbatim. A missing key leaves the content unchanged, and an entry
/// already named `new_key` is no obstacle. Fails exactly when the bytes
/// scan to no document.
pub fn rename_resx_key(doc: &Vec<u8>, old_key: &Vec<u8>, new_key: &Vec<u8>) -> (r: Result<
    Vec<u8>,
    ResxError,
>)
    ensures
        r is Ok <==> tok_doc(doc@) is Some,
        match r {
            Ok(out) => tok_doc(doc@) matches Some(dm) && models(doc@, dm) && out@ == doc_bytes(
                DocModel {
                    has_bom: dm.has_bom,
                    segs: rename_segs(dm.segs, old_key@, new_key@),
                },
            ),
            Err(er) => er is Malformed,
        },
        (match r {
            Ok(out) => pat_at(doc@, 0, bom_bytes()) ==> pat_at(out@, 0, bom_bytes()),
            Err(_) => true,
        }),
{
    let d = match tokenize(doc) {
        Ok(d) => d,
        Err(er) => {
            return Err(er);
        },
    };
    let d2 = crate::edit::rename_key(&d, old_key, new_key);
    let out = render(&d2);
    proof {
        assert(models(doc@, d@));
        assert(d2@ == DocModel {
            has_bom: d@.has_bom,
            segs: rename_segs(d@.segs, old_key@, new_key@),
        });
        if pat_at(doc@, 0, bom_bytes()) {
            lemma_bom_kept(d2@, out@);
        }
    }
    Ok(out)
}

/// Splices a synthesized entry at ordinal rank `index`, using the line
/// ending and indentation unit inferred from the raw content, appending in
/// front of the closing root tag when `index` is past the last entry. Fails
/// exactly when the bytes scan to no document, or an append is needed and
/// the document has no closing root tag.
pub fn insert_resx_key(doc: &Vec<u8>, key: &Vec<u8>, value: &Vec<u8>, index: usize) -> (r: Result<
    Vec<u8>,
    ResxError,
>)
    ensures
        r is Ok <==> (tok_doc(doc@) matches Some(dm) && insert_point_ok(dm.segs, index as int)),
        match r {
            Ok(out) => tok_doc(doc@) matches Some(dm) && models(doc@, dm) && out@ == doc_bytes(
                DocModel {
                    has_bom: dm.has_bom,
                    segs: insert_point_segs(
                        dm.segs,
                        key@,
                        value@,
                        index as int,
                        eol_of(doc@),
                        indent_of(doc@),
                    ),
                },
            ),
            Err(er) => er is Malformed,
        },
        (match r {
            Ok(out) => pat_at(doc@, 0, bom_bytes()) ==> pat_at(out@, 0, bom_bytes()),
            Err(_) => true,
        }),
{
    let d = match tokenize(doc) {
        Ok(d) => d,
        Err(er) => {
            return Err(er);
        },
    };
    let eol = crate::infer::infer_eol(doc);
    let unit = crate::infer::infer_indent(doc);
    let d2 = match crate::insert::insert_entry(&d, key, value, index, &eol, &unit) {
        Ok(d2) => d2,
        Err(er) => {
            return Err(er);
        },
    };
    let out = render(&d2);
    proof {
        assert(models(doc@, d@));
        assert(d2@ == DocModel {
            has_bom: d@.has_bom,
            segs: insert_point_segs(
                d@.segs,
                key@,
                value@,
                index as int,
                eol_of(doc@),
                indent_of(doc@),
            ),
        });
        if pat_at(doc@, 0, bom_bytes()) {
            lemma_bom_kept(d2@, out@);
        }
    }
    Ok(out)
}

/// Applies a batch of insertions in one call: items sorted by ascending
/// target rank, caller order kept for ties, each spliced as a point insert
/// with the inferred line ending and indentation unit. Fails exactly when
/// the bytes scan to no document, when some append finds no closing root
/// tag, or when the batch would not even fit in memory.
pub fn insert_resx_keys(doc: &Vec<u8>, items: &Vec<ResxInsert>) -> (r: Result<Vec<u8>, ResxError>)
    ensures
        r is Ok <==> (tok_doc(doc@) matches Some(dm) && dm.segs.len() + items@.len() < usize::MAX
            && batch_fold(
            dm.segs,
            stable_sorted(items_view(items@)),
            0,
            item_count(dm.segs),
            eol_of(doc@),
            indent_of(doc@),
        ) is Some),
        match r {
            Ok(out) => tok_doc(doc@) matches Some(dm) && models(doc@, dm) && (batch_fold(
                dm.segs,
                stable_sorted(items_view(items@)),
                0,
                item_count(dm.segs),
                eol_of(doc@),
                indent_of(doc@),
            ) matches Some(ss) && out@ == doc_bytes(DocModel { has_bom: dm.has_bom, segs: ss })),
            Err(er) => er is Malformed,
        },
        (match r {
            Ok(out) => pat_at(doc@, 0, bom_bytes()) ==> pat_at(out@, 0, bom_bytes()),
            Err(_) => true,
        }),
{
    let d = match tokenize(doc) {
        Ok(d) => d,
        Err(er) => {
            return Err(er);
        },
    };
    if items.len() >= usize::MAX - d.segs.len() {
        return Err(ResxError::Malformed);
    }
    let eol = crate::infer::infer_eol(doc);
    let unit = crate::infer::infer_indent(doc);
    let d2 = match crate::insert::insert_entries(&d, items, &eol, &unit) {
        Ok(d2) => d2,
        Err(er) => {
            return Err(er);
        },
    };
    let out = render(&d2);
    proof {
        assert(models(doc@, d@));
        if pat_at(doc@, 0, bom_bytes()) {
            lemma_bom_kept(d2@, out@);
        }
    }
    Ok(out)
}

/// Removes every entry named `key`, with the whitespace-only run before
/// each one, and reports the ordinal rank the first such entry occupied;
/// a missing key leaves the content unchanged and reports no rank. Fails
/// exactly when the bytes scan to no document.
pub fn remove_resx_key(doc: &Vec<u8>, key: &Vec<u8>) -> (r: Result<
    (Vec<u8>, Option<usize>),
    ResxError,
>)
    ensures
        r is Ok <==> tok_doc(doc@) is Some,
        match r {
            Ok(p) => tok_doc(doc@) matches Some(dm) && models(doc@, dm) && p.0@ == doc_bytes(
                DocModel { has_bom: dm.has_bom, segs: remove_segs(dm.segs, key@) },
            ) && (match p.1 {
                Some(u) => find_ord(dm.segs, key@) == Some(u as int),
                None => find_ord(dm.segs, key@) is None,
            }),
            Err(er) => er is Malformed,
        },
        (match r {
            Ok(p) => pat_at(doc@, 0, bom_bytes()) ==> pat_at(p.0@, 0, bom_bytes()),
            Err(_) => true,
        }),
{
    let d = match tokenize(doc) {
        Ok(d) => d,
        Err(er) => {
            return Err(er);
        },
    };
    let (d2, ord) = crate::edit::remove_entry(&d, key);
    let out = render(&d2);
    proof {
        assert(models(doc@, d@));
        assert(d2@ == DocModel { has_bom: d@.has_bom, segs: remove_segs(d@.segs, key@) });
        if pat_at(doc@, 0, bom_bytes()) {
            lemma_bom_kept(d2@, out@);
        }
    }
    Ok((out, ord))
}

/// Removes every listed key's entries in one pass and reports, per listed
/// key the document held, the ordinal rank it occupied. Fails exactly when
/// the bytes scan to no document.
pub fn remove_resx_keys(doc: &Vec<u8>, keys: &Vec<Vec<u8>>) -> (r: Result<
    (Vec<u8>, Vec<(Vec<u8>, usize)>),
    ResxError,
>)
    ensures
        r is Ok <==> tok_doc(doc@) is Some,
        match r {
            Ok(p) => tok_doc(doc@) matches Some(dm) && models(doc@, dm) && p.0@ == doc_bytes(
                DocModel {
                    has_bom: dm.has_bom,
                    segs: remove_segs_multi(dm.segs, keys_view(keys@)),
                },
            ) && ords_view(p.1@) == ords_spec(dm.segs, keys_view(keys@)),
            Err(er) => er is Malformed,
        },
        (match r {
            Ok(p) => pat_at(doc@, 0, bom_bytes()) ==> pat_at(p.0@, 0, bom_bytes()),
            Err(_) => true,
        }),
{
    let d = match tokenize(doc) {
        Ok(d) => d,
        Err(er) => {
            return Err(er);
        },
    };
    let (d2, ords) = crate::edit::remove_entries(&d, keys);
    let out = render(&d2);
    proof {
        assert(models(doc@, d@));
        assert(d2@ == DocModel {
            has_bom: d@.has_bom,
            segs: remove_segs_multi(d@.segs, keys_view(keys@)),
        });
        if pat_at(doc@, 0, bom_bytes()) {
            lemma_bom_kept(d2@, out@);
        }
    }
    Ok((out, ords))
}

/// Adds a new entry after the last one. A fast literal pre-check refuses a
/// key whose `name="…"` text already occurs anywhere in the raw content —
/// exactly that check, not a structural parse. Past that check it fails
/// exactly when the bytes scan to no document or there is no closing root
/// tag to append in front of.
pub fn add_resx_key(doc: &Vec<u8>, key: &Vec<u8>, value: &Vec<u8>) -> (r: Result<
    Vec<u8>,
    ResxError,
>)
    ensures
        (r matches Err(er) && er is DuplicateKey) <==> contains_pat(doc@, name_lit(key@)),
        r is Ok <==> (!contains_pat(doc@, name_lit(key@)) && (tok_doc(doc@) matches Some(dm)
            && insert_point_ok(dm.segs, item_count(dm.segs)))),
        match r {
            Ok(out) => tok_doc(doc@) matches Some(dm) && models(doc@, dm) && out@ == doc_bytes(
                DocModel {
                    has_bom: dm.has_bom,
                    segs: insert_point_segs(
                        dm.segs,
                        key@,
                        value@,
                        item_count(dm.segs),
                        eol_of(doc@),
                        indent_of(doc@),
                    ),
                },
            ),
            Err(er) => er is Malformed || er is DuplicateKey,
        },
        (match r {
            Ok(out) => pat_at(doc@, 0, bom_bytes()) ==> pat_at(out@, 0, bom_bytes()),
            Err(_) => true,
        }),
{
    let mut np: Vec<u8> = Vec::new();
    np.push(110);
    np.push(97);
    np.push(109);
    np.push(101);
    np.push(61);
    np.push(34);
    crate::util::push_bytes(&mut np, key);
    np.push(34);
    proof {
        assert(np@ =~= name_lit(key@));
    }
    match crate::util::find_pat(doc, 0, doc.len(), &np) {
        Some(_) => {
            return Err(ResxError::DuplicateKey);
        },
        None => {
            proof {
                assert(!contains_pat(doc@, name_lit(key@))) by {
                    if contains_pat(doc@, name_lit(key@)) {
                        let i = choose|i: int| pat_at(doc@, i, name_lit(key@));
                        assert(!(pat_at(doc@, i, np@) && i + np@.len() <= doc@.len()));
                    }
                }
            }
        },
    }
    let d = match tokenize(doc) {
        Ok(d) => d,
        Err(er) => {
            return Err(er);
        },
    };
    let cnt = crate::insert::count_items(&d);
    let eol = crate::infer::infer_eol(doc);
    let unit = crate::infer::infer_indent(doc);
    let d2 = match crate::insert::insert_entry(&d, key, value, cnt, &eol, &unit) {
        Ok(d2) => d2,
        Err(er) => {
            return Err(er);
        },
    };
    let out = render(&d2);
    proof {
        assert(models(doc@, d@));
        if pat_at(doc@, 0, bom_bytes()) {
            lemma_bom_kept(d2@, out@);
        }
    }
    Ok(out)
}

} // verus!
