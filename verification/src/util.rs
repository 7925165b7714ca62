//! Byte-level executable helpers: copying, comparing, searching, and the
//! exact patterns the scanner looks for.
use vstd::prelude::*;
use crate::model::{
    blank, comment_close_pat, comment_open_pat, data_close_pat, data_open_pat, name_pat, pat_at,
    value_close_pat, value_open_pat, wsb, Entry, Seg, B_CR, B_GT, B_LT, B_NL, B_SP, B_TAB,
};

verus! {

/// Copies a byte vector.
pub fn copy_bytes(v: &Vec<u8>) -> (r: Vec<u8>)
    ensures
        r@ == v@,
{
    let mut r: Vec<u8> = Vec::new();
    let mut i: usize = 0;
    while i < v.len()
        invariant
            i <= v.len(),
            r@ =~= v@.take(i as int),
        decreases v.len() - i,
    {
        r.push(v[i]);
        assert(v@.take(i + 1 as int) =~= v@.take(i as int).push(v@[i as int]));
        i = i + 1;
    }
    assert(v@.take(v@.len() as int) =~= v@);
    r
}

/// Copies the bytes of `v` from `a` (inclusive) to `b` (exclusive).
pub fn copy_range(v: &Vec<u8>, a: usize, b: usize) -> (r: Vec<u8>)
    requires
        a <= b <= v@.len(),
    ensures
        r@ == v@.subrange(a as int, b as int),
{
    let mut r: Vec<u8> = Vec::new();
    let mut i: usize = a;
    while i < b
        invariant
            a <= i <= b,
            r@ =~= v@.subrange(a as int, i as int),
        decreases b - i,
    {
        r.push(v[i]);
        assert(v@.subrange(a as int, i + 1 as int) =~= v@.subrange(a as int, i as int).push(
            v@[i as int],
        ));
        i = i + 1;
    }
    r
}

/// Appends all of `v` to `out`.
pub fn push_bytes(out: &mut Vec<u8>, v: &Vec<u8>)
    ensures
        final(out)@ == old(out)@ + v@,
{
    let ghost base = out@;
    let mut i: usize = 0;
    while i < v.len()
        invariant
            i <= v.len(),
            out@ =~= base + v@.take(i as int),
        decreases v.len() - i,
    {
        out.push(v[i]);
        assert(v@.take(i + 1 as int) =~= v@.take(i as int).push(v@[i as int]));
        i = i + 1;
    }
    assert(base + v@.take(v@.len() as int) =~= base + v@);
}

/// Byte-for-byte equality of two vectors.
pub fn eq_bytes(a: &Vec<u8>, b: &Vec<u8>) -> (r: bool)
    ensures
        r == (a@ == b@),
{
    if a.len() != b.len() {
        assert(a@ != b@);
        return false;
    }
    let mut i: usize = 0;
    while i < a.len()
        invariant
            i <= a.len(),
            a@.len() == b@.len(),
            forall|j: int| 0 <= j < i ==> a@[j] == b@[j],
        decreases a.len() - i,
    {
        if a[i] != b[i] {
            return false;
        }
        i = i + 1;
    }
    assert(a@ =~= b@);
    true
}

/// Does the pattern `pat` occur in `t` at position `j`?
pub fn match_at(t: &Vec<u8>, j: usize, pat: &Vec<u8>) -> (r: bool)
    ensures
        r == pat_at(t@, j as int, pat@),
{
    if pat.len() > t.len() || j > t.len() - pat.len() {
        assert(!pat_at(t@, j as int, pat@));
        return false;
    }
    let mut i: usize = 0;
    while i < pat.len()
        invariant
            i <= pat.len(),
            j + pat.len() <= t.len(),
            forall|k: int| 0 <= k < i ==> t@[j + k] == pat@[k],
        decreases pat.len() - i,
    {
        if t[j + i] != pat[i] {
            assert(t@.subrange(j as int, j + pat@.len()) != pat@) by {
                assert(t@.subrange(j as int, j + pat@.len())[i as int] != pat@[i as int]);
            }
            return false;
        }
        i = i + 1;
    }
    assert(t@.subrange(j as int, j + pat@.len()) =~= pat@);
    true
}

/// First position at or after `from` holding `<`, or the length of `t`.
pub fn find_lt(t: &Vec<u8>, from: usize) -> (r: usize)
    requires
        from <= t@.len(),
    ensures
        from <= r <= t@.len(),
        forall|j: int| from <= j < r ==> t@[j] != B_LT,
        r < t@.len() ==> t@[r as int] == B_LT,
{
    let mut i: usize = from;
    while i < t.len()
        invariant
            from <= i <= t@.len(),
            forall|j: int| from <= j < i ==> t@[j] != B_LT,
        decreases t@.len() - i,
    {
        if t[i] == B_LT {
            return i;
        }
        i = i + 1;
    }
    i
}

/// There is a `>` at `r`, with neither `<` nor `>` between `from` and `r`.
pub open spec fn clean_gt(t: Seq<u8>, from: int, r: int) -> bool {
    &&& from <= r < t.len()
    &&& t[r] == B_GT
    &&& forall|j: int| from <= j < r ==> t[j] != B_LT && t[j] != B_GT
}

/// Finds the end of the tag whose body starts at `from`: the first `>` not
/// preceded by a stray `<`.
pub fn find_tag_end(t: &Vec<u8>, from: usize) -> (r: Option<usize>)
    requires
        from <= t@.len(),
    ensures
        match r {
            Some(p) => clean_gt(t@, from as int, p as int),
            None => forall|p: int| !clean_gt(t@, from as int, p),
        },
{
    let mut i: usize = from;
    while i < t.len()
        invariant
            from <= i <= t@.len(),
            forall|j: int| from <= j < i ==> t@[j] != B_LT && t@[j] != B_GT,
        decreases t@.len() - i,
    {
        if t[i] == B_GT {
            return Some(i);
        }
        if t[i] == B_LT {
            assert(forall|p: int| clean_gt(t@, from as int, p) ==> false) by {
                assert forall|p: int| clean_gt(t@, from as int, p) implies false by {
                    if p > i {
                        assert(t@[i as int] == B_LT);
                    } else {
                        assert(t@[p] != B_GT);
                    }
                }
            }
            return None;
        }
        i = i + 1;
    }
    assert(forall|p: int| clean_gt(t@, from as int, p) ==> false) by {
        assert forall|p: int| clean_gt(t@, from as int, p) implies false by {
            assert(t@[p] != B_GT);
        }
    }
    None
}

/// First position at or after `from` holding byte `b`, if any.
pub fn find_byte(t: &Vec<u8>, from: usize, b: u8) -> (r: Option<usize>)
    requires
        from <= t@.len(),
    ensures
        match r {
            Some(p) => from <= p < t@.len() && t@[p as int] == b && forall|j: int|
                from <= j < p ==> t@[j] != b,
            None => forall|j: int| from <= j < t@.len() ==> t@[j] != b,
        },
{
    let mut i: usize = from;
    while i < t.len()
        invariant
            from <= i <= t@.len(),
            forall|j: int| from <= j < i ==> t@[j] != b,
        decreases t@.len() - i,
    {
        if t[i] == b {
            return Some(i);
        }
        i = i + 1;
    }
    None
}

/// First position `p` at or after `from` with `pat` at `p` and the match
/// ending at or before `to`, if any.
pub fn find_pat(t: &Vec<u8>, from: usize, to: usize, pat: &Vec<u8>) -> (r: Option<usize>)
    requires
        from <= t@.len(),
        to <= t@.len(),
        pat@.len() >= 1,
    ensures
        match r {
            Some(p) => from <= p && p + pat@.len() <= to && pat_at(t@, p as int, pat@) && forall|
                j: int,
            | from <= j < p ==> !(pat_at(t@, j, pat@) && j + pat@.len() <= to),
            None => forall|j: int| from <= j ==> !(pat_at(t@, j, pat@) && j + pat@.len() <= to),
        },
{
    if pat.len() > to {
        return None;
    }
    let mut i: usize = from;
    while i <= to - pat.len()
        invariant
            from <= i,
            i <= t@.len() + 1,
            pat@.len() <= to,
            forall|j: int| from <= j < i ==> !(pat_at(t@, j, pat@) && j + pat@.len() <= to),
        decreases to - i,
    {
        if match_at(t, i, pat) {
            return Some(i);
        }
        i = i + 1;
    }
    None
}

/// The first position at or after `from` holding `<`, or the length of `t`:
/// the position `find_lt` returns, as a function of the bytes.
pub open spec fn lt_pos(t: Seq<u8>, from: int) -> int
    decreases t.len() - from,
{
    if from < 0 || from >= t.len() {
        t.len() as int
    } else if t[from] == B_LT {
        from
    } else {
        lt_pos(t, from + 1)
    }
}

/// A position with no `<` before it (from `from` on) and `<` at it, if it is
/// in range, is exactly `lt_pos`.
pub proof fn lemma_lt_pos_agrees(t: Seq<u8>, from: int, u: int)
    requires
        0 <= from <= t.len(),
        from <= u <= t.len(),
        forall|j: int| from <= j < u ==> t[j] != B_LT,
        u < t.len() ==> t[u] == B_LT,
    ensures
        u == lt_pos(t, from),
    decreases u - from,
{
    if from < u {
        lemma_lt_pos_agrees(t, from + 1, u);
    }
}

/// The position `find_tag_end` returns, as a function of the bytes: the
/// first `>` at or after `from` with no stray `<` before it.
pub open spec fn gt_end(t: Seq<u8>, from: int) -> Option<int>
    decreases t.len() - from,
{
    if from < 0 || from >= t.len() {
        None
    } else if t[from] == B_GT {
        Some(from)
    } else if t[from] == B_LT {
        None
    } else {
        gt_end(t, from + 1)
    }
}

/// The characterization `find_tag_end` ensures determines `gt_end`.
pub proof fn lemma_gt_end_agrees(t: Seq<u8>, from: int, r: Option<int>)
    requires
        0 <= from <= t.len(),
        match r {
            Some(p) => clean_gt(t, from, p as int),
            None => forall|p: int| !clean_gt(t, from, p),
        },
    ensures
        r == gt_end(t, from),
    decreases t.len() - from,
{
    if from >= t.len() {
        if r is Some {
            let p = r->Some_0;
            assert(!(from <= p < t.len()));
        }
    } else if t[from] == B_GT {
        assert(clean_gt(t, from, from));
        match r {
            Some(p) => {
                if p > from {
                    assert(t[from] != B_GT);
                }
                assert(p == from);
            },
            None => {
                assert(!clean_gt(t, from, from));
            },
        }
    } else if t[from] == B_LT {
        match r {
            Some(p) => {
                if p == from {
                    assert(t[p] == B_GT);
                } else {
                    assert(t[from] != B_LT);
                }
            },
            None => {},
        }
    } else {
        match r {
            Some(p) => {
                assert(p != from);
                assert(clean_gt(t, from + 1, p));
                lemma_gt_end_agrees(t, from + 1, r);
            },
            None => {
                assert forall|p: int| !(#[trigger] clean_gt(t, from + 1, p)) by {
                    if clean_gt(t, from + 1, p) {
                        assert(clean_gt(t, from, p));
                    }
                }
                lemma_gt_end_agrees(t, from + 1, r);
            },
        }
    }
}

/// The position `find_byte` returns, as a function of the bytes: the first
/// occurrence of `b` at or after `from`.
pub open spec fn byte_pos(t: Seq<u8>, from: int, b: u8) -> Option<int>
    decreases t.len() - from,
{
    if from < 0 || from >= t.len() {
        None
    } else if t[from] == b {
        Some(from)
    } else {
        byte_pos(t, from + 1, b)
    }
}

/// The characterization `find_byte` ensures determines `byte_pos`.
pub proof fn lemma_byte_pos_agrees(t: Seq<u8>, from: int, b: u8, r: Option<int>)
    requires
        0 <= from <= t.len(),
        match r {
            Some(p) => from <= p < t.len() && t[p as int] == b && forall|j: int|
                from <= j < p ==> t[j] != b,
            None => forall|j: int| from <= j < t.len() ==> t[j] != b,
        },
    ensures
        r == byte_pos(t, from, b),
    decreases t.len() - from,
{
    if from >= t.len() {
    } else if t[from] == b {
        match r {
            Some(p) => {
                if p > from {
                    assert(t[from] != b);
                }
            },
            None => {
                assert(t[from] != b);
            },
        }
    } else {
        lemma_byte_pos_agrees(t, from + 1, b, r);
    }
}

/// The position `find_pat` returns, as a function of the bytes: the first
/// occurrence of `p` at or after `from` whose match ends at or before `to`.
pub open spec fn pat_pos(t: Seq<u8>, from: int, to: int, p: Seq<u8>) -> Option<int>
    decreases to - from,
{
    if from < 0 || p.len() < 1 || from + p.len() > to {
        None
    } else if pat_at(t, from, p) {
        Some(from)
    } else {
        pat_pos(t, from + 1, to, p)
    }
}

/// The characterization `find_pat` ensures determines `pat_pos`.
pub proof fn lemma_pat_pos_agrees(t: Seq<u8>, from: int, to: int, p: Seq<u8>, r: Option<int>)
    requires
        0 <= from,
        to <= t.len(),
        p.len() >= 1,
        match r {
            Some(q) => from <= q && q + p.len() <= to && pat_at(t, q as int, p) && forall|j: int|
                from <= j < q ==> !(pat_at(t, j, p) && j + p.len() <= to),
            None => forall|j: int| from <= j ==> !(pat_at(t, j, p) && j + p.len() <= to),
        },
    ensures
        r == pat_pos(t, from, to, p),
    decreases to - from,
{
    if from + p.len() > to {
        if r is Some {
            let q = r->Some_0;
            assert(q + p.len() <= to);
            assert(from <= q);
        }
    } else if pat_at(t, from, p) {
        match r {
            Some(q) => {
                if q > from {
                    assert(!(pat_at(t, from, p) && from + p.len() <= to));
                }
            },
            None => {
                assert(!(pat_at(t, from, p) && from + p.len() <= to));
            },
        }
    } else {
        lemma_pat_pos_agrees(t, from + 1, to, p, r);
    }
}

/// The longest all-whitespace suffix of `s` removed.
pub open spec fn trim_end_ws(s: Seq<u8>) -> Seq<u8>
    decreases s.len(),
{
    if s.len() > 0 && wsb(s.last()) {
        trim_end_ws(s.drop_last())
    } else {
        s
    }
}

/// The longest all-blank (space or tab) prefix of `s`.
pub open spec fn blank_prefix(s: Seq<u8>) -> Seq<u8>
    decreases s.len(),
{
    if s.len() > 0 && blank(s[0]) {
        seq![s[0]] + blank_prefix(s.skip(1))
    } else {
        Seq::empty()
    }
}

/// The longest all-blank (space or tab) suffix of `s`.
pub open spec fn blank_suffix(s: Seq<u8>) -> Seq<u8>
    decreases s.len(),
{
    if s.len() > 0 && blank(s.last()) {
        blank_suffix(s.drop_last()).push(s.last())
    } else {
        Seq::empty()
    }
}

proof fn lemma_trim_end_ws_at(s: Seq<u8>, k: int)
    requires
        0 <= k <= s.len(),
        forall|j: int| k <= j < s.len() ==> wsb(s[j]),
        k > 0 ==> !wsb(s[k - 1]),
    ensures
        trim_end_ws(s) == s.take(k),
    decreases s.len(),
{
    if s.len() == k {
        assert(s.take(k) =~= s);
        if s.len() > 0 {
            assert(!wsb(s.last()));
        }
    } else {
        assert(wsb(s.last()));
        assert(s.drop_last() =~= s.take(s.len() - 1));
        lemma_trim_end_ws_at(s.drop_last(), k);
        assert(s.drop_last().take(k) =~= s.take(k));
    }
}

proof fn lemma_blank_suffix_at(s: Seq<u8>, k: int)
    requires
        0 <= k <= s.len(),
        forall|j: int| k <= j < s.len() ==> blank(s[j]),
        k > 0 ==> !blank(s[k - 1]),
    ensures
        blank_suffix(s) == s.skip(k),
    decreases s.len(),
{
    if s.len() == k {
        assert(s.skip(k) =~= Seq::<u8>::empty());
        if s.len() > 0 {
            assert(!blank(s.last()));
        }
    } else {
        assert(blank(s.last()));
        assert(s.drop_last() =~= s.take(s.len() - 1));
        lemma_blank_suffix_at(s.drop_last(), k);
        assert(s.drop_last().skip(k).push(s.last()) =~= s.skip(k));
    }
}

/// Removes the trailing whitespace of `v`.
pub fn trim_end(v: &Vec<u8>) -> (r: Vec<u8>)
    ensures
        r@ == trim_end_ws(v@),
{
    let mut k: usize = v.len();
    while k > 0
        invariant
            k <= v@.len(),
            forall|j: int| k <= j < v@.len() ==> wsb(v@[j]),
        decreases k,
    {
        let b = v[k - 1];
        if b == B_SP || b == B_TAB || b == B_NL || b == B_CR {
            k = k - 1;
        } else {
            break;
        }
    }
    proof {
        lemma_trim_end_ws_at(v@, k as int);
    }
    let r = copy_range(v, 0, k);
    assert(v@.subrange(0, k as int) =~= v@.take(k as int));
    r
}

/// The trailing run of spaces and tabs of `v`.
pub fn take_blank_suffix(v: &Vec<u8>) -> (r: Vec<u8>)
    ensures
        r@ == blank_suffix(v@),
{
    let mut k: usize = v.len();
    while k > 0
        invariant
            k <= v@.len(),
            forall|j: int| k <= j < v@.len() ==> blank(v@[j]),
        decreases k,
    {
        let b = v[k - 1];
        if b == B_SP || b == B_TAB {
            k = k - 1;
        } else {
            break;
        }
    }
    proof {
        lemma_blank_suffix_at(v@, k as int);
    }
    copy_range(v, k, v.len())
}

/// Copies an entry field for field.
pub fn copy_entry(e: &Entry) -> (r: Entry)
    ensures
        r@ == e@,
{
    Entry {
        open_pre: copy_bytes(&e.open_pre),
        key: copy_bytes(&e.key),
        open_post: copy_bytes(&e.open_post),
        mid: copy_bytes(&e.mid),
        vopen: copy_bytes(&e.vopen),
        text: copy_bytes(&e.text),
        vclose: copy_bytes(&e.vclose),
        post: copy_bytes(&e.post),
        close: copy_bytes(&e.close),
    }
}

/// Copies one segment.
pub fn copy_seg(s: &Seg) -> (r: Seg)
    ensures
        r@ == s@,
{
    match s {
        Seg::Chars(b) => Seg::Chars(copy_bytes(b)),
        Seg::Markup(b) => Seg::Markup(copy_bytes(b)),
        Seg::Item(e) => Seg::Item(copy_entry(e)),
    }
}

/// Builds the `<data` pattern.
pub fn pat_data_open() -> (r: Vec<u8>)
    ensures
        r@ == data_open_pat(),
{
    let mut v: Vec<u8> = Vec::new();
    v.push(60);
    v.push(100);
    v.push(97);
    v.push(116);
    v.push(97);
    assert(v@ =~= data_open_pat());
    v
}

/// Builds the `</data` pattern.
pub fn pat_data_close() -> (r: Vec<u8>)
    ensures
        r@ == data_close_pat(),
{
    let mut v: Vec<u8> = Vec::new();
    v.push(60);
    v.push(47);
    v.push(100);
    v.push(97);
    v.push(116);
    v.push(97);
    assert(v@ =~= data_close_pat());
    v
}

/// Builds the `<value` pattern.
pub fn pat_value_open() -> (r: Vec<u8>)
    ensures
        r@ == value_open_pat(),
{
    let mut v: Vec<u8> = Vec::new();
    v.push(60);
    v.push(118);
    v.push(97);
    v.push(108);
    v.push(117);
    v.push(101);
    assert(v@ =~= value_open_pat());
    v
}

/// Builds the `</value` pattern.
pub fn pat_value_close() -> (r: Vec<u8>)
    ensures
        r@ == value_close_pat(),
{
    let mut v: Vec<u8> = Vec::new();
    v.push(60);
    v.push(47);
    v.push(118);
    v.push(97);
    v.push(108);
    v.push(117);
    v.push(101);
    assert(v@ =~= value_close_pat());
    v
}

/// Builds the ` name="` pattern.
pub fn pat_name() -> (r: Vec<u8>)
    ensures
        r@ == name_pat(),
{
    let mut v: Vec<u8> = Vec::new();
    v.push(32);
    v.push(110);
    v.push(97);
    v.push(109);
    v.push(101);
    v.push(61);
    v.push(34);
    assert(v@ =~= name_pat());
    v
}

/// Builds the `<!--` pattern.
pub fn pat_comment_open() -> (r: Vec<u8>)
    ensures
        r@ == comment_open_pat(),
{
    let mut v: Vec<u8> = Vec::new();
    v.push(60);
    v.push(33);
    v.push(45);
    v.push(45);
    assert(v@ =~= comment_open_pat());
    v
}

/// Builds the byte-order marker bytes.
pub fn pat_bom() -> (r: Vec<u8>)
    ensures
        r@ == crate::model::bom_bytes(),
{
    let mut v: Vec<u8> = Vec::new();
    v.push(0xef);
    v.push(0xbb);
    v.push(0xbf);
    assert(v@ =~= crate::model::bom_bytes());
    v
}

/// Builds the `-->` pattern.
pub fn pat_comment_close() -> (r: Vec<u8>)
    ensures
        r@ == comment_close_pat(),
{
    let mut v: Vec<u8> = Vec::new();
    v.push(45);
    v.push(45);
    v.push(62);
    assert(v@ =~= comment_close_pat());
    v
}

} // verus!
