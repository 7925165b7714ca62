//! The document model: a resource document is a sequence of segments, each
//! owning a contiguous run of the document's bytes. Plain character data and
//! non-entry markup pass through untouched; each entry element is split into
//! its structural pieces so that mutations can replace exactly one piece.
use vstd::prelude::*;

verus! {

/// `<` in ASCII.
pub const B_LT: u8 = 60;

/// `>` in ASCII.
pub const B_GT: u8 = 62;

/// `&` in ASCII.
pub const B_AMP: u8 = 38;

/// `"` in ASCII.
pub const B_QUOT: u8 = 34;

/// Line feed.
pub const B_NL: u8 = 10;

/// Carriage return.
pub const B_CR: u8 = 13;

/// Space.
pub const B_SP: u8 = 32;

/// Horizontal tab.
pub const B_TAB: u8 = 9;

/// `/` in ASCII.
pub const B_SLASH: u8 = 47;

/// One entry element, split into the nine byte runs that concatenate back to
/// its exact source text: `open_pre` runs from `<data` through `name="`,
/// `key` is the raw attribute value, `open_post` runs from the closing quote
/// through the `>` of the open tag, `mid` is whatever stands between the open
/// tag and the value element, `text` is the raw (still escaped) value text,
/// and `post` is whatever stands between `</value...>` and `</data...>`.
pub struct Entry {
    pub open_pre: Vec<u8>,
    pub key: Vec<u8>,
    pub open_post: Vec<u8>,
    pub mid: Vec<u8>,
    pub vopen: Vec<u8>,
    pub text: Vec<u8>,
    pub vclose: Vec<u8>,
    pub post: Vec<u8>,
    pub close: Vec<u8>,
}

/// The mathematical image of an `Entry`.
pub ghost struct EntryModel {
    pub open_pre: Seq<u8>,
    pub key: Seq<u8>,
    pub open_post: Seq<u8>,
    pub mid: Seq<u8>,
    pub vopen: Seq<u8>,
    pub text: Seq<u8>,
    pub vclose: Seq<u8>,
    pub post: Seq<u8>,
    pub close: Seq<u8>,
}

impl View for Entry {
    type V = EntryModel;

    open spec fn view(&self) -> EntryModel {
        EntryModel {
            open_pre: self.open_pre@,
            key: self.key@,
            open_post: self.open_post@,
            mid: self.mid@,
            vopen: self.vopen@,
            text: self.text@,
            vclose: self.vclose@,
            post: self.post@,
            close: self.close@,
        }
    }
}

/// One segment of a document: a run of character data containing no `<`, a
/// single piece of non-entry markup (a tag, a comment, a declaration), or an
/// entry element.
pub enum Seg {
    Chars(Vec<u8>),
    Markup(Vec<u8>),
    Item(Entry),
}

/// The mathematical image of a `Seg`.
pub ghost enum SegModel {
    Chars(Seq<u8>),
    Markup(Seq<u8>),
    Item(EntryModel),
}

impl View for Seg {
    type V = SegModel;

    open spec fn view(&self) -> SegModel {
        match self {
            Seg::Chars(b) => SegModel::Chars(b@),
            Seg::Markup(b) => SegModel::Markup(b@),
            Seg::Item(e) => SegModel::Item(e@),
        }
    }
}

/// A tokenized document: whether a byte-order marker led the source, and the
/// segments covering every byte after it.
pub struct Document {
    pub has_bom: bool,
    pub segs: Vec<Seg>,
}

/// The mathematical image of a `Document`.
pub ghost struct DocModel {
    pub has_bom: bool,
    pub segs: Seq<SegModel>,
}

impl View for Document {
    type V = DocModel;

    open spec fn view(&self) -> DocModel {
        DocModel { has_bom: self.has_bom, segs: segs_view(self.segs@) }
    }
}

/// The bytes of the UTF-8 byte-order marker.
pub open spec fn bom_bytes() -> Seq<u8> {
    seq![0xefu8, 0xbbu8, 0xbfu8]
}

/// `<data`, the start of an entry open tag.
pub open spec fn data_open_pat() -> Seq<u8> {
    seq![60u8, 100u8, 97u8, 116u8, 97u8]
}

/// `</data`, the start of an entry close tag.
pub open spec fn data_close_pat() -> Seq<u8> {
    seq![60u8, 47u8, 100u8, 97u8, 116u8, 97u8]
}

/// `<value`, the start of a value open tag.
pub open spec fn value_open_pat() -> Seq<u8> {
    seq![60u8, 118u8, 97u8, 108u8, 117u8, 101u8]
}

/// `</value`, the start of a value close tag.
pub open spec fn value_close_pat() -> Seq<u8> {
    seq![60u8, 47u8, 118u8, 97u8, 108u8, 117u8, 101u8]
}

/// ` name="`, the lead-in of the name attribute.
pub open spec fn name_pat() -> Seq<u8> {
    seq![32u8, 110u8, 97u8, 109u8, 101u8, 61u8, 34u8]
}

/// `<!--`, the start of a comment.
pub open spec fn comment_open_pat() -> Seq<u8> {
    seq![60u8, 33u8, 45u8, 45u8]
}

/// `-->`, the end of a comment.
pub open spec fn comment_close_pat() -> Seq<u8> {
    seq![45u8, 45u8, 62u8]
}

/// The pattern `p` occurs in `t` at position `i`.
pub open spec fn pat_at(t: Seq<u8>, i: int, p: Seq<u8>) -> bool {
    0 <= i && i + p.len() <= t.len() && t.subrange(i, i + p.len()) == p
}

/// A byte that may follow an element name inside a tag.
pub open spec fn tag_delim(b: u8) -> bool {
    b == B_GT || b == B_SP || b == B_TAB || b == B_NL || b == B_CR || b == B_SLASH
}

/// A space or tab.
pub open spec fn blank(b: u8) -> bool {
    b == B_SP || b == B_TAB
}

/// Horizontal or vertical whitespace.
pub open spec fn wsb(b: u8) -> bool {
    b == B_SP || b == B_TAB || b == B_NL || b == B_CR
}

/// Every byte of `s` is whitespace.
pub open spec fn ws_only(s: Seq<u8>) -> bool {
    forall|i: int| 0 <= i < s.len() ==> wsb(#[trigger] s[i])
}

/// The tag lead-in `p` occurs at position `i` of `t` and is followed by a
/// delimiter byte, so a tag of that name truly begins there.
pub open spec fn start_at(t: Seq<u8>, i: int, p: Seq<u8>) -> bool {
    pat_at(t, i, p) && i + p.len() < t.len() && tag_delim(t[i + p.len()])
}

/// An entry open tag begins at position `i` of `t`.
pub open spec fn data_start_at(t: Seq<u8>, i: int) -> bool {
    start_at(t, i, data_open_pat())
}

/// An entry close tag begins at position `i` of `t`.
pub open spec fn data_close_at(t: Seq<u8>, i: int) -> bool {
    start_at(t, i, data_close_pat())
}

/// A value open tag begins at position `i` of `t`.
pub open spec fn value_start_at(t: Seq<u8>, i: int) -> bool {
    start_at(t, i, value_open_pat())
}

/// A value close tag begins at position `i` of `t`.
pub open spec fn value_close_at(t: Seq<u8>, i: int) -> bool {
    start_at(t, i, value_close_pat())
}

/// No entry, value, or entry-close tag begins anywhere in `s`: such a run can
/// never change which entries a document holds.
pub open spec fn inert(s: Seq<u8>) -> bool {
    forall|i: int|
        !data_start_at(s, i) && !data_close_at(s, i) && !value_start_at(s, i) && !value_close_at(
            s,
            i,
        )
}

/// `s` is exactly one comment: `<!--`, a body holding no `-->`, then `-->`.
pub open spec fn comment_span(s: Seq<u8>) -> bool {
    &&& s.len() >= 7
    &&& pat_at(s, 0, comment_open_pat())
    &&& s.subrange(s.len() - 3, s.len() as int) == comment_close_pat()
    &&& forall|j: int| 4 <= j < s.len() - 3 ==> !pat_at(s, j, comment_close_pat())
}

/// `s` is one plain (non-comment, non-entry) markup item: `<`, a body free of
/// angle brackets, then `>`.
pub open spec fn plain_markup(s: Seq<u8>) -> bool {
    &&& s.len() >= 2
    &&& s[0] == B_LT
    &&& s[s.len() - 1] == B_GT
    &&& forall|i: int| 0 < i < s.len() - 1 ==> s[i] != B_LT && s[i] != B_GT
    &&& !data_start_at(s, 0)
}

/// Well-formedness of one entry: each piece has exactly the shape the
/// tokenizer extracts, so that the concatenation of the pieces re-reads as
/// the same entry and as nothing else.
pub open spec fn entry_wf(e: EntryModel) -> bool {
    &&& e.open_pre.len() >= 12
    &&& data_start_at(e.open_pre, 0)
    &&& e.open_pre.subrange(e.open_pre.len() - 7, e.open_pre.len() as int) == name_pat()
    &&& forall|i: int|
        0 < i < e.open_pre.len() ==> e.open_pre[i] != B_LT && e.open_pre[i] != B_GT
    &&& forall|i: int|
        0 <= i < e.key.len() ==> e.key[i] != B_QUOT && e.key[i] != B_LT && e.key[i] != B_GT
    &&& e.open_post.len() >= 2
    &&& e.open_post[0] == B_QUOT
    &&& e.open_post[e.open_post.len() - 1] == B_GT
    &&& forall|i: int|
        0 <= i < e.open_post.len() - 1 ==> e.open_post[i] != B_LT && e.open_post[i] != B_GT
    &&& inert(e.mid)
    &&& e.vopen.len() >= 7
    &&& value_start_at(e.vopen, 0)
    &&& e.vopen[e.vopen.len() - 1] == B_GT
    &&& e.vopen[e.vopen.len() - 2] != B_SLASH
    &&& forall|i: int| 0 < i < e.vopen.len() - 1 ==> e.vopen[i] != B_LT && e.vopen[i] != B_GT
    &&& forall|i: int| 0 <= i < e.text.len() ==> e.text[i] != B_LT
    &&& e.vclose.len() >= 8
    &&& value_close_at(e.vclose, 0)
    &&& e.vclose[e.vclose.len() - 1] == B_GT
    &&& forall|i: int| 0 < i < e.vclose.len() - 1 ==> e.vclose[i] != B_LT && e.vclose[i] != B_GT
    &&& inert(e.post)
    &&& e.close.len() >= 7
    &&& data_close_at(e.close, 0)
    &&& e.close[e.close.len() - 1] == B_GT
    &&& forall|i: int| 0 < i < e.close.len() - 1 ==> e.close[i] != B_LT && e.close[i] != B_GT
}

/// Well-formedness of one segment.
pub open spec fn seg_wf(s: SegModel) -> bool {
    match s {
        SegModel::Chars(b) => b.len() > 0 && forall|i: int| 0 <= i < b.len() ==> b[i] != B_LT,
        SegModel::Markup(b) => comment_span(b) || plain_markup(b),
        SegModel::Item(e) => entry_wf(e),
    }
}

/// Well-formedness of a segment sequence.
pub open spec fn segs_wf(ss: Seq<SegModel>) -> bool {
    forall|i: int| 0 <= i < ss.len() ==> seg_wf(#[trigger] ss[i])
}

/// Well-formedness of a whole document model.
pub open spec fn doc_wf(d: DocModel) -> bool {
    segs_wf(d.segs)
}

/// The bytes an entry contributes to the document.
pub open spec fn entry_bytes(e: EntryModel) -> Seq<u8> {
    e.open_pre + e.key + e.open_post + e.mid + e.vopen + e.text + e.vclose + e.post + e.close
}

/// The bytes one segment contributes to the document.
pub open spec fn seg_bytes(s: SegModel) -> Seq<u8> {
    match s {
        SegModel::Chars(b) => b,
        SegModel::Markup(b) => b,
        SegModel::Item(e) => entry_bytes(e),
    }
}

/// The bytes of a whole segment sequence, in order.
pub open spec fn segs_bytes(ss: Seq<SegModel>) -> Seq<u8>
    decreases ss.len(),
{
    if ss.len() == 0 {
        Seq::empty()
    } else {
        seg_bytes(ss[0]) + segs_bytes(ss.skip(1))
    }
}

/// The full byte image of a document model, marker included.
pub open spec fn doc_bytes(d: DocModel) -> Seq<u8> {
    if d.has_bom {
        bom_bytes() + segs_bytes(d.segs)
    } else {
        segs_bytes(d.segs)
    }
}

/// A segment is an entry element.
pub open spec fn is_item(s: SegModel) -> bool {
    s is Item
}

/// How many entry elements a segment sequence holds.
pub open spec fn item_count(ss: Seq<SegModel>) -> int
    decreases ss.len(),
{
    if ss.len() == 0 {
        0
    } else {
        (if is_item(ss[0]) {
            1int
        } else {
            0int
        }) + item_count(ss.skip(1))
    }
}

/// Why an operation failed.
#[derive(Debug, Clone, Copy, PartialEq, Eq)]
pub enum ResxError {
    /// The token stream is not a well-formed resource document.
    Malformed,
    /// Adding a new key found its name attribute already present.
    DuplicateKey,
}

/// The model of each segment of an executable segment vector.
pub open spec fn segs_view(v: Seq<Seg>) -> Seq<SegModel> {
    Seq::new(v.len(), |i: int| v[i]@)
}

/// Pattern occurrence inside a subrange, translated to the full sequence.
pub proof fn lemma_pat_sub(t: Seq<u8>, a: int, b: int, p: Seq<u8>, k: int)
    requires
        0 <= a <= b <= t.len(),
    ensures
        pat_at(t.subrange(a, b), k, p) <==> (0 <= k && k + p.len() <= b - a && pat_at(
            t,
            a + k,
            p,
        )),
{
    let m = t.subrange(a, b);
    if 0 <= k && k + p.len() <= b - a {
        assert(m.subrange(k, k + p.len()) =~= t.subrange(a + k, a + k + p.len()));
    }
}

/// Tag start inside a subrange, translated to the full sequence. The
/// delimiter byte lies inside the subrange, so the two sides agree.
pub proof fn lemma_start_sub(t: Seq<u8>, a: int, b: int, p: Seq<u8>, k: int)
    requires
        0 <= a <= b <= t.len(),
    ensures
        start_at(t.subrange(a, b), k, p) <==> (0 <= k && k + p.len() < b - a && start_at(
            t,
            a + k,
            p,
        )),
{
    lemma_pat_sub(t, a, b, p, k);
}

/// A run whose every `<` was checked to start no entry, value, or closing
/// tag is inert.
pub proof fn lemma_inert_range(t: Seq<u8>, a: int, b: int)
    requires
        0 <= a <= b <= t.len(),
        forall|k: int|
            a <= k < b && t[k] == B_LT ==> !data_start_at(t, k) && !data_close_at(t, k)
                && !value_start_at(t, k) && !value_close_at(t, k),
    ensures
        inert(t.subrange(a, b)),
{
    let m = t.subrange(a, b);
    assert forall|i: int|
        !data_start_at(m, i) && !data_close_at(m, i) && !value_start_at(m, i) && !value_close_at(
            m,
            i,
        ) by {
        lemma_start_sub(t, a, b, data_open_pat(), i);
        lemma_start_sub(t, a, b, data_close_pat(), i);
        lemma_start_sub(t, a, b, value_open_pat(), i);
        lemma_start_sub(t, a, b, value_close_pat(), i);
        if data_start_at(m, i) {
            assert(m.subrange(i, i + 5)[0] == 60u8);
            assert(t[a + i] == B_LT);
        }
        if data_close_at(m, i) {
            assert(m.subrange(i, i + 6)[0] == 60u8);
            assert(t[a + i] == B_LT);
        }
        if value_start_at(m, i) {
            assert(m.subrange(i, i + 6)[0] == 60u8);
            assert(t[a + i] == B_LT);
        }
        if value_close_at(m, i) {
            assert(m.subrange(i, i + 7)[0] == 60u8);
            assert(t[a + i] == B_LT);
        }
    }
}

pub proof fn lemma_segs_bytes_push(ss: Seq<SegModel>, s: SegModel)
    ensures
        segs_bytes(ss.push(s)) == segs_bytes(ss) + seg_bytes(s),
    decreases ss.len(),
{
    if ss.len() == 0 {
        assert(ss.push(s).skip(1) =~= Seq::<SegModel>::empty());
        assert(ss.push(s)[0] == s);
        assert(segs_bytes(ss.push(s)) == seg_bytes(s) + segs_bytes(Seq::<SegModel>::empty()));
        assert(seg_bytes(s) + Seq::<u8>::empty() =~= seg_bytes(s));
        assert(segs_bytes(ss) + seg_bytes(s) =~= seg_bytes(s));
    } else {
        assert(ss.push(s).skip(1) =~= ss.skip(1).push(s));
        lemma_segs_bytes_push(ss.skip(1), s);
        assert(segs_bytes(ss.push(s)) =~= segs_bytes(ss) + seg_bytes(s));
    }
}

pub proof fn lemma_segs_bytes_concat(a: Seq<SegModel>, b: Seq<SegModel>)
    ensures
        segs_bytes(a + b) == segs_bytes(a) + segs_bytes(b),
    decreases a.len(),
{
    if a.len() == 0 {
        assert(a + b =~= b);
        assert(segs_bytes(a) + segs_bytes(b) =~= segs_bytes(b));
    } else {
        assert((a + b).skip(1) =~= a.skip(1) + b);
        lemma_segs_bytes_concat(a.skip(1), b);
        assert(segs_bytes(a + b) =~= segs_bytes(a) + segs_bytes(b));
    }
}

pub proof fn lemma_item_count_bounds(ss: Seq<SegModel>)
    ensures
        0 <= item_count(ss) <= ss.len(),
    decreases ss.len(),
{
    if ss.len() > 0 {
        lemma_item_count_bounds(ss.skip(1));
    }
}


} // verus!
