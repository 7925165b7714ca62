//! Format inference: the dominant line-ending convention and the
//! indentation unit in force, re-derived from the raw bytes on every
//! mutating call so one policy governs all synthesized structure.
use vstd::prelude::*;
use crate::model::{blank, data_open_pat, pat_at, ws_only, wsb, B_CR, B_NL};
use crate::util::match_at;

verus! {

/// The document uses the two-byte line ending somewhere.
pub open spec fn has_crlf(s: Seq<u8>) -> bool {
    exists|i: int| 0 <= i && i + 1 < s.len() && #[trigger] s[i] == B_CR && s[i + 1] == B_NL
}

/// The line ending every synthesized line uses.
pub open spec fn eol_of(s: Seq<u8>) -> Seq<u8> {
    if has_crlf(s) {
        seq![B_CR, B_NL]
    } else {
        seq![B_NL]
    }
}

/// Reads the dominant line ending of the raw document.
pub fn infer_eol(raw: &Vec<u8>) -> (r: Vec<u8>)
    ensures
        r@ == eol_of(raw@),
        ws_only(r@),
        r@.len() > 0,
{
    let n = raw.len();
    let mut i: usize = 0;
    while n > 0 && i < n - 1
        invariant
            i <= n,
            n == raw@.len(),
            forall|j: int|
                0 <= j < i && j + 1 < n ==> !(#[trigger] raw@[j] == B_CR && raw@[j + 1] == B_NL),
        decreases n - i,
    {
        if raw[i] == B_CR && raw[i + 1] == B_NL {
            let mut two: Vec<u8> = Vec::new();
            two.push(B_CR);
            two.push(B_NL);
            proof {
                assert(has_crlf(raw@));
                assert(two@ =~= eol_of(raw@));
            }
            return two;
        }
        i = i + 1;
    }
    proof {
        assert(!has_crlf(raw@));
    }
    let mut one: Vec<u8> = Vec::new();
    one.push(B_NL);
    assert(one@ =~= eol_of(raw@));
    one
}

/// The first position at or after `j` whose byte is not a blank.
pub open spec fn blank_run_end(s: Seq<u8>, j: int) -> int
    decreases s.len() - j when 0 <= j <= s.len()
{
    if j < s.len() && blank(s[j]) {
        blank_run_end(s, j + 1)
    } else {
        j
    }
}

/// The blank run opening the line that starts at position `i + 1` is an
/// indentation sample when the tag lead-in `p` follows it directly.
pub open spec fn indent_sample_at(s: Seq<u8>, i: int, p: Seq<u8>) -> bool {
    s[i] == B_NL && pat_at(s, blank_run_end(s, i + 1), p)
}

/// The indentation run of the first line opening with blanks then the tag
/// lead-in `p`, scanning from position `i`.
pub open spec fn find_indent_from(s: Seq<u8>, i: int, p: Seq<u8>) -> Option<Seq<u8>>
    decreases s.len() - i when 0 <= i <= s.len()
{
    if i >= s.len() {
        None
    } else if indent_sample_at(s, i, p) {
        Some(s.subrange(i + 1, blank_run_end(s, i + 1)))
    } else {
        find_indent_from(s, i + 1, p)
    }
}

/// `<resheader`, the lead-in of a header element.
pub open spec fn header_pat() -> Seq<u8> {
    seq![60u8, 114u8, 101u8, 115u8, 104u8, 101u8, 97u8, 100u8, 101u8, 114u8]
}

/// Four spaces, the fallback indentation unit.
pub open spec fn four_spaces() -> Seq<u8> {
    seq![32u8, 32u8, 32u8, 32u8]
}

/// The inferred indentation unit: the whitespace before the first entry
/// element that opens a line; failing that, the same for a header element;
/// failing that, four spaces.
pub open spec fn indent_of(s: Seq<u8>) -> Seq<u8> {
    match find_indent_from(s, 0, data_open_pat()) {
        Some(x) => x,
        None => match find_indent_from(s, 0, header_pat()) {
            Some(x) => x,
            None => four_spaces(),
        },
    }
}

/// Builds the `<resheader` bytes.
fn pat_header() -> (r: Vec<u8>)
    ensures
        r@ == header_pat(),
{
    let mut v: Vec<u8> = Vec::new();
    v.push(60);
    v.push(114);
    v.push(101);
    v.push(115);
    v.push(104);
    v.push(101);
    v.push(97);
    v.push(100);
    v.push(101);
    v.push(114);
    assert(v@ =~= header_pat());
    v
}

/// Scans for the indentation sample of one tag lead-in.
fn probe_indent(raw: &Vec<u8>, p: &Vec<u8>) -> (r: Option<Vec<u8>>)
    ensures
        match r {
            Some(v) => find_indent_from(raw@, 0, p@) == Some(v@) && forall|j: int|
                0 <= j < v@.len() ==> blank(#[trigger] v@[j]),
            None => find_indent_from(raw@, 0, p@) is None,
        },
{
    let n = raw.len();
    let mut i: usize = 0;
    while i < n
        invariant
            i <= n,
            n == raw@.len(),
            find_indent_from(raw@, 0, p@) == find_indent_from(raw@, i as int, p@),
        decreases n - i,
    {
        if raw[i] == B_NL {
            let mut j: usize = i + 1;
            while j < n
                invariant
                    i + 1 <= j <= n,
                    n == raw@.len(),
                    blank_run_end(raw@, i + 1) == blank_run_end(raw@, j as int),
                decreases n - j,
            {
                let b = raw[j];
                if b == 32 || b == 9 {
                    j = j + 1;
                } else {
                    break;
                }
            }
            proof {
                assert(blank_run_end(raw@, j as int) == j as int) by {
                    if (j as int) < raw@.len() {
                        assert(!blank(raw@[j as int]));
                    }
                }
            }
            if match_at(raw, j, p) {
                proof {
                    assert(indent_sample_at(raw@, i as int, p@));
                }
                let v = crate::util::copy_range(raw, i + 1, j);
                proof {
                    assert forall|m: int| 0 <= m < v@.len() implies blank(#[trigger] v@[m]) by {
                        lemma_blank_run(raw@, i + 1, m + i + 1);
                    }
                }
                return Some(v);
            }
            proof {
                assert(!indent_sample_at(raw@, i as int, p@));
            }
        } else {
            proof {
                assert(!indent_sample_at(raw@, i as int, p@));
            }
        }
        i = i + 1;
    }
    None
}

/// Every byte strictly inside a blank run is blank.
proof fn lemma_blank_run(s: Seq<u8>, a: int, m: int)
    requires
        0 <= a <= s.len(),
        a <= m < blank_run_end(s, a),
    ensures
        blank(s[m]),
    decreases s.len() - a,
{
    if a < s.len() && blank(s[a]) {
        if m > a {
            lemma_blank_run(s, a + 1, m);
        }
    }
}

/// Reads the indentation unit of the raw document.
pub fn infer_indent(raw: &Vec<u8>) -> (r: Vec<u8>)
    ensures
        r@ == indent_of(raw@),
        ws_only(r@),
{
    let pd = crate::util::pat_data_open();
    match probe_indent(raw, &pd) {
        Some(v) => {
            assert(ws_only(v@));
            v
        },
        None => {
            let ph = pat_header();
            match probe_indent(raw, &ph) {
                Some(v) => {
                    assert(ws_only(v@));
                    v
                },
                None => {
                    let mut v: Vec<u8> = Vec::new();
                    v.push(32);
                    v.push(32);
                    v.push(32);
                    v.push(32);
                    assert(v@ =~= four_spaces());
                    v
                },
            }
        },
    }
}

} // verus!
