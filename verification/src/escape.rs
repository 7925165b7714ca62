//! Minimal escaping of value text and attribute values, and the unescaping
//! used when extracting entries. Escaping is minimal on purpose: only the
//! bytes that the document grammar cannot hold verbatim are substituted, so
//! entities the original author wrote stay exactly as written.
use vstd::prelude::*;
use crate::model::{pat_at, B_AMP, B_GT, B_LT, B_QUOT};

verus! {

/// `&amp;`
pub open spec fn amp_ent() -> Seq<u8> {
    seq![38u8, 97u8, 109u8, 112u8, 59u8]
}

/// `&lt;`
pub open spec fn lt_ent() -> Seq<u8> {
    seq![38u8, 108u8, 116u8, 59u8]
}

/// `&gt;`
pub open spec fn gt_ent() -> Seq<u8> {
    seq![38u8, 103u8, 116u8, 59u8]
}

/// `&quot;`
pub open spec fn quot_ent() -> Seq<u8> {
    seq![38u8, 113u8, 117u8, 111u8, 116u8, 59u8]
}

/// `&apos;`
pub open spec fn apos_ent() -> Seq<u8> {
    seq![38u8, 97u8, 112u8, 111u8, 115u8, 59u8]
}

/// `s` begins with `p`.
pub open spec fn starts_with(s: Seq<u8>, p: Seq<u8>) -> bool {
    pat_at(s, 0, p)
}

/// How one byte of new value text is written: ampersand and the two angle
/// brackets become entities, every other byte stands as itself.
pub open spec fn esc_byte(b: u8) -> Seq<u8> {
    if b == B_AMP {
        amp_ent()
    } else if b == B_LT {
        lt_ent()
    } else if b == B_GT {
        gt_ent()
    } else {
        seq![b]
    }
}

/// Minimal escaping of value text.
pub open spec fn escape_min(s: Seq<u8>) -> Seq<u8>
    decreases s.len(),
{
    if s.len() == 0 {
        Seq::empty()
    } else {
        esc_byte(s[0]) + escape_min(s.skip(1))
    }
}

/// How one byte of a new attribute value is written: as for value text, and
/// the double quote becomes an entity too.
pub open spec fn attr_esc_byte(b: u8) -> Seq<u8> {
    if b == B_QUOT {
        quot_ent()
    } else {
        esc_byte(b)
    }
}

/// Minimal escaping of an attribute value.
pub open spec fn attr_escape(s: Seq<u8>) -> Seq<u8>
    decreases s.len(),
{
    if s.len() == 0 {
        Seq::empty()
    } else {
        attr_esc_byte(s[0]) + attr_escape(s.skip(1))
    }
}

/// Unescaping: the five named entities are substituted; any other ampersand
/// stands as itself.
pub open spec fn unescape_min(s: Seq<u8>) -> Seq<u8>
    decreases s.len(),
{
    if s.len() == 0 {
        Seq::empty()
    } else if starts_with(s, amp_ent()) {
        seq![B_AMP] + unescape_min(s.skip(5))
    } else if starts_with(s, lt_ent()) {
        seq![B_LT] + unescape_min(s.skip(4))
    } else if starts_with(s, gt_ent()) {
        seq![B_GT] + unescape_min(s.skip(4))
    } else if starts_with(s, quot_ent()) {
        seq![B_QUOT] + unescape_min(s.skip(6))
    } else if starts_with(s, apos_ent()) {
        seq![39u8] + unescape_min(s.skip(6))
    } else {
        seq![s[0]] + unescape_min(s.skip(1))
    }
}

pub proof fn lemma_escape_append(a: Seq<u8>, b: Seq<u8>)
    ensures
        escape_min(a + b) == escape_min(a) + escape_min(b),
    decreases a.len(),
{
    if a.len() == 0 {
        assert(a + b =~= b);
        assert(escape_min(a) + escape_min(b) =~= escape_min(b));
    } else {
        assert((a + b).skip(1) =~= a.skip(1) + b);
        lemma_escape_append(a.skip(1), b);
        assert((a + b)[0] == a[0]);
        assert(escape_min(a + b) =~= escape_min(a) + escape_min(b));
    }
}

pub proof fn lemma_attr_escape_append(a: Seq<u8>, b: Seq<u8>)
    ensures
        attr_escape(a + b) == attr_escape(a) + attr_escape(b),
    decreases a.len(),
{
    if a.len() == 0 {
        assert(a + b =~= b);
        assert(attr_escape(a) + attr_escape(b) =~= attr_escape(b));
    } else {
        assert((a + b).skip(1) =~= a.skip(1) + b);
        lemma_attr_escape_append(a.skip(1), b);
        assert((a + b)[0] == a[0]);
        assert(attr_escape(a + b) =~= attr_escape(a) + attr_escape(b));
    }
}

/// Escaped value text never holds a raw `<`.
pub proof fn lemma_escape_no_lt(s: Seq<u8>)
    ensures
        forall|i: int| 0 <= i < escape_min(s).len() ==> escape_min(s)[i] != B_LT,
    decreases s.len(),
{
    if s.len() > 0 {
        lemma_escape_no_lt(s.skip(1));
        assert forall|i: int| 0 <= i < escape_min(s).len() implies escape_min(s)[i] != B_LT by {
            if i < esc_byte(s[0]).len() {
                assert(escape_min(s)[i] == esc_byte(s[0])[i]);
            } else {
                assert(escape_min(s)[i] == escape_min(s.skip(1))[i - esc_byte(s[0]).len()]);
            }
        }
    }
}

/// An escaped attribute value never holds a raw quote or angle bracket.
pub proof fn lemma_attr_escape_clean(s: Seq<u8>)
    ensures
        forall|i: int|
            0 <= i < attr_escape(s).len() ==> attr_escape(s)[i] != B_QUOT && attr_escape(s)[i]
                != B_LT && attr_escape(s)[i] != B_GT,
    decreases s.len(),
{
    if s.len() > 0 {
        lemma_attr_escape_clean(s.skip(1));
        assert forall|i: int| 0 <= i < attr_escape(s).len() implies attr_escape(s)[i] != B_QUOT
            && attr_escape(s)[i] != B_LT && attr_escape(s)[i] != B_GT by {
            if i < attr_esc_byte(s[0]).len() {
                assert(attr_escape(s)[i] == attr_esc_byte(s[0])[i]);
            } else {
                assert(attr_escape(s)[i] == attr_escape(s.skip(1))[i - attr_esc_byte(s[0]).len()]);
            }
        }
    }
}

/// Unescaping undoes minimal escaping: writing a value and reading it back
/// yields the value, whatever bytes it holds.
pub proof fn lemma_unescape_escape(s: Seq<u8>)
    ensures
        unescape_min(escape_min(s)) == s,
    decreases s.len(),
{
    if s.len() == 0 {
        assert(unescape_min(escape_min(s)) =~= s);
    } else {
        lemma_unescape_escape(s.skip(1));
        let b = s[0];
        let e = escape_min(s);
        assert(e == esc_byte(b) + escape_min(s.skip(1)));
        if b == B_AMP {
            assert(starts_with(e, amp_ent())) by {
                assert(e.subrange(0, 5) =~= amp_ent());
            }
            assert(e.skip(5) =~= escape_min(s.skip(1)));
            assert(unescape_min(e) =~= s);
        } else if b == B_LT {
            assert(e.subrange(0, 4) =~= lt_ent());
            assert(!starts_with(e, amp_ent())) by {
                if starts_with(e, amp_ent()) {
                    assert(e.subrange(0, 5)[1] == 97u8);
                    assert(e[1] == 108u8);
                }
            }
            assert(e.skip(4) =~= escape_min(s.skip(1)));
            assert(unescape_min(e) =~= s);
        } else if b == B_GT {
            assert(e.subrange(0, 4) =~= gt_ent());
            assert(!starts_with(e, amp_ent())) by {
                if starts_with(e, amp_ent()) {
                    assert(e.subrange(0, 5)[1] == 97u8);
                    assert(e[1] == 103u8);
                }
            }
            assert(!starts_with(e, lt_ent())) by {
                if starts_with(e, lt_ent()) {
                    assert(e.subrange(0, 4)[1] == 108u8);
                    assert(e[1] == 103u8);
                }
            }
            assert(e.skip(4) =~= escape_min(s.skip(1)));
            assert(unescape_min(e) =~= s);
        } else {
            assert(e[0] == b);
            assert(e.skip(1) =~= escape_min(s.skip(1)));
            assert(unescape_min(e) =~= s);
        }
    }
}

/// Unescaping undoes attribute escaping as well.
pub proof fn lemma_unescape_attr_escape(s: Seq<u8>)
    ensures
        unescape_min(attr_escape(s)) == s,
    decreases s.len(),
{
    if s.len() == 0 {
        assert(unescape_min(attr_escape(s)) =~= s);
    } else {
        lemma_unescape_attr_escape(s.skip(1));
        let b = s[0];
        let e = attr_escape(s);
        assert(e == attr_esc_byte(b) + attr_escape(s.skip(1)));
        if b == B_QUOT {
            assert(e.subrange(0, 6) =~= quot_ent());
            assert(!starts_with(e, amp_ent())) by {
                if starts_with(e, amp_ent()) {
                    assert(e.subrange(0, 5)[1] == 97u8);
                    assert(e[1] == 113u8);
                }
            }
            assert(!starts_with(e, lt_ent())) by {
                if starts_with(e, lt_ent()) {
                    assert(e.subrange(0, 4)[1] == 108u8);
                    assert(e[1] == 113u8);
                }
            }
            assert(!starts_with(e, gt_ent())) by {
                if starts_with(e, gt_ent()) {
                    assert(e.subrange(0, 4)[1] == 103u8);
                    assert(e[1] == 113u8);
                }
            }
            assert(e.skip(6) =~= attr_escape(s.skip(1)));
            assert(unescape_min(e) =~= s);
        } else if b == B_AMP {
            assert(starts_with(e, amp_ent())) by {
                assert(e.subrange(0, 5) =~= amp_ent());
            }
            assert(e.skip(5) =~= attr_escape(s.skip(1)));
            assert(unescape_min(e) =~= s);
        } else if b == B_LT {
            assert(e.subrange(0, 4) =~= lt_ent());
            assert(!starts_with(e, amp_ent())) by {
                if starts_with(e, amp_ent()) {
                    assert(e.subrange(0, 5)[1] == 97u8);
                    assert(e[1] == 108u8);
                }
            }
            assert(e.skip(4) =~= attr_escape(s.skip(1)));
            assert(unescape_min(e) =~= s);
        } else if b == B_GT {
            assert(e.subrange(0, 4) =~= gt_ent());
            assert(!starts_with(e, amp_ent())) by {
                if starts_with(e, amp_ent()) {
                    assert(e.subrange(0, 5)[1] == 97u8);
                    assert(e[1] == 103u8);
                }
            }
            assert(!starts_with(e, lt_ent())) by {
                if starts_with(e, lt_ent()) {
                    assert(e.subrange(0, 4)[1] == 108u8);
                    assert(e[1] == 103u8);
                }
            }
            assert(e.skip(4) =~= attr_escape(s.skip(1)));
            assert(unescape_min(e) =~= s);
        } else {
            assert(e[0] == b);
            assert(e.skip(1) =~= attr_escape(s.skip(1)));
            assert(unescape_min(e) =~= s);
        }
    }
}

/// Writes `v` as minimally escaped value text.
pub fn escape_text(v: &Vec<u8>) -> (r: Vec<u8>)
    ensures
        r@ == escape_min(v@),
{
    let mut r: Vec<u8> = Vec::new();
    let mut i: usize = 0;
    while i < v.len()
        invariant
            i <= v@.len(),
            r@ == escape_min(v@.take(i as int)),
        decreases v@.len() - i,
    {
        let ghost pre = r@;
        let b = v[i];
        if b == B_AMP {
            r.push(38);
            r.push(97);
            r.push(109);
            r.push(112);
            r.push(59);
        } else if b == B_LT {
            r.push(38);
            r.push(108);
            r.push(116);
            r.push(59);
        } else if b == B_GT {
            r.push(38);
            r.push(103);
            r.push(116);
            r.push(59);
        } else {
            r.push(b);
        }
        proof {
            assert(r@ =~= pre + esc_byte(v@[i as int]));
            assert(v@.take(i + 1 as int) =~= v@.take(i as int) + seq![v@[i as int]]);
            lemma_escape_append(v@.take(i as int), seq![v@[i as int]]);
            let q: Seq<u8> = seq![v@[i as int]];
            assert(q.len() == 1 && q[0] == v@[i as int]);
            assert(q.skip(1) =~= Seq::<u8>::empty());
            assert(escape_min(q) == esc_byte(q[0]) + escape_min(q.skip(1)));
            assert(escape_min(q) =~= esc_byte(v@[i as int]));
        }
        i = i + 1;
    }
    assert(v@.take(v@.len() as int) =~= v@);
    r
}

/// Writes `v` as a minimally escaped attribute value.
pub fn escape_attr_value(v: &Vec<u8>) -> (r: Vec<u8>)
    ensures
        r@ == attr_escape(v@),
{
    let mut r: Vec<u8> = Vec::new();
    let mut i: usize = 0;
    while i < v.len()
        invariant
            i <= v@.len(),
            r@ == attr_escape(v@.take(i as int)),
        decreases v@.len() - i,
    {
        let ghost pre = r@;
        let b = v[i];
        if b == B_QUOT {
            r.push(38);
            r.push(113);
            r.push(117);
            r.push(111);
            r.push(116);
            r.push(59);
        } else if b == B_AMP {
            r.push(38);
            r.push(97);
            r.push(109);
            r.push(112);
            r.push(59);
        } else if b == B_LT {
            r.push(38);
            r.push(108);
            r.push(116);
            r.push(59);
        } else if b == B_GT {
            r.push(38);
            r.push(103);
            r.push(116);
            r.push(59);
        } else {
            r.push(b);
        }
        proof {
            assert(r@ =~= pre + attr_esc_byte(v@[i as int]));
            assert(v@.take(i + 1 as int) =~= v@.take(i as int) + seq![v@[i as int]]);
            lemma_attr_escape_append(v@.take(i as int), seq![v@[i as int]]);
            let q: Seq<u8> = seq![v@[i as int]];
            assert(q.len() == 1 && q[0] == v@[i as int]);
            assert(q.skip(1) =~= Seq::<u8>::empty());
            assert(attr_escape(q) == attr_esc_byte(q[0]) + attr_escape(q.skip(1)));
            assert(attr_escape(q) =~= attr_esc_byte(v@[i as int]));
        }
        i = i + 1;
    }
    assert(v@.take(v@.len() as int) =~= v@);
    r
}

/// Reads escaped text back into the bytes it stands for.
pub fn unescape_text(v: &Vec<u8>) -> (r: Vec<u8>)
    ensures
        r@ == unescape_min(v@),
{
    let ent_amp = ent_vec_amp();
    let ent_lt = ent_vec_lt();
    let ent_gt = ent_vec_gt();
    let ent_quot = ent_vec_quot();
    let ent_apos = ent_vec_apos();
    let mut r: Vec<u8> = Vec::new();
    let mut i: usize = 0;
    proof {
        assert(v@.skip(0) =~= v@);
        assert(Seq::<u8>::empty() + unescape_min(v@) =~= unescape_min(v@));
    }
    while i < v.len()
        invariant
            i <= v@.len(),
            unescape_min(v@) == r@ + unescape_min(v@.skip(i as int)),
        decreases v@.len() - i,
    {
        let ghost tail = v@.skip(i as int);
        let ghost pre = r@;
        proof {
            assert(tail.len() > 0);
            assert(tail[0] == v@[i as int]);
        }
        if v[i] == B_AMP && crate::util::match_at(v, i, &ent_amp) {
            proof {
                assert(tail.subrange(0, 5) =~= v@.subrange(i as int, i + 5));
                assert(starts_with(tail, amp_ent()));
                assert(tail.skip(5) =~= v@.skip(i + 5));
            }
            r.push(B_AMP);
            i = i + 5;
        } else if v[i] == B_AMP && crate::util::match_at(v, i, &ent_lt) {
            proof {
                assert(tail.subrange(0, 4) =~= v@.subrange(i as int, i + 4));
                assert(starts_with(tail, lt_ent()));
                assert(!starts_with(tail, amp_ent())) by {
                    if starts_with(tail, amp_ent()) {
                        assert(tail.subrange(0, 5)[1] == 97u8);
                        assert(tail.subrange(0, 4)[1] == 108u8);
                        assert(tail[1] == 97u8 && tail[1] == 108u8);
                    }
                }
                assert(tail.skip(4) =~= v@.skip(i + 4));
            }
            r.push(B_LT);
            i = i + 4;
        } else if v[i] == B_AMP && crate::util::match_at(v, i, &ent_gt) {
            proof {
                assert(tail.subrange(0, 4) =~= v@.subrange(i as int, i + 4));
                assert(starts_with(tail, gt_ent()));
                assert(!starts_with(tail, amp_ent())) by {
                    if starts_with(tail, amp_ent()) {
                        assert(tail.subrange(0, 5)[1] == 97u8);
                        assert(tail.subrange(0, 4)[1] == 103u8);
                        assert(tail[1] == 97u8 && tail[1] == 103u8);
                    }
                }
                assert(!starts_with(tail, lt_ent())) by {
                    if starts_with(tail, lt_ent()) {
                        assert(tail.subrange(0, 4)[1] == 108u8);
                        assert(tail[1] == 108u8 && tail[1] == 103u8);
                    }
                }
                assert(tail.skip(4) =~= v@.skip(i + 4));
            }
            r.push(B_GT);
            i = i + 4;
        } else if v[i] == B_AMP && crate::util::match_at(v, i, &ent_quot) {
            proof {
                assert(tail.subrange(0, 6) =~= v@.subrange(i as int, i + 6));
                assert(starts_with(tail, quot_ent()));
                assert(!starts_with(tail, amp_ent())) by {
                    if starts_with(tail, amp_ent()) {
                        assert(tail.subrange(0, 5)[1] == 97u8);
                        assert(tail.subrange(0, 6)[1] == 113u8);
                        assert(tail[1] == 97u8 && tail[1] == 113u8);
                    }
                }
                assert(!starts_with(tail, lt_ent())) by {
                    if starts_with(tail, lt_ent()) {
                        assert(tail.subrange(0, 4)[1] == 108u8);
                        assert(tail[1] == 108u8 && tail[1] == 113u8);
                    }
                }
                assert(!starts_with(tail, gt_ent())) by {
                    if starts_with(tail, gt_ent()) {
                        assert(tail.subrange(0, 4)[1] == 103u8);
                        assert(tail[1] == 103u8 && tail[1] == 113u8);
                    }
                }
                assert(tail.skip(6) =~= v@.skip(i + 6));
            }
            r.push(B_QUOT);
            i = i + 6;
        } else if v[i] == B_AMP && crate::util::match_at(v, i, &ent_apos) {
            proof {
                assert(tail.subrange(0, 6) =~= v@.subrange(i as int, i + 6));
                assert(starts_with(tail, apos_ent()));
                assert(!starts_with(tail, amp_ent())) by {
                    if starts_with(tail, amp_ent()) {
                        assert(tail.subrange(0, 5)[2] == 109u8);
                        assert(tail.subrange(0, 6)[2] == 112u8);
                        assert(tail[2] == 109u8 && tail[2] == 112u8);
                    }
                }
                assert(!starts_with(tail, lt_ent())) by {
                    if starts_with(tail, lt_ent()) {
                        assert(tail.subrange(0, 4)[1] == 108u8);
                        assert(tail.subrange(0, 6)[1] == 97u8);
                        assert(tail[1] == 108u8 && tail[1] == 97u8);
                    }
                }
                assert(!starts_with(tail, gt_ent())) by {
                    if starts_with(tail, gt_ent()) {
                        assert(tail.subrange(0, 4)[1] == 103u8);
                        assert(tail[1] == 103u8 && tail[1] == 97u8);
                    }
                }
                assert(!starts_with(tail, quot_ent())) by {
                    if starts_with(tail, quot_ent()) {
                        assert(tail.subrange(0, 6)[1] == 113u8);
                        assert(tail[1] == 113u8 && tail[1] == 97u8);
                    }
                }
                assert(tail.skip(6) =~= v@.skip(i + 6));
            }
            r.push(39);
            i = i + 6;
        } else {
            proof {
                if tail[0] == B_AMP {
                    assert(!starts_with(tail, amp_ent())) by {
                        if starts_with(tail, amp_ent()) {
                            assert(tail.subrange(0, 5) =~= v@.subrange(i as int, i + 5));
                        }
                    }
                    assert(!starts_with(tail, lt_ent())) by {
                        if starts_with(tail, lt_ent()) {
                            assert(tail.subrange(0, 4) =~= v@.subrange(i as int, i + 4));
                        }
                    }
                    assert(!starts_with(tail, gt_ent())) by {
                        if starts_with(tail, gt_ent()) {
                            assert(tail.subrange(0, 4) =~= v@.subrange(i as int, i + 4));
                        }
                    }
                    assert(!starts_with(tail, quot_ent())) by {
                        if starts_with(tail, quot_ent()) {
                            assert(tail.subrange(0, 6) =~= v@.subrange(i as int, i + 6));
                        }
                    }
                    assert(!starts_with(tail, apos_ent())) by {
                        if starts_with(tail, apos_ent()) {
                            assert(tail.subrange(0, 6) =~= v@.subrange(i as int, i + 6));
                        }
                    }
                } else {
                    assert(!starts_with(tail, amp_ent())) by {
                        if starts_with(tail, amp_ent()) {
                            assert(tail.subrange(0, 5)[0] == 38u8);
                        }
                    }
                    assert(!starts_with(tail, lt_ent())) by {
                        if starts_with(tail, lt_ent()) {
                            assert(tail.subrange(0, 4)[0] == 38u8);
                        }
                    }
                    assert(!starts_with(tail, gt_ent())) by {
                        if starts_with(tail, gt_ent()) {
                            assert(tail.subrange(0, 4)[0] == 38u8);
                        }
                    }
                    assert(!starts_with(tail, quot_ent())) by {
                        if starts_with(tail, quot_ent()) {
                            assert(tail.subrange(0, 6)[0] == 38u8);
                        }
                    }
                    assert(!starts_with(tail, apos_ent())) by {
                        if starts_with(tail, apos_ent()) {
                            assert(tail.subrange(0, 6)[0] == 38u8);
                        }
                    }
                }
                assert(tail.skip(1) =~= v@.skip(i + 1));
            }
            r.push(v[i]);
            i = i + 1;
        }
        proof {
            assert(unescape_min(v@) == r@ + unescape_min(v@.skip(i as int))) by {
                assert(r@ + unescape_min(v@.skip(i as int)) =~= pre + unescape_min(tail));
            }
        }
    }
    proof {
        assert(v@.skip(v@.len() as int) =~= Seq::<u8>::empty());
        assert(r@ + Seq::<u8>::empty() =~= r@);
    }
    r
}

/// Builds the `&amp;` entity bytes.
pub fn ent_vec_amp() -> (r: Vec<u8>)
    ensures
        r@ == amp_ent(),
{
    let mut v: Vec<u8> = Vec::new();
    v.push(38);
    v.push(97);
    v.push(109);
    v.push(112);
    v.push(59);
    assert(v@ =~= amp_ent());
    v
}

/// Builds the `&lt;` entity bytes.
pub fn ent_vec_lt() -> (r: Vec<u8>)
    ensures
        r@ == lt_ent(),
{
    let mut v: Vec<u8> = Vec::new();
    v.push(38);
    v.push(108);
    v.push(116);
    v.push(59);
    assert(v@ =~= lt_ent());
    v
}

/// Builds the `&gt;` entity bytes.
pub fn ent_vec_gt() -> (r: Vec<u8>)
    ensures
        r@ == gt_ent(),
{
    let mut v: Vec<u8> = Vec::new();
    v.push(38);
    v.push(103);
    v.push(116);
    v.push(59);
    assert(v@ =~= gt_ent());
    v
}

/// Builds the `&quot;` entity bytes.
pub fn ent_vec_quot() -> (r: Vec<u8>)
    ensures
        r@ == quot_ent(),
{
    let mut v: Vec<u8> = Vec::new();
    v.push(38);
    v.push(113);
    v.push(117);
    v.push(111);
    v.push(116);
    v.push(59);
    assert(v@ =~= quot_ent());
    v
}

/// Builds the `&apos;` entity bytes.
pub fn ent_vec_apos() -> (r: Vec<u8>)
    ensures
        r@ == apos_ent(),
{
    let mut v: Vec<u8> = Vec::new();
    v.push(38);
    v.push(97);
    v.push(112);
    v.push(111);
    v.push(115);
    v.push(59);
    assert(v@ =~= apos_ent());
    v
}

} // verus!
