//! The locale-suffix heuristic used when grouping files into bundles: a
//! file stem splits into a group name and a language code when its last
//! dot-separated part looks like one.
use vstd::prelude::*;
use crate::util::copy_range;

verus! {

/// `.` in ASCII.
pub const B_DOT: u8 = 46;

/// The position of the last dot in `s`, if any.
pub open spec fn last_dot(s: Seq<u8>) -> Option<int>
    decreases s.len(),
{
    if s.len() == 0 {
        None
    } else if s.last() == B_DOT {
        Some(s.len() - 1)
    } else {
        last_dot(s.drop_last())
    }
}

/// An ASCII letter.
pub open spec fn ascii_alpha(b: u8) -> bool {
    (65 <= b <= 90) || (97 <= b <= 122)
}

/// The bytes of the fallback language label.
pub open spec fn default_lang() -> Seq<u8> {
    seq![100u8, 101u8, 102u8, 97u8, 117u8, 108u8, 116u8]
}

/// Whether the part after the last dot reads as a language code: one to
/// ten bytes opening with a letter.
pub open spec fn lang_suffix_ok(suf: Seq<u8>) -> bool {
    1 <= suf.len() <= 10 && ascii_alpha(suf[0])
}

/// How a file stem splits: the group name and the language label.
pub open spec fn locale_split(stem: Seq<u8>) -> (Seq<u8>, Seq<u8>) {
    match last_dot(stem) {
        Some(d) => {
            if lang_suffix_ok(stem.skip(d + 1)) {
                (stem.take(d), stem.skip(d + 1))
            } else {
                (stem, default_lang())
            }
        },
        None => (stem, default_lang()),
    }
}

/// Builds the fallback language label.
fn lang_default() -> (r: Vec<u8>)
    ensures
        r@ == default_lang(),
{
    let mut v: Vec<u8> = Vec::new();
    v.push(100);
    v.push(101);
    v.push(102);
    v.push(97);
    v.push(117);
    v.push(108);
    v.push(116);
    assert(v@ =~= default_lang());
    v
}

/// Splits a file stem into its group name and language label.
pub fn split_locale(stem: &Vec<u8>) -> (r: (Vec<u8>, Vec<u8>))
    ensures
        (r.0@, r.1@) == locale_split(stem@),
{
    let mut k: usize = stem.len();
    proof {
        assert(stem@.take(stem@.len() as int) =~= stem@);
    }
    while k > 0
        invariant
            k <= stem@.len(),
            last_dot(stem@) == last_dot(stem@.take(k as int)),
        decreases k,
    {
        proof {
            assert(stem@.take(k as int).len() == k);
            assert(stem@.take(k as int).last() == stem@[k - 1]);
            assert(stem@.take(k as int).drop_last() =~= stem@.take(k - 1));
        }
        if stem[k - 1] == B_DOT {
            let d = k - 1;
            let suf = copy_range(stem, k, stem.len());
            proof {
                assert(suf@ =~= stem@.skip(d as int + 1));
            }
            let first_alpha: bool = if suf.len() > 0 {
                let b = suf[0];
                (65 <= b && b <= 90) || (97 <= b && b <= 122)
            } else {
                false
            };
            if suf.len() >= 1 && suf.len() <= 10 && first_alpha {
                let name = copy_range(stem, 0, d);
                proof {
                    assert(name@ =~= stem@.take(d as int));
                }
                return (name, suf);
            } else {
                return (crate::util::copy_bytes(stem), lang_default());
            }
        }
        k = k - 1;
    }
    proof {
        assert(stem@.take(0) =~= Seq::<u8>::empty());
    }
    (crate::util::copy_bytes(stem), lang_default())
}

} // verus!
