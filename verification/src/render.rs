//! The assembler: writes a document model back to bytes, re-attaching the
//! byte-order marker where one led the source.
use vstd::prelude::*;
use crate::model::{
    bom_bytes, doc_bytes, entry_bytes, lemma_segs_bytes_push, seg_bytes, segs_bytes, segs_view,
    Document, Seg, SegModel,
};
use crate::util::push_bytes;

verus! {

/// Writes the document back as one byte vector: the marker if it had one,
/// then every segment's bytes in order.
pub fn render(d: &Document) -> (r: Vec<u8>)
    ensures
        r@ == doc_bytes(d@),
{
    let mut out: Vec<u8> = Vec::new();
    if d.has_bom {
        out.push(0xef);
        out.push(0xbb);
        out.push(0xbf);
    }
    let ghost lead = out@;
    proof {
        if d.has_bom {
            assert(lead =~= bom_bytes());
        } else {
            assert(lead =~= Seq::<u8>::empty());
        }
        assert(out@ =~= lead + segs_bytes(segs_view(d.segs@).take(0)));
    }
    let mut i: usize = 0;
    while i < d.segs.len()
        invariant
            i <= d.segs@.len(),
            out@ == lead + segs_bytes(segs_view(d.segs@).take(i as int)),
        decreases d.segs@.len() - i,
    {
        let ghost pre = out@;
        let ghost sv = segs_view(d.segs@);
        match &d.segs[i] {
            Seg::Chars(b) => {
                push_bytes(&mut out, b);
            },
            Seg::Markup(b) => {
                push_bytes(&mut out, b);
            },
            Seg::Item(e) => {
                push_bytes(&mut out, &e.open_pre);
                push_bytes(&mut out, &e.key);
                push_bytes(&mut out, &e.open_post);
                push_bytes(&mut out, &e.mid);
                push_bytes(&mut out, &e.vopen);
                push_bytes(&mut out, &e.text);
                push_bytes(&mut out, &e.vclose);
                push_bytes(&mut out, &e.post);
                push_bytes(&mut out, &e.close);
                proof {
                    assert(out@ =~= pre + entry_bytes(e@));
                }
            },
        }
        proof {
            assert(out@ =~= pre + seg_bytes(sv[i as int]));
            assert(sv.take(i + 1) =~= sv.take(i as int).push(sv[i as int]));
            lemma_segs_bytes_push(sv.take(i as int), sv[i as int]);
        }
        i = i + 1;
    }
    proof {
        assert(segs_view(d.segs@).take(d.segs@.len() as int) =~= segs_view(d.segs@));
    }
    out
}

} // verus!
