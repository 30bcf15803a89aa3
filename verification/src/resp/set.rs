//! Sets: `~` element count `\r\n` followed by the element frames, strictly
//! ascending in the canonical frame order.
#![allow(unused_imports)]

use vstd::prelude::*;

use crate::resp::frame::{fview, fview_seq, RespFrame};
use crate::resp::order::{cmp_frame, frame_cmp, lemma_cmp_frame_basic, lemma_sif_at, sorted_insert_frame};
use crate::resp::wire::FrameV;

verus! {

broadcast use
    crate::resp::frame::lemma_fview_seq_len,
    crate::resp::frame::lemma_fview_seq_index,
    crate::resp::frame::lemma_fview_pairs_len,
    crate::resp::frame::lemma_fview_pairs_index,
;

/// An ordered frame set in canonical order.
#[derive(Debug, PartialEq, Eq)]
pub struct RespSet(pub Vec<RespFrame>);

impl View for RespSet {
    type V = Seq<FrameV>;

    open spec fn view(&self) -> Seq<FrameV> {
        fview_seq(self.0@)
    }
}

/// Index of the first element not below `x`, scanning in the canonical
/// order.
fn elem_pos(es: &Vec<RespFrame>, x: &RespFrame) -> (j: usize)
    ensures
        j <= es@.len(),
        forall|l: int| 0 <= l < j ==> cmp_frame(fview(*x), #[trigger] fview_seq(es@)[l]) == 1,
        j < es@.len() ==> cmp_frame(fview(*x), fview_seq(es@)[j as int]) != 1,
{
    let mut j: usize = 0;
    while j < es.len()
        invariant
            j <= es@.len(),
            forall|l: int| 0 <= l < j ==> cmp_frame(fview(*x), #[trigger] fview_seq(es@)[l]) == 1,
        decreases es@.len() - j,
    {
        let c = frame_cmp(x, &es[j]);
        if c != 1 {
            return j;
        }
        j = j + 1;
    }
    j
}

impl RespSet {
    /// The empty set.
    pub fn new() -> (r: Self)
        ensures
            r@ == Seq::<FrameV>::empty(),
    {
        let r = RespSet(Vec::new());
        proof {
            assert(r@ =~= Seq::<FrameV>::empty());
        }
        r
    }

    /// Number of elements.
    pub fn len(&self) -> (r: usize)
        ensures
            r == self@.len(),
    {
        self.0.len()
    }

    /// Insert an element at its place in the canonical order; an element
    /// already present leaves the set unchanged.
    pub fn insert(&mut self, x: RespFrame)
        ensures
            final(self)@ == sorted_insert_frame(old(self)@, fview(x)),
    {
        let ghost w = self@;
        let ghost xv = fview(x);
        let j = elem_pos(&self.0, &x);
        if j < self.0.len() {
            let c = frame_cmp(&x, &self.0[j]);
            if c == 0 {
                proof {
                    lemma_sif_at(w, xv, j as int);
                }
                return ;
            }
        }
        proof {
            lemma_sif_at(w, xv, j as int);
        }
        self.0.insert(j, x);
        proof {
            assert(fview_seq(self.0@) =~= w.insert(j as int, xv));
        }
    }

    /// Whether an equal element is present.
    pub fn contains(&self, x: &RespFrame) -> (r: bool)
        ensures
            r == self@.contains(fview(*x)),
    {
        let mut j: usize = 0;
        while j < self.0.len()
            invariant
                j <= self@.len(),
                forall|l: int| 0 <= l < j ==> #[trigger] self@[l] != fview(*x),
            decreases self@.len() - j,
        {
            let c = frame_cmp(x, &self.0[j]);
            proof {
                lemma_cmp_frame_basic(fview(*x), self@[j as int]);
            }
            if c == 0 {
                return true;
            }
            j = j + 1;
        }
        false
    }
}

impl Default for RespSet {
    /// The empty set.
    fn default() -> (r: Self)
        ensures
            r@ == Seq::<FrameV>::empty(),
    {
        RespSet::new()
    }
}


impl crate::resp::frame::RespEncode for RespSet {
    open spec fn frame_view(self) -> FrameV {
        FrameV::SetFrame(self@)
    }

    fn encode(self) -> (r: Vec<u8>) {
        crate::resp::frame::encode_frame(&RespFrame::SetFrame(self))
    }
}


impl crate::resp::frame::RespDecode for RespSet {
    open spec fn dec_spec(s: Seq<u8>) -> crate::resp::wire::SpecDec {
        crate::resp::wire::dec_set(s)
    }

    fn decode(buf: &[u8]) -> (r: Result<
        crate::resp::frame::Decoded<Self>,
        crate::resp::frame::DecodeErr,
    >) {
        proof {
            assert(buf@.skip(0int) =~= buf@);
        }
        match crate::resp::decode::decode_set_at(buf, 0) {
            Result::Ok((v, c)) => Result::Ok(crate::resp::frame::Decoded(Option::Some(v), c)),
            Result::Err(e) => Result::Err(e),
        }
    }
}

} // verus!
