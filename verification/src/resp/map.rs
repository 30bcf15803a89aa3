//! Maps: `%` entry count `\r\n` followed by alternating key and value
//! frames, the keys strictly ascending in the canonical frame order.
#![allow(unused_imports)]

use vstd::prelude::*;

use crate::resp::frame::{fview, fview_pairs, RespFrame};
use crate::resp::order::{cmp_frame, frame_cmp, lemma_sip_at, sorted_insert_pair};
use crate::resp::wire::FrameV;

verus! {

broadcast use
    crate::resp::frame::lemma_fview_seq_len,
    crate::resp::frame::lemma_fview_seq_index,
    crate::resp::frame::lemma_fview_pairs_len,
    crate::resp::frame::lemma_fview_pairs_index,
;

/// An ordered frame-to-frame map in canonical key order.
#[derive(Debug, PartialEq, Eq)]
pub struct RespMap(pub Vec<(RespFrame, RespFrame)>);

impl View for RespMap {
    type V = Seq<(FrameV, FrameV)>;

    open spec fn view(&self) -> Seq<(FrameV, FrameV)> {
        fview_pairs(self.0@)
    }
}

/// Index of the first entry whose key is not below `k`, scanning in the
/// canonical order.
fn pair_pos(entries: &Vec<(RespFrame, RespFrame)>, k: &RespFrame) -> (j: usize)
    ensures
        j <= entries@.len(),
        forall|l: int|
            0 <= l < j ==> cmp_frame(fview(*k), (#[trigger] fview_pairs(entries@)[l]).0) == 1,
        j < entries@.len() ==> cmp_frame(fview(*k), fview_pairs(entries@)[j as int].0) != 1,
{
    let mut j: usize = 0;
    while j < entries.len()
        invariant
            j <= entries@.len(),
            forall|l: int|
                0 <= l < j ==> cmp_frame(fview(*k), (#[trigger] fview_pairs(entries@)[l]).0) == 1,
        decreases entries@.len() - j,
    {
        let c = frame_cmp(k, &entries[j].0);
        if c != 1 {
            return j;
        }
        j = j + 1;
    }
    j
}

impl RespMap {
    /// The empty map.
    pub fn new() -> (r: Self)
        ensures
            r@ == Seq::<(FrameV, FrameV)>::empty(),
    {
        let r = RespMap(Vec::new());
        proof {
            assert(r@ =~= Seq::<(FrameV, FrameV)>::empty());
        }
        r
    }

    /// Number of entries.
    pub fn len(&self) -> (r: usize)
        ensures
            r == self@.len(),
    {
        self.0.len()
    }

    /// Insert an entry at its place in the canonical key order; an equal
    /// key has its value replaced.
    pub fn insert(&mut self, k: RespFrame, v: RespFrame)
        ensures
            final(self)@ == sorted_insert_pair(old(self)@, fview(k), fview(v)),
    {
        let ghost w = self@;
        let ghost kv = (fview(k), fview(v));
        let j = pair_pos(&self.0, &k);
        if j < self.0.len() {
            let c = frame_cmp(&k, &self.0[j].0);
            if c == 0 {
                proof {
                    lemma_sip_at(w, kv.0, kv.1, j as int);
                }
                self.0.set(j, (k, v));
                proof {
                    assert(fview_pairs(self.0@) =~= w.update(j as int, kv));
                }
                return ;
            }
        }
        proof {
            lemma_sip_at(w, kv.0, kv.1, j as int);
        }
        self.0.insert(j, (k, v));
        proof {
            assert(fview_pairs(self.0@) =~= w.insert(j as int, kv));
        }
    }
}


impl crate::resp::frame::RespEncode for RespMap {
    open spec fn frame_view(self) -> FrameV {
        FrameV::MapFrame(self@)
    }

    fn encode(self) -> (r: Vec<u8>) {
        crate::resp::frame::encode_frame(&RespFrame::MapFrame(self))
    }
}


impl crate::resp::frame::RespDecode for RespMap {
    open spec fn dec_spec(s: Seq<u8>) -> crate::resp::wire::SpecDec {
        crate::resp::wire::dec_map(s)
    }

    fn decode(buf: &[u8]) -> (r: Result<
        crate::resp::frame::Decoded<Self>,
        crate::resp::frame::DecodeErr,
    >) {
        proof {
            assert(buf@.skip(0int) =~= buf@);
        }
        match crate::resp::decode::decode_map_at(buf, 0) {
            Result::Ok((v, c)) => Result::Ok(crate::resp::frame::Decoded(Option::Some(v), c)),
            Result::Err(e) => Result::Err(e),
        }
    }
}

} // verus!
