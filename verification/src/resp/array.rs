//! Arrays: `*` count `\r\n` followed by the element frames, with the
//! legacy null sentinel `*-1\r\n`.
#![allow(unused_imports)]

use vstd::prelude::*;

use crate::resp::frame::{fview_seq, RespFrame};
use crate::resp::wire::FrameV;

verus! {

/// A sequence of element frames, or the null array.
#[derive(Debug, PartialEq, Eq)]
pub struct RespArray(pub Option<Vec<RespFrame>>);

impl View for RespArray {
    type V = Option<Seq<FrameV>>;

    open spec fn view(&self) -> Option<Seq<FrameV>> {
        match self.0 {
            Option::None => Option::None,
            Option::Some(v) => Option::Some(fview_seq(v@)),
        }
    }
}

impl RespArray {
    /// Wrap a sequence of element frames.
    pub fn new(arr: Vec<RespFrame>) -> (r: Self)
        ensures
            r@ == Option::Some(fview_seq(arr@)),
    {
        RespArray(Option::Some(arr))
    }

    /// The null array.
    pub fn null() -> (r: Self)
        ensures
            r@ == Option::None::<Seq<FrameV>>,
    {
        RespArray(Option::None)
    }
}


impl crate::resp::frame::RespEncode for RespArray {
    open spec fn frame_view(self) -> FrameV {
        FrameV::Array(self@)
    }

    fn encode(self) -> (r: Vec<u8>) {
        crate::resp::frame::encode_frame(&RespFrame::Array(self))
    }
}


impl crate::resp::frame::RespDecode for RespArray {
    open spec fn dec_spec(s: Seq<u8>) -> crate::resp::wire::SpecDec {
        crate::resp::wire::dec_arr(s)
    }

    fn decode(buf: &[u8]) -> (r: Result<
        crate::resp::frame::Decoded<Self>,
        crate::resp::frame::DecodeErr,
    >) {
        proof {
            assert(buf@.skip(0int) =~= buf@);
        }
        match crate::resp::decode::decode_arr_at(buf, 0) {
            Result::Ok((v, c)) => Result::Ok(crate::resp::frame::Decoded(Option::Some(v), c)),
            Result::Err(e) => Result::Err(e),
        }
    }
}

} // verus!
