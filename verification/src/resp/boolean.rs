//! Booleans: `#t\r\n` and `#f\r\n`.
#![allow(unused_imports)]

use vstd::prelude::*;

use crate::resp::frame::{encode_frame, RespEncode, RespFrame};
use crate::resp::wire::FrameV;

verus! {

impl RespEncode for bool {
    open spec fn frame_view(self) -> FrameV {
        FrameV::Boolean(self)
    }

    fn encode(self) -> (r: Vec<u8>) {
        encode_frame(&RespFrame::Boolean(self))
    }
}


impl crate::resp::frame::RespDecode for bool {
    open spec fn dec_spec(s: Seq<u8>) -> crate::resp::wire::SpecDec {
        crate::resp::wire::dec_bool(s)
    }

    fn decode(buf: &[u8]) -> (r: Result<
        crate::resp::frame::Decoded<Self>,
        crate::resp::frame::DecodeErr,
    >) {
        proof {
            assert(buf@.skip(0int) =~= buf@);
        }
        match crate::resp::decode::decode_bool_at(buf, 0) {
            Result::Ok((v, c)) => Result::Ok(crate::resp::frame::Decoded(Option::Some(v), c)),
            Result::Err(e) => Result::Err(e),
        }
    }
}

} // verus!
