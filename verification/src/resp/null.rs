//! The null frame: `_\r\n`.
#![allow(unused_imports)]

use vstd::prelude::*;

verus! {

/// The distinct null kind, separate from the legacy null bulk string and
/// null array sentinels.
#[derive(Debug, Clone, PartialEq, Eq)]
pub struct RespNull;

impl View for RespNull {
    type V = ();

    open spec fn view(&self) -> () {
        ()
    }
}


impl crate::resp::frame::RespEncode for RespNull {
    open spec fn frame_view(self) -> crate::resp::wire::FrameV {
        crate::resp::wire::FrameV::Null
    }

    fn encode(self) -> (r: Vec<u8>) {
        crate::resp::frame::encode_frame(&crate::resp::frame::RespFrame::Null(self))
    }
}


impl crate::resp::frame::RespDecode for RespNull {
    open spec fn dec_spec(s: Seq<u8>) -> crate::resp::wire::SpecDec {
        crate::resp::wire::dec_null(s)
    }

    fn decode(buf: &[u8]) -> (r: Result<
        crate::resp::frame::Decoded<Self>,
        crate::resp::frame::DecodeErr,
    >) {
        proof {
            assert(buf@.skip(0int) =~= buf@);
        }
        match crate::resp::decode::decode_null_at(buf, 0) {
            Result::Ok((v, c)) => Result::Ok(crate::resp::frame::Decoded(Option::Some(v), c)),
            Result::Err(e) => Result::Err(e),
        }
    }
}

} // verus!
