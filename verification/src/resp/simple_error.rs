//! Simple errors: `-` text `\r\n`.
#![allow(unused_imports)]

use vstd::prelude::*;
use vstd::slice::slice_to_vec;

use crate::resp::wire::no_crlf;

verus! {

/// A single-line error-text frame; the payload holds no CRLF pair.
#[derive(Debug, Clone, PartialEq, Eq)]
pub struct RespSimpleError(pub Vec<u8>);

impl View for RespSimpleError {
    type V = Seq<u8>;

    open spec fn view(&self) -> Seq<u8> {
        self.0@
    }
}

impl RespSimpleError {
    /// Wrap a payload that holds no CRLF pair.
    pub fn new(s: &[u8]) -> (r: Self)
        requires
            no_crlf(s@),
        ensures
            r@ == s@,
    {
        RespSimpleError(slice_to_vec(s))
    }
}


impl crate::resp::frame::RespEncode for RespSimpleError {
    open spec fn frame_view(self) -> crate::resp::wire::FrameV {
        crate::resp::wire::FrameV::Error(self.0@)
    }

    fn encode(self) -> (r: Vec<u8>) {
        crate::resp::frame::encode_frame(&crate::resp::frame::RespFrame::Error(self))
    }
}


impl crate::resp::frame::RespDecode for RespSimpleError {
    open spec fn dec_spec(s: Seq<u8>) -> crate::resp::wire::SpecDec {
        crate::resp::wire::dec_error(s)
    }

    fn decode(buf: &[u8]) -> (r: Result<
        crate::resp::frame::Decoded<Self>,
        crate::resp::frame::DecodeErr,
    >) {
        proof {
            assert(buf@.skip(0int) =~= buf@);
        }
        match crate::resp::decode::decode_error_at(buf, 0) {
            Result::Ok((v, c)) => Result::Ok(crate::resp::frame::Decoded(Option::Some(v), c)),
            Result::Err(e) => Result::Err(e),
        }
    }
}

} // verus!
