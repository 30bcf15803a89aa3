//! Bulk strings: length-prefixed, binary-safe payloads, with the legacy
//! null sentinel `$-1\r\n`.
#![allow(unused_imports)]

use vstd::prelude::*;
use vstd::slice::slice_to_vec;

verus! {

/// A binary-safe payload, or the null bulk string.
#[derive(Debug, Clone, PartialEq, Eq)]
pub struct RespBulkString(pub Option<Vec<u8>>);

impl View for RespBulkString {
    type V = Option<Seq<u8>>;

    open spec fn view(&self) -> Option<Seq<u8>> {
        match self.0 {
            Option::None => Option::None,
            Option::Some(v) => Option::Some(v@),
        }
    }
}

impl RespBulkString {
    /// Wrap a payload.
    pub fn new(s: &[u8]) -> (r: Self)
        ensures
            r@ == Option::Some(s@),
    {
        RespBulkString(Option::Some(slice_to_vec(s)))
    }

    /// The null bulk string.
    pub fn null() -> (r: Self)
        ensures
            r@ == Option::None::<Seq<u8>>,
    {
        RespBulkString(Option::None)
    }
}


impl crate::resp::frame::RespEncode for RespBulkString {
    open spec fn frame_view(self) -> crate::resp::wire::FrameV {
        crate::resp::wire::FrameV::BulkString(self@)
    }

    fn encode(self) -> (r: Vec<u8>) {
        crate::resp::frame::encode_frame(&crate::resp::frame::RespFrame::BulkString(self))
    }
}


impl crate::resp::frame::RespDecode for RespBulkString {
    open spec fn dec_spec(s: Seq<u8>) -> crate::resp::wire::SpecDec {
        crate::resp::wire::dec_bulk(s)
    }

    fn decode(buf: &[u8]) -> (r: Result<
        crate::resp::frame::Decoded<Self>,
        crate::resp::frame::DecodeErr,
    >) {
        proof {
            assert(buf@.skip(0int) =~= buf@);
        }
        match crate::resp::decode::decode_bulk_at(buf, 0) {
            Result::Ok((v, c)) => Result::Ok(crate::resp::frame::Decoded(Option::Some(v), c)),
            Result::Err(e) => Result::Err(e),
        }
    }
}

} // verus!
