//! Frame-at-a-time reads and writes over a growable byte buffer.
#![allow(unused_imports)]

use vstd::prelude::*;
use vstd::slice::slice_to_vec;

use crate::resp::decode::decode_at;
use crate::resp::frame::{encode_frame, fview, DecodeErr, RespFrame};
use crate::resp::wire::{dec, enc, wf, SpecDec};

verus! {

/// The codec that bridges a byte stream and frame-at-a-time handling: a
/// whole frame at the head of the buffer is taken off it, an incomplete
/// one leaves the buffer untouched for more bytes to arrive, and malformed
/// bytes surface their error without consuming anything.
#[derive(Debug, Clone, PartialEq, Eq)]
pub struct RespCodec;

impl RespCodec {
    /// Append the encoding of a frame to the write buffer.
    pub fn encode(&mut self, item: RespFrame, dst: &mut Vec<u8>)
        requires
            wf(fview(item)),
        ensures
            final(dst)@ == old(dst)@ + enc(fview(item)),
    {
        let mut bytes = encode_frame(&item);
        dst.append(&mut bytes);
    }

    /// Decode one frame from the head of the read buffer, consuming
    /// exactly its bytes; `None` asks the caller to wait for more input.
    pub fn decode(&mut self, src: &mut Vec<u8>) -> (r: Result<Option<RespFrame>, DecodeErr>)
        ensures
            match r {
                Result::Ok(o) => match o {
                    Option::Some(f) => {
                        &&& dec(old(src)@) matches SpecDec::Done(fv, n) && fview(f) == fv && wf(
                            fv,
                        ) && final(src)@ == old(src)@.skip(n)
                    },
                    Option::None => {
                        &&& dec(old(src)@) == SpecDec::Fail(DecodeErr::InComplete)
                        &&& final(src)@ == old(src)@
                    },
                },
                Result::Err(e) => {
                    &&& dec(old(src)@) == SpecDec::Fail(e)
                    &&& e != DecodeErr::InComplete
                    &&& final(src)@ == old(src)@
                },
            },
    {
        proof {
            assert(src@.skip(0int) =~= src@);
        }
        match decode_at(src.as_slice(), 0) {
            Result::Ok((f, n)) => {
                let rest = slice_to_vec(&src.as_slice()[n..src.len()]);
                *src = rest;
                Result::Ok(Option::Some(f))
            },
            Result::Err(DecodeErr::InComplete) => Result::Ok(Option::None),
            Result::Err(e) => Result::Err(e),
        }
    }
}

} // verus!
