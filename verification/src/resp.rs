//! The RESP frame model and codec.
#![allow(unused_imports)]

pub mod array;
pub mod boolean;
pub mod bulkstring;
pub mod decode;
pub mod double;
pub mod frame;
pub mod integer;
pub mod map;
pub mod null;
pub mod num;
pub mod order;
pub mod roundtrip;
pub mod set;
pub mod simple_error;
pub mod simple_string;
pub mod wire;

use vstd::prelude::*;

use crate::resp::frame::DecodeErr;
use crate::resp::wire::{spec_line, SpecLine};

verus! {

/// Split a buffer at its first CRLF: the line before the terminator, the
/// marker byte included, and the remainder after it.  Without a CRLF the
/// buffer is not complete yet; a line shorter than one byte cannot open a
/// frame.
pub fn split_r_n<'a>(buf: &'a [u8]) -> (r: Result<(&'a [u8], &'a [u8]), DecodeErr>)
    ensures
        match r {
            Result::Ok(p) => {
                &&& spec_line(buf@) == SpecLine::Done(p.0@, p.0@.len() + 2int)
                &&& p.1@ == buf@.skip(p.0@.len() + 2int)
            },
            Result::Err(e) => spec_line(buf@) == SpecLine::Fail(e),
        },
{
    proof {
        assert(buf@.skip(0int) =~= buf@);
    }
    match crate::resp::decode::line_at(buf, 0) {
        Result::Err(e) => Result::Err(e),
        Result::Ok((end, c)) => {
            let pre = &buf[0..end];
            let rest = &buf[end + 2..buf.len()];
            proof {
                assert(pre@ =~= buf@.subrange(0int, end as int));
                assert(rest@ =~= buf@.skip(end + 2));
            }
            Result::Ok((pre, rest))
        },
    }
}

} // verus!
