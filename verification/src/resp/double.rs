//! Doubles: `,` numeric text `\r\n`.
//!
//! The codec never needs the numeric value of a double, only its text, so
//! the frame holds the text of a finite double verbatim: an optional sign,
//! digits with an optional fraction, and an optional exponent.  `nan` is
//! not a valid text, so a double frame is never NaN.  Producing the text of
//! a given floating-point number is left to the caller.
#![allow(unused_imports)]

use vstd::prelude::*;
use vstd::slice::slice_to_vec;

use crate::resp::wire::{double_accepts, double_run, double_step, valid_double};

verus! {

/// The text of a finite double.
#[derive(Debug, Clone, PartialEq, Eq)]
pub struct RespDouble(pub Vec<u8>);

impl View for RespDouble {
    type V = Seq<u8>;

    open spec fn view(&self) -> Seq<u8> {
        self.0@
    }
}

/// Whether `s` is the text of a finite double.
pub fn is_double_text(s: &[u8]) -> (r: bool)
    ensures
        r == valid_double(s@),
{
    let ghost gs = s@;
    let mut state: i32 = 0;
    let mut i: usize = 0;
    while i < s.len()
        invariant
            0 <= i <= gs.len(),
            s@ == gs,
            -1 <= state <= 8,
            double_run(gs, 0, 0) == double_run(gs, i as int, state as int),
        decreases gs.len() - i,
    {
        let b = s[i];
        state = double_transition(state, b);
        i = i + 1;
    }
    state == 2 || state == 4 || state == 6 || state == 8
}

/// One transition of the double-text automaton.
fn double_transition(state: i32, b: u8) -> (r: i32)
    requires
        -1 <= state <= 8,
    ensures
        r as int == double_step(state as int, b),
        -1 <= r <= 8,
{
    let digit = 48 <= b && b <= 57;
    let sign = b == 43 || b == 45;
    let dot = b == 46;
    let e = b == 101 || b == 69;
    if state == 0 {
        if sign { 1 } else if digit { 2 } else if dot { 3 } else { -1 }
    } else if state == 1 {
        if digit { 2 } else if dot { 3 } else { -1 }
    } else if state == 2 {
        if digit { 2 } else if dot { 4 } else if e { 5 } else { -1 }
    } else if state == 3 {
        if digit { 6 } else { -1 }
    } else if state == 4 {
        if digit { 6 } else if e { 5 } else { -1 }
    } else if state == 5 {
        if sign { 7 } else if digit { 8 } else { -1 }
    } else if state == 6 {
        if digit { 6 } else if e { 5 } else { -1 }
    } else if state == 7 {
        if digit { 8 } else { -1 }
    } else if state == 8 {
        if digit { 8 } else { -1 }
    } else {
        -1
    }
}

impl RespDouble {
    /// Wrap a numeric text, or refuse it when it is not the text of a
    /// finite double.
    pub fn from_text(s: &[u8]) -> (r: Option<Self>)
        ensures
            match r {
                Option::Some(d) => valid_double(s@) && d@ == s@,
                Option::None => !valid_double(s@),
            },
    {
        if is_double_text(s) {
            Option::Some(RespDouble(slice_to_vec(s)))
        } else {
            Option::None
        }
    }
}


impl crate::resp::frame::RespEncode for RespDouble {
    open spec fn frame_view(self) -> crate::resp::wire::FrameV {
        crate::resp::wire::FrameV::Double(self.0@)
    }

    fn encode(self) -> (r: Vec<u8>) {
        crate::resp::frame::encode_frame(&crate::resp::frame::RespFrame::Double(self))
    }
}


impl crate::resp::frame::RespDecode for RespDouble {
    open spec fn dec_spec(s: Seq<u8>) -> crate::resp::wire::SpecDec {
        crate::resp::wire::dec_double(s)
    }

    fn decode(buf: &[u8]) -> (r: Result<
        crate::resp::frame::Decoded<Self>,
        crate::resp::frame::DecodeErr,
    >) {
        proof {
            assert(buf@.skip(0int) =~= buf@);
        }
        match crate::resp::decode::decode_double_at(buf, 0) {
            Result::Ok((v, c)) => Result::Ok(crate::resp::frame::Decoded(Option::Some(v), c)),
            Result::Err(e) => Result::Err(e),
        }
    }
}

} // verus!
