//! Frame-level types shared by the whole codec.
#![allow(unused_imports)]

use vstd::prelude::*;

use crate::resp::array::RespArray;
use crate::resp::bulkstring::RespBulkString;
use crate::resp::double::RespDouble;
use crate::resp::map::RespMap;
use crate::resp::null::RespNull;
use crate::resp::set::RespSet;
use crate::resp::simple_error::RespSimpleError;
use crate::resp::simple_string::RespSimpleString;
use crate::resp::wire::{
    crlf, dec, enc, enc_elems, enc_pairs, lemma_wf_all_iff, lemma_wf_pairs_iff, spec_digits,
    spec_int_payload, wf, wf_all, wf_pairs, FrameV, SpecDec,
};

verus! {

/// The ways a decode can fail.  `InComplete` means the buffer does not yet
/// hold a whole frame; the caller should wait for more bytes and try again.
#[derive(Debug, Clone, Copy, PartialEq, Eq, Structural)]
pub enum DecodeErr {
    /// The buffer is structurally unable to hold any frame.
    InvalidFrame,
    /// The leading byte is not one of the known frame markers.
    InvalidFrameType,
    /// More bytes are needed before a whole frame is present.
    InComplete,
    /// A numeric payload or length could not be parsed as an integer.
    ParseIntError,
    /// A double payload could not be parsed as a finite number.
    ParseFloatError,
    /// A bulk-string body does not match its advertised length.
    InvalidLength,
}

/// One RESP value, possibly nested.
#[derive(Debug, PartialEq, Eq)]
pub enum RespFrame {
    SimpleString(RespSimpleString),
    Error(RespSimpleError),
    Integer(i64),
    BulkString(RespBulkString),
    Null(RespNull),
    Array(RespArray),
    Boolean(bool),
    Double(RespDouble),
    MapFrame(RespMap),
    SetFrame(RespSet),
}

/// The spec-level value of a frame.
pub open spec fn fview(f: RespFrame) -> FrameV
    decreases f, 0int,
{
    match f {
        RespFrame::SimpleString(s) => FrameV::SimpleString(s@),
        RespFrame::Error(s) => FrameV::Error(s@),
        RespFrame::Integer(v) => FrameV::Integer(v as int),
        RespFrame::BulkString(b) => FrameV::BulkString(
            match b.0 {
                Option::None => Option::None,
                Option::Some(v) => Option::Some(v@),
            },
        ),
        RespFrame::Null(_) => FrameV::Null,
        RespFrame::Array(a) => FrameV::Array(
            match a.0 {
                Option::None => Option::None,
                Option::Some(v) => Option::Some(fview_seq(v@)),
            },
        ),
        RespFrame::Boolean(b) => FrameV::Boolean(b),
        RespFrame::Double(d) => FrameV::Double(d@),
        RespFrame::MapFrame(m) => FrameV::MapFrame(fview_pairs(m.0@)),
        RespFrame::SetFrame(s) => FrameV::SetFrame(fview_seq(s.0@)),
    }
}

/// The spec-level values of a sequence of frames.
pub open spec fn fview_seq(s: Seq<RespFrame>) -> Seq<FrameV>
    decreases s, 1int,
{
    if s.len() == 0 {
        Seq::empty()
    } else {
        seq![fview(s[0])] + fview_seq(s.drop_first())
    }
}

/// The spec-level values of a sequence of key-value pairs.
pub open spec fn fview_pairs(s: Seq<(RespFrame, RespFrame)>) -> Seq<(FrameV, FrameV)>
    decreases s, 1int,
{
    if s.len() == 0 {
        Seq::empty()
    } else {
        seq![(fview(s[0].0), fview(s[0].1))] + fview_pairs(s.drop_first())
    }
}

/// A frame-sequence view has the length of its sequence.
pub broadcast proof fn lemma_fview_seq_len(s: Seq<RespFrame>)
    ensures
        (#[trigger] fview_seq(s)).len() == s.len(),
    decreases s.len(),
{
    if s.len() > 0 {
        lemma_fview_seq_len(s.drop_first());
    }
}

/// A frame-sequence view is the element-wise view.
pub broadcast proof fn lemma_fview_seq_index(s: Seq<RespFrame>, i: int)
    requires
        0 <= i < s.len(),
    ensures
        #[trigger] fview_seq(s)[i] == fview(s[i]),
    decreases s.len(),
{
    lemma_fview_seq_len(s);
    if i > 0 {
        lemma_fview_seq_index(s.drop_first(), i - 1);
    }
}

/// A pair-sequence view has the length of its sequence.
pub broadcast proof fn lemma_fview_pairs_len(s: Seq<(RespFrame, RespFrame)>)
    ensures
        (#[trigger] fview_pairs(s)).len() == s.len(),
    decreases s.len(),
{
    if s.len() > 0 {
        lemma_fview_pairs_len(s.drop_first());
    }
}

/// A pair-sequence view is the pairwise view.
pub broadcast proof fn lemma_fview_pairs_index(s: Seq<(RespFrame, RespFrame)>, i: int)
    requires
        0 <= i < s.len(),
    ensures
        #[trigger] fview_pairs(s)[i] == (fview(s[i].0), fview(s[i].1)),
    decreases s.len(),
{
    lemma_fview_pairs_len(s);
    if i > 0 {
        lemma_fview_pairs_index(s.drop_first(), i - 1);
    }
}

impl View for RespFrame {
    type V = FrameV;

    open spec fn view(&self) -> FrameV {
        fview(*self)
    }
}

/// A decoded value and the count of buffer bytes it consumed.
#[derive(Debug, PartialEq, Eq)]
pub struct Decoded<T>(pub Option<T>, pub usize);

/// Serialisation to the RESP wire format.
pub trait RespEncode: Sized {
    /// The spec-level frame this value stands for.
    spec fn frame_view(self) -> FrameV;

    /// Serialise to bytes.
    fn encode(self) -> (r: Vec<u8>)
        requires
            wf(self.frame_view()),
        ensures
            r@ == enc(self.frame_view()),
    ;
}

/// What a decode result must satisfy: exactly the outcome of the type's
/// spec-level decoder, and a well-formed frame on success.
pub open spec fn decode_matches<T: RespEncode>(
    r: Result<Decoded<T>, DecodeErr>,
    sd: SpecDec,
) -> bool {
    match r {
        Result::Ok(d) => {
            &&& sd matches SpecDec::Done(fv, n)
            &&& d.1 == n
            &&& wf(fv)
            &&& d.0 matches Option::Some(v)
            &&& v.frame_view() == fv
        },
        Result::Err(e) => sd == SpecDec::Fail(e),
    }
}

// ------------------------------------------------------------------
// The core encoder
// ------------------------------------------------------------------

/// Append a CRLF terminator.
fn push_crlf(out: &mut Vec<u8>)
    ensures
        final(out)@ == old(out)@ + crlf(),
{
    out.push(13);
    out.push(10);
    proof {
        assert(out@ =~= old(out)@ + crlf());
    }
}

/// Append a header: the marker byte, a decimal number, CRLF.
fn push_header(out: &mut Vec<u8>, marker: u8, n: usize)
    ensures
        final(out)@ == old(out)@ + seq![marker] + spec_digits(n as nat) + crlf(),
{
    out.push(marker);
    let mut ds = crate::resp::num::fmt_u64(n as u64);
    out.append(&mut ds);
    push_crlf(out);
    proof {
        assert(out@ =~= old(out)@ + seq![marker] + spec_digits(n as nat) + crlf());
    }
}

/// Serialise one frame.
pub fn encode_frame(f: &RespFrame) -> (r: Vec<u8>)
    requires
        wf(fview(*f)),
    ensures
        r@ == enc(fview(*f)),
    decreases *f, 0int,
{
    broadcast use lemma_fview_seq_len, lemma_fview_seq_index, lemma_fview_pairs_len, lemma_fview_pairs_index;

    match f {
        RespFrame::SimpleString(s) => {
            let mut out: Vec<u8> = Vec::new();
            out.push(43);
            let mut p = vstd::slice::slice_to_vec(s.0.as_slice());
            out.append(&mut p);
            push_crlf(&mut out);
            proof {
                assert(out@ =~= seq![43u8] + s.0@ + crlf());
            }
            out
        },
        RespFrame::Error(s) => {
            let mut out: Vec<u8> = Vec::new();
            out.push(45);
            let mut p = vstd::slice::slice_to_vec(s.0.as_slice());
            out.append(&mut p);
            push_crlf(&mut out);
            proof {
                assert(out@ =~= seq![45u8] + s.0@ + crlf());
            }
            out
        },
        RespFrame::Integer(v) => {
            let mut out: Vec<u8> = Vec::new();
            out.push(58);
            let mut p = crate::resp::num::fmt_i64_payload(*v);
            out.append(&mut p);
            push_crlf(&mut out);
            proof {
                assert(out@ =~= seq![58u8] + spec_int_payload(*v as int) + crlf());
            }
            out
        },
        RespFrame::BulkString(b) => match &b.0 {
            Option::None => {
                let mut out: Vec<u8> = Vec::new();
                out.push(36);
                out.push(45);
                out.push(49);
                out.push(13);
                out.push(10);
                proof {
                    assert(out@ =~= seq![36u8, 45u8, 49u8, 13u8, 10u8]);
                }
                out
            },
            Option::Some(body) => {
                let mut out: Vec<u8> = Vec::new();
                push_header(&mut out, 36, body.len());
                let mut p = vstd::slice::slice_to_vec(body.as_slice());
                out.append(&mut p);
                push_crlf(&mut out);
                proof {
                    assert(out@ =~= seq![36u8] + spec_digits(body@.len()) + crlf() + body@
                        + crlf());
                }
                out
            },
        },
        RespFrame::Null(_) => {
            let mut out: Vec<u8> = Vec::new();
            out.push(95);
            out.push(13);
            out.push(10);
            proof {
                assert(out@ =~= seq![95u8, 13u8, 10u8]);
            }
            out
        },
        RespFrame::Array(a) => match &a.0 {
            Option::None => {
                let mut out: Vec<u8> = Vec::new();
                out.push(42);
                out.push(45);
                out.push(49);
                out.push(13);
                out.push(10);
                proof {
                    assert(out@ =~= seq![42u8, 45u8, 49u8, 13u8, 10u8]);
                }
                out
            },
            Option::Some(es) => {
                let mut out: Vec<u8> = Vec::new();
                push_header(&mut out, 42, es.len());
                let mut body = encode_elems(es);
                out.append(&mut body);
                proof {
                    assert(out@ =~= seq![42u8] + spec_digits(fview_seq(es@).len()) + crlf()
                        + enc_elems(fview_seq(es@)));
                }
                out
            },
        },
        RespFrame::Boolean(b) => {
            let mut out: Vec<u8> = Vec::new();
            out.push(35);
            out.push(if *b {
                116
            } else {
                102
            });
            out.push(13);
            out.push(10);
            proof {
                assert(out@ =~= seq![35u8, if *b { 116u8 } else { 102u8 }, 13u8, 10u8]);
            }
            out
        },
        RespFrame::Double(d) => {
            let mut out: Vec<u8> = Vec::new();
            out.push(44);
            let mut p = vstd::slice::slice_to_vec(d.0.as_slice());
            out.append(&mut p);
            push_crlf(&mut out);
            proof {
                assert(out@ =~= seq![44u8] + d.0@ + crlf());
            }
            out
        },
        RespFrame::MapFrame(m) => {
            let mut out: Vec<u8> = Vec::new();
            push_header(&mut out, 37, m.0.len());
            let mut body = encode_pairs(&m.0);
            out.append(&mut body);
            proof {
                assert(out@ =~= seq![37u8] + spec_digits(fview_pairs(m.0@).len()) + crlf()
                    + enc_pairs(fview_pairs(m.0@)));
            }
            out
        },
        RespFrame::SetFrame(s) => {
            let mut out: Vec<u8> = Vec::new();
            push_header(&mut out, 126, s.0.len());
            let mut body = encode_elems(&s.0);
            out.append(&mut body);
            proof {
                assert(out@ =~= seq![126u8] + spec_digits(fview_seq(s.0@).len()) + crlf()
                    + enc_elems(fview_seq(s.0@)));
            }
            out
        },
    }
}

/// Serialise a run of frames back to back.
fn encode_elems(es: &Vec<RespFrame>) -> (r: Vec<u8>)
    requires
        wf_all(fview_seq(es@)),
    ensures
        r@ == enc_elems(fview_seq(es@)),
    decreases es@, 1int,
{
    broadcast use lemma_fview_seq_len, lemma_fview_seq_index;

    let ghost w = fview_seq(es@);
    proof {
        lemma_wf_all_iff(w);
    }
    let mut out: Vec<u8> = Vec::new();
    let mut i: usize = 0;
    proof {
        assert(w.skip(0int) =~= w);
        assert(out@ + enc_elems(w) =~= enc_elems(w));
    }
    while i < es.len()
        invariant
            i <= es@.len(),
            w == fview_seq(es@),
            w.len() == es@.len(),
            forall|l: int| 0 <= l < es@.len() ==> #[trigger] w[l] == fview(es@[l]),
            forall|l: int| 0 <= l < w.len() ==> wf(#[trigger] w[l]),
            out@ + enc_elems(w.skip(i as int)) == enc_elems(w),
        decreases es@.len() - i,
    {
        proof {
            assert(w.skip(i as int)[0] == w[i as int]);
            assert(w.skip(i as int).drop_first() =~= w.skip(i + 1));
        }
        let mut one = encode_frame(&es[i]);
        out.append(&mut one);
        proof {
            assert(out@ + enc_elems(w.skip(i + 1)) =~= enc_elems(w));
        }
        i = i + 1;
    }
    proof {
        assert(w.skip(i as int) =~= Seq::<FrameV>::empty());
        assert(out@ =~= enc_elems(w));
    }
    out
}

/// Serialise a run of key-value pairs back to back.
fn encode_pairs(entries: &Vec<(RespFrame, RespFrame)>) -> (r: Vec<u8>)
    requires
        wf_pairs(fview_pairs(entries@)),
    ensures
        r@ == enc_pairs(fview_pairs(entries@)),
    decreases entries@, 1int,
{
    broadcast use lemma_fview_pairs_len, lemma_fview_pairs_index;

    let ghost w = fview_pairs(entries@);
    proof {
        lemma_wf_pairs_iff(w);
    }
    let mut out: Vec<u8> = Vec::new();
    let mut i: usize = 0;
    proof {
        assert(w.skip(0int) =~= w);
        assert(out@ + enc_pairs(w) =~= enc_pairs(w));
    }
    while i < entries.len()
        invariant
            i <= entries@.len(),
            w == fview_pairs(entries@),
            w.len() == entries@.len(),
            forall|l: int|
                0 <= l < entries@.len() ==> #[trigger] w[l] == (
                    fview(entries@[l].0),
                    fview(entries@[l].1),
                ),
            forall|l: int| 0 <= l < w.len() ==> wf((#[trigger] w[l]).0) && wf(w[l].1),
            out@ + enc_pairs(w.skip(i as int)) == enc_pairs(w),
        decreases entries@.len() - i,
    {
        proof {
            assert(w.skip(i as int)[0] == w[i as int]);
            assert(w.skip(i as int).drop_first() =~= w.skip(i + 1));
        }
        let mut one = encode_frame(&entries[i].0);
        out.append(&mut one);
        let mut two = encode_frame(&entries[i].1);
        out.append(&mut two);
        proof {
            assert(out@ + enc_pairs(w.skip(i + 1)) =~= enc_pairs(w));
        }
        i = i + 1;
    }
    proof {
        assert(w.skip(i as int) =~= Seq::<(FrameV, FrameV)>::empty());
        assert(out@ =~= enc_pairs(w));
    }
    out
}

/// Deserialisation from the RESP wire format.
pub trait RespDecode: Sized + RespEncode {
    /// The spec-level decoder this type's `decode` implements.
    spec fn dec_spec(s: Seq<u8>) -> SpecDec;

    /// Decode one value from the head of `buf`, reporting the bytes
    /// consumed; the buffer may hold trailing bytes beyond the frame.
    fn decode(buf: &[u8]) -> (r: Result<Decoded<Self>, DecodeErr>)
        ensures
            decode_matches(r, Self::dec_spec(buf@)),
    ;
}

impl RespEncode for RespFrame {
    open spec fn frame_view(self) -> FrameV {
        fview(self)
    }

    fn encode(self) -> (r: Vec<u8>) {
        encode_frame(&self)
    }
}

impl RespDecode for RespFrame {
    open spec fn dec_spec(s: Seq<u8>) -> SpecDec {
        dec(s)
    }

    fn decode(buf: &[u8]) -> (r: Result<Decoded<Self>, DecodeErr>) {
        proof {
            assert(buf@.skip(0int) =~= buf@);
        }
        match crate::resp::decode::decode_at(buf, 0) {
            Result::Ok((v, c)) => Result::Ok(Decoded(Option::Some(v), c)),
            Result::Err(e) => Result::Err(e),
        }
    }
}

/// A deep copy of a frame, equal to the original as a spec value.
pub fn clone_frame(f: &RespFrame) -> (r: RespFrame)
    ensures
        fview(r) == fview(*f),
    decreases *f, 0int,
{
    broadcast use lemma_fview_seq_len, lemma_fview_seq_index, lemma_fview_pairs_len, lemma_fview_pairs_index;

    match f {
        RespFrame::SimpleString(s) => RespFrame::SimpleString(
            RespSimpleString(vstd::slice::slice_to_vec(s.0.as_slice())),
        ),
        RespFrame::Error(s) => RespFrame::Error(
            RespSimpleError(vstd::slice::slice_to_vec(s.0.as_slice())),
        ),
        RespFrame::Integer(v) => RespFrame::Integer(*v),
        RespFrame::BulkString(b) => match &b.0 {
            Option::None => RespFrame::BulkString(RespBulkString(Option::None)),
            Option::Some(v) => RespFrame::BulkString(
                RespBulkString(Option::Some(vstd::slice::slice_to_vec(v.as_slice()))),
            ),
        },
        RespFrame::Null(_) => RespFrame::Null(RespNull),
        RespFrame::Array(a) => match &a.0 {
            Option::None => RespFrame::Array(RespArray(Option::None)),
            Option::Some(v) => RespFrame::Array(RespArray(Option::Some(clone_frames(v)))),
        },
        RespFrame::Boolean(b) => RespFrame::Boolean(*b),
        RespFrame::Double(d) => RespFrame::Double(
            RespDouble(vstd::slice::slice_to_vec(d.0.as_slice())),
        ),
        RespFrame::MapFrame(m) => RespFrame::MapFrame(RespMap(clone_pairs(&m.0))),
        RespFrame::SetFrame(s) => RespFrame::SetFrame(RespSet(clone_frames(&s.0))),
    }
}

/// A deep copy of a frame vector.
fn clone_frames(v: &Vec<RespFrame>) -> (r: Vec<RespFrame>)
    ensures
        fview_seq(r@) == fview_seq(v@),
        r@.len() == v@.len(),
    decreases v@, 1int,
{
    broadcast use lemma_fview_seq_len, lemma_fview_seq_index;

    let mut out: Vec<RespFrame> = Vec::new();
    let mut i: usize = 0;
    while i < v.len()
        invariant
            i <= v@.len(),
            out@.len() == i,
            forall|l: int| 0 <= l < i ==> fview(#[trigger] out@[l]) == fview(v@[l]),
        decreases v@.len() - i,
    {
        let one = clone_frame(&v[i]);
        out.push(one);
        i = i + 1;
    }
    proof {
        assert(fview_seq(out@) =~= fview_seq(v@));
    }
    out
}

/// A deep copy of a pair vector.
fn clone_pairs(v: &Vec<(RespFrame, RespFrame)>) -> (r: Vec<(RespFrame, RespFrame)>)
    ensures
        fview_pairs(r@) == fview_pairs(v@),
        r@.len() == v@.len(),
    decreases v@, 1int,
{
    broadcast use lemma_fview_pairs_len, lemma_fview_pairs_index;

    let mut out: Vec<(RespFrame, RespFrame)> = Vec::new();
    let mut i: usize = 0;
    while i < v.len()
        invariant
            i <= v@.len(),
            out@.len() == i,
            forall|l: int|
                0 <= l < i ==> fview((#[trigger] out@[l]).0) == fview(v@[l].0) && fview(
                    out@[l].1,
                ) == fview(v@[l].1),
        decreases v@.len() - i,
    {
        let k = clone_frame(&v[i].0);
        let w = clone_frame(&v[i].1);
        out.push((k, w));
        i = i + 1;
    }
    proof {
        assert(fview_pairs(out@) =~= fview_pairs(v@));
    }
    out
}

} // verus!
