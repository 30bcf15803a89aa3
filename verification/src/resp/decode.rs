//! The executable decoder, proved against the spec-level `dec`.
//!
//! Every helper works on `buf` from offset `start` and speaks of the suffix
//! `buf@.skip(start)`, so the recursive frame decoders can thread a single
//! borrowed buffer through nested frames.
#![allow(unused_imports)]

use vstd::prelude::*;
use vstd::slice::slice_to_vec;

use crate::resp::array::RespArray;
use crate::resp::bulkstring::RespBulkString;
use crate::resp::double::{is_double_text, RespDouble};
use crate::resp::frame::{
    fview, fview_pairs, fview_seq, lemma_fview_pairs_index, lemma_fview_pairs_len,
    lemma_fview_seq_index, lemma_fview_seq_len, DecodeErr, RespFrame,
};
use crate::resp::map::RespMap;
use crate::resp::null::RespNull;
use crate::resp::num::{parse_i64_payload, parse_u64_payload};
use crate::resp::set::RespSet;
use crate::resp::simple_error::RespSimpleError;
use crate::resp::simple_string::RespSimpleString;
use crate::resp::wire::{
    build_map, build_set, dec, dec_arr, dec_bool, dec_bulk, dec_double, dec_error, dec_int,
    dec_list, dec_map, dec_null, dec_set, dec_simple, find_crlf_from, has_crlf_at,
    lemma_find_crlf_char,
    lemma_skip_skip, no_crlf, rest_of, spec_line, valid_double, wf, wf_all, wf_pairs, FrameV,
    SpecDec, SpecLine, SpecList,
};

verus! {

/// Find the first CRLF-terminated line at `start`: returns the position of
/// the CRLF and the count of bytes the line consumes, terminator included.
pub(crate) fn line_at(buf: &[u8], start: usize) -> (r: Result<(usize, usize), DecodeErr>)
    requires
        start <= buf@.len(),
    ensures
        ({
            let s = buf@.skip(start as int);
            match r {
                Result::Ok(ec) => {
                    &&& start < ec.0
                    &&& ec.0 + 2 <= buf@.len()
                    &&& ec.1 == ec.0 - start + 2
                    &&& spec_line(s) == SpecLine::Done(
                        buf@.subrange(start as int, ec.0 as int),
                        ec.1 as int,
                    )
                    &&& no_crlf(buf@.subrange(start as int, ec.0 as int))
                },
                Result::Err(e) => spec_line(s) == SpecLine::Fail(e),
            }
        }),
{
    let ghost s = buf@.skip(start as int);
    let mut j: usize = start;
    proof {
        assert(s.len() == buf@.len() - start);
    }
    while j < buf.len() && j + 1 < buf.len()
        invariant
            start <= j <= buf@.len(),
            s == buf@.skip(start as int),
            s.len() == buf@.len() - start,
            find_crlf_from(s, 0) == find_crlf_from(s, j - start),
        decreases buf@.len() - j,
    {
        proof {
            assert(s[j - start] == buf@[j as int]);
            assert(s[j - start + 1] == buf@[j + 1]);
        }
        if buf[j] == 13 && buf[j + 1] == 10 {
            proof {
                assert(find_crlf_from(s, j - start) == Option::Some((j - start) as int));
            }
            if j == start {
                return Result::Err(DecodeErr::InvalidFrame);
            }
            let k = j - start;
            proof {
                let line = s.take(k as int);
                assert(line =~= buf@.subrange(start as int, j as int));
                lemma_find_crlf_char(s, 0);
                assert forall|i: int| !has_crlf_at(line, i) by {
                    if 0 <= i && i + 2 <= line.len() {
                        assert(line[i] == s[i]);
                        assert(line[i + 1] == s[i + 1]);
                    }
                }
            }
            return Result::Ok((j, k + 2));
        }
        proof {
            assert(find_crlf_from(s, j - start) == find_crlf_from(s, j - start + 1));
        }
        j = j + 1;
    }
    proof {
        assert(find_crlf_from(s, j - start) is None);
    }
    Result::Err(DecodeErr::InComplete)
}

/// The payload of the line that starts at `start`: the bytes after the
/// marker, up to the CRLF at `end`.
fn payload_of<'a>(buf: &'a [u8], start: usize, end: usize) -> (r: &'a [u8])
    requires
        start < end,
        end <= buf@.len(),
    ensures
        r@ == buf@.subrange(start + 1, end as int),
        r@ == buf@.skip(start as int).take(end - start).drop_first(),
        r@ == buf@.subrange(start as int, end as int).drop_first(),
{
    let r = &buf[start + 1..end];
    proof {
        assert(r@ =~= buf@.skip(start as int).take(end - start).drop_first());
        assert(r@ =~= buf@.subrange(start as int, end as int).drop_first());
    }
    r
}

/// Decode a simple string at `start`.
pub(crate) fn decode_simple_at(buf: &[u8], start: usize) -> (r: Result<
    (RespSimpleString, usize),
    DecodeErr,
>)
    requires
        start <= buf@.len(),
    ensures
        ({
            let s = buf@.skip(start as int);
            match r {
                Result::Ok(v) => {
                    &&& dec_simple(s) == SpecDec::Done(FrameV::SimpleString(v.0@), v.1 as int)
                    &&& no_crlf(v.0@)
                    &&& 3 <= v.1
                    &&& start + v.1 <= buf@.len()
                },
                Result::Err(e) => dec_simple(s) == SpecDec::Fail(e),
            }
        }),
{
    match line_at(buf, start) {
        Result::Err(e) => Result::Err(e),
        Result::Ok((end, c)) => {
            let p = payload_of(buf, start, end);
            let ghost line = buf@.subrange(start as int, end as int);
            proof {
                assert(line.drop_first() =~= buf@.subrange(start + 1, end as int));
                assert forall|i: int| !has_crlf_at(p@, i) by {
                    if 0 <= i && i + 2 <= p@.len() && p@[i] == 13u8 && p@[i + 1] == 10u8 {
                        assert(p@[i] == line[i + 1]);
                        assert(p@[i + 1] == line[i + 2]);
                        assert(has_crlf_at(line, i + 1));
                    }
                }
            }
            Result::Ok((RespSimpleString(slice_to_vec(p)), c))
        },
    }
}

/// Decode a simple error at `start`.
pub(crate) fn decode_error_at(buf: &[u8], start: usize) -> (r: Result<
    (RespSimpleError, usize),
    DecodeErr,
>)
    requires
        start <= buf@.len(),
    ensures
        ({
            let s = buf@.skip(start as int);
            match r {
                Result::Ok(v) => {
                    &&& dec_error(s) == SpecDec::Done(FrameV::Error(v.0@), v.1 as int)
                    &&& no_crlf(v.0@)
                    &&& 3 <= v.1
                    &&& start + v.1 <= buf@.len()
                },
                Result::Err(e) => dec_error(s) == SpecDec::Fail(e),
            }
        }),
{
    match line_at(buf, start) {
        Result::Err(e) => Result::Err(e),
        Result::Ok((end, c)) => {
            let p = payload_of(buf, start, end);
            let ghost line = buf@.subrange(start as int, end as int);
            proof {
                assert(line.drop_first() =~= buf@.subrange(start + 1, end as int));
                assert forall|i: int| !has_crlf_at(p@, i) by {
                    if 0 <= i && i + 2 <= p@.len() && p@[i] == 13u8 && p@[i + 1] == 10u8 {
                        assert(p@[i] == line[i + 1]);
                        assert(p@[i + 1] == line[i + 2]);
                        assert(has_crlf_at(line, i + 1));
                    }
                }
            }
            Result::Ok((RespSimpleError(slice_to_vec(p)), c))
        },
    }
}

/// Decode an integer at `start`.
pub(crate) fn decode_int_at(buf: &[u8], start: usize) -> (r: Result<(i64, usize), DecodeErr>)
    requires
        start <= buf@.len(),
    ensures
        ({
            let s = buf@.skip(start as int);
            match r {
                Result::Ok(v) => {
                    &&& dec_int(s) == SpecDec::Done(FrameV::Integer(v.0 as int), v.1 as int)
                    &&& 3 <= v.1
                    &&& start + v.1 <= buf@.len()
                },
                Result::Err(e) => dec_int(s) == SpecDec::Fail(e),
            }
        }),
{
    match line_at(buf, start) {
        Result::Err(e) => Result::Err(e),
        Result::Ok((end, c)) => {
            let p = payload_of(buf, start, end);
            match parse_i64_payload(p) {
                Option::None => Result::Err(DecodeErr::ParseIntError),
                Option::Some(v) => Result::Ok((v, c)),
            }
        },
    }
}

/// Decode a boolean at `start`: true exactly on the payload `t`.
pub(crate) fn decode_bool_at(buf: &[u8], start: usize) -> (r: Result<(bool, usize), DecodeErr>)
    requires
        start <= buf@.len(),
    ensures
        ({
            let s = buf@.skip(start as int);
            match r {
                Result::Ok(v) => {
                    &&& dec_bool(s) == SpecDec::Done(FrameV::Boolean(v.0), v.1 as int)
                    &&& 3 <= v.1
                    &&& start + v.1 <= buf@.len()
                },
                Result::Err(e) => dec_bool(s) == SpecDec::Fail(e),
            }
        }),
{
    match line_at(buf, start) {
        Result::Err(e) => Result::Err(e),
        Result::Ok((end, c)) => {
            let p = payload_of(buf, start, end);
            let b = p.len() == 1 && p[0] == 116;
            proof {
                if b {
                    assert(p@ =~= seq![116u8]);
                } else {
                    assert(p@ != seq![116u8]) by {
                        if p@ == seq![116u8] {
                            assert(p@.len() == 1);
                            assert(p@[0] == 116u8);
                        }
                    }
                }
            }
            Result::Ok((b, c))
        },
    }
}

/// Decode the null frame at `start`: the line must be the bare marker.
pub(crate) fn decode_null_at(buf: &[u8], start: usize) -> (r: Result<(RespNull, usize), DecodeErr>)
    requires
        start <= buf@.len(),
    ensures
        ({
            let s = buf@.skip(start as int);
            match r {
                Result::Ok(v) => {
                    &&& dec_null(s) == SpecDec::Done(FrameV::Null, v.1 as int)
                    &&& 3 <= v.1
                    &&& start + v.1 <= buf@.len()
                },
                Result::Err(e) => dec_null(s) == SpecDec::Fail(e),
            }
        }),
{
    match line_at(buf, start) {
        Result::Err(e) => Result::Err(e),
        Result::Ok((end, c)) => {
            if end - start == 1 {
                Result::Ok((RespNull, c))
            } else {
                Result::Err(DecodeErr::InvalidFrame)
            }
        },
    }
}

/// Decode a double at `start`: the payload must be a finite numeric text.
pub(crate) fn decode_double_at(buf: &[u8], start: usize) -> (r: Result<
    (RespDouble, usize),
    DecodeErr,
>)
    requires
        start <= buf@.len(),
    ensures
        ({
            let s = buf@.skip(start as int);
            match r {
                Result::Ok(v) => {
                    &&& dec_double(s) == SpecDec::Done(FrameV::Double(v.0@), v.1 as int)
                    &&& valid_double(v.0@)
                    &&& 3 <= v.1
                    &&& start + v.1 <= buf@.len()
                },
                Result::Err(e) => dec_double(s) == SpecDec::Fail(e),
            }
        }),
{
    match line_at(buf, start) {
        Result::Err(e) => Result::Err(e),
        Result::Ok((end, c)) => {
            let p = payload_of(buf, start, end);
            match RespDouble::from_text(p) {
                Option::None => Result::Err(DecodeErr::ParseFloatError),
                Option::Some(d) => Result::Ok((d, c)),
            }
        },
    }
}

/// Decode a bulk string at `start`: a `-1` length is the null bulk string;
/// otherwise the advertised count of body bytes must be followed by CRLF.
pub(crate) fn decode_bulk_at(buf: &[u8], start: usize) -> (r: Result<
    (RespBulkString, usize),
    DecodeErr,
>)
    requires
        start <= buf@.len(),
    ensures
        ({
            let s = buf@.skip(start as int);
            match r {
                Result::Ok(v) => {
                    &&& dec_bulk(s) == SpecDec::Done(
                        FrameV::BulkString(v.0@),
                        v.1 as int,
                    )
                    &&& 3 <= v.1
                    &&& start + v.1 <= buf@.len()
                },
                Result::Err(e) => dec_bulk(s) == SpecDec::Fail(e),
            }
        }),
{
    let ghost s = buf@.skip(start as int);
    let blen = buf.len();
    match line_at(buf, start) {
        Result::Err(e) => Result::Err(e),
        Result::Ok((end, c)) => {
            let p = payload_of(buf, start, end);
            match parse_i64_payload(p) {
                Option::None => Result::Err(DecodeErr::ParseIntError),
                Option::Some(v) => {
                    if v == -1 {
                        Result::Ok((RespBulkString(Option::None), c))
                    } else if v < 0 {
                        Result::Err(DecodeErr::ParseIntError)
                    } else {
                        proof {
                            assert(start + c == end + 2);
                            assert(end + 2 <= blen);
                        }
                        let bp = start + c;
                        proof {
                            assert(rest_of(s, c as int) =~= buf@.skip(bp as int));
                        }
                        if ((buf.len() - bp) as u64) < (v as u64) + 2 {
                            Result::Err(DecodeErr::InComplete)
                        } else {
                            let n = v as usize;
                            proof {
                                assert(buf@.skip(bp as int)[v as int] == buf@[bp + n]);
                                assert(buf@.skip(bp as int)[v + 1] == buf@[bp + n + 1]);
                            }
                            if buf[bp + n] == 13 && buf[bp + n + 1] == 10 {
                                let body = &buf[bp..bp + n];
                                proof {
                                    assert(body@ =~= buf@.skip(bp as int).take(v as int));
                                }
                                Result::Ok((RespBulkString(Option::Some(slice_to_vec(body))), c + n
                                    + 2))
                            } else {
                                Result::Err(DecodeErr::InvalidLength)
                            }
                        }
                    }
                },
            }
        },
    }
}

/// Decode `n` consecutive frames starting at `start`.
pub(crate) fn decode_list_at(buf: &[u8], start: usize, n: u64) -> (r: Result<
    (Vec<RespFrame>, usize),
    DecodeErr,
>)
    requires
        start <= buf@.len(),
    ensures
        ({
            let s = buf@.skip(start as int);
            match r {
                Result::Ok(v) => {
                    &&& dec_list(s, n as int) == SpecList::Done(fview_seq(v.0@), v.1 as int)
                    &&& v.0@.len() == n
                    &&& forall|l: int|
                        0 <= l < fview_seq(v.0@).len() ==> wf(#[trigger] fview_seq(v.0@)[l])
                    &&& start + v.1 <= buf@.len()
                },
                Result::Err(e) => dec_list(s, n as int) == SpecList::Fail(e),
            }
        }),
    decreases buf@.len() - start, 2int,
{
    broadcast use lemma_fview_seq_len, lemma_fview_seq_index;

    let ghost s0 = buf@.skip(start as int);
    let blen = buf.len();
    let mut items: Vec<RespFrame> = Vec::new();
    let mut pos: usize = start;
    let mut idx: u64 = 0;
    proof {
        assert(fview_seq(items@) =~= Seq::<FrameV>::empty());
        match dec_list(s0, n as int) {
            SpecList::Done(es, m) => {
                assert(fview_seq(items@) + es =~= es);
            },
            SpecList::Fail(_) => {},
        }
    }
    while idx < n
        invariant
            idx <= n,
            start <= pos <= buf@.len(),
            blen == buf@.len(),
            s0 == buf@.skip(start as int),
            forall|l: int| 0 <= l < fview_seq(items@).len() ==> wf(#[trigger] fview_seq(items@)[l]),
            items@.len() == idx,
            match dec_list(buf@.skip(pos as int), n - idx) {
                SpecList::Done(es, m) => dec_list(s0, n as int) == SpecList::Done(
                    fview_seq(items@) + es,
                    pos - start + m,
                ),
                SpecList::Fail(e) => dec_list(s0, n as int) == SpecList::Fail(e),
            },
        decreases n - idx,
    {
        broadcast use lemma_fview_seq_len, lemma_fview_seq_index;

        let ghost scur = buf@.skip(pos as int);
        match decode_at(buf, pos) {
            Result::Err(e) => {
                return Result::Err(e);
            },
            Result::Ok((f, c)) => {
                proof {
                    lemma_skip_skip(buf@, pos as int, c as int);
                    assert(rest_of(scur, c as int) =~= buf@.skip(pos + c));
                    assert(fview_seq(items@.push(f)) =~= fview_seq(items@) + seq![fview(f)]) by {
                        assert(fview_seq(items@.push(f)).len() == items@.len() + 1);
                        assert forall|l: int| 0 <= l < items@.len() + 1 implies fview_seq(
                            items@.push(f),
                        )[l] == (fview_seq(items@) + seq![fview(f)])[l] by {
                            if l < items@.len() {
                                assert(items@.push(f)[l] == items@[l]);
                            } else {
                                assert(items@.push(f)[l] == f);
                            }
                        }
                    }
                    match dec_list(buf@.skip(pos + c), n - idx - 1) {
                        SpecList::Done(es, m) => {
                            assert((fview_seq(items@) + (seq![fview(f)] + es)) =~= (fview_seq(
                                items@.push(f),
                            ) + es));
                        },
                        SpecList::Fail(_) => {},
                    }
                }
                items.push(f);
                pos = pos + c;
                idx = idx + 1;
            },
        }
    }
    proof {
        assert(dec_list(buf@.skip(pos as int), 0int) == SpecList::Done(
            Seq::<FrameV>::empty(),
            0int,
        ));
        assert(fview_seq(items@) + Seq::<FrameV>::empty() =~= fview_seq(items@));
    }
    Result::Ok((items, pos - start))
}

/// Decode an array at `start`.
pub(crate) fn decode_arr_at(buf: &[u8], start: usize) -> (r: Result<(RespArray, usize), DecodeErr>)
    requires
        start <= buf@.len(),
    ensures
        ({
            let s = buf@.skip(start as int);
            match r {
                Result::Ok(v) => {
                    &&& dec_arr(s) == SpecDec::Done(FrameV::Array(v.0@), v.1 as int)
                    &&& wf(FrameV::Array(v.0@))
                    &&& 3 <= v.1
                    &&& start + v.1 <= buf@.len()
                },
                Result::Err(e) => dec_arr(s) == SpecDec::Fail(e),
            }
        }),
    decreases buf@.len() - start, 0int,
{
    broadcast use lemma_fview_seq_len, lemma_fview_seq_index;

    let ghost s = buf@.skip(start as int);
    let blen = buf.len();
    match line_at(buf, start) {
        Result::Err(e) => Result::Err(e),
        Result::Ok((end, c)) => {
            let p = payload_of(buf, start, end);
            match parse_i64_payload(p) {
                Option::None => Result::Err(DecodeErr::ParseIntError),
                Option::Some(v) => {
                    if v == -1 {
                        Result::Ok((RespArray(Option::None), c))
                    } else if v < 0 {
                        Result::Err(DecodeErr::ParseIntError)
                    } else {
                        proof {
                            assert(start + c == end + 2);
                            assert(end + 2 <= blen);
                            lemma_skip_skip(buf@, start as int, c as int);
                            assert(rest_of(s, buf@.subrange(start as int, end as int).len()
                                + 2int) =~= buf@.skip((start + c) as int));
                        }
                        match decode_list_at(buf, start + c, v as u64) {
                            Result::Err(e) => Result::Err(e),
                            Result::Ok((es, m)) => {
                                proof {
                                    crate::resp::wire::lemma_wf_all_iff(fview_seq(es@));
                                }
                                Result::Ok((RespArray(Option::Some(es)), c + m))
                            },
                        }
                    }
                },
            }
        },
    }
}

/// Decode a map at `start`: pairs of frames inserted in wire order.
pub(crate) fn decode_map_at(buf: &[u8], start: usize) -> (r: Result<(RespMap, usize), DecodeErr>)
    requires
        start <= buf@.len(),
    ensures
        ({
            let s = buf@.skip(start as int);
            match r {
                Result::Ok(v) => {
                    &&& dec_map(s) == SpecDec::Done(FrameV::MapFrame(v.0@), v.1 as int)
                    &&& wf(FrameV::MapFrame(v.0@))
                    &&& 3 <= v.1
                    &&& start + v.1 <= buf@.len()
                },
                Result::Err(e) => dec_map(s) == SpecDec::Fail(e),
            }
        }),
    decreases buf@.len() - start, 0int,
{
    broadcast use lemma_fview_pairs_len, lemma_fview_pairs_index;

    let ghost s = buf@.skip(start as int);
    let blen = buf.len();
    match line_at(buf, start) {
        Result::Err(e) => Result::Err(e),
        Result::Ok((end, c)) => {
            let p = payload_of(buf, start, end);
            match parse_u64_payload(p) {
                Option::None => Result::Err(DecodeErr::ParseIntError),
                Option::Some(n) => {
                    proof {
                        assert(start + c == end + 2);
                        assert(end + 2 <= blen);
                        lemma_skip_skip(buf@, start as int, c as int);
                        assert(rest_of(s, buf@.subrange(start as int, end as int).len() + 2int)
                            =~= buf@.skip((start + c) as int));
                    }
                    let hdr = start + c;
                    let ghost s0 = buf@.skip(hdr as int);
                    let mut map = RespMap::new();
                    let ghost flat = Seq::<FrameV>::empty();
                    let mut pos: usize = hdr;
                    let mut idx: u64 = 0;
                    proof {
                        match dec_list(s0, 2 * (n as int)) {
                            SpecList::Done(es, m) => {
                                assert(flat + es =~= es);
                            },
                            SpecList::Fail(_) => {},
                        }
                    }
                    while idx < n
                        invariant
                            idx <= n,
                            start < hdr <= pos <= buf@.len(),
                            blen == buf@.len(),
                            s0 == buf@.skip(hdr as int),
                            c == hdr - start,
                            match dec_list(s0, 2 * (n as int)) {
                                SpecList::Done(es, m) => dec_map(buf@.skip(start as int))
                                    == SpecDec::Done(FrameV::MapFrame(build_map(es)), c + m),
                                SpecList::Fail(e) => dec_map(buf@.skip(start as int))
                                    == SpecDec::Fail(e),
                            },
                            map@ == build_map(flat),
                            flat.len() == 2 * idx,
                            map@.len() <= idx,
                            crate::resp::order::sorted_pairs(map@),
                            forall|l: int|
                                0 <= l < map@.len() ==> wf((#[trigger] map@[l]).0) && wf(
                                    map@[l].1,
                                ),
                            match dec_list(buf@.skip(pos as int), 2 * (n as int) - 2 * idx) {
                                SpecList::Done(es, m) => dec_list(s0, 2 * (n as int))
                                    == SpecList::Done(flat + es, pos - hdr + m),
                                SpecList::Fail(e) => dec_list(s0, 2 * (n as int))
                                    == SpecList::Fail(e),
                            },
                        decreases n - idx,
                    {
                        let ghost scur = buf@.skip(pos as int);
                        let ghost big = 2 * (n as int) - 2 * idx;
                        let kr = decode_at(buf, pos);
                        match kr {
                            Result::Err(e) => {
                                proof {
                                    assert(dec_list(scur, big) == SpecList::Fail(e));
                                }
                                return Result::Err(e);
                            },
                            Result::Ok((kf, kc)) => {
                                proof {
                                    lemma_skip_skip(buf@, pos as int, kc as int);
                                    assert(rest_of(scur, kc as int) =~= buf@.skip(pos + kc));
                                }
                                let vr = decode_at(buf, pos + kc);
                                match vr {
                                    Result::Err(e) => {
                                        proof {
                                            assert(dec_list(buf@.skip(pos + kc), big - 1)
                                                == SpecList::Fail(e));
                                            assert(dec_list(scur, big) == SpecList::Fail(e));
                                        }
                                        return Result::Err(e);
                                    },
                                    Result::Ok((vf, vc)) => {
                                        proof {
                                            lemma_skip_skip(
                                                buf@,
                                                (pos + kc) as int,
                                                vc as int,
                                            );
                                            assert(rest_of(
                                                buf@.skip(pos + kc),
                                                vc as int,
                                            ) =~= buf@.skip(pos + kc + vc));
                                            let g = flat + seq![fview(kf), fview(vf)];
                                            assert(g.take(g.len() - 2) =~= flat);
                                            assert(g[g.len() - 2] == fview(kf));
                                            assert(g[g.len() - 1] == fview(vf));
                                            assert(build_map(g)
                                                == crate::resp::order::sorted_insert_pair(
                                                build_map(flat),
                                                fview(kf),
                                                fview(vf),
                                            ));
                                            crate::resp::order::lemma_sip_sorted(
                                                map@,
                                                fview(kf),
                                                fview(vf),
                                            );
                                            crate::resp::order::lemma_sip_len(
                                                map@,
                                                fview(kf),
                                                fview(vf),
                                            );
                                            match dec_list(
                                                buf@.skip(pos + kc + vc),
                                                big - 2,
                                            ) {
                                                SpecList::Done(es, m) => {
                                                    assert(dec_list(
                                                        buf@.skip(pos + kc),
                                                        big - 1,
                                                    ) == SpecList::Done(
                                                        seq![fview(vf)] + es,
                                                        vc + m,
                                                    ));
                                                    assert(dec_list(scur, big)
                                                        == SpecList::Done(
                                                        seq![fview(kf)] + (seq![fview(vf)]
                                                            + es),
                                                        kc + (vc + m),
                                                    ));
                                                    assert((flat + (seq![fview(kf)] + (seq![
                                                        fview(vf),
                                                    ] + es))) =~= (g + es));
                                                },
                                                SpecList::Fail(e2) => {
                                                    assert(dec_list(
                                                        buf@.skip(pos + kc),
                                                        big - 1,
                                                    ) == SpecList::Fail(e2));
                                                    assert(dec_list(scur, big)
                                                        == SpecList::Fail(e2));
                                                },
                                            }
                                        }
                                        map.insert(kf, vf);
                                        proof {
                                            flat = flat + seq![fview(kf), fview(vf)];
                                        }
                                        pos = pos + kc + vc;
                                        idx = idx + 1;
                                    },
                                }
                            },
                        }
                    }
                    proof {
                        assert(dec_list(buf@.skip(pos as int), 0int) == SpecList::Done(
                            Seq::<FrameV>::empty(),
                            0int,
                        ));
                        assert(flat + Seq::<FrameV>::empty() =~= flat);
                        crate::resp::wire::lemma_wf_pairs_iff(map@);
                    }
                    Result::Ok((map, c + (pos - hdr)))
                },
            }
        },
    }
}

/// Decode a set at `start`: element frames inserted in wire order.
pub(crate) fn decode_set_at(buf: &[u8], start: usize) -> (r: Result<(RespSet, usize), DecodeErr>)
    requires
        start <= buf@.len(),
    ensures
        ({
            let s = buf@.skip(start as int);
            match r {
                Result::Ok(v) => {
                    &&& dec_set(s) == SpecDec::Done(FrameV::SetFrame(v.0@), v.1 as int)
                    &&& wf(FrameV::SetFrame(v.0@))
                    &&& 3 <= v.1
                    &&& start + v.1 <= buf@.len()
                },
                Result::Err(e) => dec_set(s) == SpecDec::Fail(e),
            }
        }),
    decreases buf@.len() - start, 0int,
{
    broadcast use lemma_fview_seq_len, lemma_fview_seq_index;

    let ghost s = buf@.skip(start as int);
    let blen = buf.len();
    match line_at(buf, start) {
        Result::Err(e) => Result::Err(e),
        Result::Ok((end, c)) => {
            let p = payload_of(buf, start, end);
            match parse_u64_payload(p) {
                Option::None => Result::Err(DecodeErr::ParseIntError),
                Option::Some(n) => {
                    proof {
                        assert(start + c == end + 2);
                        assert(end + 2 <= blen);
                        lemma_skip_skip(buf@, start as int, c as int);
                        assert(rest_of(s, buf@.subrange(start as int, end as int).len() + 2int)
                            =~= buf@.skip((start + c) as int));
                    }
                    let hdr = start + c;
                    let ghost s0 = buf@.skip(hdr as int);
                    let mut set = RespSet::new();
                    let ghost flat = Seq::<FrameV>::empty();
                    let mut pos: usize = hdr;
                    let mut idx: u64 = 0;
                    proof {
                        match dec_list(s0, n as int) {
                            SpecList::Done(es, m) => {
                                assert(flat + es =~= es);
                            },
                            SpecList::Fail(_) => {},
                        }
                    }
                    while idx < n
                        invariant
                            idx <= n,
                            start < hdr <= pos <= buf@.len(),
                            blen == buf@.len(),
                            s0 == buf@.skip(hdr as int),
                            c == hdr - start,
                            match dec_list(s0, n as int) {
                                SpecList::Done(es, m) => dec_set(buf@.skip(start as int))
                                    == SpecDec::Done(FrameV::SetFrame(build_set(es)), c + m),
                                SpecList::Fail(e) => dec_set(buf@.skip(start as int))
                                    == SpecDec::Fail(e),
                            },
                            set@ == build_set(flat),
                            flat.len() == idx,
                            set@.len() <= idx,
                            crate::resp::order::sorted_frames(set@),
                            forall|l: int| 0 <= l < set@.len() ==> wf(#[trigger] set@[l]),
                            match dec_list(buf@.skip(pos as int), n as int - idx) {
                                SpecList::Done(es, m) => dec_list(s0, n as int) == SpecList::Done(
                                    flat + es,
                                    pos - hdr + m,
                                ),
                                SpecList::Fail(e) => dec_list(s0, n as int) == SpecList::Fail(e),
                            },
                        decreases n - idx,
                    {
                        let ghost scur = buf@.skip(pos as int);
                        match decode_at(buf, pos) {
                            Result::Err(e) => {
                                proof {
                                    assert(dec_list(scur, n as int - idx) == SpecList::Fail(e));
                                }
                                return Result::Err(e);
                            },
                            Result::Ok((f, fc)) => {
                                proof {
                                    lemma_skip_skip(buf@, pos as int, fc as int);
                                    assert(rest_of(scur, fc as int) =~= buf@.skip(pos + fc));
                                    let g = flat.push(fview(f));
                                    assert(g.drop_last() =~= flat);
                                    assert(g.last() == fview(f));
                                    assert(build_set(g) == crate::resp::order::sorted_insert_frame(
                                        build_set(flat),
                                        fview(f),
                                    ));
                                    crate::resp::order::lemma_sif_sorted(set@, fview(f));
                                    crate::resp::order::lemma_sif_len(set@, fview(f));
                                    match dec_list(buf@.skip(pos + fc), n as int - (idx + 1)) {
                                        SpecList::Done(es, m) => {
                                            assert((flat + (seq![fview(f)] + es)) =~= (g + es));
                                        },
                                        SpecList::Fail(_) => {},
                                    }
                                }
                                set.insert(f);
                                proof {
                                    flat = flat.push(fview(f));
                                }
                                pos = pos + fc;
                                idx = idx + 1;
                            },
                        }
                    }
                    proof {
                        assert(dec_list(buf@.skip(pos as int), 0int) == SpecList::Done(
                            Seq::<FrameV>::empty(),
                            0int,
                        ));
                        assert(flat + Seq::<FrameV>::empty() =~= flat);
                        crate::resp::wire::lemma_wf_all_iff(set@);
                    }
                    Result::Ok((set, c + (pos - hdr)))
                },
            }
        },
    }
}

/// Decode one frame at `start`, dispatching on the marker byte.
pub fn decode_at(buf: &[u8], start: usize) -> (r: Result<(RespFrame, usize), DecodeErr>)
    requires
        start <= buf@.len(),
    ensures
        ({
            let s = buf@.skip(start as int);
            match r {
                Result::Ok(v) => {
                    &&& dec(s) == SpecDec::Done(fview(v.0), v.1 as int)
                    &&& wf(fview(v.0))
                    &&& 3 <= v.1
                    &&& start + v.1 <= buf@.len()
                },
                Result::Err(e) => dec(s) == SpecDec::Fail(e),
            }
        }),
    decreases buf@.len() - start, 1int,
{
    let ghost s = buf@.skip(start as int);
    if start == buf.len() {
        return Result::Err(DecodeErr::InComplete);
    }
    proof {
        assert(s[0] == buf@[start as int]);
    }
    let m = buf[start];
    if m == 43 {
        match decode_simple_at(buf, start) {
            Result::Err(e) => Result::Err(e),
            Result::Ok((v, c)) => Result::Ok((RespFrame::SimpleString(v), c)),
        }
    } else if m == 45 {
        match decode_error_at(buf, start) {
            Result::Err(e) => Result::Err(e),
            Result::Ok((v, c)) => Result::Ok((RespFrame::Error(v), c)),
        }
    } else if m == 58 {
        match decode_int_at(buf, start) {
            Result::Err(e) => Result::Err(e),
            Result::Ok((v, c)) => Result::Ok((RespFrame::Integer(v), c)),
        }
    } else if m == 36 {
        match decode_bulk_at(buf, start) {
            Result::Err(e) => Result::Err(e),
            Result::Ok((v, c)) => Result::Ok((RespFrame::BulkString(v), c)),
        }
    } else if m == 95 {
        match decode_null_at(buf, start) {
            Result::Err(e) => Result::Err(e),
            Result::Ok((v, c)) => Result::Ok((RespFrame::Null(v), c)),
        }
    } else if m == 42 {
        match decode_arr_at(buf, start) {
            Result::Err(e) => Result::Err(e),
            Result::Ok((v, c)) => Result::Ok((RespFrame::Array(v), c)),
        }
    } else if m == 35 {
        match decode_bool_at(buf, start) {
            Result::Err(e) => Result::Err(e),
            Result::Ok((v, c)) => Result::Ok((RespFrame::Boolean(v), c)),
        }
    } else if m == 44 {
        match decode_double_at(buf, start) {
            Result::Err(e) => Result::Err(e),
            Result::Ok((v, c)) => Result::Ok((RespFrame::Double(v), c)),
        }
    } else if m == 37 {
        match decode_map_at(buf, start) {
            Result::Err(e) => Result::Err(e),
            Result::Ok((v, c)) => Result::Ok((RespFrame::MapFrame(v), c)),
        }
    } else if m == 126 {
        match decode_set_at(buf, start) {
            Result::Err(e) => Result::Err(e),
            Result::Ok((v, c)) => Result::Ok((RespFrame::SetFrame(v), c)),
        }
    } else {
        Result::Err(DecodeErr::InvalidFrameType)
    }
}

} // verus!
