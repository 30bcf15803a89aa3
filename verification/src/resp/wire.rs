//! Mathematical model of the RESP wire format.
//!
//! `FrameV` is the spec-level value of a frame; `enc` says exactly which
//! bytes a frame serialises to, and `dec` says exactly what decoding a byte
//! sequence yields.  The executable codec is proved against these functions.
#![allow(unused_imports)]

use vstd::prelude::*;

use crate::resp::frame::DecodeErr;
use crate::resp::order::{sorted_frames, sorted_insert_frame, sorted_insert_pair, sorted_pairs};

verus! {

/// Spec-level value of a RESP frame.
///
/// `BulkString(None)` and `Array(None)` are the legacy null sentinels,
/// distinct from the `Null` kind.  `Double` holds the textual payload of the
/// double (sign, digits, optional fraction and exponent); the wire format
/// never needs its numeric value.  `Map` and `Set` hold their entries in
/// canonical frame order (see `wf`).
pub enum FrameV {
    SimpleString(Seq<u8>),
    Error(Seq<u8>),
    Integer(int),
    BulkString(Option<Seq<u8>>),
    Null,
    Array(Option<Seq<FrameV>>),
    Boolean(bool),
    Double(Seq<u8>),
    MapFrame(Seq<(FrameV, FrameV)>),
    SetFrame(Seq<FrameV>),
}

/// The two-byte line terminator.
pub open spec fn crlf() -> Seq<u8> {
    seq![13u8, 10u8]
}

/// Decimal digits of `n`, most significant first.
pub open spec fn spec_digits(n: nat) -> Seq<u8>
    decreases n,
{
    if n < 10 {
        seq![(48 + n) as u8]
    } else {
        spec_digits(n / 10).push((48 + n % 10) as u8)
    }
}

/// Payload of an encoded integer: `+` and digits when positive, bare `0`
/// when zero, `-` and digits when negative.
pub open spec fn spec_int_payload(v: int) -> Seq<u8> {
    if v > 0 {
        seq![43u8] + spec_digits(v as nat)
    } else if v == 0 {
        seq![48u8]
    } else {
        seq![45u8] + spec_digits((-v) as nat)
    }
}

/// The exact bytes that a frame serialises to.
pub open spec fn enc(f: FrameV) -> Seq<u8>
    decreases f, 0int,
{
    match f {
        FrameV::SimpleString(p) => seq![43u8] + p + crlf(),
        FrameV::Error(p) => seq![45u8] + p + crlf(),
        FrameV::Integer(v) => seq![58u8] + spec_int_payload(v) + crlf(),
        FrameV::BulkString(None) => seq![36u8, 45u8, 49u8, 13u8, 10u8],
        FrameV::BulkString(Some(b)) => seq![36u8] + spec_digits(b.len()) + crlf() + b + crlf(),
        FrameV::Null => seq![95u8, 13u8, 10u8],
        FrameV::Array(None) => seq![42u8, 45u8, 49u8, 13u8, 10u8],
        FrameV::Array(Some(es)) => seq![42u8] + spec_digits(es.len()) + crlf() + enc_elems(es),
        FrameV::Boolean(b) => seq![35u8, if b { 116u8 } else { 102u8 }, 13u8, 10u8],
        FrameV::Double(p) => seq![44u8] + p + crlf(),
        FrameV::MapFrame(entries) => seq![37u8] + spec_digits(entries.len()) + crlf() + enc_pairs(entries),
        FrameV::SetFrame(es) => seq![126u8] + spec_digits(es.len()) + crlf() + enc_elems(es),
    }
}

/// Concatenation of the encodings of a sequence of frames.
pub open spec fn enc_elems(es: Seq<FrameV>) -> Seq<u8>
    decreases es, 1int,
{
    if es.len() == 0 {
        Seq::empty()
    } else {
        enc(es[0]) + enc_elems(es.drop_first())
    }
}

/// Concatenation of the encodings of a sequence of key-value pairs.
pub open spec fn enc_pairs(entries: Seq<(FrameV, FrameV)>) -> Seq<u8>
    decreases entries, 1int,
{
    if entries.len() == 0 {
        Seq::empty()
    } else {
        enc(entries[0].0) + enc(entries[0].1) + enc_pairs(entries.drop_first())
    }
}

// ------------------------------------------------------------------
// Well-formed frames
// ------------------------------------------------------------------

/// A CRLF pair starts at position `i` of `p`.
pub open spec fn has_crlf_at(p: Seq<u8>, i: int) -> bool {
    0 <= i && i + 2 <= p.len() && p[i] == 13u8 && p[i + 1] == 10u8
}

/// No CRLF pair occurs anywhere in `p`.
pub open spec fn no_crlf(p: Seq<u8>) -> bool {
    forall|i: int| !has_crlf_at(p, i)
}

/// One transition of the double-text automaton; state -1 is the sink for
/// rejected input.  The accepted texts are an optional sign, then either at
/// least one integral digit with an optional fraction, or a fraction alone,
/// then an optional exponent with its own optional sign and at least one
/// digit.
pub open spec fn double_step(state: int, b: u8) -> int {
    let digit = 48 <= b && b <= 57;
    let sign = b == 43u8 || b == 45u8;
    let dot = b == 46u8;
    let e = b == 101u8 || b == 69u8;
    if state == 0 {
        if sign { 1 } else if digit { 2 } else if dot { 3 } else { -1 }
    } else if state == 1 {
        if digit { 2 } else if dot { 3 } else { -1 }
    } else if state == 2 {
        if digit { 2 } else if dot { 4 } else if e { 5 } else { -1 }
    } else if state == 3 {
        if digit { 6 } else { -1 }
    } else if state == 4 {
        if digit { 6 } else if e { 5 } else { -1 }
    } else if state == 5 {
        if sign { 7 } else if digit { 8 } else { -1 }
    } else if state == 6 {
        if digit { 6 } else if e { 5 } else { -1 }
    } else if state == 7 {
        if digit { 8 } else { -1 }
    } else if state == 8 {
        if digit { 8 } else { -1 }
    } else {
        -1
    }
}

/// Run the double-text automaton over `p` from position `i`.
pub open spec fn double_run(p: Seq<u8>, i: int, state: int) -> int
    decreases p.len() - i,
{
    if i < 0 || i >= p.len() {
        state
    } else {
        double_run(p, i + 1, double_step(state, p[i]))
    }
}

/// States of the automaton in which the text may end.
pub open spec fn double_accepts(state: int) -> bool {
    state == 2 || state == 4 || state == 6 || state == 8
}

/// `p` is the text of a finite double: an optionally signed decimal number
/// with optional fraction and exponent.  `nan` and `inf` are not matched.
pub open spec fn valid_double(p: Seq<u8>) -> bool {
    double_accepts(double_run(p, 0, 0))
}

/// Well-formed frames: simple strings, errors and doubles are single-line,
/// doubles carry a numeric text, and map and set entries are strictly
/// ascending in the canonical order.  The codec round-trips exactly these.
pub open spec fn wf(f: FrameV) -> bool
    decreases f, 0int,
{
    match f {
        FrameV::SimpleString(p) => no_crlf(p),
        FrameV::Error(p) => no_crlf(p),
        FrameV::Integer(v) => -0x8000_0000_0000_0000 <= v <= 0x7fff_ffff_ffff_ffff,
        FrameV::BulkString(b) => match b {
            Option::None => true,
            Option::Some(b) => b.len() <= 0x7fff_ffff_ffff_ffff,
        },
        FrameV::Null => true,
        FrameV::Array(es) => match es {
            Option::None => true,
            Option::Some(es) => es.len() <= 0x7fff_ffff_ffff_ffff && wf_all(es),
        },
        FrameV::Boolean(_) => true,
        FrameV::Double(p) => valid_double(p),
        FrameV::MapFrame(entries) => entries.len() <= 0xffff_ffff_ffff_ffff && sorted_pairs(
            entries,
        ) && wf_pairs(entries),
        FrameV::SetFrame(es) => es.len() <= 0xffff_ffff_ffff_ffff && sorted_frames(es) && wf_all(
            es,
        ),
    }
}

/// Every frame of the sequence is well formed.
pub open spec fn wf_all(es: Seq<FrameV>) -> bool
    decreases es, 1int,
{
    if es.len() == 0 {
        true
    } else {
        wf(es[0]) && wf_all(es.drop_first())
    }
}

/// Every key and value of the sequence is well formed.
pub open spec fn wf_pairs(entries: Seq<(FrameV, FrameV)>) -> bool
    decreases entries, 1int,
{
    if entries.len() == 0 {
        true
    } else {
        wf(entries[0].0) && wf(entries[0].1) && wf_pairs(entries.drop_first())
    }
}

// ------------------------------------------------------------------
// Decoding
// ------------------------------------------------------------------

/// Position of the first CRLF pair at or after `i`, if any.
pub open spec fn find_crlf_from(s: Seq<u8>, i: int) -> Option<int>
    decreases s.len() - i,
{
    if i < 0 || i + 2 > s.len() {
        Option::None
    } else if s[i] == 13u8 && s[i + 1] == 10u8 {
        Option::Some(i)
    } else {
        find_crlf_from(s, i + 1)
    }
}

/// Result of taking the first line of a buffer.
pub enum SpecLine {
    /// The line up to but not including the CRLF, and the bytes consumed
    /// including the CRLF.
    Done(Seq<u8>, int),
    Fail(DecodeErr),
}

/// The first CRLF-terminated line of `s`.  With no CRLF the frame is not
/// complete yet; a line of fewer than three bytes in total cannot hold a
/// frame.
pub open spec fn spec_line(s: Seq<u8>) -> SpecLine {
    match find_crlf_from(s, 0) {
        Option::None => SpecLine::Fail(DecodeErr::InComplete),
        Option::Some(k) => if k == 0 {
            SpecLine::Fail(DecodeErr::InvalidFrame)
        } else {
            SpecLine::Done(s.take(k), k + 2)
        },
    }
}

/// `b` is a decimal digit.
pub open spec fn is_digit(b: u8) -> bool {
    48 <= b && b <= 57
}

/// Every byte of `s` is a decimal digit.
pub open spec fn all_digits(s: Seq<u8>) -> bool {
    forall|i: int| 0 <= i < s.len() ==> is_digit(#[trigger] s[i])
}

/// Numeric value of a digit string, most significant digit first.
pub open spec fn digits_val(s: Seq<u8>) -> int
    decreases s.len(),
{
    if s.len() == 0 {
        0
    } else {
        digits_val(s.drop_last()) * 10 + (s.last() - 48)
    }
}

/// Parse an optionally signed decimal integer that fits an `i64`, as the
/// standard library's integer parser accepts it: an optional `+` or `-`,
/// then at least one digit.
pub open spec fn parse_signed(p: Seq<u8>) -> Option<int> {
    let neg = p.len() > 0 && p[0] == 45u8;
    let ds = if p.len() > 0 && (p[0] == 43u8 || p[0] == 45u8) {
        p.drop_first()
    } else {
        p
    };
    if ds.len() >= 1 && all_digits(ds) {
        let v = if neg {
            -digits_val(ds)
        } else {
            digits_val(ds)
        };
        if -0x8000_0000_0000_0000 <= v && v <= 0x7fff_ffff_ffff_ffff {
            Option::Some(v)
        } else {
            Option::None
        }
    } else {
        Option::None
    }
}

/// Parse an unsigned decimal length that fits a `u64`: an optional `+`,
/// then at least one digit.
pub open spec fn parse_unsigned(p: Seq<u8>) -> Option<int> {
    let ds = if p.len() > 0 && p[0] == 43u8 {
        p.drop_first()
    } else {
        p
    };
    if ds.len() >= 1 && all_digits(ds) && 0 <= digits_val(ds) && digits_val(ds)
        <= 0xffff_ffff_ffff_ffff {
        Option::Some(digits_val(ds))
    } else {
        Option::None
    }
}

/// Result of decoding one frame: the frame and the bytes consumed, or the
/// failure.
pub enum SpecDec {
    Done(FrameV, int),
    Fail(DecodeErr),
}

/// Result of decoding a counted run of frames.
pub enum SpecList {
    Done(Seq<FrameV>, int),
    Fail(DecodeErr),
}

/// The suffix of `s` after `c` consumed bytes, total in `c`.
pub open spec fn rest_of(s: Seq<u8>, c: int) -> Seq<u8> {
    if c < 0 {
        s
    } else if c <= s.len() {
        s.skip(c)
    } else {
        Seq::empty()
    }
}

/// Decode a simple string: the line after the marker byte, verbatim.
pub open spec fn dec_simple(s: Seq<u8>) -> SpecDec {
    match spec_line(s) {
        SpecLine::Fail(e) => SpecDec::Fail(e),
        SpecLine::Done(line, c) => SpecDec::Done(FrameV::SimpleString(line.drop_first()), c),
    }
}

/// Decode a simple error: the line after the marker byte, verbatim.
pub open spec fn dec_error(s: Seq<u8>) -> SpecDec {
    match spec_line(s) {
        SpecLine::Fail(e) => SpecDec::Fail(e),
        SpecLine::Done(line, c) => SpecDec::Done(FrameV::Error(line.drop_first()), c),
    }
}

/// Decode an integer: the line's payload parsed as a signed decimal.
pub open spec fn dec_int(s: Seq<u8>) -> SpecDec {
    match spec_line(s) {
        SpecLine::Fail(e) => SpecDec::Fail(e),
        SpecLine::Done(line, c) => match parse_signed(line.drop_first()) {
            Option::None => SpecDec::Fail(DecodeErr::ParseIntError),
            Option::Some(v) => SpecDec::Done(FrameV::Integer(v), c),
        },
    }
}

/// Decode a boolean: true exactly when the payload is the single byte `t`.
pub open spec fn dec_bool(s: Seq<u8>) -> SpecDec {
    match spec_line(s) {
        SpecLine::Fail(e) => SpecDec::Fail(e),
        SpecLine::Done(line, c) => SpecDec::Done(
            FrameV::Boolean(line.drop_first() == seq![116u8]),
            c,
        ),
    }
}

/// Decode the null frame: the line must be the bare marker.
pub open spec fn dec_null(s: Seq<u8>) -> SpecDec {
    match spec_line(s) {
        SpecLine::Fail(e) => SpecDec::Fail(e),
        SpecLine::Done(line, c) => if line.len() == 1 {
            SpecDec::Done(FrameV::Null, c)
        } else {
            SpecDec::Fail(DecodeErr::InvalidFrame)
        },
    }
}

/// Decode a double: the payload must be a finite numeric text, kept
/// verbatim.
pub open spec fn dec_double(s: Seq<u8>) -> SpecDec {
    match spec_line(s) {
        SpecLine::Fail(e) => SpecDec::Fail(e),
        SpecLine::Done(line, c) => if valid_double(line.drop_first()) {
            SpecDec::Done(FrameV::Double(line.drop_first()), c)
        } else {
            SpecDec::Fail(DecodeErr::ParseFloatError)
        },
    }
}

/// Decode a bulk string.  A length of -1 is the null bulk string; otherwise
/// the advertised count of body bytes must be followed by a CRLF.
pub open spec fn dec_bulk(s: Seq<u8>) -> SpecDec {
    match spec_line(s) {
        SpecLine::Fail(e) => SpecDec::Fail(e),
        SpecLine::Done(line, c) => match parse_signed(line.drop_first()) {
            Option::None => SpecDec::Fail(DecodeErr::ParseIntError),
            Option::Some(v) => if v == -1 {
                SpecDec::Done(FrameV::BulkString(Option::None), c)
            } else if v < 0 {
                SpecDec::Fail(DecodeErr::ParseIntError)
            } else {
                let rest = rest_of(s, c);
                if rest.len() < v + 2 {
                    SpecDec::Fail(DecodeErr::InComplete)
                } else if rest[v] == 13u8 && rest[v + 1] == 10u8 {
                    SpecDec::Done(FrameV::BulkString(Option::Some(rest.take(v))), c + v + 2)
                } else {
                    SpecDec::Fail(DecodeErr::InvalidLength)
                }
            },
        },
    }
}

/// Decode an array.  A length of -1 is the null array; otherwise the count
/// of element frames follows the header line.
pub open spec fn dec_arr(s: Seq<u8>) -> SpecDec
    decreases s.len(), 1int, 0int,
{
    match spec_line(s) {
        SpecLine::Fail(e) => SpecDec::Fail(e),
        SpecLine::Done(line, c) => match parse_signed(line.drop_first()) {
            Option::None => SpecDec::Fail(DecodeErr::ParseIntError),
            Option::Some(v) => if v == -1 {
                SpecDec::Done(FrameV::Array(Option::None), c)
            } else if v < 0 {
                SpecDec::Fail(DecodeErr::ParseIntError)
            } else {
                match dec_list(rest_of(s, line.len() + 2int), v) {
                    SpecList::Fail(e) => SpecDec::Fail(e),
                    SpecList::Done(es, m) => SpecDec::Done(FrameV::Array(Option::Some(es)), c + m),
                }
            },
        },
    }
}

/// Decode a map: `2n` frames after the header, paired up as keys and
/// values and inserted in wire order into a canonically ordered map, a
/// later duplicate key replacing the earlier entry.
pub open spec fn dec_map(s: Seq<u8>) -> SpecDec
    decreases s.len(), 1int, 0int,
{
    match spec_line(s) {
        SpecLine::Fail(e) => SpecDec::Fail(e),
        SpecLine::Done(line, c) => match parse_unsigned(line.drop_first()) {
            Option::None => SpecDec::Fail(DecodeErr::ParseIntError),
            Option::Some(n) => match dec_list(rest_of(s, line.len() + 2int), 2 * n) {
                SpecList::Fail(e) => SpecDec::Fail(e),
                SpecList::Done(flat, m) => SpecDec::Done(FrameV::MapFrame(build_map(flat)), c + m),
            },
        },
    }
}

/// Decode a set: `n` frames after the header, inserted in wire order into a
/// canonically ordered set, duplicates collapsing.
pub open spec fn dec_set(s: Seq<u8>) -> SpecDec
    decreases s.len(), 1int, 0int,
{
    match spec_line(s) {
        SpecLine::Fail(e) => SpecDec::Fail(e),
        SpecLine::Done(line, c) => match parse_unsigned(line.drop_first()) {
            Option::None => SpecDec::Fail(DecodeErr::ParseIntError),
            Option::Some(n) => match dec_list(rest_of(s, line.len() + 2int), n) {
                SpecList::Fail(e) => SpecDec::Fail(e),
                SpecList::Done(es, m) => SpecDec::Done(FrameV::SetFrame(build_set(es)), c + m),
            },
        },
    }
}

/// Decode `n` consecutive frames, threading the consumed-byte counter.
pub open spec fn dec_list(s: Seq<u8>, n: int) -> SpecList
    decreases s.len(), 3int, n,
{
    if n <= 0 {
        SpecList::Done(Seq::empty(), 0)
    } else {
        match dec(s) {
            SpecDec::Fail(e) => SpecList::Fail(e),
            SpecDec::Done(f, c) => match dec_list(rest_of(s, c), n - 1) {
                SpecList::Fail(e) => SpecList::Fail(e),
                SpecList::Done(es, m) => SpecList::Done(seq![f] + es, c + m),
            },
        }
    }
}

/// Decode one frame from the head of `s`, dispatching on the marker byte.
pub open spec fn dec(s: Seq<u8>) -> SpecDec
    decreases s.len(), 2int, 0int,
{
    if s.len() == 0 {
        SpecDec::Fail(DecodeErr::InComplete)
    } else if s[0] == 43u8 {
        dec_simple(s)
    } else if s[0] == 45u8 {
        dec_error(s)
    } else if s[0] == 58u8 {
        dec_int(s)
    } else if s[0] == 36u8 {
        dec_bulk(s)
    } else if s[0] == 95u8 {
        dec_null(s)
    } else if s[0] == 42u8 {
        dec_arr(s)
    } else if s[0] == 35u8 {
        dec_bool(s)
    } else if s[0] == 44u8 {
        dec_double(s)
    } else if s[0] == 37u8 {
        dec_map(s)
    } else if s[0] == 126u8 {
        dec_set(s)
    } else {
        SpecDec::Fail(DecodeErr::InvalidFrameType)
    }
}

/// The canonical map built by inserting `2n` wire-order frames as pairs,
/// the later of two equal keys winning.
pub open spec fn build_map(flat: Seq<FrameV>) -> Seq<(FrameV, FrameV)>
    decreases flat.len(),
{
    if flat.len() < 2 {
        Seq::empty()
    } else {
        sorted_insert_pair(
            build_map(flat.take(flat.len() - 2)),
            flat[flat.len() - 2],
            flat[flat.len() - 1],
        )
    }
}

/// The canonical set built by inserting wire-order frames one by one.
pub open spec fn build_set(es: Seq<FrameV>) -> Seq<FrameV>
    decreases es.len(),
{
    if es.len() == 0 {
        Seq::empty()
    } else {
        sorted_insert_frame(build_set(es.drop_last()), es.last())
    }
}

// ------------------------------------------------------------------
// Small facts used throughout the codec proofs
// ------------------------------------------------------------------

/// A whole sequence of frames is well formed exactly when each one is.
pub proof fn lemma_wf_all_iff(es: Seq<FrameV>)
    ensures
        wf_all(es) <==> (forall|i: int| 0 <= i < es.len() ==> wf(#[trigger] es[i])),
    decreases es.len(),
{
    if es.len() > 0 {
        lemma_wf_all_iff(es.drop_first());
        assert(es[0] == es[0int]);
        if wf(es[0]) && wf_all(es.drop_first()) {
            assert forall|i: int| 0 <= i < es.len() implies wf(#[trigger] es[i]) by {
                if i > 0 {
                    assert(es[i] == es.drop_first()[i - 1]);
                }
            }
        }
        if forall|i: int| 0 <= i < es.len() ==> wf(#[trigger] es[i]) {
            assert forall|i: int| 0 <= i < es.drop_first().len() implies wf(
                #[trigger] es.drop_first()[i],
            ) by {
                assert(es.drop_first()[i] == es[i + 1]);
            }
        }
    }
}

/// A whole sequence of pairs is well formed exactly when each side of each
/// pair is.
pub proof fn lemma_wf_pairs_iff(entries: Seq<(FrameV, FrameV)>)
    ensures
        wf_pairs(entries) <==> (forall|i: int|
            0 <= i < entries.len() ==> wf((#[trigger] entries[i]).0) && wf(entries[i].1)),
    decreases entries.len(),
{
    if entries.len() > 0 {
        lemma_wf_pairs_iff(entries.drop_first());
        assert(entries[0] == entries[0int]);
        if wf(entries[0].0) && wf(entries[0].1) && wf_pairs(entries.drop_first()) {
            assert forall|i: int| 0 <= i < entries.len() implies wf((#[trigger] entries[i]).0)
                && wf(entries[i].1) by {
                if i > 0 {
                    assert(entries[i] == entries.drop_first()[i - 1]);
                }
            }
        }
        if forall|i: int|
            0 <= i < entries.len() ==> wf((#[trigger] entries[i]).0) && wf(entries[i].1) {
            assert forall|i: int| 0 <= i < entries.drop_first().len() implies wf(
                (#[trigger] entries.drop_first()[i]).0,
            ) && wf(entries.drop_first()[i].1) by {
                assert(entries.drop_first()[i] == entries[i + 1]);
            }
        }
    }
}

/// Skipping twice skips the sum.
pub proof fn lemma_skip_skip(s: Seq<u8>, a: int, b: int)
    requires
        0 <= a,
        0 <= b,
        a + b <= s.len(),
    ensures
        s.skip(a).skip(b) == s.skip(a + b),
{
    assert(s.skip(a).skip(b) =~= s.skip(a + b));
}

/// What the CRLF scan returns: the position of the first pair at or after
/// `i`, or the absence of any.
pub proof fn lemma_find_crlf_char(s: Seq<u8>, i: int)
    requires
        0 <= i,
    ensures
        match find_crlf_from(s, i) {
            Option::Some(k) => {
                &&& i <= k
                &&& k + 2 <= s.len()
                &&& s[k] == 13u8
                &&& s[k + 1] == 10u8
                &&& forall|j: int| i <= j < k ==> !((#[trigger] s[j]) == 13u8 && s[j + 1] == 10u8)
            },
            Option::None => forall|j: int|
                i <= j && j + 2 <= s.len() ==> !((#[trigger] s[j]) == 13u8 && s[j + 1] == 10u8),
        },
    decreases s.len() - i,
{
    if i + 2 > s.len() {
    } else if s[i] == 13u8 && s[i + 1] == 10u8 {
    } else {
        lemma_find_crlf_char(s, i + 1);
    }
}

} // verus!
