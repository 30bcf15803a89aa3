//! The encoder/decoder duality: decoding an encoding yields the original
//! frame, trailing bytes are left alone, and a strict prefix of an encoding
//! is reported as incomplete.
#![allow(unused_imports)]

use vstd::prelude::*;

use crate::resp::frame::DecodeErr;
use crate::resp::num::lemma_spec_digits;
use crate::resp::order::{
    cmp_frame, lemma_cmp_frame_basic, lemma_sif_append, lemma_sip_append, sorted_frames,
    sorted_insert_frame, sorted_insert_pair, sorted_pairs,
};
use crate::resp::wire::{
    all_digits, build_map, build_set, crlf, dec, dec_arr, dec_bool, dec_bulk, dec_double,
    dec_error, dec_int, dec_list, dec_map, dec_null, dec_set, dec_simple, digits_val, double_run,
    double_step, enc, enc_elems, enc_pairs, find_crlf_from, has_crlf_at, is_digit,
    lemma_find_crlf_char, no_crlf, parse_signed, parse_unsigned, rest_of, spec_digits,
    spec_int_payload, spec_line, valid_double, wf, wf_all, wf_pairs, FrameV, SpecDec, SpecLine,
    SpecList,
};

verus! {

/// The CRLF scan finds the pair at `k` when no pair comes before it.
proof fn lemma_find_crlf_exact_from(s: Seq<u8>, i: int, k: int)
    requires
        0 <= i <= k,
        k + 2 <= s.len(),
        s[k] == 13u8,
        s[k + 1] == 10u8,
        forall|j: int| i <= j < k ==> !((#[trigger] s[j]) == 13u8 && s[j + 1] == 10u8),
    ensures
        find_crlf_from(s, i) == Option::Some(k),
    decreases k - i,
{
    if i < k {
        lemma_find_crlf_exact_from(s, i + 1, k);
    }
}

/// The CRLF scan finds nothing when no pair exists.
proof fn lemma_find_crlf_none(s: Seq<u8>)
    requires
        forall|j: int| 0 <= j ==> j + 2 <= s.len() ==> !((#[trigger] s[j]) == 13u8 && s[j + 1]
            == 10u8),
    ensures
        find_crlf_from(s, 0) is None,
{
    lemma_find_crlf_char(s, 0);
    if find_crlf_from(s, 0) is Some {
        let k = find_crlf_from(s, 0)->0;
        assert(!(s[k] == 13u8 && s[k + 1] == 10u8));
    }
}

/// The first line of a header, its CRLF, and anything after is exactly the
/// header.
proof fn lemma_spec_line_exact(hdr: Seq<u8>, rest: Seq<u8>)
    requires
        hdr.len() >= 1,
        no_crlf(hdr),
    ensures
        spec_line(hdr + crlf() + rest) == SpecLine::Done(hdr, hdr.len() + 2int),
{
    let s = hdr + crlf() + rest;
    let k = hdr.len() as int;
    assert(s[k] == 13u8);
    assert(s[k + 1] == 10u8);
    assert forall|j: int| 0 <= j < k implies !((#[trigger] s[j]) == 13u8 && s[j + 1] == 10u8) by {
        if s[j] == 13u8 && s[j + 1] == 10u8 {
            if j + 1 < k {
                assert(hdr[j] == s[j]);
                assert(hdr[j + 1] == s[j + 1]);
                assert(has_crlf_at(hdr, j));
            } else {
                assert(s[j + 1] == 13u8);
            }
        }
    }
    lemma_find_crlf_exact_from(s, 0, k);
    assert(s.take(k) =~= hdr);
}

/// A strict prefix of a header line holds no CRLF pair, so its first line
/// is not complete.
proof fn lemma_spec_line_prefix(hdr: Seq<u8>, l: int)
    requires
        hdr.len() >= 1,
        no_crlf(hdr),
        0 <= l < hdr.len() + 2,
    ensures
        spec_line((hdr + crlf()).take(l)) == SpecLine::Fail(DecodeErr::InComplete),
{
    let p = (hdr + crlf()).take(l);
    assert forall|j: int| 0 <= j && j + 2 <= p.len() implies !((#[trigger] p[j]) == 13u8 && p[j
        + 1] == 10u8) by {
        if p[j] == 13u8 && p[j + 1] == 10u8 {
            if j + 1 < hdr.len() {
                assert(hdr[j] == p[j]);
                assert(hdr[j + 1] == p[j + 1]);
                assert(has_crlf_at(hdr, j));
            } else {
                assert(j + 2 <= l <= hdr.len() + 1);
                assert(j + 1 == hdr.len());
                assert(p[j] == hdr[j]);
                assert(p[j + 1] == (hdr + crlf())[hdr.len() as int]);
                assert(p[j + 1] == 13u8);
            }
        }
    }
    lemma_find_crlf_none(p);
}

/// Digit strings hold no carriage return.
proof fn lemma_digits_no_cr(n: nat)
    ensures
        no_crlf(spec_digits(n)),
        forall|i: int|
            0 <= i < spec_digits(n).len() ==> (#[trigger] spec_digits(n)[i]) != 13u8 && spec_digits(
                n,
            )[i] != 10u8,
{
    lemma_spec_digits(n);
    assert forall|i: int|
        0 <= i < spec_digits(n).len() implies (#[trigger] spec_digits(n)[i]) != 13u8 && spec_digits(
        n,
    )[i] != 10u8 by {
        assert(is_digit(spec_digits(n)[i]));
    }
    assert forall|i: int| !has_crlf_at(spec_digits(n), i) by {
        if 0 <= i && i + 2 <= spec_digits(n).len() {
            assert(is_digit(spec_digits(n)[i]));
        }
    }
}

/// The integer payload parses back to the integer it was formatted from.
proof fn lemma_parse_int_payload(v: int)
    requires
        -0x8000_0000_0000_0000 <= v <= 0x7fff_ffff_ffff_ffff,
    ensures
        parse_signed(spec_int_payload(v)) == Option::Some(v),
        spec_int_payload(v).len() >= 1,
        no_crlf(spec_int_payload(v)),
        forall|i: int|
            0 <= i < spec_int_payload(v).len() ==> (#[trigger] spec_int_payload(v)[i]) != 13u8,
{
    let p = spec_int_payload(v);
    if v > 0 {
        lemma_spec_digits(v as nat);
        lemma_digits_no_cr(v as nat);
        assert(p.drop_first() =~= spec_digits(v as nat));
        assert forall|i: int| !has_crlf_at(p, i) by {
            if 0 <= i && i + 2 <= p.len() {
                if i >= 1 {
                    assert(p[i] == spec_digits(v as nat)[i - 1]);
                    assert(is_digit(p[i]));
                }
            }
        }
        assert forall|i: int| 0 <= i < p.len() implies (#[trigger] p[i]) != 13u8 by {
            if i >= 1 {
                assert(p[i] == spec_digits(v as nat)[i - 1]);
                assert(is_digit(p[i]));
            }
        }
    } else if v == 0 {
        assert(p =~= seq![48u8]);
        assert(p.len() > 0 && !(p[0] == 43u8 || p[0] == 45u8));
        assert(all_digits(p)) by {
            assert(forall|i: int| 0 <= i < p.len() ==> is_digit(#[trigger] p[i]));
        }
        assert(p.drop_last() =~= Seq::<u8>::empty());
        assert(digits_val(p) == digits_val(p.drop_last()) * 10 + (p.last() - 48));
        assert forall|i: int| !has_crlf_at(p, i) by {}
    } else {
        lemma_spec_digits((-v) as nat);
        lemma_digits_no_cr((-v) as nat);
        assert(p.drop_first() =~= spec_digits((-v) as nat));
        assert forall|i: int| !has_crlf_at(p, i) by {
            if 0 <= i && i + 2 <= p.len() {
                if i >= 1 {
                    assert(p[i] == spec_digits((-v) as nat)[i - 1]);
                    assert(is_digit(p[i]));
                }
            }
        }
        assert forall|i: int| 0 <= i < p.len() implies (#[trigger] p[i]) != 13u8 by {
            if i >= 1 {
                assert(p[i] == spec_digits((-v) as nat)[i - 1]);
                assert(is_digit(p[i]));
            }
        }
    }
}

/// A bare digit string parses as the signed and the unsigned length.
proof fn lemma_parse_len(n: nat)
    ensures
        n <= 0x7fff_ffff_ffff_ffff ==> parse_signed(spec_digits(n)) == Option::Some(n as int),
        n <= 0xffff_ffff_ffff_ffff ==> parse_unsigned(spec_digits(n)) == Option::Some(n as int),
{
    lemma_spec_digits(n);
    let p = spec_digits(n);
    assert(is_digit(p[0]));
    assert(!(p[0] == 43u8 || p[0] == 45u8));
}

/// The rejected state of the double automaton is absorbing.
proof fn lemma_double_run_sink(p: Seq<u8>, i: int)
    ensures
        double_run(p, i, -1) == -1,
    decreases p.len() - i,
{
    if 0 <= i && i < p.len() {
        assert(double_step(-1, p[i]) == -1);
        lemma_double_run_sink(p, i + 1);
    }
}

/// A carriage return or line feed anywhere rejects the double text.
proof fn lemma_double_run_cr(p: Seq<u8>, i: int, state: int, j: int)
    requires
        0 <= i <= j < p.len(),
        p[j] == 13u8 || p[j] == 10u8,
    ensures
        double_run(p, i, state) == -1,
    decreases j - i,
{
    if i == j {
        assert(double_step(state, p[i]) == -1);
        lemma_double_run_sink(p, i + 1);
    } else {
        lemma_double_run_cr(p, i + 1, double_step(state, p[i]), j);
    }
}

/// The text of a double holds no carriage return or line feed.
proof fn lemma_double_no_cr(p: Seq<u8>)
    requires
        valid_double(p),
    ensures
        no_crlf(p),
        forall|i: int| 0 <= i < p.len() ==> (#[trigger] p[i]) != 13u8,
{
    assert forall|i: int| 0 <= i < p.len() implies (#[trigger] p[i]) != 13u8 by {
        if p[i] == 13u8 {
            lemma_double_run_cr(p, 0, 0, i);
        }
    }
    assert forall|i: int| !has_crlf_at(p, i) by {
        if 0 <= i && i + 2 <= p.len() && p[i] == 13u8 {
            lemma_double_run_cr(p, 0, 0, i);
        }
    }
}

/// Every encoding is at least three bytes.
proof fn lemma_enc_min(f: FrameV)
    ensures
        enc(f).len() >= 3,
{
    match f {
        FrameV::Integer(v) => {
            if v > 0 {
                lemma_spec_digits(v as nat);
            } else if v < 0 {
                lemma_spec_digits((-v) as nat);
            }
        },
        FrameV::BulkString(b) => {
            if b is Some {
                lemma_spec_digits(b->0.len());
            }
        },
        FrameV::Array(es) => {
            if es is Some {
                lemma_spec_digits(es->0.len());
            }
        },
        FrameV::MapFrame(entries) => {
            lemma_spec_digits(entries.len());
        },
        FrameV::SetFrame(es) => {
            lemma_spec_digits(es.len());
        },
        _ => {},
    }
}

/// A strictly ascending sequence rebuilt by insertion is itself.
proof fn lemma_build_set_id(es: Seq<FrameV>)
    requires
        sorted_frames(es),
    ensures
        build_set(es) == es,
    decreases es.len(),
{
    if es.len() > 0 {
        let d = es.drop_last();
        assert(sorted_frames(d)) by {
            assert(forall|i: int, j: int|
                0 <= i < j < d.len() ==> #[trigger] d[i] == es[i] && #[trigger] d[j] == es[j]);
        }
        lemma_build_set_id(d);
        assert forall|i: int| 0 <= i < d.len() implies cmp_frame(#[trigger] d[i], es.last())
            == -1 by {
            assert(d[i] == es[i]);
            assert(cmp_frame(es[i], es[es.len() - 1]) == -1);
        }
        lemma_sif_append(d, es.last());
        assert(d.push(es.last()) =~= es);
    }
}

/// The flattened key-value frames of a pair sequence, in wire order.
pub open spec fn flat_pairs(entries: Seq<(FrameV, FrameV)>) -> Seq<FrameV>
    decreases entries.len(),
{
    if entries.len() == 0 {
        Seq::empty()
    } else {
        seq![entries[0].0, entries[0].1] + flat_pairs(entries.drop_first())
    }
}

/// Flattening commutes with dropping the last pair.
proof fn lemma_flat_pairs_snoc(entries: Seq<(FrameV, FrameV)>)
    requires
        entries.len() >= 1,
    ensures
        flat_pairs(entries) == flat_pairs(entries.drop_last()) + seq![
            entries.last().0,
            entries.last().1,
        ],
        flat_pairs(entries).len() == 2 * entries.len(),
    decreases entries.len(),
{
    if entries.len() == 1 {
        assert(entries.drop_first() =~= Seq::<(FrameV, FrameV)>::empty());
        assert(entries.drop_last() =~= Seq::<(FrameV, FrameV)>::empty());
        assert(flat_pairs(entries) =~= flat_pairs(entries.drop_last()) + seq![
            entries.last().0,
            entries.last().1,
        ]);
    } else {
        let d = entries.drop_first();
        lemma_flat_pairs_snoc(d);
        assert(d.last() == entries.last());
        assert(d.drop_last() =~= entries.drop_last().drop_first());
        assert(entries.drop_last()[0] == entries[0]);
        assert(flat_pairs(entries.drop_last()) == seq![entries[0].0, entries[0].1] + flat_pairs(
            entries.drop_last().drop_first(),
        ));
        assert(flat_pairs(entries) =~= flat_pairs(entries.drop_last()) + seq![
            entries.last().0,
            entries.last().1,
        ]);
    }
}

/// A pair sequence strictly ascending by key rebuilt from its flattening is
/// itself.
proof fn lemma_build_map_id(entries: Seq<(FrameV, FrameV)>)
    requires
        sorted_pairs(entries),
    ensures
        build_map(flat_pairs(entries)) == entries,
        flat_pairs(entries).len() == 2 * entries.len(),
    decreases entries.len(),
{
    if entries.len() == 0 {
    } else {
        lemma_flat_pairs_snoc(entries);
        let d = entries.drop_last();
        assert(sorted_pairs(d)) by {
            assert(forall|i: int, j: int|
                0 <= i < j < d.len() ==> #[trigger] d[i] == entries[i] && #[trigger] d[j]
                    == entries[j]);
        }
        lemma_build_map_id(d);
        let g = flat_pairs(entries);
        assert(g.take(g.len() - 2) =~= flat_pairs(d));
        assert(g[g.len() - 2] == entries.last().0);
        assert(g[g.len() - 1] == entries.last().1);
        assert forall|i: int| 0 <= i < d.len() implies cmp_frame(
            (#[trigger] d[i]).0,
            entries.last().0,
        ) == -1 by {
            assert(d[i] == entries[i]);
            assert(cmp_frame(entries[i].0, entries[entries.len() - 1].0) == -1);
        }
        lemma_sip_append(d, entries.last().0, entries.last().1);
        assert(d.push(entries.last()) =~= entries);
    }
}

/// Decoding exactly the encoding of a well-formed frame yields that frame
/// and consumes the whole buffer.
pub proof fn lemma_round_trip(f: FrameV)
    requires
        wf(f),
    ensures
        dec(enc(f)) == SpecDec::Done(f, enc(f).len() as int),
{
    lemma_decode_encode(f, Seq::empty());
    assert(enc(f) + Seq::<u8>::empty() =~= enc(f));
}

/// Encoding is a pure function of the frame value: equal frames always
/// serialise to identical bytes.
pub proof fn lemma_encode_deterministic(a: FrameV, b: FrameV)
    requires
        a == b,
    ensures
        enc(a) == enc(b),
{
}

/// Map and set encodings list their entries in the canonical frame order:
/// a well-formed map or set is strictly ascending, and its encoding emits
/// the entries in exactly that stored order.
pub proof fn lemma_canonical_encoding(f: FrameV)
    requires
        wf(f),
    ensures
        f matches FrameV::MapFrame(entries) ==> sorted_pairs(entries) && enc(f) == seq![37u8]
            + spec_digits(entries.len()) + crlf() + enc_pairs(entries),
        f matches FrameV::SetFrame(es) ==> sorted_frames(es) && enc(f) == seq![126u8]
            + spec_digits(es.len()) + crlf() + enc_elems(es),
{
}

/// A marker byte other than CR in front of a CRLF-free payload keeps it
/// CRLF-free.
proof fn lemma_hdr_no_crlf(m: u8, payload: Seq<u8>)
    requires
        m != 13u8,
        no_crlf(payload),
    ensures
        no_crlf(seq![m] + payload),
{
    let hdr = seq![m] + payload;
    assert forall|i: int| !has_crlf_at(hdr, i) by {
        if 0 <= i && i + 2 <= hdr.len() && hdr[i] == 13u8 && hdr[i + 1] == 10u8 {
            assert(i >= 1);
            assert(hdr[i] == payload[i - 1]);
            assert(hdr[i + 1] == payload[i]);
            assert(has_crlf_at(payload, i - 1));
        }
    }
}

/// Decoding the encoding of a well-formed frame, with arbitrary trailing
/// bytes, yields that frame and consumes exactly the encoding.
#[verifier::rlimit(100)]
pub proof fn lemma_decode_encode(f: FrameV, g: Seq<u8>)
    requires
        wf(f),
    ensures
        dec(enc(f) + g) == SpecDec::Done(f, enc(f).len() as int),
    decreases f, 0int,
{
    let s = enc(f) + g;
    lemma_enc_min(f);
    match f {
        FrameV::SimpleString(p) => {
            let hdr = seq![43u8] + p;
            lemma_hdr_no_crlf(43u8, p);
            assert(s =~= hdr + crlf() + g);
            lemma_spec_line_exact(hdr, g);
            assert(s[0] == 43u8);
            assert(hdr.drop_first() =~= p);
        },
        FrameV::Error(p) => {
            let hdr = seq![45u8] + p;
            lemma_hdr_no_crlf(45u8, p);
            assert(s =~= hdr + crlf() + g);
            lemma_spec_line_exact(hdr, g);
            assert(s[0] == 45u8);
            assert(hdr.drop_first() =~= p);
        },
        FrameV::Integer(v) => {
            lemma_parse_int_payload(v);
            let hdr = seq![58u8] + spec_int_payload(v);
            lemma_hdr_no_crlf(58u8, spec_int_payload(v));
            assert(s =~= hdr + crlf() + g);
            lemma_spec_line_exact(hdr, g);
            assert(s[0] == 58u8);
            assert(hdr.drop_first() =~= spec_int_payload(v));
        },
        FrameV::Boolean(b) => {
            let tf: u8 = if b {
                116u8
            } else {
                102u8
            };
            let hdr = seq![35u8, tf];
            assert(no_crlf(hdr)) by {
                assert forall|i: int| !has_crlf_at(hdr, i) by {
                    if 0 <= i && i + 2 <= hdr.len() {
                        assert(hdr[0] == 35u8);
                    }
                }
            }
            assert(s =~= hdr + crlf() + g);
            lemma_spec_line_exact(hdr, g);
            assert(s[0] == 35u8);
            assert(hdr.drop_first() =~= seq![tf]);
            if b {
                assert(seq![tf] =~= seq![116u8]);
            } else {
                assert(seq![tf] != seq![116u8]) by {
                    assert(seq![tf][0] == 102u8);
                }
            }
        },
        FrameV::Null => {
            let hdr = seq![95u8];
            assert(no_crlf(hdr)) by {
                assert(forall|i: int| !has_crlf_at(hdr, i));
            }
            assert(s =~= hdr + crlf() + g);
            lemma_spec_line_exact(hdr, g);
            assert(s[0] == 95u8);
        },
        FrameV::Double(p) => {
            lemma_double_no_cr(p);
            let hdr = seq![44u8] + p;
            lemma_hdr_no_crlf(44u8, p);
            assert(s =~= hdr + crlf() + g);
            lemma_spec_line_exact(hdr, g);
            assert(s[0] == 44u8);
            assert(hdr.drop_first() =~= p);
        },
        FrameV::BulkString(ob) => {
            match ob {
                Option::None => {
                    let hdr = seq![36u8, 45u8, 49u8];
                    assert(no_crlf(hdr)) by {
                        assert forall|i: int| !has_crlf_at(hdr, i) by {
                            if 0 <= i && i + 2 <= hdr.len() {
                                assert(hdr[i] != 13u8);
                            }
                        }
                    }
                    assert(s =~= hdr + crlf() + g);
                    lemma_spec_line_exact(hdr, g);
                    assert(s[0] == 36u8);
                    let p = hdr.drop_first();
                    assert(p =~= seq![45u8, 49u8]);
                    let ds = p.drop_first();
                    assert(ds =~= seq![49u8]);
                    assert(all_digits(ds)) by {
                        assert(forall|i: int| 0 <= i < ds.len() ==> is_digit(#[trigger] ds[i]));
                    }
                    assert(ds.drop_last() =~= Seq::<u8>::empty());
                    assert(digits_val(ds) == digits_val(ds.drop_last()) * 10 + (ds.last() - 48));
                    assert(parse_signed(p) == Option::Some(-1int));
                },
                Option::Some(b) => {
                    let ds = spec_digits(b.len());
                    lemma_spec_digits(b.len());
                    lemma_digits_no_cr(b.len());
                    lemma_parse_len(b.len());
                    let hdr = seq![36u8] + ds;
                    lemma_hdr_no_crlf(36u8, ds);
                    assert(s =~= hdr + crlf() + (b + crlf() + g));
                    lemma_spec_line_exact(hdr, b + crlf() + g);
                    assert(s[0] == 36u8);
                    assert(hdr.drop_first() =~= ds);
                    let c = hdr.len() + 2int;
                    assert(rest_of(s, c) =~= b + crlf() + g);
                    let rest = rest_of(s, c);
                    let v = b.len() as int;
                    assert(rest.len() >= v + 2);
                    assert(rest[v] == 13u8);
                    assert(rest[v + 1] == 10u8);
                    assert(rest.take(v) =~= b);
                    assert(enc(f).len() == c + v + 2);
                },
            }
        },
        FrameV::Array(oes) => {
            match oes {
                Option::None => {
                    let hdr = seq![42u8, 45u8, 49u8];
                    assert(no_crlf(hdr)) by {
                        assert forall|i: int| !has_crlf_at(hdr, i) by {
                            if 0 <= i && i + 2 <= hdr.len() {
                                assert(hdr[i] != 13u8);
                            }
                        }
                    }
                    assert(s =~= hdr + crlf() + g);
                    lemma_spec_line_exact(hdr, g);
                    assert(s[0] == 42u8);
                    let p = hdr.drop_first();
                    assert(p =~= seq![45u8, 49u8]);
                    let ds = p.drop_first();
                    assert(ds =~= seq![49u8]);
                    assert(all_digits(ds)) by {
                        assert(forall|i: int| 0 <= i < ds.len() ==> is_digit(#[trigger] ds[i]));
                    }
                    assert(ds.drop_last() =~= Seq::<u8>::empty());
                    assert(digits_val(ds) == digits_val(ds.drop_last()) * 10 + (ds.last() - 48));
                    assert(parse_signed(p) == Option::Some(-1int));
                },
                Option::Some(es) => {
                    let ds = spec_digits(es.len());
                    lemma_spec_digits(es.len());
                    lemma_digits_no_cr(es.len());
                    lemma_parse_len(es.len());
                    let hdr = seq![42u8] + ds;
                    lemma_hdr_no_crlf(42u8, ds);
                    assert(s =~= hdr + crlf() + (enc_elems(es) + g));
                    lemma_spec_line_exact(hdr, enc_elems(es) + g);
                    assert(s[0] == 42u8);
                    assert(hdr.drop_first() =~= ds);
                    let c = hdr.len() + 2int;
                    assert(rest_of(s, c) =~= enc_elems(es) + g);
                    lemma_dec_list_enc_elems(es, g);
                    assert(enc(f).len() == c + enc_elems(es).len());
                },
            }
        },
        FrameV::MapFrame(entries) => {
            let ds = spec_digits(entries.len());
            lemma_spec_digits(entries.len());
            lemma_digits_no_cr(entries.len());
            lemma_parse_len(entries.len());
            let hdr = seq![37u8] + ds;
            lemma_hdr_no_crlf(37u8, ds);
            assert(s =~= hdr + crlf() + (enc_pairs(entries) + g));
            lemma_spec_line_exact(hdr, enc_pairs(entries) + g);
            assert(s[0] == 37u8);
            assert(hdr.drop_first() =~= ds);
            let c = hdr.len() + 2int;
            assert(rest_of(s, c) =~= enc_pairs(entries) + g);
            lemma_dec_list_enc_pairs(entries, g);
            lemma_build_map_id(entries);
            assert(enc(f).len() == c + enc_pairs(entries).len());
        },
        FrameV::SetFrame(es) => {
            let ds = spec_digits(es.len());
            lemma_spec_digits(es.len());
            lemma_digits_no_cr(es.len());
            lemma_parse_len(es.len());
            let hdr = seq![126u8] + ds;
            lemma_hdr_no_crlf(126u8, ds);
            assert(s =~= hdr + crlf() + (enc_elems(es) + g));
            lemma_spec_line_exact(hdr, enc_elems(es) + g);
            assert(s[0] == 126u8);
            assert(hdr.drop_first() =~= ds);
            let c = hdr.len() + 2int;
            assert(rest_of(s, c) =~= enc_elems(es) + g);
            lemma_dec_list_enc_elems(es, g);
            lemma_build_set_id(es);
            assert(enc(f).len() == c + enc_elems(es).len());
        },
    }
}

/// Decoding any strict prefix of the encoding of a well-formed frame
/// reports that the frame is not complete yet.
#[verifier::rlimit(100)]
pub proof fn lemma_decode_prefix(f: FrameV, l: int)
    requires
        wf(f),
        0 <= l < enc(f).len(),
    ensures
        dec(enc(f).take(l)) == SpecDec::Fail(DecodeErr::InComplete),
    decreases f, 0int,
{
    let p = enc(f).take(l);
    lemma_enc_min(f);
    if l == 0 {
        assert(p =~= Seq::<u8>::empty());
    } else {
        assert(p[0] == enc(f)[0]);
        match f {
            FrameV::SimpleString(q) => {
                let hdr = seq![43u8] + q;
                lemma_hdr_no_crlf(43u8, q);
                assert(enc(f) =~= hdr + crlf());
                assert(p =~= (hdr + crlf()).take(l));
                lemma_spec_line_prefix(hdr, l);
            },
            FrameV::Error(q) => {
                let hdr = seq![45u8] + q;
                lemma_hdr_no_crlf(45u8, q);
                assert(enc(f) =~= hdr + crlf());
                assert(p =~= (hdr + crlf()).take(l));
                lemma_spec_line_prefix(hdr, l);
            },
            FrameV::Integer(v) => {
                lemma_parse_int_payload(v);
                let hdr = seq![58u8] + spec_int_payload(v);
                lemma_hdr_no_crlf(58u8, spec_int_payload(v));
                assert(enc(f) =~= hdr + crlf());
                assert(p =~= (hdr + crlf()).take(l));
                lemma_spec_line_prefix(hdr, l);
            },
            FrameV::Boolean(b) => {
                let tf: u8 = if b {
                    116u8
                } else {
                    102u8
                };
                let hdr = seq![35u8, tf];
                assert(no_crlf(hdr)) by {
                    assert forall|i: int| !has_crlf_at(hdr, i) by {
                        if 0 <= i && i + 2 <= hdr.len() {
                            assert(hdr[0] == 35u8);
                        }
                    }
                }
                assert(enc(f) =~= hdr + crlf());
                assert(p =~= (hdr + crlf()).take(l));
                lemma_spec_line_prefix(hdr, l);
            },
            FrameV::Null => {
                let hdr = seq![95u8];
                assert(no_crlf(hdr)) by {
                    assert(forall|i: int| !has_crlf_at(hdr, i));
                }
                assert(enc(f) =~= hdr + crlf());
                assert(p =~= (hdr + crlf()).take(l));
                lemma_spec_line_prefix(hdr, l);
            },
            FrameV::Double(q) => {
                lemma_double_no_cr(q);
                let hdr = seq![44u8] + q;
                lemma_hdr_no_crlf(44u8, q);
                assert(enc(f) =~= hdr + crlf());
                assert(p =~= (hdr + crlf()).take(l));
                lemma_spec_line_prefix(hdr, l);
            },
            FrameV::BulkString(ob) => {
                match ob {
                    Option::None => {
                        let hdr = seq![36u8, 45u8, 49u8];
                        assert(no_crlf(hdr)) by {
                            assert forall|i: int| !has_crlf_at(hdr, i) by {
                                if 0 <= i && i + 2 <= hdr.len() {
                                    assert(hdr[i] != 13u8);
                                }
                            }
                        }
                        assert(enc(f) =~= hdr + crlf());
                        assert(p =~= (hdr + crlf()).take(l));
                        lemma_spec_line_prefix(hdr, l);
                    },
                    Option::Some(b) => {
                        let ds = spec_digits(b.len());
                        lemma_spec_digits(b.len());
                        lemma_digits_no_cr(b.len());
                        lemma_parse_len(b.len());
                        let hdr = seq![36u8] + ds;
                        lemma_hdr_no_crlf(36u8, ds);
                        let c = hdr.len() + 2int;
                        if l < c {
                            assert(p =~= (hdr + crlf()).take(l));
                            lemma_spec_line_prefix(hdr, l);
                        } else {
                            let q = (b + crlf()).take(l - c);
                            assert(p =~= hdr + crlf() + q);
                            lemma_spec_line_exact(hdr, q);
                            assert(hdr.drop_first() =~= ds);
                            assert(rest_of(p, c) =~= q);
                            assert(q.len() < b.len() + 2);
                        }
                    },
                }
            },
            FrameV::Array(oes) => {
                match oes {
                    Option::None => {
                        let hdr = seq![42u8, 45u8, 49u8];
                        assert(no_crlf(hdr)) by {
                            assert forall|i: int| !has_crlf_at(hdr, i) by {
                                if 0 <= i && i + 2 <= hdr.len() {
                                    assert(hdr[i] != 13u8);
                                }
                            }
                        }
                        assert(enc(f) =~= hdr + crlf());
                        assert(p =~= (hdr + crlf()).take(l));
                        lemma_spec_line_prefix(hdr, l);
                    },
                    Option::Some(es) => {
                        let ds = spec_digits(es.len());
                        lemma_spec_digits(es.len());
                        lemma_digits_no_cr(es.len());
                        lemma_parse_len(es.len());
                        let hdr = seq![42u8] + ds;
                        lemma_hdr_no_crlf(42u8, ds);
                        let c = hdr.len() + 2int;
                        if l < c {
                            assert(p =~= (hdr + crlf()).take(l));
                            lemma_spec_line_prefix(hdr, l);
                        } else {
                            let q = enc_elems(es).take(l - c);
                            assert(p =~= hdr + crlf() + q);
                            lemma_spec_line_exact(hdr, q);
                            assert(hdr.drop_first() =~= ds);
                            assert(rest_of(p, c) =~= q);
                            lemma_dec_list_prefix(es, l - c);
                        }
                    },
                }
            },
            FrameV::MapFrame(entries) => {
                let ds = spec_digits(entries.len());
                lemma_spec_digits(entries.len());
                lemma_digits_no_cr(entries.len());
                lemma_parse_len(entries.len());
                let hdr = seq![37u8] + ds;
                lemma_hdr_no_crlf(37u8, ds);
                let c = hdr.len() + 2int;
                if l < c {
                    assert(p =~= (hdr + crlf()).take(l));
                    lemma_spec_line_prefix(hdr, l);
                } else {
                    let q = enc_pairs(entries).take(l - c);
                    assert(p =~= hdr + crlf() + q);
                    lemma_spec_line_exact(hdr, q);
                    assert(hdr.drop_first() =~= ds);
                    assert(rest_of(p, c) =~= q);
                    lemma_dec_pairs_prefix(entries, l - c);
                }
            },
            FrameV::SetFrame(es) => {
                let ds = spec_digits(es.len());
                lemma_spec_digits(es.len());
                lemma_digits_no_cr(es.len());
                lemma_parse_len(es.len());
                let hdr = seq![126u8] + ds;
                lemma_hdr_no_crlf(126u8, ds);
                let c = hdr.len() + 2int;
                if l < c {
                    assert(p =~= (hdr + crlf()).take(l));
                    lemma_spec_line_prefix(hdr, l);
                } else {
                    let q = enc_elems(es).take(l - c);
                    assert(p =~= hdr + crlf() + q);
                    lemma_spec_line_exact(hdr, q);
                    assert(hdr.drop_first() =~= ds);
                    assert(rest_of(p, c) =~= q);
                    lemma_dec_list_prefix(es, l - c);
                }
            },
        }
    }
}

/// As `lemma_decode_prefix`, for a strict prefix of a run of encodings.
proof fn lemma_dec_list_prefix(es: Seq<FrameV>, l: int)
    requires
        wf_all(es),
        0 <= l < enc_elems(es).len(),
    ensures
        dec_list(enc_elems(es).take(l), es.len() as int) == SpecList::Fail(DecodeErr::InComplete),
    decreases es, 1int,
{
    assert(es.len() >= 1);
    let e0 = enc(es[0]);
    let re = enc_elems(es.drop_first());
    let q = enc_elems(es).take(l);
    lemma_enc_min(es[0]);
    if l < e0.len() {
        assert(q =~= e0.take(l));
        lemma_decode_prefix(es[0], l);
    } else {
        let q2 = re.take(l - e0.len());
        assert(q =~= e0 + q2);
        lemma_decode_encode(es[0], q2);
        assert(dec(q) == SpecDec::Done(es[0], e0.len() as int));
        assert(rest_of(q, e0.len() as int) =~= q2);
        lemma_dec_list_prefix(es.drop_first(), l - e0.len());
    }
}

/// As `lemma_decode_prefix`, for a strict prefix of a run of pair
/// encodings.
#[verifier::rlimit(100)]
proof fn lemma_dec_pairs_prefix(entries: Seq<(FrameV, FrameV)>, l: int)
    requires
        wf_pairs(entries),
        0 <= l < enc_pairs(entries).len(),
    ensures
        dec_list(enc_pairs(entries).take(l), 2 * (entries.len() as int)) == SpecList::Fail(
            DecodeErr::InComplete,
        ),
    decreases entries, 1int,
{
    assert(entries.len() >= 1);
    let k0 = entries[0].0;
    let v0 = entries[0].1;
    let ek = enc(k0);
    let ev = enc(v0);
    let re = enc_pairs(entries.drop_first());
    let q = enc_pairs(entries).take(l);
    let n = entries.len() as int;
    lemma_enc_min(k0);
    lemma_enc_min(v0);
    if l < ek.len() {
        assert(q =~= ek.take(l));
        lemma_decode_prefix(k0, l);
    } else if l < ek.len() + ev.len() {
        let q1 = ev.take(l - ek.len());
        assert(q =~= ek + q1);
        lemma_decode_encode(k0, q1);
        assert(dec(q) == SpecDec::Done(k0, ek.len() as int));
        assert(rest_of(q, ek.len() as int) =~= q1);
        lemma_decode_prefix(v0, l - ek.len());
        assert(dec_list(q1, 2 * n - 1) == SpecList::Fail(DecodeErr::InComplete));
    } else {
        let q2 = re.take(l - ek.len() - ev.len());
        assert(q =~= ek + (ev + q2));
        lemma_decode_encode(k0, ev + q2);
        assert(dec(q) == SpecDec::Done(k0, ek.len() as int));
        assert(rest_of(q, ek.len() as int) =~= ev + q2);
        lemma_decode_encode(v0, q2);
        assert(dec(ev + q2) == SpecDec::Done(v0, ev.len() as int));
        assert(rest_of(ev + q2, ev.len() as int) =~= q2);
        lemma_dec_pairs_prefix(entries.drop_first(), l - ek.len() - ev.len());
        assert(dec_list(ev + q2, 2 * n - 1) == SpecList::Fail(DecodeErr::InComplete));
    }
}

/// Decoding the concatenated encodings of well-formed frames, with
/// arbitrary trailing bytes, yields those frames in order.
pub proof fn lemma_dec_list_enc_elems(es: Seq<FrameV>, g: Seq<u8>)
    requires
        wf_all(es),
    ensures
        dec_list(enc_elems(es) + g, es.len() as int) == SpecList::Done(
            es,
            enc_elems(es).len() as int,
        ),
    decreases es, 1int,
{
    if es.len() == 0 {
        assert(Seq::<FrameV>::empty() =~= es);
    } else {
        let e0 = enc(es[0]);
        let re = enc_elems(es.drop_first());
        let s = enc_elems(es) + g;
        assert(s =~= e0 + (re + g));
        lemma_decode_encode(es[0], re + g);
        lemma_enc_min(es[0]);
        assert(dec(s) == SpecDec::Done(es[0], e0.len() as int));
        assert(rest_of(s, e0.len() as int) =~= re + g);
        lemma_dec_list_enc_elems(es.drop_first(), g);
        assert(seq![es[0]] + es.drop_first() =~= es);
    }
}

/// Decoding the concatenated encodings of well-formed key-value pairs,
/// with arbitrary trailing bytes, yields the flattened frames in order.
pub proof fn lemma_dec_list_enc_pairs(entries: Seq<(FrameV, FrameV)>, g: Seq<u8>)
    requires
        wf_pairs(entries),
    ensures
        dec_list(enc_pairs(entries) + g, 2 * (entries.len() as int)) == SpecList::Done(
            flat_pairs(entries),
            enc_pairs(entries).len() as int,
        ),
    decreases entries, 1int,
{
    if entries.len() == 0 {
        assert(flat_pairs(entries) =~= Seq::<FrameV>::empty());
    } else {
        let k0 = entries[0].0;
        let v0 = entries[0].1;
        let ek = enc(k0);
        let ev = enc(v0);
        let re = enc_pairs(entries.drop_first());
        let s = enc_pairs(entries) + g;
        assert(s =~= ek + (ev + (re + g)));
        lemma_decode_encode(k0, ev + (re + g));
        lemma_enc_min(k0);
        assert(dec(s) == SpecDec::Done(k0, ek.len() as int));
        assert(rest_of(s, ek.len() as int) =~= ev + (re + g));
        let s1 = ev + (re + g);
        lemma_decode_encode(v0, re + g);
        lemma_enc_min(v0);
        assert(dec(s1) == SpecDec::Done(v0, ev.len() as int));
        assert(rest_of(s1, ev.len() as int) =~= re + g);
        lemma_dec_list_enc_pairs(entries.drop_first(), g);
        let n = entries.len() as int;
        assert(dec_list(s1, 2 * n - 1) == SpecList::Done(
            seq![v0] + flat_pairs(entries.drop_first()),
            ev.len() + re.len() as int,
        ));
        assert(dec_list(s, 2 * n) == SpecList::Done(
            seq![k0] + (seq![v0] + flat_pairs(entries.drop_first())),
            ek.len() + (ev.len() + re.len() as int),
        ));
        assert(seq![k0] + (seq![v0] + flat_pairs(entries.drop_first())) =~= flat_pairs(entries));
    }
}

} // verus!
