//! The canonical total order on frames.
//!
//! Frames are ordered first by a fixed ordinal on their kind
//! (SimpleString < Error < Integer < BulkString < Null < Array < Boolean <
//! Double < MapFrame < SetFrame) and then lexicographically by payload.
//! Maps and sets keep their entries strictly ascending in this order, which
//! makes their encodings canonical.
#![allow(unused_imports)]

use vstd::prelude::*;

use crate::resp::frame::{fview, fview_pairs, fview_seq, RespFrame};
use crate::resp::wire::FrameV;

verus! {

broadcast use
    crate::resp::frame::lemma_fview_seq_len,
    crate::resp::frame::lemma_fview_seq_index,
    crate::resp::frame::lemma_fview_pairs_len,
    crate::resp::frame::lemma_fview_pairs_index,
;

/// Ordinal of a frame kind.
pub open spec fn tag_of(f: FrameV) -> int {
    match f {
        FrameV::SimpleString(_) => 0,
        FrameV::Error(_) => 1,
        FrameV::Integer(_) => 2,
        FrameV::BulkString(_) => 3,
        FrameV::Null => 4,
        FrameV::Array(_) => 5,
        FrameV::Boolean(_) => 6,
        FrameV::Double(_) => 7,
        FrameV::MapFrame(_) => 8,
        FrameV::SetFrame(_) => 9,
    }
}

/// Three-way lexicographic comparison of byte sequences: -1, 0 or 1.
pub open spec fn cmp_bytes(a: Seq<u8>, b: Seq<u8>) -> int
    decreases a.len(),
{
    if a.len() == 0 && b.len() == 0 {
        0
    } else if a.len() == 0 {
        -1
    } else if b.len() == 0 {
        1
    } else if a[0] < b[0] {
        -1
    } else if a[0] > b[0] {
        1
    } else {
        cmp_bytes(a.drop_first(), b.drop_first())
    }
}

/// Three-way comparison of optional byte sequences; a null sorts first.
pub open spec fn cmp_opt_bytes(a: Option<Seq<u8>>, b: Option<Seq<u8>>) -> int {
    match (a, b) {
        (Option::None, Option::None) => 0,
        (Option::None, Option::Some(_)) => -1,
        (Option::Some(_), Option::None) => 1,
        (Option::Some(x), Option::Some(y)) => cmp_bytes(x, y),
    }
}

/// Three-way comparison of frames in the canonical total order.
pub open spec fn cmp_frame(a: FrameV, b: FrameV) -> int
    decreases a, 0int,
{
    if tag_of(a) < tag_of(b) {
        -1
    } else if tag_of(a) > tag_of(b) {
        1
    } else {
        match (a, b) {
            (FrameV::SimpleString(x), FrameV::SimpleString(y)) => cmp_bytes(x, y),
            (FrameV::Error(x), FrameV::Error(y)) => cmp_bytes(x, y),
            (FrameV::Integer(x), FrameV::Integer(y)) => if x < y {
                -1
            } else if x > y {
                1
            } else {
                0
            },
            (FrameV::BulkString(x), FrameV::BulkString(y)) => cmp_opt_bytes(x, y),
            (FrameV::Null, FrameV::Null) => 0,
            (FrameV::Array(x), FrameV::Array(y)) => match (x, y) {
                (Option::None, Option::None) => 0,
                (Option::None, Option::Some(_)) => -1,
                (Option::Some(_), Option::None) => 1,
                (Option::Some(xs), Option::Some(ys)) => cmp_frames(xs, ys),
            },
            (FrameV::Boolean(x), FrameV::Boolean(y)) => if !x && y {
                -1
            } else if x && !y {
                1
            } else {
                0
            },
            (FrameV::Double(x), FrameV::Double(y)) => cmp_bytes(x, y),
            (FrameV::MapFrame(x), FrameV::MapFrame(y)) => cmp_pairs(x, y),
            (FrameV::SetFrame(x), FrameV::SetFrame(y)) => cmp_frames(x, y),
            _ => 0,
        }
    }
}

/// Lexicographic comparison of frame sequences.
pub open spec fn cmp_frames(x: Seq<FrameV>, y: Seq<FrameV>) -> int
    decreases x, 1int,
{
    if x.len() == 0 && y.len() == 0 {
        0
    } else if x.len() == 0 {
        -1
    } else if y.len() == 0 {
        1
    } else if cmp_frame(x[0], y[0]) != 0 {
        cmp_frame(x[0], y[0])
    } else {
        cmp_frames(x.drop_first(), y.drop_first())
    }
}

/// Lexicographic comparison of key-value pair sequences; a pair compares by
/// key first, then by value.
pub open spec fn cmp_pairs(x: Seq<(FrameV, FrameV)>, y: Seq<(FrameV, FrameV)>) -> int
    decreases x, 1int,
{
    if x.len() == 0 && y.len() == 0 {
        0
    } else if x.len() == 0 {
        -1
    } else if y.len() == 0 {
        1
    } else if cmp_frame(x[0].0, y[0].0) != 0 {
        cmp_frame(x[0].0, y[0].0)
    } else if cmp_frame(x[0].1, y[0].1) != 0 {
        cmp_frame(x[0].1, y[0].1)
    } else {
        cmp_pairs(x.drop_first(), y.drop_first())
    }
}

/// A frame sequence is strictly ascending in the canonical order.
pub open spec fn sorted_frames(es: Seq<FrameV>) -> bool {
    forall|i: int, j: int|
        0 <= i < j < es.len() ==> cmp_frame(#[trigger] es[i], #[trigger] es[j]) == -1
}

/// A pair sequence is strictly ascending by key in the canonical order.
pub open spec fn sorted_pairs(entries: Seq<(FrameV, FrameV)>) -> bool {
    forall|i: int, j: int|
        0 <= i < j < entries.len() ==> cmp_frame(
            (#[trigger] entries[i]).0,
            (#[trigger] entries[j]).0,
        ) == -1
}

/// Insert a frame into a strictly ascending sequence; an equal frame leaves
/// the sequence unchanged.
pub open spec fn sorted_insert_frame(es: Seq<FrameV>, x: FrameV) -> Seq<FrameV>
    decreases es.len(),
{
    if es.len() == 0 {
        seq![x]
    } else if cmp_frame(x, es[0]) == -1 {
        seq![x] + es
    } else if cmp_frame(x, es[0]) == 0 {
        es
    } else {
        seq![es[0]] + sorted_insert_frame(es.drop_first(), x)
    }
}

// ------------------------------------------------------------------
// Executable comparison
// ------------------------------------------------------------------

/// Compare two byte vectors lexicographically.
pub fn bytes_cmp(a: &Vec<u8>, b: &Vec<u8>) -> (r: i8)
    ensures
        r as int == cmp_bytes(a@, b@),
{
    let mut i: usize = 0;
    proof {
        assert(a@.skip(0int) =~= a@);
        assert(b@.skip(0int) =~= b@);
    }
    while i < a.len() && i < b.len() && a[i] == b[i]
        invariant
            i <= a@.len(),
            i <= b@.len(),
            cmp_bytes(a@, b@) == cmp_bytes(a@.skip(i as int), b@.skip(i as int)),
        decreases a@.len() - i,
    {
        proof {
            assert(a@.skip(i as int)[0] == a@[i as int]);
            assert(b@.skip(i as int)[0] == b@[i as int]);
            assert(a@.skip(i as int).drop_first() =~= a@.skip(i + 1));
            assert(b@.skip(i as int).drop_first() =~= b@.skip(i + 1));
        }
        i = i + 1;
    }
    proof {
        if i < a@.len() && i < b@.len() {
            assert(a@.skip(i as int)[0] == a@[i as int]);
            assert(b@.skip(i as int)[0] == b@[i as int]);
        }
    }
    if i == a.len() && i == b.len() {
        0
    } else if i == a.len() {
        -1
    } else if i == b.len() {
        1
    } else if a[i] < b[i] {
        -1
    } else {
        1
    }
}

/// Ordinal of a frame's kind.
fn tag_exec(f: &RespFrame) -> (r: u8)
    ensures
        r as int == tag_of(fview(*f)),
        r <= 9,
        (r == 0) <==> f matches RespFrame::SimpleString(_),
        (r == 1) <==> f matches RespFrame::Error(_),
        (r == 2) <==> f matches RespFrame::Integer(_),
        (r == 3) <==> f matches RespFrame::BulkString(_),
        (r == 4) <==> f matches RespFrame::Null(_),
        (r == 5) <==> f matches RespFrame::Array(_),
        (r == 6) <==> f matches RespFrame::Boolean(_),
        (r == 7) <==> f matches RespFrame::Double(_),
        (r == 8) <==> f matches RespFrame::MapFrame(_),
        (r == 9) <==> f matches RespFrame::SetFrame(_),
{
    match f {
        RespFrame::SimpleString(_) => 0,
        RespFrame::Error(_) => 1,
        RespFrame::Integer(_) => 2,
        RespFrame::BulkString(_) => 3,
        RespFrame::Null(_) => 4,
        RespFrame::Array(_) => 5,
        RespFrame::Boolean(_) => 6,
        RespFrame::Double(_) => 7,
        RespFrame::MapFrame(_) => 8,
        RespFrame::SetFrame(_) => 9,
    }
}

/// Compare two frames in the canonical total order.
pub fn frame_cmp(a: &RespFrame, b: &RespFrame) -> (r: i8)
    ensures
        r as int == cmp_frame(fview(*a), fview(*b)),
    decreases *a, 0int, 0int,
{
    let ta = tag_exec(a);
    let tb = tag_exec(b);
    if ta < tb {
        -1
    } else if ta > tb {
        1
    } else {
        match (a, b) {
            (RespFrame::SimpleString(x), RespFrame::SimpleString(y)) => bytes_cmp(&x.0, &y.0),
            (RespFrame::Error(x), RespFrame::Error(y)) => bytes_cmp(&x.0, &y.0),
            (RespFrame::Integer(x), RespFrame::Integer(y)) => if x < y {
                -1
            } else if x > y {
                1
            } else {
                0
            },
            (RespFrame::BulkString(x), RespFrame::BulkString(y)) => match (&x.0, &y.0) {
                (Option::None, Option::None) => 0,
                (Option::None, Option::Some(_)) => -1,
                (Option::Some(_), Option::None) => 1,
                (Option::Some(p), Option::Some(q)) => bytes_cmp(p, q),
            },
            (RespFrame::Null(_), RespFrame::Null(_)) => 0,
            (RespFrame::Array(x), RespFrame::Array(y)) => match (&x.0, &y.0) {
                (Option::None, Option::None) => 0,
                (Option::None, Option::Some(_)) => -1,
                (Option::Some(_), Option::None) => 1,
                (Option::Some(xs), Option::Some(ys)) => {
                    let c = frames_cmp_at(xs, ys, 0);
                    proof {
                        assert(fview_seq(xs@).skip(0int) =~= fview_seq(xs@));
                        assert(fview_seq(ys@).skip(0int) =~= fview_seq(ys@));
                    }
                    c
                },
            },
            (RespFrame::Boolean(x), RespFrame::Boolean(y)) => if !*x && *y {
                -1
            } else if *x && !*y {
                1
            } else {
                0
            },
            (RespFrame::Double(x), RespFrame::Double(y)) => bytes_cmp(&x.0, &y.0),
            (RespFrame::MapFrame(x), RespFrame::MapFrame(y)) => {
                let c = pairs_cmp_at(&x.0, &y.0, 0);
                proof {
                    assert(fview_pairs(x.0@).skip(0int) =~= fview_pairs(x.0@));
                    assert(fview_pairs(y.0@).skip(0int) =~= fview_pairs(y.0@));
                }
                c
            },
            (RespFrame::SetFrame(x), RespFrame::SetFrame(y)) => {
                let c = frames_cmp_at(&x.0, &y.0, 0);
                proof {
                    assert(fview_seq(x.0@).skip(0int) =~= fview_seq(x.0@));
                    assert(fview_seq(y.0@).skip(0int) =~= fview_seq(y.0@));
                }
                c
            },
            _ => 0,
        }
    }
}

/// Compare the suffixes of two frame vectors from position `i`.
fn frames_cmp_at(x: &Vec<RespFrame>, y: &Vec<RespFrame>, i: usize) -> (r: i8)
    requires
        i <= x@.len(),
        i <= y@.len(),
    ensures
        r as int == cmp_frames(fview_seq(x@).skip(i as int), fview_seq(y@).skip(i as int)),
    decreases x@, 1int, x@.len() - i,
{
    if i == x.len() && i == y.len() {
        0
    } else if i == x.len() {
        -1
    } else if i == y.len() {
        1
    } else {
        let c = frame_cmp(&x[i], &y[i]);
        proof {
            assert(fview_seq(x@).skip(i as int)[0] == fview(x@[i as int]));
            assert(fview_seq(y@).skip(i as int)[0] == fview(y@[i as int]));
            assert(fview_seq(x@).skip(i as int).drop_first() =~= fview_seq(x@).skip(i + 1));
            assert(fview_seq(y@).skip(i as int).drop_first() =~= fview_seq(y@).skip(i + 1));
        }
        if c != 0 {
            c
        } else {
            frames_cmp_at(x, y, i + 1)
        }
    }
}

/// Compare the suffixes of two pair vectors from position `i`.
fn pairs_cmp_at(x: &Vec<(RespFrame, RespFrame)>, y: &Vec<(RespFrame, RespFrame)>, i: usize) -> (r:
    i8)
    requires
        i <= x@.len(),
        i <= y@.len(),
    ensures
        r as int == cmp_pairs(fview_pairs(x@).skip(i as int), fview_pairs(y@).skip(i as int)),
    decreases x@, 1int, x@.len() - i,
{
    if i == x.len() && i == y.len() {
        0
    } else if i == x.len() {
        -1
    } else if i == y.len() {
        1
    } else {
        proof {
            assert(fview_pairs(x@).skip(i as int)[0] == (fview(x@[i as int].0), fview(
                x@[i as int].1,
            )));
            assert(fview_pairs(y@).skip(i as int)[0] == (fview(y@[i as int].0), fview(
                y@[i as int].1,
            )));
            assert(fview_pairs(x@).skip(i as int).drop_first() =~= fview_pairs(x@).skip(i + 1));
            assert(fview_pairs(y@).skip(i as int).drop_first() =~= fview_pairs(y@).skip(i + 1));
        }
        let ck = frame_cmp(&x[i].0, &y[i].0);
        if ck != 0 {
            ck
        } else {
            let cv = frame_cmp(&x[i].1, &y[i].1);
            if cv != 0 {
                cv
            } else {
                pairs_cmp_at(x, y, i + 1)
            }
        }
    }
}

/// Insert a key-value pair into a sequence strictly ascending by key; an
/// equal key has its value replaced.
pub open spec fn sorted_insert_pair(
    ps: Seq<(FrameV, FrameV)>,
    k: FrameV,
    v: FrameV,
) -> Seq<(FrameV, FrameV)>
    decreases ps.len(),
{
    if ps.len() == 0 {
        seq![(k, v)]
    } else if cmp_frame(k, ps[0].0) == -1 {
        seq![(k, v)] + ps
    } else if cmp_frame(k, ps[0].0) == 0 {
        seq![(k, v)] + ps.drop_first()
    } else {
        seq![ps[0]] + sorted_insert_pair(ps.drop_first(), k, v)
    }
}

// ------------------------------------------------------------------
// Laws of the order
// ------------------------------------------------------------------

/// The byte comparison is a total order: bounded, zero exactly on equal
/// sequences, and antisymmetric.
pub proof fn lemma_cmp_bytes_basic(a: Seq<u8>, b: Seq<u8>)
    ensures
        -1 <= cmp_bytes(a, b) <= 1,
        (cmp_bytes(a, b) == 0) <==> a == b,
        cmp_bytes(a, b) == -cmp_bytes(b, a),
    decreases a.len(),
{
    if a.len() == 0 && b.len() == 0 {
        assert(a =~= b);
    } else if a.len() == 0 || b.len() == 0 {
        assert(a != b);
    } else {
        lemma_cmp_bytes_basic(a.drop_first(), b.drop_first());
        if a[0] == b[0] {
            if cmp_bytes(a.drop_first(), b.drop_first()) == 0 {
                assert(a =~= b) by {
                    assert(a.drop_first() == b.drop_first());
                    assert forall|i: int| 0 <= i < a.len() implies a[i] == b[i] by {
                        if i > 0 {
                            assert(a[i] == a.drop_first()[i - 1]);
                            assert(b[i] == b.drop_first()[i - 1]);
                        }
                    }
                }
            } else {
                assert(a.drop_first() != b.drop_first());
                assert(a != b) by {
                    if a == b {
                        assert(a.drop_first() =~= b.drop_first());
                    }
                }
            }
        } else {
            assert(a != b) by {
                if a == b {
                    assert(a[0] == b[0]);
                }
            }
        }
    }
}

/// The byte comparison is transitive in its strict part.
pub proof fn lemma_cmp_bytes_trans(a: Seq<u8>, b: Seq<u8>, c: Seq<u8>)
    requires
        cmp_bytes(a, b) == -1,
        cmp_bytes(b, c) == -1,
    ensures
        cmp_bytes(a, c) == -1,
    decreases a.len(),
{
    if a.len() == 0 {
    } else {
        if a[0] == b[0] && b[0] == c[0] {
            lemma_cmp_bytes_trans(a.drop_first(), b.drop_first(), c.drop_first());
        }
    }
}

/// The frame comparison is a total order: bounded, zero exactly on equal
/// frames, and antisymmetric.
pub proof fn lemma_cmp_frame_basic(a: FrameV, b: FrameV)
    ensures
        -1 <= cmp_frame(a, b) <= 1,
        (cmp_frame(a, b) == 0) <==> a == b,
        cmp_frame(a, b) == -cmp_frame(b, a),
    decreases a, 0int,
{
    if tag_of(a) != tag_of(b) {
    } else {
        match (a, b) {
            (FrameV::SimpleString(x), FrameV::SimpleString(y)) => lemma_cmp_bytes_basic(x, y),
            (FrameV::Error(x), FrameV::Error(y)) => lemma_cmp_bytes_basic(x, y),
            (FrameV::Integer(_), FrameV::Integer(_)) => {},
            (FrameV::BulkString(x), FrameV::BulkString(y)) => {
                match (x, y) {
                    (Option::Some(p), Option::Some(q)) => lemma_cmp_bytes_basic(p, q),
                    _ => {},
                }
            },
            (FrameV::Null, FrameV::Null) => {},
            (FrameV::Array(x), FrameV::Array(y)) => {
                match (x, y) {
                    (Option::Some(xs), Option::Some(ys)) => lemma_cmp_frames_basic(xs, ys),
                    _ => {},
                }
            },
            (FrameV::Boolean(_), FrameV::Boolean(_)) => {},
            (FrameV::Double(x), FrameV::Double(y)) => lemma_cmp_bytes_basic(x, y),
            (FrameV::MapFrame(x), FrameV::MapFrame(y)) => lemma_cmp_pairs_basic(x, y),
            (FrameV::SetFrame(x), FrameV::SetFrame(y)) => lemma_cmp_frames_basic(x, y),
            _ => {},
        }
    }
}

/// As `lemma_cmp_frame_basic`, for frame sequences.
pub proof fn lemma_cmp_frames_basic(x: Seq<FrameV>, y: Seq<FrameV>)
    ensures
        -1 <= cmp_frames(x, y) <= 1,
        (cmp_frames(x, y) == 0) <==> x == y,
        cmp_frames(x, y) == -cmp_frames(y, x),
    decreases x, 1int,
{
    if x.len() == 0 && y.len() == 0 {
        assert(x =~= y);
    } else if x.len() == 0 || y.len() == 0 {
        assert(x != y);
    } else {
        lemma_cmp_frame_basic(x[0], y[0]);
        lemma_cmp_frames_basic(x.drop_first(), y.drop_first());
        if cmp_frame(x[0], y[0]) == 0 && cmp_frames(x.drop_first(), y.drop_first()) == 0 {
            assert(x =~= y) by {
                assert(x[0] == y[0]);
                assert(x.drop_first() == y.drop_first());
                assert forall|i: int| 0 <= i < x.len() implies x[i] == y[i] by {
                    if i > 0 {
                        assert(x[i] == x.drop_first()[i - 1]);
                        assert(y[i] == y.drop_first()[i - 1]);
                    }
                }
            }
        } else {
            assert(x != y) by {
                if x == y {
                    assert(x[0] == y[0]);
                    assert(x.drop_first() =~= y.drop_first());
                }
            }
        }
    }
}

/// As `lemma_cmp_frame_basic`, for pair sequences.
pub proof fn lemma_cmp_pairs_basic(x: Seq<(FrameV, FrameV)>, y: Seq<(FrameV, FrameV)>)
    ensures
        -1 <= cmp_pairs(x, y) <= 1,
        (cmp_pairs(x, y) == 0) <==> x == y,
        cmp_pairs(x, y) == -cmp_pairs(y, x),
    decreases x, 1int,
{
    if x.len() == 0 && y.len() == 0 {
        assert(x =~= y);
    } else if x.len() == 0 || y.len() == 0 {
        assert(x != y);
    } else {
        lemma_cmp_frame_basic(x[0].0, y[0].0);
        lemma_cmp_frame_basic(x[0].1, y[0].1);
        lemma_cmp_pairs_basic(x.drop_first(), y.drop_first());
        if cmp_frame(x[0].0, y[0].0) == 0 && cmp_frame(x[0].1, y[0].1) == 0 && cmp_pairs(
            x.drop_first(),
            y.drop_first(),
        ) == 0 {
            assert(x[0] == y[0]);
            assert(x =~= y) by {
                assert(x.drop_first() == y.drop_first());
                assert forall|i: int| 0 <= i < x.len() implies x[i] == y[i] by {
                    if i > 0 {
                        assert(x[i] == x.drop_first()[i - 1]);
                        assert(y[i] == y.drop_first()[i - 1]);
                    }
                }
            }
        } else {
            assert(x != y) by {
                if x == y {
                    assert(x[0].0 == y[0].0);
                    assert(x[0].1 == y[0].1);
                    assert(x.drop_first() =~= y.drop_first());
                }
            }
        }
    }
}

/// The frame comparison is transitive in its strict part.
pub proof fn lemma_cmp_frame_trans(a: FrameV, b: FrameV, c: FrameV)
    requires
        cmp_frame(a, b) == -1,
        cmp_frame(b, c) == -1,
    ensures
        cmp_frame(a, c) == -1,
    decreases a, 0int,
{
    lemma_cmp_frame_basic(a, b);
    lemma_cmp_frame_basic(b, c);
    lemma_cmp_frame_basic(a, c);
    if tag_of(a) == tag_of(b) && tag_of(b) == tag_of(c) {
        match (a, b, c) {
            (FrameV::SimpleString(x), FrameV::SimpleString(y), FrameV::SimpleString(z)) => {
                lemma_cmp_bytes_trans(x, y, z);
            },
            (FrameV::Error(x), FrameV::Error(y), FrameV::Error(z)) => {
                lemma_cmp_bytes_trans(x, y, z);
            },
            (FrameV::Integer(_), FrameV::Integer(_), FrameV::Integer(_)) => {},
            (FrameV::BulkString(x), FrameV::BulkString(y), FrameV::BulkString(z)) => {
                match (x, y, z) {
                    (Option::Some(p), Option::Some(q), Option::Some(r)) => {
                        lemma_cmp_bytes_trans(p, q, r);
                    },
                    _ => {},
                }
            },
            (FrameV::Array(x), FrameV::Array(y), FrameV::Array(z)) => {
                match (x, y, z) {
                    (Option::Some(xs), Option::Some(ys), Option::Some(zs)) => {
                        lemma_cmp_frames_trans(xs, ys, zs);
                    },
                    _ => {},
                }
            },
            (FrameV::Boolean(_), FrameV::Boolean(_), FrameV::Boolean(_)) => {},
            (FrameV::Double(x), FrameV::Double(y), FrameV::Double(z)) => {
                lemma_cmp_bytes_trans(x, y, z);
            },
            (FrameV::MapFrame(x), FrameV::MapFrame(y), FrameV::MapFrame(z)) => {
                lemma_cmp_pairs_trans(x, y, z);
            },
            (FrameV::SetFrame(x), FrameV::SetFrame(y), FrameV::SetFrame(z)) => {
                lemma_cmp_frames_trans(x, y, z);
            },
            _ => {},
        }
    }
}

/// As `lemma_cmp_frame_trans`, for frame sequences.
pub proof fn lemma_cmp_frames_trans(x: Seq<FrameV>, y: Seq<FrameV>, z: Seq<FrameV>)
    requires
        cmp_frames(x, y) == -1,
        cmp_frames(y, z) == -1,
    ensures
        cmp_frames(x, z) == -1,
    decreases x, 1int,
{
    if x.len() == 0 {
    } else {
        let cxy = cmp_frame(x[0], y[0]);
        let cyz = cmp_frame(y[0], z[0]);
        lemma_cmp_frame_basic(x[0], y[0]);
        lemma_cmp_frame_basic(y[0], z[0]);
        if cxy == -1 && cyz == -1 {
            lemma_cmp_frame_trans(x[0], y[0], z[0]);
        } else if cxy == 0 && cyz == 0 {
            lemma_cmp_frames_trans(x.drop_first(), y.drop_first(), z.drop_first());
        }
    }
}

/// Where the scan for the insertion point of `x` stops at `j`, the insert
/// either leaves the sequence unchanged (equal element found) or places `x`
/// at position `j`.
pub proof fn lemma_sif_at(w: Seq<FrameV>, x: FrameV, j: int)
    requires
        0 <= j <= w.len(),
        forall|l: int| 0 <= l < j ==> cmp_frame(x, #[trigger] w[l]) == 1,
        j < w.len() ==> cmp_frame(x, w[j]) != 1,
    ensures
        sorted_insert_frame(w, x) == if j < w.len() && cmp_frame(x, w[j]) == 0 {
            w
        } else {
            w.insert(j, x)
        },
    decreases j,
{
    if j == 0 {
        if w.len() == 0 {
            assert(sorted_insert_frame(w, x) =~= w.insert(0, x));
        } else {
            lemma_cmp_frame_basic(x, w[0]);
            if cmp_frame(x, w[0]) == -1 {
                assert(seq![x] + w =~= w.insert(0, x));
            }
        }
    } else {
        assert(cmp_frame(x, w[0]) == 1);
        let d = w.drop_first();
        assert forall|l: int| 0 <= l < j - 1 implies cmp_frame(x, #[trigger] d[l]) == 1 by {
            assert(d[l] == w[l + 1]);
        }
        if j - 1 < d.len() {
            assert(d[j - 1] == w[j]);
        }
        lemma_sif_at(d, x, j - 1);
        if j < w.len() && cmp_frame(x, w[j]) == 0 {
            assert(d[j - 1] == w[j]);
            assert(seq![w[0]] + d =~= w);
        } else {
            assert(seq![w[0]] + d.insert(j - 1, x) =~= w.insert(j, x));
        }
    }
}

/// As `lemma_sif_at`, for pair sequences: an equal key has its value
/// replaced in place.
pub proof fn lemma_sip_at(w: Seq<(FrameV, FrameV)>, k: FrameV, v: FrameV, j: int)
    requires
        0 <= j <= w.len(),
        forall|l: int| 0 <= l < j ==> cmp_frame(k, (#[trigger] w[l]).0) == 1,
        j < w.len() ==> cmp_frame(k, w[j].0) != 1,
    ensures
        sorted_insert_pair(w, k, v) == if j < w.len() && cmp_frame(k, w[j].0) == 0 {
            w.update(j, (k, v))
        } else {
            w.insert(j, (k, v))
        },
    decreases j,
{
    if j == 0 {
        if w.len() == 0 {
            assert(sorted_insert_pair(w, k, v) =~= w.insert(0, (k, v)));
        } else {
            lemma_cmp_frame_basic(k, w[0].0);
            if cmp_frame(k, w[0].0) == -1 {
                assert(seq![(k, v)] + w =~= w.insert(0, (k, v)));
            } else if cmp_frame(k, w[0].0) == 0 {
                assert(seq![(k, v)] + w.drop_first() =~= w.update(0, (k, v)));
            }
        }
    } else {
        assert(cmp_frame(k, w[0].0) == 1);
        let d = w.drop_first();
        assert forall|l: int| 0 <= l < j - 1 implies cmp_frame(k, (#[trigger] d[l]).0) == 1 by {
            assert(d[l] == w[l + 1]);
        }
        if j - 1 < d.len() {
            assert(d[j - 1] == w[j]);
        }
        lemma_sip_at(d, k, v, j - 1);
        if j < w.len() && cmp_frame(k, w[j].0) == 0 {
            assert(d[j - 1] == w[j]);
            assert(seq![w[0]] + d.update(j - 1, (k, v)) =~= w.update(j, (k, v)));
        } else {
            assert(seq![w[0]] + d.insert(j - 1, (k, v)) =~= w.insert(j, (k, v)));
        }
    }
}

/// Inserting into a strictly ascending sequence keeps it strictly
/// ascending; every element of the result is the new one or an old one.
pub proof fn lemma_sif_sorted(w: Seq<FrameV>, x: FrameV)
    requires
        sorted_frames(w),
    ensures
        sorted_frames(sorted_insert_frame(w, x)),
        forall|m: int|
            0 <= m < sorted_insert_frame(w, x).len() ==> #[trigger] sorted_insert_frame(w, x)[m]
                == x || w.contains(sorted_insert_frame(w, x)[m]),
    decreases w.len(),
{
    let r = sorted_insert_frame(w, x);
    if w.len() == 0 {
    } else if cmp_frame(x, w[0]) == -1 {
        assert forall|i: int, j: int| 0 <= i < j < r.len() implies cmp_frame(r[i], r[j])
            == -1 by {
            if i == 0 {
                if j == 1 {
                } else {
                    lemma_cmp_frame_trans(x, w[0], w[j - 1]);
                }
            }
        }
        assert forall|m: int| 0 <= m < r.len() implies r[m] == x || w.contains(r[m]) by {
            if m > 0 {
                assert(r[m] == w[m - 1]);
            }
        }
    } else if cmp_frame(x, w[0]) == 0 {
        assert forall|m: int| 0 <= m < r.len() implies r[m] == x || w.contains(r[m]) by {
            assert(r[m] == w[m]);
        }
    } else {
        let d = w.drop_first();
        assert(sorted_frames(d)) by {
            assert(forall|i: int, j: int|
                0 <= i < j < d.len() ==> #[trigger] d[i] == w[i + 1] && #[trigger] d[j] == w[j
                    + 1]);
        }
        lemma_sif_sorted(d, x);
        let rd = sorted_insert_frame(d, x);
        lemma_cmp_frame_basic(x, w[0]);
        assert forall|i: int, j: int| 0 <= i < j < r.len() implies cmp_frame(r[i], r[j])
            == -1 by {
            if i == 0 {
                assert(r[j] == rd[j - 1]);
                if rd[j - 1] == x {
                } else {
                    let l = choose|l: int| 0 <= l < d.len() && d[l] == rd[j - 1];
                    assert(w[0 as int] == w[0]);
                    assert(cmp_frame(w[0], w[l + 1]) == -1);
                }
            } else {
                assert(r[i] == rd[i - 1] && r[j] == rd[j - 1]);
            }
        }
        assert forall|m: int| 0 <= m < r.len() implies r[m] == x || w.contains(r[m]) by {
            if m == 0 {
                assert(w.contains(w[0]));
            } else {
                assert(r[m] == rd[m - 1]);
                if rd[m - 1] != x {
                    let l = choose|l: int| 0 <= l < d.len() && d[l] == rd[m - 1];
                    assert(w[l + 1] == d[l]);
                }
            }
        }
    }
}

/// As `lemma_sif_sorted`, for pair sequences ordered by key.
pub proof fn lemma_sip_sorted(w: Seq<(FrameV, FrameV)>, k: FrameV, v: FrameV)
    requires
        sorted_pairs(w),
    ensures
        sorted_pairs(sorted_insert_pair(w, k, v)),
        forall|m: int|
            0 <= m < sorted_insert_pair(w, k, v).len() ==> #[trigger] sorted_insert_pair(
                w,
                k,
                v,
            )[m] == (k, v) || w.contains(sorted_insert_pair(w, k, v)[m]),
    decreases w.len(),
{
    let r = sorted_insert_pair(w, k, v);
    if w.len() == 0 {
    } else if cmp_frame(k, w[0].0) == -1 {
        assert forall|i: int, j: int| 0 <= i < j < r.len() implies cmp_frame(r[i].0, r[j].0)
            == -1 by {
            if i == 0 {
                if j == 1 {
                } else {
                    lemma_cmp_frame_trans(k, w[0].0, w[j - 1].0);
                }
            }
        }
        assert forall|m: int| 0 <= m < r.len() implies r[m] == (k, v) || w.contains(r[m]) by {
            if m > 0 {
                assert(r[m] == w[m - 1]);
            }
        }
    } else if cmp_frame(k, w[0].0) == 0 {
        assert forall|i: int, j: int| 0 <= i < j < r.len() implies cmp_frame(r[i].0, r[j].0)
            == -1 by {
            if i == 0 {
                assert(r[j] == w[j]);
                assert(cmp_frame(w[0].0, w[j].0) == -1);
                lemma_cmp_frame_basic(k, w[0].0);
                lemma_cmp_frame_basic(w[0].0, w[j].0);
            } else {
                assert(r[i] == w[i] && r[j] == w[j]);
            }
        }
        assert forall|m: int| 0 <= m < r.len() implies r[m] == (k, v) || w.contains(r[m]) by {
            if m > 0 {
                assert(r[m] == w[m]);
            }
        }
    } else {
        let d = w.drop_first();
        assert(sorted_pairs(d)) by {
            assert(forall|i: int, j: int|
                0 <= i < j < d.len() ==> #[trigger] d[i] == w[i + 1] && #[trigger] d[j] == w[j
                    + 1]);
        }
        lemma_sip_sorted(d, k, v);
        let rd = sorted_insert_pair(d, k, v);
        lemma_cmp_frame_basic(k, w[0].0);
        assert forall|i: int, j: int| 0 <= i < j < r.len() implies cmp_frame(r[i].0, r[j].0)
            == -1 by {
            if i == 0 {
                assert(r[j] == rd[j - 1]);
                if rd[j - 1] == (k, v) {
                } else {
                    let l = choose|l: int| 0 <= l < d.len() && d[l] == rd[j - 1];
                    assert(cmp_frame(w[0].0, w[l + 1].0) == -1);
                }
            } else {
                assert(r[i] == rd[i - 1] && r[j] == rd[j - 1]);
            }
        }
        assert forall|m: int| 0 <= m < r.len() implies r[m] == (k, v) || w.contains(r[m]) by {
            if m == 0 {
                assert(w.contains(w[0]));
            } else {
                assert(r[m] == rd[m - 1]);
                if rd[m - 1] != (k, v) {
                    let l = choose|l: int| 0 <= l < d.len() && d[l] == rd[m - 1];
                    assert(w[l + 1] == d[l]);
                }
            }
        }
    }
}

/// An insert grows the sequence by at most one element.
pub proof fn lemma_sif_len(w: Seq<FrameV>, x: FrameV)
    ensures
        w.len() <= sorted_insert_frame(w, x).len() <= w.len() + 1,
    decreases w.len(),
{
    if w.len() > 0 && cmp_frame(x, w[0]) != -1 && cmp_frame(x, w[0]) != 0 {
        lemma_sif_len(w.drop_first(), x);
    }
}

/// An insert grows the pair sequence by at most one entry.
pub proof fn lemma_sip_len(w: Seq<(FrameV, FrameV)>, k: FrameV, v: FrameV)
    ensures
        w.len() <= sorted_insert_pair(w, k, v).len() <= w.len() + 1,
    decreases w.len(),
{
    if w.len() > 0 && cmp_frame(k, w[0].0) != -1 && cmp_frame(k, w[0].0) != 0 {
        lemma_sip_len(w.drop_first(), k, v);
    }
}

/// Inserting an element greater than every element appends it.
pub proof fn lemma_sif_append(w: Seq<FrameV>, x: FrameV)
    requires
        forall|i: int| 0 <= i < w.len() ==> cmp_frame(#[trigger] w[i], x) == -1,
    ensures
        sorted_insert_frame(w, x) == w.push(x),
    decreases w.len(),
{
    if w.len() == 0 {
        assert(sorted_insert_frame(w, x) =~= w.push(x));
    } else {
        lemma_cmp_frame_basic(x, w[0]);
        lemma_sif_append(w.drop_first(), x);
        assert(seq![w[0]] + w.drop_first().push(x) =~= w.push(x));
    }
}

/// Inserting a pair whose key is greater than every key appends it.
pub proof fn lemma_sip_append(w: Seq<(FrameV, FrameV)>, k: FrameV, v: FrameV)
    requires
        forall|i: int| 0 <= i < w.len() ==> cmp_frame((#[trigger] w[i]).0, k) == -1,
    ensures
        sorted_insert_pair(w, k, v) == w.push((k, v)),
    decreases w.len(),
{
    if w.len() == 0 {
        assert(sorted_insert_pair(w, k, v) =~= w.push((k, v)));
    } else {
        lemma_cmp_frame_basic(k, w[0].0);
        lemma_sip_append(w.drop_first(), k, v);
        assert(seq![w[0]] + w.drop_first().push((k, v)) =~= w.push((k, v)));
    }
}

/// As `lemma_cmp_frame_trans`, for pair sequences.
pub proof fn lemma_cmp_pairs_trans(
    x: Seq<(FrameV, FrameV)>,
    y: Seq<(FrameV, FrameV)>,
    z: Seq<(FrameV, FrameV)>,
)
    requires
        cmp_pairs(x, y) == -1,
        cmp_pairs(y, z) == -1,
    ensures
        cmp_pairs(x, z) == -1,
    decreases x, 1int,
{
    if x.len() == 0 {
    } else {
        lemma_cmp_frame_basic(x[0].0, y[0].0);
        lemma_cmp_frame_basic(y[0].0, z[0].0);
        lemma_cmp_frame_basic(x[0].1, y[0].1);
        lemma_cmp_frame_basic(y[0].1, z[0].1);
        if cmp_frame(x[0].0, y[0].0) == -1 && cmp_frame(y[0].0, z[0].0) == -1 {
            lemma_cmp_frame_trans(x[0].0, y[0].0, z[0].0);
        } else if cmp_frame(x[0].0, y[0].0) == 0 && cmp_frame(y[0].0, z[0].0) == 0 {
            if cmp_frame(x[0].1, y[0].1) == -1 && cmp_frame(y[0].1, z[0].1) == -1 {
                lemma_cmp_frame_trans(x[0].1, y[0].1, z[0].1);
            } else if cmp_frame(x[0].1, y[0].1) == 0 && cmp_frame(y[0].1, z[0].1) == 0 {
                lemma_cmp_pairs_trans(x.drop_first(), y.drop_first(), z.drop_first());
            }
        }
    }
}

} // verus!
