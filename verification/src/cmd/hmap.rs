//! The hash-keyspace commands: `HGET`, `HSET`, `HGETALL` and `HMGET`.
#![allow(unused_imports)]

use vstd::prelude::*;
use vstd::slice::slice_to_vec;
use vstd::utf8::valid_utf8;

use crate::backend::{
    assoc_get, assoc_set, hget_spec, hm_lookup, store_wf, Backend, StoreV,
};
use crate::cmd::{is_valid_utf8, null_frame, ok_frame, CommandExecutor, ExecuteError};
use crate::resp::array::RespArray;
use crate::resp::bulkstring::RespBulkString;
use crate::resp::frame::{
    fview, fview_seq, lemma_fview_seq_index, lemma_fview_seq_len, RespFrame,
};
use crate::resp::simple_error::RespSimpleError;
use crate::resp::wire::{lemma_wf_all_iff, wf, wf_all, FrameV};

verus! {

/// `HGET key field`.
#[derive(Debug)]
pub struct HGetCommand {
    pub key: Vec<u8>,
    pub field: Vec<u8>,
}

/// `HSET key field value`.
#[derive(Debug)]
pub struct HSetCommand {
    pub key: Vec<u8>,
    pub field: Vec<u8>,
    pub value: RespFrame,
}

/// `HGETALL key`.
#[derive(Debug)]
pub struct HGetAllCommand {
    pub key: Vec<u8>,
}

/// `HMGET key field [field ...]`.
#[derive(Debug, PartialEq, Eq)]
pub struct HmgetCommand {
    pub key: Vec<u8>,
    pub fields: Vec<Vec<u8>>,
}

/// The spec value of a sequence of byte vectors.
pub open spec fn vv_view(s: Seq<Vec<u8>>) -> Seq<Seq<u8>>
    decreases s.len(),
{
    if s.len() == 0 {
        Seq::empty()
    } else {
        seq![s[0]@] + vv_view(s.drop_first())
    }
}

/// `vv_view` keeps the length.
pub broadcast proof fn lemma_vv_view_len(s: Seq<Vec<u8>>)
    ensures
        (#[trigger] vv_view(s)).len() == s.len(),
    decreases s.len(),
{
    if s.len() > 0 {
        lemma_vv_view_len(s.drop_first());
    }
}

/// `vv_view` is the element-wise view.
pub broadcast proof fn lemma_vv_view_index(s: Seq<Vec<u8>>, i: int)
    requires
        0 <= i < s.len(),
    ensures
        #[trigger] vv_view(s)[i] == s[i]@,
    decreases s.len(),
{
    lemma_vv_view_len(s);
    if i > 0 {
        lemma_vv_view_index(s.drop_first(), i - 1);
    }
}

/// What parsing a key-and-field request yields: the two names, or the
/// exact failure.
pub open spec fn key_field_try_spec(arr: Option<Seq<FrameV>>) -> Result<
    (Seq<u8>, Seq<u8>),
    ExecuteError,
> {
    match arr {
        Option::None => Result::Err(ExecuteError::InvalidCommand),
        Option::Some(es) => if es.len() != 3 {
            Result::Err(ExecuteError::InvalidArgument)
        } else {
            match (es[1], es[2]) {
                (FrameV::BulkString(Option::Some(k)), FrameV::BulkString(Option::Some(f))) => if !valid_utf8(
                    k,
                ) {
                    Result::Err(ExecuteError::FromUtf8Error)
                } else if !valid_utf8(f) {
                    Result::Err(ExecuteError::FromUtf8Error)
                } else {
                    Result::Ok((k, f))
                },
                _ => Result::Err(ExecuteError::InvalidCommand),
            }
        },
    }
}

/// What parsing an HSET request yields: key, field and value, or the
/// exact failure.
pub open spec fn hset_try_spec(arr: Option<Seq<FrameV>>) -> Result<
    (Seq<u8>, Seq<u8>, FrameV),
    ExecuteError,
> {
    match arr {
        Option::None => Result::Err(ExecuteError::InvalidCommand),
        Option::Some(es) => if es.len() != 4 {
            Result::Err(ExecuteError::InvalidArgument)
        } else {
            match (es[1], es[2]) {
                (FrameV::BulkString(Option::Some(k)), FrameV::BulkString(Option::Some(f))) => if !valid_utf8(
                    k,
                ) {
                    Result::Err(ExecuteError::FromUtf8Error)
                } else if !valid_utf8(f) {
                    Result::Err(ExecuteError::FromUtf8Error)
                } else {
                    Result::Ok((k, f, es[3]))
                },
                _ => Result::Err(ExecuteError::InvalidCommand),
            }
        },
    }
}

/// What parsing an HGETALL request yields: the key, or the exact failure.
pub open spec fn hgetall_try_spec(arr: Option<Seq<FrameV>>) -> Result<Seq<u8>, ExecuteError> {
    match arr {
        Option::None => Result::Err(ExecuteError::InvalidCommand),
        Option::Some(es) => if es.len() != 2 {
            Result::Err(ExecuteError::InvalidArgument)
        } else {
            match es[1] {
                FrameV::BulkString(Option::Some(k)) => if valid_utf8(k) {
                    Result::Ok(k)
                } else {
                    Result::Err(ExecuteError::FromUtf8Error)
                },
                _ => Result::Err(ExecuteError::InvalidCommand),
            }
        },
    }
}

/// Parse the frames of `es` from position `i` on as UTF-8 bulk strings,
/// in order; the first offending frame decides the failure.
pub open spec fn parse_bulks(es: Seq<FrameV>, i: int) -> Result<Seq<Seq<u8>>, ExecuteError>
    decreases es.len() - i,
{
    if i < 0 || i >= es.len() {
        Result::Ok(Seq::empty())
    } else {
        match es[i] {
            FrameV::BulkString(Option::Some(b)) => if valid_utf8(b) {
                match parse_bulks(es, i + 1) {
                    Result::Ok(rest) => Result::Ok(seq![b] + rest),
                    Result::Err(e) => Result::Err(e),
                }
            } else {
                Result::Err(ExecuteError::FromUtf8Error)
            },
            _ => Result::Err(ExecuteError::InvalidCommand),
        }
    }
}

/// What parsing an HMGET request yields: the key and the field names, or
/// the exact failure.
pub open spec fn hmget_try_spec(arr: Option<Seq<FrameV>>) -> Result<
    (Seq<u8>, Seq<Seq<u8>>),
    ExecuteError,
> {
    match arr {
        Option::None => Result::Err(ExecuteError::InvalidCommand),
        Option::Some(es) => if es.len() < 3 {
            Result::Err(ExecuteError::InvalidArgument)
        } else {
            match parse_bulks(es, 1) {
                Result::Err(e) => Result::Err(e),
                Result::Ok(all) => Result::Ok((all[0], all.drop_first())),
            }
        },
    }
}

impl HGetCommand {
    /// Parse an HGET request from its array frame.
    pub fn try_from(arr: RespArray) -> (r: Result<Self, ExecuteError>)
        ensures
            match r {
                Result::Ok(c) => key_field_try_spec(arr@) == Result::Ok::<(Seq<u8>, Seq<u8>),
                    ExecuteError,
                >((c.key@, c.field@)),
                Result::Err(e) => key_field_try_spec(arr@) == Result::Err::<(Seq<u8>, Seq<u8>),
                    ExecuteError,
                >(e),
            },
    {
        broadcast use lemma_fview_seq_len, lemma_fview_seq_index;

        match arr.0 {
            Option::None => Result::Err(ExecuteError::InvalidCommand),
            Option::Some(mut es) => {
                if es.len() != 3 {
                    return Result::Err(ExecuteError::InvalidArgument);
                }
                let ff = es.remove(2);
                let kf = es.remove(1);
                match (kf, ff) {
                    (RespFrame::BulkString(kb), RespFrame::BulkString(fb)) => match (
                        kb.0,
                        fb.0,
                    ) {
                        (Option::Some(k), Option::Some(f)) => {
                            if !is_valid_utf8(k.as_slice()) {
                                Result::Err(ExecuteError::FromUtf8Error)
                            } else if !is_valid_utf8(f.as_slice()) {
                                Result::Err(ExecuteError::FromUtf8Error)
                            } else {
                                Result::Ok(HGetCommand { key: k, field: f })
                            }
                        },
                        _ => Result::Err(ExecuteError::InvalidCommand),
                    },
                    _ => Result::Err(ExecuteError::InvalidCommand),
                }
            },
        }
    }
}

impl CommandExecutor for HGetCommand {
    open spec fn cmd_wf(self) -> bool {
        true
    }

    open spec fn exec_spec(self, s: StoreV) -> (FrameV, StoreV) {
        (
            match hget_spec(s.hashes, self.key@, self.field@) {
                Option::None => FrameV::Null,
                Option::Some(v) => v,
            },
            s,
        )
    }

    fn execute(self, backend: &mut Backend) -> (r: RespFrame) {
        match backend.hget(self.key.as_slice(), self.field.as_slice()) {
            Option::None => null_frame(),
            Option::Some(v) => v,
        }
    }
}

impl HSetCommand {
    /// Parse an HSET request from its array frame.
    pub fn try_from(arr: RespArray) -> (r: Result<Self, ExecuteError>)
        ensures
            match r {
                Result::Ok(c) => hset_try_spec(arr@) == Result::Ok::<(Seq<u8>, Seq<u8>, FrameV),
                    ExecuteError,
                >((c.key@, c.field@, fview(c.value))),
                Result::Err(e) => hset_try_spec(arr@) == Result::Err::<
                    (Seq<u8>, Seq<u8>, FrameV),
                    ExecuteError,
                >(e),
            },
    {
        broadcast use lemma_fview_seq_len, lemma_fview_seq_index;

        match arr.0 {
            Option::None => Result::Err(ExecuteError::InvalidCommand),
            Option::Some(mut es) => {
                if es.len() != 4 {
                    return Result::Err(ExecuteError::InvalidArgument);
                }
                let v = es.remove(3);
                let ff = es.remove(2);
                let kf = es.remove(1);
                match (kf, ff) {
                    (RespFrame::BulkString(kb), RespFrame::BulkString(fb)) => match (
                        kb.0,
                        fb.0,
                    ) {
                        (Option::Some(k), Option::Some(f)) => {
                            if !is_valid_utf8(k.as_slice()) {
                                Result::Err(ExecuteError::FromUtf8Error)
                            } else if !is_valid_utf8(f.as_slice()) {
                                Result::Err(ExecuteError::FromUtf8Error)
                            } else {
                                Result::Ok(HSetCommand { key: k, field: f, value: v })
                            }
                        },
                        _ => Result::Err(ExecuteError::InvalidCommand),
                    },
                    _ => Result::Err(ExecuteError::InvalidCommand),
                }
            },
        }
    }
}

impl CommandExecutor for HSetCommand {
    open spec fn cmd_wf(self) -> bool {
        wf(fview(self.value)) && self.field@.len() <= 0x7fff_ffff_ffff_ffff
    }

    open spec fn exec_spec(self, s: StoreV) -> (FrameV, StoreV) {
        (
            FrameV::SimpleString(seq![79u8, 75u8]),
            StoreV {
                strings: s.strings,
                hashes: assoc_set(
                    s.hashes,
                    self.key@,
                    assoc_set(
                        match assoc_get(s.hashes, self.key@) {
                            Option::Some(inner) => inner,
                            Option::None => Seq::empty(),
                        },
                        self.field@,
                        fview(self.value),
                    ),
                ),
                sets: s.sets,
            },
        )
    }

    fn execute(self, backend: &mut Backend) -> (r: RespFrame) {
        let HSetCommand { key, field, value } = self;
        backend.hset(key.as_slice(), field.as_slice(), value);
        ok_frame()
    }
}

/// The HGETALL reply body: for each entry, the field name as a bulk
/// string and then the stored value.
pub open spec fn hgetall_reply(inner: Seq<(Seq<u8>, FrameV)>) -> Seq<FrameV> {
    Seq::new(
        2 * inner.len(),
        |i: int|
            if i % 2 == 0 {
                FrameV::BulkString(Option::Some(inner[i / 2].0))
            } else {
                inner[i / 2].1
            },
    )
}

impl HGetAllCommand {
    /// Parse an HGETALL request from its array frame.
    pub fn try_from(arr: RespArray) -> (r: Result<Self, ExecuteError>)
        ensures
            match r {
                Result::Ok(c) => hgetall_try_spec(arr@) == Result::Ok::<Seq<u8>, ExecuteError>(
                    c.key@,
                ),
                Result::Err(e) => hgetall_try_spec(arr@) == Result::Err::<Seq<u8>, ExecuteError>(
                    e,
                ),
            },
    {
        broadcast use lemma_fview_seq_len, lemma_fview_seq_index;

        match arr.0 {
            Option::None => Result::Err(ExecuteError::InvalidCommand),
            Option::Some(mut es) => {
                if es.len() != 2 {
                    return Result::Err(ExecuteError::InvalidArgument);
                }
                let f = es.remove(1);
                match f {
                    RespFrame::BulkString(b) => match b.0 {
                        Option::Some(k) => {
                            if is_valid_utf8(k.as_slice()) {
                                Result::Ok(HGetAllCommand { key: k })
                            } else {
                                Result::Err(ExecuteError::FromUtf8Error)
                            }
                        },
                        Option::None => Result::Err(ExecuteError::InvalidCommand),
                    },
                    _ => Result::Err(ExecuteError::InvalidCommand),
                }
            },
        }
    }
}

impl CommandExecutor for HGetAllCommand {
    open spec fn cmd_wf(self) -> bool {
        true
    }

    open spec fn exec_spec(self, s: StoreV) -> (FrameV, StoreV) {
        (
            match assoc_get(s.hashes, self.key@) {
                Option::None => FrameV::Null,
                Option::Some(inner) => if inner.len() > 0x3fff_ffff_ffff_ffff {
                    FrameV::Error(
                        seq![104u8, 97u8, 115u8, 104u8, 32u8, 116u8, 111u8, 111u8, 32u8, 108u8, 97u8, 114u8, 103u8, 101u8],
                    )
                } else {
                    FrameV::Array(Option::Some(hgetall_reply(inner)))
                },
            },
            s,
        )
    }

    fn execute(self, backend: &mut Backend) -> (r: RespFrame) {
        broadcast use lemma_fview_seq_len, lemma_fview_seq_index, crate::backend::lemma_kvs_view_len, crate::backend::lemma_kvs_view_index;

        match backend.hgetall(self.key.as_slice()) {
            Option::None => null_frame(),
            Option::Some(entries) => {
                let ghost inner = crate::backend::kvs_view(entries@);
                if (entries.len() as u64) > 0x3fff_ffff_ffff_ffff {
                    let msg: [u8; 14] = [
                        104u8,
                        97u8,
                        115u8,
                        104u8,
                        32u8,
                        116u8,
                        111u8,
                        111u8,
                        32u8,
                        108u8,
                        97u8,
                        114u8,
                        103u8,
                        101u8,
                    ];
                    let f = RespFrame::Error(RespSimpleError(slice_to_vec(msg.as_slice())));
                    proof {
                        assert(msg@ =~= seq![
                            104u8, 97u8, 115u8, 104u8, 32u8, 116u8, 111u8, 111u8, 32u8, 108u8,
                            97u8, 114u8, 103u8, 101u8,
                        ]);
                        assert forall|l: int| !crate::resp::wire::has_crlf_at(msg@, l) by {
                            if 0 <= l && l + 2 <= msg@.len() {
                                assert(msg@[l] != 13u8);
                            }
                        }
                    }
                    f
                } else {
                    let mut out: Vec<RespFrame> = Vec::new();
                    let mut i: usize = 0;
                    while i < entries.len()
                        invariant
                            i <= entries@.len(),
                            out@.len() == 2 * i,
                            inner == crate::backend::kvs_view(entries@),
                            inner.len() == entries@.len(),
                            forall|l: int|
                                0 <= l < entries@.len() ==> #[trigger] inner[l] == (
                                    entries@[l].0@,
                                    fview(entries@[l].1),
                                ),
                            forall|l: int|
                                0 <= l < 2 * i ==> fview(#[trigger] out@[l]) == hgetall_reply(
                                    inner,
                                )[l],
                        decreases entries@.len() - i,
                    {
                        let kc = slice_to_vec(entries[i].0.as_slice());
                        out.push(RespFrame::BulkString(RespBulkString(Option::Some(kc))));
                        let vc = crate::resp::frame::clone_frame(&entries[i].1);
                        out.push(vc);
                        proof {
                            assert(hgetall_reply(inner)[2 * i as int] == FrameV::BulkString(
                                Option::Some(inner[i as int].0),
                            ));
                            assert(hgetall_reply(inner)[2 * i + 1] == inner[i as int].1);
                        }
                        i = i + 1;
                    }
                    let f = RespFrame::Array(crate::resp::array::RespArray(Option::Some(out)));
                    proof {
                        assert(fview_seq(out@) =~= hgetall_reply(inner));
                        lemma_wf_all_iff(hgetall_reply(inner));
                        assert forall|l: int| 0 <= l < hgetall_reply(inner).len() implies wf(
                            #[trigger] hgetall_reply(inner)[l],
                        ) by {
                            let e = l / 2;
                            assert(0 <= e < inner.len());
                        }
                    }
                    f
                }
            },
        }
    }
}

impl HmgetCommand {
    /// Parse an HMGET request from its array frame.
    pub fn try_from(arr: RespArray) -> (r: Result<Self, ExecuteError>)
        ensures
            match r {
                Result::Ok(c) => {
                    &&& hmget_try_spec(arr@) == Result::Ok::<(Seq<u8>, Seq<Seq<u8>>),
                        ExecuteError,
                    >((c.key@, vv_view(c.fields@)))
                    &&& arr@ matches Option::Some(es) && c.fields@.len() + 2 == es.len()
                },
                Result::Err(e) => hmget_try_spec(arr@) == Result::Err::<
                    (Seq<u8>, Seq<Seq<u8>>),
                    ExecuteError,
                >(e),
            },
    {
        broadcast use lemma_fview_seq_len, lemma_fview_seq_index, lemma_vv_view_len, lemma_vv_view_index;

        match arr.0 {
            Option::None => Result::Err(ExecuteError::InvalidCommand),
            Option::Some(es) => {
                let ghost esv = fview_seq(es@);
                if es.len() < 3 {
                    return Result::Err(ExecuteError::InvalidArgument);
                }
                let mut all: Vec<Vec<u8>> = Vec::new();
                let mut i: usize = 1;
                proof {
                    assert(vv_view(all@) =~= Seq::<Seq<u8>>::empty());
                    match parse_bulks(esv, 1) {
                        Result::Ok(rest) => {
                            assert(vv_view(all@) + rest =~= rest);
                        },
                        Result::Err(_) => {},
                    }
                }
                while i < es.len()
                    invariant
                        1 <= i <= es@.len(),
                        3 <= es@.len(),
                        arr@ == Option::Some(esv),
                        esv == fview_seq(es@),
                        esv.len() == es@.len(),
                        all@.len() == i - 1,
                        match parse_bulks(esv, i as int) {
                            Result::Ok(rest) => parse_bulks(esv, 1) == Result::Ok::<
                                Seq<Seq<u8>>,
                                ExecuteError,
                            >(vv_view(all@) + rest),
                            Result::Err(e) => parse_bulks(esv, 1) == Result::Err::<
                                Seq<Seq<u8>>,
                                ExecuteError,
                            >(e),
                        },
                    decreases es@.len() - i,
                {
                    broadcast use lemma_fview_seq_len, lemma_fview_seq_index, lemma_vv_view_len, lemma_vv_view_index;

                    match &es[i] {
                        RespFrame::BulkString(b) => match &b.0 {
                            Option::Some(k) => {
                                if is_valid_utf8(k.as_slice()) {
                                    let kc = slice_to_vec(k.as_slice());
                                    proof {
                                        assert(vv_view(all@.push(kc)) =~= vv_view(all@) + seq![
                                            kc@,
                                        ]) by {
                                            lemma_vv_view_len(all@.push(kc));
                                            assert forall|l: int|
                                                0 <= l < all@.len() + 1 implies vv_view(
                                                all@.push(kc),
                                            )[l] == (vv_view(all@) + seq![kc@])[l] by {
                                                if l < all@.len() {
                                                    assert(all@.push(kc)[l] == all@[l]);
                                                } else {
                                                    assert(all@.push(kc)[l] == kc);
                                                }
                                            }
                                        }
                                        match parse_bulks(esv, i + 1) {
                                            Result::Ok(rest) => {
                                                assert((vv_view(all@) + (seq![kc@] + rest)) =~= (
                                                vv_view(all@.push(kc)) + rest));
                                            },
                                            Result::Err(_) => {},
                                        }
                                    }
                                    all.push(kc);
                                } else {
                                    return Result::Err(ExecuteError::FromUtf8Error);
                                }
                            },
                            Option::None => {
                                return Result::Err(ExecuteError::InvalidCommand);
                            },
                        },
                        _ => {
                            return Result::Err(ExecuteError::InvalidCommand);
                        },
                    }
                    i = i + 1;
                }
                proof {
                    assert(parse_bulks(esv, i as int) == Result::Ok::<Seq<Seq<u8>>, ExecuteError>(
                        Seq::empty(),
                    ));
                    assert(vv_view(all@) + Seq::<Seq<u8>>::empty() =~= vv_view(all@));
                }
                let ghost allv = vv_view(all@);
                let key = all.remove(0);
                proof {
                    assert(vv_view(all@) =~= allv.drop_first());
                    assert(key@ == allv[0]);
                }
                Result::Ok(HmgetCommand { key, fields: all })
            },
        }
    }
}

impl CommandExecutor for HmgetCommand {
    open spec fn cmd_wf(self) -> bool {
        self.fields@.len() <= 0x7fff_ffff_ffff_ffff
    }

    open spec fn exec_spec(self, s: StoreV) -> (FrameV, StoreV) {
        (
            FrameV::Array(
                Option::Some(
                    Seq::new(
                        self.fields@.len(),
                        |i: int| hm_lookup(s.hashes, self.key@, vv_view(self.fields@)[i]),
                    ),
                ),
            ),
            s,
        )
    }

    fn execute(self, backend: &mut Backend) -> (r: RespFrame) {
        broadcast use lemma_fview_seq_len, lemma_fview_seq_index, lemma_vv_view_len, lemma_vv_view_index;

        let out = backend.hmget(self.key.as_slice(), &self.fields);
        let ghost replies = Seq::new(
            self.fields@.len(),
            |i: int| hm_lookup(backend@.hashes, self.key@, vv_view(self.fields@)[i]),
        );
        proof {
            assert(fview_seq(out@) =~= replies);
            lemma_wf_all_iff(replies);
        }
        RespFrame::Array(crate::resp::array::RespArray(Option::Some(out)))
    }
}

} // verus!
