//! The set-keyspace commands: `SADD key member` and `SISMEMBER key
//! member`.
#![allow(unused_imports)]

use vstd::prelude::*;
use vstd::utf8::valid_utf8;

use crate::backend::{assoc_set, set_members, store_wf, Backend, StoreV};
use crate::cmd::{is_valid_utf8, CommandExecutor, ExecuteError};
use crate::resp::array::RespArray;
use crate::resp::frame::{
    fview, fview_seq, lemma_fview_seq_index, lemma_fview_seq_len, RespFrame,
};
use crate::resp::order::sorted_insert_frame;
use crate::resp::wire::{wf, FrameV};

verus! {

/// `SADD key member`.
#[derive(Debug)]
pub struct SaddCommand {
    pub key: Vec<u8>,
    pub member: RespFrame,
}

/// `SISMEMBER key member`.
#[derive(Debug)]
pub struct SismemberCommand {
    pub key: Vec<u8>,
    pub member: RespFrame,
}

/// What parsing a key-and-member request yields: the key and the member
/// frame, or the exact failure.
pub open spec fn key_member_try_spec(arr: Option<Seq<FrameV>>) -> Result<
    (Seq<u8>, FrameV),
    ExecuteError,
> {
    match arr {
        Option::None => Result::Err(ExecuteError::InvalidCommand),
        Option::Some(es) => if es.len() != 3 {
            Result::Err(ExecuteError::InvalidArgument)
        } else {
            match es[1] {
                FrameV::BulkString(Option::Some(k)) => if valid_utf8(k) {
                    Result::Ok((k, es[2]))
                } else {
                    Result::Err(ExecuteError::FromUtf8Error)
                },
                _ => Result::Err(ExecuteError::InvalidCommand),
            }
        },
    }
}

impl SaddCommand {
    /// Parse an SADD request from its array frame.
    pub fn try_from(arr: RespArray) -> (r: Result<Self, ExecuteError>)
        ensures
            match r {
                Result::Ok(c) => key_member_try_spec(arr@) == Result::Ok::<(Seq<u8>, FrameV),
                    ExecuteError,
                >((c.key@, fview(c.member))),
                Result::Err(e) => key_member_try_spec(arr@) == Result::Err::<(Seq<u8>, FrameV),
                    ExecuteError,
                >(e),
            },
    {
        broadcast use lemma_fview_seq_len, lemma_fview_seq_index;

        match arr.0 {
            Option::None => Result::Err(ExecuteError::InvalidCommand),
            Option::Some(mut es) => {
                if es.len() != 3 {
                    return Result::Err(ExecuteError::InvalidArgument);
                }
                let m = es.remove(2);
                let f = es.remove(1);
                match f {
                    RespFrame::BulkString(b) => match b.0 {
                        Option::Some(k) => {
                            if is_valid_utf8(k.as_slice()) {
                                Result::Ok(SaddCommand { key: k, member: m })
                            } else {
                                Result::Err(ExecuteError::FromUtf8Error)
                            }
                        },
                        Option::None => Result::Err(ExecuteError::InvalidCommand),
                    },
                    _ => Result::Err(ExecuteError::InvalidCommand),
                }
            },
        }
    }
}

impl CommandExecutor for SaddCommand {
    open spec fn cmd_wf(self) -> bool {
        wf(fview(self.member))
    }

    open spec fn exec_spec(self, s: StoreV) -> (FrameV, StoreV) {
        let cur = set_members(s.sets, self.key@);
        if cur.contains(fview(self.member)) {
            (FrameV::Integer(0), s)
        } else {
            (
                FrameV::Integer(1),
                StoreV {
                    strings: s.strings,
                    hashes: s.hashes,
                    sets: assoc_set(
                        s.sets,
                        self.key@,
                        sorted_insert_frame(cur, fview(self.member)),
                    ),
                },
            )
        }
    }

    fn execute(self, backend: &mut Backend) -> (r: RespFrame) {
        let SaddCommand { key, member } = self;
        let n = backend.sadd(key.as_slice(), member);
        RespFrame::Integer(n)
    }
}

impl SismemberCommand {
    /// Parse a SISMEMBER request from its array frame.
    pub fn try_from(arr: RespArray) -> (r: Result<Self, ExecuteError>)
        ensures
            match r {
                Result::Ok(c) => key_member_try_spec(arr@) == Result::Ok::<(Seq<u8>, FrameV),
                    ExecuteError,
                >((c.key@, fview(c.member))),
                Result::Err(e) => key_member_try_spec(arr@) == Result::Err::<(Seq<u8>, FrameV),
                    ExecuteError,
                >(e),
            },
    {
        broadcast use lemma_fview_seq_len, lemma_fview_seq_index;

        match arr.0 {
            Option::None => Result::Err(ExecuteError::InvalidCommand),
            Option::Some(mut es) => {
                if es.len() != 3 {
                    return Result::Err(ExecuteError::InvalidArgument);
                }
                let m = es.remove(2);
                let f = es.remove(1);
                match f {
                    RespFrame::BulkString(b) => match b.0 {
                        Option::Some(k) => {
                            if is_valid_utf8(k.as_slice()) {
                                Result::Ok(SismemberCommand { key: k, member: m })
                            } else {
                                Result::Err(ExecuteError::FromUtf8Error)
                            }
                        },
                        Option::None => Result::Err(ExecuteError::InvalidCommand),
                    },
                    _ => Result::Err(ExecuteError::InvalidCommand),
                }
            },
        }
    }
}

impl CommandExecutor for SismemberCommand {
    open spec fn cmd_wf(self) -> bool {
        true
    }

    open spec fn exec_spec(self, s: StoreV) -> (FrameV, StoreV) {
        (
            FrameV::Integer(
                if set_members(s.sets, self.key@).contains(fview(self.member)) {
                    1
                } else {
                    0
                },
            ),
            s,
        )
    }

    fn execute(self, backend: &mut Backend) -> (r: RespFrame) {
        let n = backend.sismember(self.key.as_slice(), &self.member);
        RespFrame::Integer(n)
    }
}

} // verus!
