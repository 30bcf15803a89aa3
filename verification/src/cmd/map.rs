//! The string-keyspace commands: `GET key` and `SET key value`.
#![allow(unused_imports)]

use vstd::prelude::*;
use vstd::utf8::valid_utf8;

use crate::backend::{assoc_get, assoc_set, store_wf, Backend, StoreV};
use crate::cmd::{is_valid_utf8, null_frame, ok_frame, CommandExecutor, ExecuteError};
use crate::resp::array::RespArray;
use crate::resp::frame::{
    fview, fview_seq, lemma_fview_seq_index, lemma_fview_seq_len, RespFrame,
};
use crate::resp::wire::{wf, FrameV};

verus! {

/// `GET key`: read the value stored under a key.
#[derive(Debug)]
pub struct GetCommand {
    pub key: Vec<u8>,
}

/// `SET key value`: overwrite the value stored under a key.
#[derive(Debug)]
pub struct SetCommand {
    pub key: Vec<u8>,
    pub value: RespFrame,
}

/// What parsing a GET request from the array payload yields: the key, or
/// the exact failure.
pub open spec fn get_try_spec(arr: Option<Seq<FrameV>>) -> Result<Seq<u8>, ExecuteError> {
    match arr {
        Option::None => Result::Err(ExecuteError::InvalidCommand),
        Option::Some(es) => if es.len() != 2 {
            Result::Err(ExecuteError::InvalidArgument)
        } else {
            match es[1] {
                FrameV::BulkString(Option::Some(k)) => if valid_utf8(k) {
                    Result::Ok(k)
                } else {
                    Result::Err(ExecuteError::FromUtf8Error)
                },
                _ => Result::Err(ExecuteError::InvalidCommand),
            }
        },
    }
}

/// What parsing a SET request yields: the key and the value frame, or the
/// exact failure.
pub open spec fn set_try_spec(arr: Option<Seq<FrameV>>) -> Result<
    (Seq<u8>, FrameV),
    ExecuteError,
> {
    match arr {
        Option::None => Result::Err(ExecuteError::InvalidCommand),
        Option::Some(es) => if es.len() != 3 {
            Result::Err(ExecuteError::InvalidArgument)
        } else {
            match es[1] {
                FrameV::BulkString(Option::Some(k)) => if valid_utf8(k) {
                    Result::Ok((k, es[2]))
                } else {
                    Result::Err(ExecuteError::FromUtf8Error)
                },
                _ => Result::Err(ExecuteError::InvalidCommand),
            }
        },
    }
}

impl GetCommand {
    /// Parse a GET request from its array frame.
    pub fn try_from(arr: RespArray) -> (r: Result<Self, ExecuteError>)
        ensures
            match r {
                Result::Ok(c) => get_try_spec(arr@) == Result::Ok::<Seq<u8>, ExecuteError>(
                    c.key@,
                ),
                Result::Err(e) => get_try_spec(arr@) == Result::Err::<Seq<u8>, ExecuteError>(e),
            },
    {
        broadcast use lemma_fview_seq_len, lemma_fview_seq_index;

        match arr.0 {
            Option::None => Result::Err(ExecuteError::InvalidCommand),
            Option::Some(mut es) => {
                if es.len() != 2 {
                    return Result::Err(ExecuteError::InvalidArgument);
                }
                let f = es.remove(1);
                match f {
                    RespFrame::BulkString(b) => match b.0 {
                        Option::Some(k) => {
                            if is_valid_utf8(k.as_slice()) {
                                Result::Ok(GetCommand { key: k })
                            } else {
                                Result::Err(ExecuteError::FromUtf8Error)
                            }
                        },
                        Option::None => Result::Err(ExecuteError::InvalidCommand),
                    },
                    _ => Result::Err(ExecuteError::InvalidCommand),
                }
            },
        }
    }
}

impl CommandExecutor for GetCommand {
    open spec fn cmd_wf(self) -> bool {
        true
    }

    open spec fn exec_spec(self, s: StoreV) -> (FrameV, StoreV) {
        (
            match assoc_get(s.strings, self.key@) {
                Option::None => FrameV::Null,
                Option::Some(v) => v,
            },
            s,
        )
    }

    fn execute(self, backend: &mut Backend) -> (r: RespFrame) {
        match backend.get(self.key.as_slice()) {
            Option::None => null_frame(),
            Option::Some(v) => v,
        }
    }
}

impl SetCommand {
    /// Parse a SET request from its array frame.
    pub fn try_from(arr: RespArray) -> (r: Result<Self, ExecuteError>)
        ensures
            match r {
                Result::Ok(c) => set_try_spec(arr@) == Result::Ok::<(Seq<u8>, FrameV),
                    ExecuteError,
                >((c.key@, fview(c.value))),
                Result::Err(e) => set_try_spec(arr@) == Result::Err::<(Seq<u8>, FrameV),
                    ExecuteError,
                >(e),
            },
    {
        broadcast use lemma_fview_seq_len, lemma_fview_seq_index;

        match arr.0 {
            Option::None => Result::Err(ExecuteError::InvalidCommand),
            Option::Some(mut es) => {
                if es.len() != 3 {
                    return Result::Err(ExecuteError::InvalidArgument);
                }
                let v = es.remove(2);
                let f = es.remove(1);
                match f {
                    RespFrame::BulkString(b) => match b.0 {
                        Option::Some(k) => {
                            if is_valid_utf8(k.as_slice()) {
                                Result::Ok(SetCommand { key: k, value: v })
                            } else {
                                Result::Err(ExecuteError::FromUtf8Error)
                            }
                        },
                        Option::None => Result::Err(ExecuteError::InvalidCommand),
                    },
                    _ => Result::Err(ExecuteError::InvalidCommand),
                }
            },
        }
    }
}

impl CommandExecutor for SetCommand {
    open spec fn cmd_wf(self) -> bool {
        wf(fview(self.value))
    }

    open spec fn exec_spec(self, s: StoreV) -> (FrameV, StoreV) {
        (
            FrameV::SimpleString(seq![79u8, 75u8]),
            StoreV {
                strings: assoc_set(s.strings, self.key@, fview(self.value)),
                hashes: s.hashes,
                sets: s.sets,
            },
        )
    }

    fn execute(self, backend: &mut Backend) -> (r: RespFrame) {
        let SetCommand { key, value } = self;
        backend.set(key.as_slice(), value);
        ok_frame()
    }
}

} // verus!
