//! `ECHO message`: reply with the message verbatim.
#![allow(unused_imports)]

use vstd::prelude::*;

use crate::backend::{Backend, StoreV};
use crate::cmd::{CommandExecutor, ExecuteError};
use crate::resp::array::RespArray;
use crate::resp::frame::{
    fview, fview_seq, lemma_fview_seq_index, lemma_fview_seq_len, RespFrame,
};
use crate::resp::wire::{wf, FrameV};

verus! {

/// `ECHO message`.
#[derive(Debug)]
pub struct ECHOCommand {
    pub mirror: RespFrame,
}

/// What parsing an ECHO request yields: the message frame, or the exact
/// failure.
pub open spec fn echo_try_spec(arr: Option<Seq<FrameV>>) -> Result<FrameV, ExecuteError> {
    match arr {
        Option::None => Result::Err(ExecuteError::InvalidCommand),
        Option::Some(es) => if es.len() != 2 {
            Result::Err(ExecuteError::InvalidArgument)
        } else {
            Result::Ok(es[1])
        },
    }
}

impl ECHOCommand {
    /// Parse an ECHO request from its array frame.
    pub fn try_from(arr: RespArray) -> (r: Result<Self, ExecuteError>)
        ensures
            match r {
                Result::Ok(c) => echo_try_spec(arr@) == Result::Ok::<FrameV, ExecuteError>(
                    fview(c.mirror),
                ),
                Result::Err(e) => echo_try_spec(arr@) == Result::Err::<FrameV, ExecuteError>(e),
            },
    {
        broadcast use lemma_fview_seq_len, lemma_fview_seq_index;

        match arr.0 {
            Option::None => Result::Err(ExecuteError::InvalidCommand),
            Option::Some(mut es) => {
                if es.len() != 2 {
                    return Result::Err(ExecuteError::InvalidArgument);
                }
                let f = es.remove(1);
                Result::Ok(ECHOCommand { mirror: f })
            },
        }
    }
}

impl CommandExecutor for ECHOCommand {
    open spec fn cmd_wf(self) -> bool {
        wf(fview(self.mirror))
    }

    open spec fn exec_spec(self, s: StoreV) -> (FrameV, StoreV) {
        (fview(self.mirror), s)
    }

    fn execute(self, backend: &mut Backend) -> (r: RespFrame) {
        self.mirror
    }
}

} // verus!
