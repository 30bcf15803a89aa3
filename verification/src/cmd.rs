//! The typed command vocabulary: each supported request is parsed from a
//! top-level array frame into a typed command, and executing a command
//! against the store produces the reply frame.
#![allow(unused_imports)]

pub mod echo;
pub mod hmap;
pub mod map;
pub mod set;

use vstd::prelude::*;
use vstd::utf8::{
    is_continuation_byte, is_leading_byte_width_1, is_leading_byte_width_2,
    is_leading_byte_width_3, is_leading_byte_width_4, valid_first_scalar, valid_utf8,
};

use crate::backend::{store_wf, Backend, StoreV};
use crate::resp::frame::{fview, RespFrame};
use crate::resp::wire::{wf, FrameV};

verus! {

/// The ways a request fails at the command level.
#[derive(Debug, Clone, Copy, PartialEq, Eq, Structural)]
pub enum ExecuteError {
    /// The request has the wrong shape: no array, or a non-bulk frame
    /// where a bulk string is required.
    InvalidCommand,
    /// The command name is known but the argument count is wrong.
    InvalidArgument,
    /// Bytes that must be UTF-8 text (a key or a field) are not.
    FromUtf8Error,
}

/// Whether `bytes` is valid UTF-8, checked against the standard
/// byte-level description of the encoding.
pub fn is_valid_utf8(bytes: &[u8]) -> (r: bool)
    ensures
        r == valid_utf8(bytes@),
{
    let n = bytes.len();
    let mut i: usize = 0;
    proof {
        assert(bytes@.skip(0int) =~= bytes@);
    }
    while i < n
        invariant
            i <= n,
            n == bytes@.len(),
            valid_utf8(bytes@) <==> valid_utf8(bytes@.skip(i as int)),
        decreases n - i,
    {
        let ghost s = bytes@.skip(i as int);
        proof {
            assert(s.len() == n - i);
            assert(s[0] == bytes@[i as int]);
        }
        let b0 = bytes[i];
        let width: usize = if b0 <= 0x7f {
            1
        } else if 0xc0 <= b0 && b0 <= 0xdf {
            2
        } else if 0xe0 <= b0 && b0 <= 0xef {
            3
        } else if 0xf0 <= b0 && b0 <= 0xf7 {
            4
        } else {
            proof {
                assert(!valid_first_scalar(s));
            }
            return false;
        };
        if n - i < width {
            proof {
                assert(!valid_first_scalar(s));
            }
            return false;
        }
        if width >= 2 {
            proof {
                assert(s[1] == bytes@[i + 1]);
            }
            let b1 = bytes[i + 1];
            if !(0x80 <= b1 && b1 <= 0xbf) {
                proof {
                    assert(!valid_first_scalar(s));
                }
                return false;
            }
            if width == 2 {
                let cp: u32 = (((b0 & 0x1f) as u32) << 6u32) | ((b1 & 0x3f) as u32);
                proof {
                    assert(cp <= 0x7ff) by (bit_vector)
                        requires
                            cp == (((b0 & 0x1f) as u32) << 6u32) | ((b1 & 0x3f) as u32),
                    ;
                }
                if cp < 0x80 {
                    proof {
                        assert(!valid_first_scalar(s));
                    }
                    return false;
                }
            }
        }
        if width >= 3 {
            proof {
                assert(s[2] == bytes@[i + 2]);
            }
            let b1 = bytes[i + 1];
            let b2 = bytes[i + 2];
            if !(0x80 <= b2 && b2 <= 0xbf) {
                proof {
                    assert(!valid_first_scalar(s));
                }
                return false;
            }
            if width == 3 {
                let cp: u32 = (((b0 & 0x0f) as u32) << 12u32) | (((b1 & 0x3f) as u32) << 6u32) | (
                (b2 & 0x3f) as u32);
                if cp < 0x800 || (0xd800 <= cp && cp <= 0xdfff) {
                    proof {
                        assert(!valid_first_scalar(s));
                    }
                    return false;
                }
            }
        }
        if width == 4 {
            proof {
                assert(s[3] == bytes@[i + 3]);
            }
            let b1 = bytes[i + 1];
            let b2 = bytes[i + 2];
            let b3 = bytes[i + 3];
            if !(0x80 <= b3 && b3 <= 0xbf) {
                proof {
                    assert(!valid_first_scalar(s));
                }
                return false;
            }
            let cp: u32 = (((b0 & 0x07) as u32) << 18u32) | (((b1 & 0x3f) as u32) << 12u32) | (((b2
                & 0x3f) as u32) << 6u32) | ((b3 & 0x3f) as u32);
            if !(0x10000 <= cp && cp <= 0x10ffff) {
                proof {
                    assert(!valid_first_scalar(s));
                }
                return false;
            }
        }
        proof {
            if width == 1 {
                assert((b0 & 0x7f) < 0x80) by (bit_vector);
            }
            assert(valid_first_scalar(s));
            assert(vstd::utf8::pop_first_scalar(s) =~= bytes@.skip(i + width));
        }
        i = i + width;
    }
    proof {
        assert(bytes@.skip(i as int) =~= Seq::<u8>::empty());
    }
    true
}

/// A byte lowered as ASCII.
pub open spec fn lower_byte(b: u8) -> u8 {
    if 65 <= b <= 90 {
        (b + 32) as u8
    } else {
        b
    }
}

/// A byte string lowered as ASCII.
pub open spec fn lower_bytes(s: Seq<u8>) -> Seq<u8> {
    Seq::new(s.len(), |i: int| lower_byte(s[i]))
}

/// Whether the ASCII-lowered `name` equals the (already lower-case)
/// literal `lit`.
pub fn name_matches(name: &Vec<u8>, lit: &[u8]) -> (r: bool)
    ensures
        r == (lower_bytes(name@) == lit@),
{
    if name.len() != lit.len() {
        proof {
            assert(lower_bytes(name@).len() == name@.len());
        }
        return false;
    }
    let mut i: usize = 0;
    while i < name.len()
        invariant
            i <= name@.len(),
            name@.len() == lit@.len(),
            forall|l: int| 0 <= l < i ==> lower_byte(name@[l]) == lit@[l],
        decreases name@.len() - i,
    {
        let b = name[i];
        let low: u8 = if 65 <= b && b <= 90 {
            b + 32
        } else {
            b
        };
        if low != lit[i] {
            proof {
                assert(lower_bytes(name@)[i as int] != lit@[i as int]);
            }
            return false;
        }
        i = i + 1;
    }
    proof {
        assert(lower_bytes(name@) =~= lit@);
    }
    true
}

/// Whether the bytes hold a CRLF pair.
pub fn has_crlf_pair(bytes: &Vec<u8>) -> (r: bool)
    ensures
        r == !crate::resp::wire::no_crlf(bytes@),
{
    let mut i: usize = 0;
    while i < bytes.len() && i + 1 < bytes.len()
        invariant
            i <= bytes@.len(),
            forall|l: int| !(0 <= l < i && crate::resp::wire::has_crlf_at(bytes@, l)),
        decreases bytes@.len() - i,
    {
        if bytes[i] == 13 && bytes[i + 1] == 10 {
            proof {
                assert(crate::resp::wire::has_crlf_at(bytes@, i as int));
            }
            return true;
        }
        i = i + 1;
    }
    proof {
        assert forall|l: int| !crate::resp::wire::has_crlf_at(bytes@, l) by {
            if 0 <= l && l + 2 <= bytes@.len() {
                assert(l < i);
            }
        }
    }
    false
}

/// The `+OK\r\n` reply.
pub fn ok_frame() -> (r: RespFrame)
    ensures
        fview(r) == FrameV::SimpleString(seq![79u8, 75u8]),
        wf(fview(r)),
{
    let s: [u8; 2] = [79u8, 75u8];
    let f = RespFrame::SimpleString(
        crate::resp::simple_string::RespSimpleString(vstd::slice::slice_to_vec(s.as_slice())),
    );
    proof {
        assert(fview(f) == FrameV::SimpleString(seq![79u8, 75u8])) by {
            assert(s@ =~= seq![79u8, 75u8]);
        }
        assert forall|l: int| !crate::resp::wire::has_crlf_at(seq![79u8, 75u8], l) by {}
    }
    f
}

/// The `_\r\n` reply.
pub fn null_frame() -> (r: RespFrame)
    ensures
        fview(r) == FrameV::Null,
        wf(fview(r)),
{
    RespFrame::Null(crate::resp::null::RespNull)
}

/// A parsed request, ready to execute.
#[derive(Debug)]
pub enum Command {
    Get(crate::cmd::map::GetCommand),
    SetCmd(crate::cmd::map::SetCommand),
    HGet(crate::cmd::hmap::HGetCommand),
    HSet(crate::cmd::hmap::HSetCommand),
    HGetAll(crate::cmd::hmap::HGetAllCommand),
    ECHO(crate::cmd::echo::ECHOCommand),
    Hmget(crate::cmd::hmap::HmgetCommand),
    Sadd(crate::cmd::set::SaddCommand),
    SisMember(crate::cmd::set::SismemberCommand),
}

/// Executing a command against the store: the reply frame and the new
/// store state are a function of the command and the old state.
pub trait CommandExecutor: Sized {
    /// The frames the command carries are well formed.
    spec fn cmd_wf(self) -> bool;

    /// The reply and the store state the command produces.
    spec fn exec_spec(self, s: StoreV) -> (FrameV, StoreV);

    /// Run the command against the store and produce the reply frame.
    fn execute(self, backend: &mut Backend) -> (r: RespFrame)
        requires
            self.cmd_wf(),
            store_wf(old(backend)@),
        ensures
            fview(r) == self.exec_spec(old(backend)@).0,
            final(backend)@ == self.exec_spec(old(backend)@).1,
            wf(fview(r)),
            store_wf(final(backend)@),
    ;
}

} // verus!
