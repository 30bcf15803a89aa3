//! Request dispatch: route a request frame to the right command parser and
//! executor, and produce the reply frame.
#![allow(unused_imports)]

pub mod codec;

use vstd::prelude::*;
use vstd::slice::slice_to_vec;

use crate::backend::{store_wf, Backend, StoreV};
use crate::cmd::echo::{echo_try_spec, ECHOCommand};
use crate::cmd::hmap::{
    hgetall_try_spec, hmget_try_spec, hset_try_spec, key_field_try_spec, vv_view, HGetAllCommand,
    HGetCommand, HSetCommand, HmgetCommand,
};
use crate::cmd::map::{get_try_spec, set_try_spec, GetCommand, SetCommand};
use crate::cmd::set::{key_member_try_spec, SaddCommand, SismemberCommand};
use crate::cmd::{
    has_crlf_pair, lower_bytes, name_matches, CommandExecutor, ExecuteError,
};
use crate::resp::array::RespArray;
use crate::resp::frame::{
    fview, fview_seq, lemma_fview_seq_index, lemma_fview_seq_len, RespFrame,
};
use crate::resp::simple_string::RespSimpleString;
use crate::resp::wire::{lemma_wf_all_iff, no_crlf, wf, wf_all, FrameV};

verus! {

/// The text in front of an unknown command's name in the reply.
pub open spec fn unknown_prefix() -> Seq<u8> {
    seq![
        117u8, 110u8, 105u8, 109u8, 112u8, 108u8, 101u8, 109u8, 101u8, 110u8, 116u8, 101u8, 100u8,
        32u8, 99u8, 111u8, 109u8, 109u8, 97u8, 110u8, 100u8, 58u8, 32u8,
    ]
}

/// The reply to an unknown command: the name is echoed back after the
/// notice when it is a single line, and left out otherwise.
pub open spec fn unknown_reply(name: Seq<u8>) -> FrameV {
    if no_crlf(name) {
        FrameV::SimpleString(unknown_prefix() + name)
    } else {
        FrameV::SimpleString(unknown_prefix())
    }
}

/// What a request frame does: the reply frame and the new store state, or
/// the failure that closes the connection.  The request must be an array
/// of at least one frame whose first element, a bulk string, names the
/// command case-insensitively; the named parser and the store's semantics
/// do the rest.
pub open spec fn dispatch(f: FrameV, s: StoreV) -> Result<(FrameV, StoreV), ExecuteError> {
    match f {
        FrameV::Array(Option::Some(es)) => {
            if es.len() < 1 {
                Result::Err(ExecuteError::InvalidCommand)
            } else {
                match es[0] {
                    FrameV::BulkString(Option::Some(name)) => {
                        let low = lower_bytes(name);
                        if low == seq![103u8, 101u8, 116u8] {
                            match get_try_spec(Option::Some(es)) {
                                Result::Err(e) => Result::Err(e),
                                Result::Ok(k) => Result::Ok(
                                    (
                                        match crate::backend::assoc_get(s.strings, k) {
                                            Option::None => FrameV::Null,
                                            Option::Some(v) => v,
                                        },
                                        s,
                                    ),
                                ),
                            }
                        } else if low == seq![115u8, 101u8, 116u8] {
                            match set_try_spec(Option::Some(es)) {
                                Result::Err(e) => Result::Err(e),
                                Result::Ok(kv) => Result::Ok(
                                    (
                                        FrameV::SimpleString(seq![79u8, 75u8]),
                                        StoreV {
                                            strings: crate::backend::assoc_set(
                                                s.strings,
                                                kv.0,
                                                kv.1,
                                            ),
                                            hashes: s.hashes,
                                            sets: s.sets,
                                        },
                                    ),
                                ),
                            }
                        } else if low == seq![104u8, 103u8, 101u8, 116u8] {
                            match key_field_try_spec(Option::Some(es)) {
                                Result::Err(e) => Result::Err(e),
                                Result::Ok(kf) => Result::Ok(
                                    (
                                        match crate::backend::hget_spec(s.hashes, kf.0, kf.1) {
                                            Option::None => FrameV::Null,
                                            Option::Some(v) => v,
                                        },
                                        s,
                                    ),
                                ),
                            }
                        } else if low == seq![104u8, 115u8, 101u8, 116u8] {
                            match hset_try_spec(Option::Some(es)) {
                                Result::Err(e) => Result::Err(e),
                                Result::Ok(kfv) => Result::Ok(
                                    (
                                        FrameV::SimpleString(seq![79u8, 75u8]),
                                        StoreV {
                                            strings: s.strings,
                                            hashes: crate::backend::assoc_set(
                                                s.hashes,
                                                kfv.0,
                                                crate::backend::assoc_set(
                                                    match crate::backend::assoc_get(
                                                        s.hashes,
                                                        kfv.0,
                                                    ) {
                                                        Option::Some(inner) => inner,
                                                        Option::None => Seq::empty(),
                                                    },
                                                    kfv.1,
                                                    kfv.2,
                                                ),
                                            ),
                                            sets: s.sets,
                                        },
                                    ),
                                ),
                            }
                        } else if low == seq![
                            104u8,
                            103u8,
                            101u8,
                            116u8,
                            97u8,
                            108u8,
                            108u8,
                        ] {
                            match hgetall_try_spec(Option::Some(es)) {
                                Result::Err(e) => Result::Err(e),
                                Result::Ok(k) => Result::Ok(
                                    (
                                        match crate::backend::assoc_get(s.hashes, k) {
                                            Option::None => FrameV::Null,
                                            Option::Some(inner) => if inner.len()
                                                > 0x3fff_ffff_ffff_ffff {
                                                FrameV::Error(
                                                    seq![
                                                        104u8, 97u8, 115u8, 104u8, 32u8, 116u8,
                                                        111u8, 111u8, 32u8, 108u8, 97u8, 114u8,
                                                        103u8, 101u8,
                                                    ],
                                                )
                                            } else {
                                                FrameV::Array(
                                                    Option::Some(
                                                        crate::cmd::hmap::hgetall_reply(inner),
                                                    ),
                                                )
                                            },
                                        },
                                        s,
                                    ),
                                ),
                            }
                        } else if low == seq![101u8, 99u8, 104u8, 111u8] {
                            match echo_try_spec(Option::Some(es)) {
                                Result::Err(e) => Result::Err(e),
                                Result::Ok(m) => Result::Ok((m, s)),
                            }
                        } else if low == seq![104u8, 109u8, 103u8, 101u8, 116u8] {
                            match hmget_try_spec(Option::Some(es)) {
                                Result::Err(e) => Result::Err(e),
                                Result::Ok(kf) => Result::Ok(
                                    (
                                        FrameV::Array(
                                            Option::Some(
                                                Seq::new(
                                                    kf.1.len(),
                                                    |i: int|
                                                        crate::backend::hm_lookup(
                                                            s.hashes,
                                                            kf.0,
                                                            kf.1[i],
                                                        ),
                                                ),
                                            ),
                                        ),
                                        s,
                                    ),
                                ),
                            }
                        } else if low == seq![115u8, 97u8, 100u8, 100u8] {
                            match key_member_try_spec(Option::Some(es)) {
                                Result::Err(e) => Result::Err(e),
                                Result::Ok(km) => {
                                    let cur = crate::backend::set_members(s.sets, km.0);
                                    if cur.contains(km.1) {
                                        Result::Ok((FrameV::Integer(0), s))
                                    } else {
                                        Result::Ok(
                                            (
                                                FrameV::Integer(1),
                                                StoreV {
                                                    strings: s.strings,
                                                    hashes: s.hashes,
                                                    sets: crate::backend::assoc_set(
                                                        s.sets,
                                                        km.0,
                                                        crate::resp::order::sorted_insert_frame(
                                                            cur,
                                                            km.1,
                                                        ),
                                                    ),
                                                },
                                            ),
                                        )
                                    }
                                },
                            }
                        } else if low == seq![
                            115u8,
                            105u8,
                            115u8,
                            109u8,
                            101u8,
                            109u8,
                            98u8,
                            101u8,
                            114u8,
                        ] {
                            match key_member_try_spec(Option::Some(es)) {
                                Result::Err(e) => Result::Err(e),
                                Result::Ok(km) => Result::Ok(
                                    (
                                        FrameV::Integer(
                                            if crate::backend::set_members(
                                                s.sets,
                                                km.0,
                                            ).contains(km.1) {
                                                1
                                            } else {
                                                0
                                            },
                                        ),
                                        s,
                                    ),
                                ),
                            }
                        } else {
                            Result::Ok((unknown_reply(name), s))
                        }
                    },
                    _ => Result::Err(ExecuteError::InvalidCommand),
                }
            }
        },
        _ => Result::Err(ExecuteError::InvalidCommand),
    }
}

/// Handle one request frame against the store and produce the reply
/// frame; a structurally invalid request yields the error that closes the
/// connection, leaving the store untouched.
pub fn request_handler(frame: RespFrame, backend: &mut Backend) -> (r: Result<
    RespFrame,
    ExecuteError,
>)
    requires
        wf(fview(frame)),
        store_wf(old(backend)@),
    ensures
        match r {
            Result::Ok(rep) => {
                &&& dispatch(fview(frame), old(backend)@) == Result::Ok::<
                    (FrameV, StoreV),
                    ExecuteError,
                >((fview(rep), final(backend)@))
                &&& wf(fview(rep))
                &&& store_wf(final(backend)@)
            },
            Result::Err(e) => {
                &&& dispatch(fview(frame), old(backend)@) == Result::Err::<
                    (FrameV, StoreV),
                    ExecuteError,
                >(e)
                &&& final(backend)@ == old(backend)@
                &&& store_wf(final(backend)@)
            },
        },
{
    broadcast use lemma_fview_seq_len, lemma_fview_seq_index;

    let arr = match frame {
        RespFrame::Array(arr) => arr,
        _ => {
            return Result::Err(ExecuteError::InvalidCommand);
        },
    };
    let ghost esv = match fview(RespFrame::Array(arr)) {
        FrameV::Array(Option::Some(es)) => es,
        _ => Seq::empty(),
    };
    let name: Vec<u8> = match &arr.0 {
        Option::None => {
            return Result::Err(ExecuteError::InvalidCommand);
        },
        Option::Some(es) => {
            if es.len() < 1 {
                return Result::Err(ExecuteError::InvalidCommand);
            }
            match &es[0] {
                RespFrame::BulkString(b) => match &b.0 {
                    Option::Some(nv) => slice_to_vec(nv.as_slice()),
                    Option::None => {
                        proof {
                            assert(fview(frame) == FrameV::Array(Option::Some(esv)));
                            assert(esv[0] == fview(es@[0int]));
                            assert(esv[0] matches FrameV::BulkString(Option::None));
                        }
                        return Result::Err(ExecuteError::InvalidCommand);
                    },
                },
                _ => {
                    proof {
                        assert(fview(frame) == FrameV::Array(Option::Some(esv)));
                        assert(esv[0] == fview(es@[0int]));
                    }
                    return Result::Err(ExecuteError::InvalidCommand);
                },
            }
        },
    };
    proof {
        lemma_wf_all_iff(esv);
    }
    let lit_get: [u8; 3] = [103u8, 101u8, 116u8];
    let is_get = name_matches(&name, lit_get.as_slice());
    proof {
        assert(lit_get@ =~= seq![103u8, 101u8, 116u8]);
    }
    let lit_set: [u8; 3] = [115u8, 101u8, 116u8];
    let is_set = name_matches(&name, lit_set.as_slice());
    proof {
        assert(lit_set@ =~= seq![115u8, 101u8, 116u8]);
    }
    let lit_hget: [u8; 4] = [104u8, 103u8, 101u8, 116u8];
    let is_hget = name_matches(&name, lit_hget.as_slice());
    proof {
        assert(lit_hget@ =~= seq![104u8, 103u8, 101u8, 116u8]);
    }
    let lit_hset: [u8; 4] = [104u8, 115u8, 101u8, 116u8];
    let is_hset = name_matches(&name, lit_hset.as_slice());
    proof {
        assert(lit_hset@ =~= seq![104u8, 115u8, 101u8, 116u8]);
    }
    let lit_hgetall: [u8; 7] = [104u8, 103u8, 101u8, 116u8, 97u8, 108u8, 108u8];
    let is_hgetall = name_matches(&name, lit_hgetall.as_slice());
    proof {
        assert(lit_hgetall@ =~= seq![104u8, 103u8, 101u8, 116u8, 97u8, 108u8, 108u8]);
    }
    let lit_echo: [u8; 4] = [101u8, 99u8, 104u8, 111u8];
    let is_echo = name_matches(&name, lit_echo.as_slice());
    proof {
        assert(lit_echo@ =~= seq![101u8, 99u8, 104u8, 111u8]);
    }
    let lit_hmget: [u8; 5] = [104u8, 109u8, 103u8, 101u8, 116u8];
    let is_hmget = name_matches(&name, lit_hmget.as_slice());
    proof {
        assert(lit_hmget@ =~= seq![104u8, 109u8, 103u8, 101u8, 116u8]);
    }
    let lit_sadd: [u8; 4] = [115u8, 97u8, 100u8, 100u8];
    let is_sadd = name_matches(&name, lit_sadd.as_slice());
    proof {
        assert(lit_sadd@ =~= seq![115u8, 97u8, 100u8, 100u8]);
    }
    let lit_sismember: [u8; 9] = [115u8, 105u8, 115u8, 109u8, 101u8, 109u8, 98u8, 101u8, 114u8];
    let is_sismember = name_matches(&name, lit_sismember.as_slice());
    proof {
        assert(lit_sismember@ =~= seq![115u8, 105u8, 115u8, 109u8, 101u8, 109u8, 98u8, 101u8, 114u8]);
    }
    if is_get {
        proof {
            assert(lower_bytes(name@) == seq![103u8, 101u8, 116u8]);
        }
        match GetCommand::try_from(arr) {
            Result::Err(e) => Result::Err(e),
            Result::Ok(cmd) => Result::Ok(cmd.execute(backend)),
        }
    } else if is_set {
        match SetCommand::try_from(arr) {
            Result::Err(e) => Result::Err(e),
            Result::Ok(cmd) => {
                proof {
                    assert(wf(fview(cmd.value))) by {
                        assert(wf(esv[2]));
                    }
                }
                Result::Ok(cmd.execute(backend))
            },
        }
    } else if is_hget {
        match HGetCommand::try_from(arr) {
            Result::Err(e) => Result::Err(e),
            Result::Ok(cmd) => Result::Ok(cmd.execute(backend)),
        }
    } else if is_hset {
        match HSetCommand::try_from(arr) {
            Result::Err(e) => Result::Err(e),
            Result::Ok(cmd) => {
                proof {
                    assert(wf(fview(cmd.value)) && cmd.field@.len() <= 0x7fff_ffff_ffff_ffff) by {
                        assert(wf(esv[2]));
                        assert(wf(esv[3]));
                    }
                }
                Result::Ok(cmd.execute(backend))
            },
        }
    } else if is_hgetall {
        match HGetAllCommand::try_from(arr) {
            Result::Err(e) => Result::Err(e),
            Result::Ok(cmd) => Result::Ok(cmd.execute(backend)),
        }
    } else if is_echo {
        match ECHOCommand::try_from(arr) {
            Result::Err(e) => Result::Err(e),
            Result::Ok(cmd) => {
                proof {
                    assert(wf(fview(cmd.mirror))) by {
                        assert(wf(esv[1]));
                    }
                }
                Result::Ok(cmd.execute(backend))
            },
        }
    } else if is_hmget {
        match HmgetCommand::try_from(arr) {
            Result::Err(e) => Result::Err(e),
            Result::Ok(cmd) => {
                let ghost k = cmd.key@;
                let ghost fs = vv_view(cmd.fields@);
                proof {
                    crate::cmd::hmap::lemma_vv_view_len(cmd.fields@);
                }
                let rep = cmd.execute(backend);
                proof {
                    assert(Seq::new(
                        fs.len(),
                        |i: int| crate::backend::hm_lookup(old(backend)@.hashes, k, fs[i]),
                    ) =~= Seq::new(
                        cmd.fields@.len(),
                        |i: int|
                            crate::backend::hm_lookup(
                                old(backend)@.hashes,
                                cmd.key@,
                                vv_view(cmd.fields@)[i],
                            ),
                    ));
                }
                Result::Ok(rep)
            },
        }
    } else if is_sadd {
        match SaddCommand::try_from(arr) {
            Result::Err(e) => Result::Err(e),
            Result::Ok(cmd) => {
                proof {
                    assert(wf(fview(cmd.member))) by {
                        assert(wf(esv[2]));
                    }
                }
                Result::Ok(cmd.execute(backend))
            },
        }
    } else if is_sismember {
        match SismemberCommand::try_from(arr) {
            Result::Err(e) => Result::Err(e),
            Result::Ok(cmd) => Result::Ok(cmd.execute(backend)),
        }
    } else {
        let prefix: [u8; 23] = [
            117u8,
            110u8,
            105u8,
            109u8,
            112u8,
            108u8,
            101u8,
            109u8,
            101u8,
            110u8,
            116u8,
            101u8,
            100u8,
            32u8,
            99u8,
            111u8,
            109u8,
            109u8,
            97u8,
            110u8,
            100u8,
            58u8,
            32u8,
        ];
        let mut msg: Vec<u8> = slice_to_vec(prefix.as_slice());
        proof {
            assert(msg@ =~= unknown_prefix());
        }
        if !has_crlf_pair(&name) {
            msg.extend_from_slice(name.as_slice());
            proof {
                assert(msg@ == unknown_prefix() + name@);
                assert forall|l: int| !crate::resp::wire::has_crlf_at(msg@, l) by {
                    if 0 <= l && l + 2 <= msg@.len() && msg@[l] == 13u8 && msg@[l + 1] == 10u8 {
                        if l + 1 < 23 {
                            assert(msg@[l] == unknown_prefix()[l]);
                        } else if l < 23 {
                            assert(msg@[l] == unknown_prefix()[l]);
                            assert(msg@[l] != 13u8);
                        } else {
                            assert(msg@[l] == name@[l - 23]);
                            assert(msg@[l + 1] == name@[l - 22]);
                            assert(crate::resp::wire::has_crlf_at(name@, l - 23));
                        }
                    }
                }
            }
        } else {
            proof {
                assert forall|l: int| !crate::resp::wire::has_crlf_at(msg@, l) by {
                    if 0 <= l && l + 2 <= msg@.len() && msg@[l] == 13u8 {
                        assert(msg@[l] == unknown_prefix()[l]);
                    }
                }
            }
        }
        Result::Ok(RespFrame::SimpleString(RespSimpleString(msg)))
    }
}

} // verus!
