//! User commands and their wire form.
//!
//! A command rides in the data field of a normal log entry; the proposal
//! context stays empty. The wire form is a one-byte tag followed by the
//! fields, lengths and ids big-endian:
//!
//! - `Put`:           `1 | <key len: u64 BE> | <key> | <value>`
//! - `UpdateAddress`: `2 | <peer id: u64 BE> | <address>`
//!
//! Decoding accepts exactly the sequences that encoding produces.

use vstd::prelude::*;

use crate::codec::{be_bytes, lemma_be_round_trip, sub_vec, u64_from_be, u64_to_be};

verus! {

/// Wire tag of `Command::Put`.
pub const PUT_TAG: u8 = 1;
/// Wire tag of `Command::UpdateAddress`.
pub const UPDATE_ADDRESS_TAG: u8 = 2;

/// A command decoded from a committed normal entry.
pub enum Command {
    /// Write `value` under `key`; only keys inside the data prefix are
    /// accepted at apply time.
    Put { key: Vec<u8>, value: Vec<u8> },
    /// Write the address row for `id` and update the in-memory address map.
    UpdateAddress { id: u64, address: Vec<u8> },
}

/// The mathematical image of a command.
#[verifier::ext_equal]
pub ghost enum CommandView {
    Put { key: Seq<u8>, value: Seq<u8> },
    UpdateAddress { id: u64, address: Seq<u8> },
}

impl View for Command {
    type V = CommandView;

    open spec fn view(&self) -> CommandView {
        match self {
            Command::Put { key, value } => CommandView::Put { key: key@, value: value@ },
            Command::UpdateAddress { id, address } => CommandView::UpdateAddress {
                id: *id,
                address: address@,
            },
        }
    }
}

/// The wire form of a command.
pub open spec fn spec_encode_command(c: CommandView) -> Seq<u8> {
    match c {
        CommandView::Put { key, value } => seq![PUT_TAG] + be_bytes(key.len() as u64) + key
            + value,
        CommandView::UpdateAddress { id, address } => seq![UPDATE_ADDRESS_TAG] + be_bytes(id)
            + address,
    }
}

impl CommandView {
    /// Field sizes a command that ever existed in memory satisfies; the
    /// wire form is only faithful under this bound.
    pub open spec fn wf(self) -> bool {
        match self {
            CommandView::Put { key, value } => key.len() <= u64::MAX,
            CommandView::UpdateAddress { .. } => true,
        }
    }
}

/// No two commands share a wire form.
pub proof fn lemma_command_encoding_injective(a: CommandView, b: CommandView)
    requires
        a.wf(),
        b.wf(),
        spec_encode_command(a) == spec_encode_command(b),
    ensures
        a == b,
{
    lemma_be_round_trip();
    let ea = spec_encode_command(a);
    let eb = spec_encode_command(b);
    match a {
        CommandView::Put { key: ka, value: va } => {
            assert(be_bytes(ka.len() as u64).len() == 8);
            match b {
                CommandView::Put { key: kb, value: vb } => {
                    assert(be_bytes(kb.len() as u64).len() == 8);
                    assert(ea.subrange(1, 9) =~= be_bytes(ka.len() as u64));
                    assert(eb.subrange(1, 9) =~= be_bytes(kb.len() as u64));
                    crate::codec::lemma_be_injective(ka.len() as u64, kb.len() as u64);
                    assert(ka =~= ea.subrange(9, 9 + ka.len() as int));
                    assert(kb =~= eb.subrange(9, 9 + kb.len() as int));
                    assert(va =~= ea.subrange(9 + ka.len() as int, ea.len() as int));
                    assert(vb =~= eb.subrange(9 + kb.len() as int, eb.len() as int));
                    assert(a =~= b);
                }
                CommandView::UpdateAddress { .. } => {
                    assert(ea[0] == PUT_TAG && eb[0] == UPDATE_ADDRESS_TAG);
                }
            }
        }
        CommandView::UpdateAddress { id: ia, address: aa } => {
            assert(be_bytes(ia).len() == 8);
            match b {
                CommandView::Put { .. } => {
                    assert(ea[0] == UPDATE_ADDRESS_TAG && eb[0] == PUT_TAG);
                }
                CommandView::UpdateAddress { id: ib, address: ab } => {
                    assert(be_bytes(ib).len() == 8);
                    assert(ea.subrange(1, 9) =~= be_bytes(ia));
                    assert(eb.subrange(1, 9) =~= be_bytes(ib));
                    crate::codec::lemma_be_injective(ia, ib);
                    assert(aa =~= ea.subrange(9, ea.len() as int));
                    assert(ab =~= eb.subrange(9, eb.len() as int));
                    assert(a =~= b);
                }
            }
        }
    }
}

/// The command a payload denotes, if any: the inverse of the wire form.
#[verifier::opaque]
pub open spec fn spec_decoded(data: Seq<u8>) -> Option<CommandView> {
    if exists|c: CommandView| c.wf() && data == spec_encode_command(c) {
        Some(choose|c: CommandView| c.wf() && data == spec_encode_command(c))
    } else {
        None
    }
}

impl Command {
    /// Turns the command into the (context, data) pair handed to the
    /// consensus core's propose call: an empty context and the wire form.
    pub fn into_proposal(self) -> (r: (Vec<u8>, Vec<u8>))
        ensures
            r.0@ == Seq::<u8>::empty(),
            r.1@ == spec_encode_command(self@),
    {
        proof {
            lemma_be_round_trip();
        }
        let mut data: Vec<u8> = Vec::new();
        match self {
            Command::Put { key, value } => {
                let ghost c = CommandView::Put { key: key@, value: value@ };
                data.push(PUT_TAG);
                let mut len_bytes = u64_to_be(key.len() as u64);
                data.append(&mut len_bytes);
                let mut key = key;
                let mut value = value;
                data.append(&mut key);
                data.append(&mut value);
                proof {
                    assert(data@ =~= spec_encode_command(c));
                }
            }
            Command::UpdateAddress { id, address } => {
                let ghost c = CommandView::UpdateAddress { id, address: address@ };
                data.push(UPDATE_ADDRESS_TAG);
                let mut id_bytes = u64_to_be(id);
                data.append(&mut id_bytes);
                let mut address = address;
                data.append(&mut address);
                proof {
                    assert(data@ =~= spec_encode_command(c));
                }
            }
        }
        let context: Vec<u8> = Vec::new();
        (context, data)
    }

    /// Reads a command back from a committed entry's context and data.
    /// Raft-internal entries (an empty payload, or one this codec did not
    /// produce) decode to `None` and are applied as a no-op.
    pub fn from_proposal(context: Vec<u8>, data: Vec<u8>) -> (r: Option<Command>)
        ensures
            match r {
                Some(c) => data@ == spec_encode_command(c@) && spec_decoded(data@) == Some(c@),
                None => forall|c: CommandView| data@ != spec_encode_command(c),
            },
            r is Some <==> spec_decoded(data@) is Some,
    {
        proof {
            lemma_be_round_trip();
        }
        let _ = context;
        proof {
            reveal(spec_decoded);
        }
        if data.len() < 9 {
            proof {
                assert forall|c: CommandView| data@ != spec_encode_command(c) by {
                    lemma_encoding_at_least_nine(c);
                }
            }
            return None;
        }
        let tag = data[0];
        let field = sub_vec(&data, 1, 9);
        let n = u64_from_be(&field);
        if tag == PUT_TAG {
            if ((data.len() - 9) as u64) < n {
                proof {
                    assert forall|c: CommandView| data@ != spec_encode_command(c) by {
                        lemma_encoding_at_least_nine(c);
                        if data@ == spec_encode_command(c) {
                            match c {
                                CommandView::Put { key, value } => {
                                    assert(spec_encode_command(c).subrange(1, 9)
                                        =~= be_bytes(key.len() as u64));
                                    assert(n == key.len() as u64);
                                    assert(data@.len() == 9 + key.len() + value.len());
                                }
                                CommandView::UpdateAddress { id, address } => {
                                    assert(spec_encode_command(c)[0] == UPDATE_ADDRESS_TAG);
                                }
                            }
                        }
                    }
                }
                return None;
            }
            let key_len = n as usize;
            let key = sub_vec(&data, 9, 9 + key_len);
            let value = sub_vec(&data, 9 + key_len, data.len());
            let r = Command::Put { key, value };
            proof {
                assert(data@.subrange(1, 9) =~= field@);
                assert(data@ =~= spec_encode_command(r@));
                assert(r@.wf() && data@ == spec_encode_command(r@));
                assert(exists|c: CommandView| c.wf() && data@ == spec_encode_command(c));
                let c0 = choose|c: CommandView| c.wf() && data@ == spec_encode_command(c);
                assert(c0.wf() && data@ == spec_encode_command(c0));
                lemma_command_encoding_injective(c0, r@);
                assert(spec_decoded(data@) == Some(r@));
            }
            Some(r)
        } else if tag == UPDATE_ADDRESS_TAG {
            let address = sub_vec(&data, 9, data.len());
            let r = Command::UpdateAddress { id: n, address };
            proof {
                assert(data@.subrange(1, 9) =~= field@);
                assert(data@ =~= spec_encode_command(r@));
                assert(r@.wf() && data@ == spec_encode_command(r@));
                assert(exists|c: CommandView| c.wf() && data@ == spec_encode_command(c));
                let c0 = choose|c: CommandView| c.wf() && data@ == spec_encode_command(c);
                assert(c0.wf() && data@ == spec_encode_command(c0));
                lemma_command_encoding_injective(c0, r@);
                assert(spec_decoded(data@) == Some(r@));
            }
            Some(r)
        } else {
            proof {
                assert forall|c: CommandView| data@ != spec_encode_command(c) by {
                    lemma_encoding_at_least_nine(c);
                    assert(spec_encode_command(c)[0] == PUT_TAG
                        || spec_encode_command(c)[0] == UPDATE_ADDRESS_TAG);
                }
            }
            None
        }
    }
}

/// Every wire form opens with a known tag and holds at least the tag and one
/// eight-byte field.
pub proof fn lemma_encoding_at_least_nine(c: CommandView)
    ensures
        spec_encode_command(c).len() >= 9,
        spec_encode_command(c)[0] == PUT_TAG || spec_encode_command(c)[0] == UPDATE_ADDRESS_TAG,
{
    lemma_be_round_trip();
    match c {
        CommandView::Put { key, value } => {
            assert(be_bytes(key.len() as u64).len() == 8);
        }
        CommandView::UpdateAddress { id, address } => {
            assert(be_bytes(id).len() == 8);
        }
    }
}

} // verus!
