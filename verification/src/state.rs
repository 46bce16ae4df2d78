//! Consensus state rows and log entries, with their binary forms.
//!
//! The hard state row holds the persistent (term, vote, commit) triple; the
//! apply state row holds how far the state machine has consumed the log.
//! A log entry row holds one entry: its index, term, kind, opaque proposal
//! context and payload. All fixed-width fields are big-endian. Decoding
//! accepts exactly what encoding produces.

use vstd::prelude::*;

use crate::codec::{be_bytes, lemma_be_round_trip, sub_vec, u64_from_be, u64_to_be};

verus! {

/// The persistent (term, vote, commit) triple the consensus core owns.
#[derive(Clone, Copy, PartialEq, Eq, Structural, Debug)]
pub struct HardState {
    /// Current term.
    pub term: u64,
    /// Peer voted for in the current term, zero for none.
    pub vote: u64,
    /// Highest committed index.
    pub commit: u64,
}

/// How far the state machine has consumed the log.
#[derive(Clone, Copy, PartialEq, Eq, Structural, Debug)]
pub struct ApplyState {
    /// Highest applied index.
    pub applied_index: u64,
    /// Term of the entry at the applied index.
    pub applied_term: u64,
}

/// What a committed entry carries.
#[derive(Clone, Copy, PartialEq, Eq, Structural, Debug)]
pub enum EntryKind {
    /// An ordinary proposal; its data may decode to a command.
    Normal,
    /// A configuration change; its data names a peer.
    ConfChange,
}

/// A log entry.
pub struct Entry {
    /// Position in the log.
    pub index: u64,
    /// Term under which the entry was appended.
    pub term: u64,
    /// Ordinary proposal or configuration change.
    pub kind: EntryKind,
    /// Proposal metadata, opaque to consensus.
    pub context: Vec<u8>,
    /// The payload.
    pub data: Vec<u8>,
}

/// The mathematical image of an entry.
#[verifier::ext_equal]
pub ghost struct EntryView {
    pub index: u64,
    pub term: u64,
    pub kind: EntryKind,
    pub context: Seq<u8>,
    pub data: Seq<u8>,
}

impl View for Entry {
    type V = EntryView;

    open spec fn view(&self) -> EntryView {
        EntryView {
            index: self.index,
            term: self.term,
            kind: self.kind,
            context: self.context@,
            data: self.data@,
        }
    }
}

/// The wire byte of an entry kind.
pub open spec fn spec_kind_byte(k: EntryKind) -> u8 {
    match k {
        EntryKind::Normal => 0,
        EntryKind::ConfChange => 1,
    }
}

/// The hard state row: term, vote and commit, big-endian.
pub open spec fn spec_encode_hard_state(h: HardState) -> Seq<u8> {
    be_bytes(h.term) + be_bytes(h.vote) + be_bytes(h.commit)
}

/// The apply state row: applied index and term, big-endian.
pub open spec fn spec_encode_apply_state(a: ApplyState) -> Seq<u8> {
    be_bytes(a.applied_index) + be_bytes(a.applied_term)
}

/// The log entry row: index, term, kind byte, context length, context,
/// payload.
pub open spec fn spec_encode_entry(e: EntryView) -> Seq<u8> {
    be_bytes(e.index) + be_bytes(e.term) + seq![spec_kind_byte(e.kind)]
        + be_bytes(e.context.len() as u64) + e.context + e.data
}

/// Writes the hard state row.
pub fn encode_hard_state(h: &HardState) -> (r: Vec<u8>)
    ensures
        r@ == spec_encode_hard_state(*h),
{
    let mut r = u64_to_be(h.term);
    let mut vote = u64_to_be(h.vote);
    let mut commit = u64_to_be(h.commit);
    r.append(&mut vote);
    r.append(&mut commit);
    proof {
        assert(r@ =~= spec_encode_hard_state(*h));
    }
    r
}

/// Reads a hard state row back; accepts exactly what encoding produces.
pub fn decode_hard_state(v: &Vec<u8>) -> (r: Option<HardState>)
    ensures
        match r {
            Some(h) => v@ == spec_encode_hard_state(h),
            None => forall|h: HardState| v@ != spec_encode_hard_state(h),
        },
{
    proof {
        lemma_be_round_trip();
    }
    if v.len() != 24 {
        proof {
            assert forall|h: HardState| v@ != spec_encode_hard_state(h) by {
                assert(be_bytes(h.term).len() == 8);
                assert(be_bytes(h.vote).len() == 8);
                assert(be_bytes(h.commit).len() == 8);
            }
        }
        return None;
    }
    let term = u64_from_be(&sub_vec(v, 0, 8));
    let vote = u64_from_be(&sub_vec(v, 8, 16));
    let commit = u64_from_be(&sub_vec(v, 16, 24));
    let h = HardState { term, vote, commit };
    proof {
        assert(v@ =~= spec_encode_hard_state(h));
    }
    Some(h)
}

/// Writes the apply state row.
pub fn encode_apply_state(a: &ApplyState) -> (r: Vec<u8>)
    ensures
        r@ == spec_encode_apply_state(*a),
{
    let mut r = u64_to_be(a.applied_index);
    let mut term = u64_to_be(a.applied_term);
    r.append(&mut term);
    proof {
        assert(r@ =~= spec_encode_apply_state(*a));
    }
    r
}

/// Reads an apply state row back; accepts exactly what encoding produces.
pub fn decode_apply_state(v: &Vec<u8>) -> (r: Option<ApplyState>)
    ensures
        match r {
            Some(a) => v@ == spec_encode_apply_state(a),
            None => forall|a: ApplyState| v@ != spec_encode_apply_state(a),
        },
{
    proof {
        lemma_be_round_trip();
    }
    if v.len() != 16 {
        proof {
            assert forall|a: ApplyState| v@ != spec_encode_apply_state(a) by {
                assert(be_bytes(a.applied_index).len() == 8);
                assert(be_bytes(a.applied_term).len() == 8);
            }
        }
        return None;
    }
    let applied_index = u64_from_be(&sub_vec(v, 0, 8));
    let applied_term = u64_from_be(&sub_vec(v, 8, 16));
    let a = ApplyState { applied_index, applied_term };
    proof {
        assert(v@ =~= spec_encode_apply_state(a));
    }
    Some(a)
}

/// Writes a log entry row.
pub fn encode_entry(e: &Entry) -> (r: Vec<u8>)
    ensures
        r@ == spec_encode_entry(e@),
{
    let mut r = u64_to_be(e.index);
    let mut term = u64_to_be(e.term);
    r.append(&mut term);
    match e.kind {
        EntryKind::Normal => r.push(0),
        EntryKind::ConfChange => r.push(1),
    }
    let mut ctx_len = u64_to_be(e.context.len() as u64);
    r.append(&mut ctx_len);
    let mut context = sub_vec(&e.context, 0, e.context.len());
    r.append(&mut context);
    let mut data = sub_vec(&e.data, 0, e.data.len());
    r.append(&mut data);
    proof {
        assert(r@ =~= spec_encode_entry(e@));
    }
    r
}

/// Reads a log entry row back; accepts exactly what encoding produces.
pub fn decode_entry(v: &Vec<u8>) -> (r: Option<Entry>)
    ensures
        match r {
            Some(e) => v@ == spec_encode_entry(e@),
            None => forall|ev: EntryView| v@ != spec_encode_entry(ev),
        },
{
    proof {
        lemma_be_round_trip();
    }
    if v.len() < 25 {
        proof {
            assert forall|ev: EntryView| v@ != spec_encode_entry(ev) by {
                lemma_entry_encoding_shape(ev);
            }
        }
        return None;
    }
    let index = u64_from_be(&sub_vec(v, 0, 8));
    let term = u64_from_be(&sub_vec(v, 8, 16));
    let kind_byte = v[16];
    if kind_byte > 1 {
        proof {
            assert forall|ev: EntryView| v@ != spec_encode_entry(ev) by {
                lemma_entry_encoding_shape(ev);
                if v@ == spec_encode_entry(ev) {
                    assert(v@[16] == spec_kind_byte(ev.kind));
                }
            }
        }
        return None;
    }
    let kind = if kind_byte == 0 {
        EntryKind::Normal
    } else {
        EntryKind::ConfChange
    };
    let n = u64_from_be(&sub_vec(v, 17, 25));
    if ((v.len() - 25) as u64) < n {
        proof {
            assert forall|ev: EntryView| v@ != spec_encode_entry(ev) by {
                lemma_entry_encoding_shape(ev);
                if v@ == spec_encode_entry(ev) {
                    assert(v@.subrange(17, 25) =~= be_bytes(ev.context.len() as u64));
                    assert(n == ev.context.len() as u64);
                    assert(v@.len() == 25 + ev.context.len() + ev.data.len());
                }
            }
        }
        return None;
    }
    let ctx_len = n as usize;
    let context = sub_vec(v, 25, 25 + ctx_len);
    let data = sub_vec(v, 25 + ctx_len, v.len());
    let e = Entry { index, term, kind, context, data };
    proof {
        assert(v@.subrange(0, 8) =~= be_bytes(e.index));
        assert(v@.subrange(8, 16) =~= be_bytes(e.term));
        assert(v@.subrange(17, 25) =~= be_bytes(e.context@.len() as u64));
        assert(v@ =~= spec_encode_entry(e@));
    }
    Some(e)
}

/// Every entry row is at least the fixed fields long and opens with the
/// entry's index.
pub proof fn lemma_entry_encoding_shape(ev: EntryView)
    ensures
        spec_encode_entry(ev).len() == 25 + ev.context.len() + ev.data.len(),
        spec_encode_entry(ev)[16] == spec_kind_byte(ev.kind),
        spec_kind_byte(ev.kind) == 0 || spec_kind_byte(ev.kind) == 1,
        spec_encode_entry(ev).subrange(0, 8) =~= be_bytes(ev.index),
        spec_encode_entry(ev).subrange(8, 16) =~= be_bytes(ev.term),
        spec_encode_entry(ev).subrange(17, 25) =~= be_bytes(ev.context.len() as u64),
{
    lemma_be_round_trip();
    assert(be_bytes(ev.index).len() == 8);
    assert(be_bytes(ev.term).len() == 8);
    assert(be_bytes(ev.context.len() as u64).len() == 8);
}

} // verus!
