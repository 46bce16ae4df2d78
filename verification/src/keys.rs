//! Key layout of the durable store.
//!
//! A single ordered key namespace is partitioned into reserved one-byte
//! prefixes:
//!
//! - `L | <u64 BE>` — raft-log entry at that index
//! - `H`            — hard state (term, vote, commit)
//! - `S`            — apply state (applied index, applied term)
//! - `A | <u64 BE>` — address book row for a peer id
//! - `D | <bytes>`  — user data; the only prefix user commands may write
//!
//! Indices and peer ids are encoded big-endian so that byte-lexicographic
//! iteration equals numeric order.

use vstd::prelude::*;

use crate::codec::{u64_from_be, u64_to_be, be_bytes};

verus! {

/// Prefix of raft-log entry keys.
pub const LOG_PREFIX: u8 = 76;
/// The key of the hard state row.
pub const HARD_STATE_KEY: u8 = 72;
/// The key of the apply state row.
pub const APPLY_STATE_KEY: u8 = 83;
/// Prefix of address book rows.
pub const ADDRESS_PREFIX: u8 = 65;
/// Prefix of user data; the only prefix writable by user commands.
pub const DATA_PREFIX: u8 = 68;

/// What a well-formed user-writable key looks like: non-empty and inside
/// the data prefix.
pub open spec fn spec_valid_data_key(key: Seq<u8>) -> bool {
    key.len() > 0 && key[0] == DATA_PREFIX
}

/// True exactly when `key` lies inside the data prefix, the only part of
/// the namespace a user command may touch.
pub fn valid_data_key(key: &Vec<u8>) -> (r: bool)
    ensures
        r == spec_valid_data_key(key@),
{
    key.len() > 0 && key[0] == DATA_PREFIX
}

/// The log-entry key for index `i`: `L` followed by `i` big-endian.
pub open spec fn spec_log_key(i: u64) -> Seq<u8> {
    seq![LOG_PREFIX] + be_bytes(i)
}

/// The address-book key for peer `id`: `A` followed by `id` big-endian.
pub open spec fn spec_address_key(id: u64) -> Seq<u8> {
    seq![ADDRESS_PREFIX] + be_bytes(id)
}

/// Builds the log-entry key for index `i`.
pub fn log_key(i: u64) -> (r: Vec<u8>)
    ensures
        r@ == spec_log_key(i),
        r@.len() == 9,
{
    let mut r: Vec<u8> = Vec::new();
    r.push(LOG_PREFIX);
    let mut bytes = u64_to_be(i);
    r.append(&mut bytes);
    proof {
        assert(r@ =~= spec_log_key(i));
    }
    r
}

/// Builds the address-book key for peer `id`.
pub fn address_key(id: u64) -> (r: Vec<u8>)
    ensures
        r@ == spec_address_key(id),
        r@.len() == 9,
{
    let mut r: Vec<u8> = Vec::new();
    r.push(ADDRESS_PREFIX);
    let mut bytes = u64_to_be(id);
    r.append(&mut bytes);
    proof {
        assert(r@ =~= spec_address_key(id));
    }
    r
}

/// No two peers share an address-book key.
pub proof fn lemma_address_key_injective(a: u64, b: u64)
    requires
        spec_address_key(a) == spec_address_key(b),
    ensures
        a == b,
{
    crate::codec::lemma_be_round_trip();
    assert(be_bytes(a).len() == 8);
    assert(be_bytes(b).len() == 8);
    assert(spec_address_key(a).subrange(1, 9) =~= be_bytes(a));
    assert(spec_address_key(b).subrange(1, 9) =~= be_bytes(b));
    crate::codec::lemma_be_injective(a, b);
}

/// Reads an address-book row back: accepts exactly the keys built by
/// `address_key` and returns the peer id together with the raw address
/// bytes.
pub fn decode_address_row(key: &Vec<u8>, value: &Vec<u8>) -> (r: Option<(u64, Vec<u8>)>)
    ensures
        match r {
            Some((id, addr)) => key@ == spec_address_key(id) && addr@ == value@,
            None => forall|id: u64| key@ != spec_address_key(id),
        },
{
    if key.len() != 9 || key[0] != ADDRESS_PREFIX {
        proof {
            crate::codec::lemma_be_round_trip();
            assert forall|id: u64| key@ != spec_address_key(id) by {
                assert(be_bytes(id).len() == 8);
                assert(spec_address_key(id).len() == 9);
                assert(spec_address_key(id)[0] == ADDRESS_PREFIX);
            }
        }
        return None;
    }
    let mut tail: Vec<u8> = Vec::new();
    let mut j: usize = 1;
    while j < key.len()
        invariant
            1 <= j <= key.len(),
            key.len() == 9,
            tail@ =~= key@.subrange(1, j as int),
        decreases key.len() - j,
    {
        tail.push(key[j]);
        j += 1;
    }
    let id = u64_from_be(&tail);
    proof {
        assert(tail@ =~= key@.subrange(1, 9));
        assert(key@ =~= seq![ADDRESS_PREFIX] + key@.subrange(1, 9));
        assert(key@ =~= spec_address_key(id));
    }
    Some((id, value.clone()))
}

} // verus!
