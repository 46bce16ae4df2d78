//! Binary codecs for the durable rows.
//!
//! Indices, ids and lengths are stored big-endian so that byte-lexicographic
//! key order equals numeric order. The big-endian image of a `u64` is defined
//! as the reverse of vstd's little-endian image, which carries the round-trip
//! lemmas.

use vstd::prelude::*;
use vstd::bytes::{spec_u64_to_le_bytes, spec_u64_from_le_bytes, u64_to_le_bytes, u64_from_le_bytes, lemma_auto_spec_u64_to_from_le_bytes};

verus! {

/// The eight big-endian bytes of `x`, most significant first.
pub open spec fn be_bytes(x: u64) -> Seq<u8> {
    spec_u64_to_le_bytes(x).reverse()
}

/// The value read back from eight big-endian bytes.
pub open spec fn be_value(s: Seq<u8>) -> u64 {
    spec_u64_from_le_bytes(s.reverse())
}

/// Reversing twice gives the sequence back.
proof fn lemma_reverse_reverse<A>(s: Seq<A>)
    ensures
        s.reverse().reverse() =~= s,
{
}

/// The big-endian image is eight bytes long, reads back to the value it came
/// from, and every eight-byte sequence is the image of the value it reads as.
pub proof fn lemma_be_round_trip()
    ensures
        forall|x: u64| (#[trigger] be_bytes(x)).len() == 8,
        forall|x: u64| be_value(#[trigger] be_bytes(x)) == x,
        forall|s: Seq<u8>| s.len() == 8 ==> #[trigger] be_bytes(be_value(s)) =~= s,
{
    lemma_auto_spec_u64_to_from_le_bytes();
    assert forall|x: u64| (#[trigger] be_bytes(x)).len() == 8 by {
        assert(spec_u64_to_le_bytes(x).len() == 8);
    }
    assert forall|x: u64| be_value(#[trigger] be_bytes(x)) == x by {
        lemma_reverse_reverse(spec_u64_to_le_bytes(x));
        assert(be_bytes(x).reverse() =~= spec_u64_to_le_bytes(x));
    }
    assert forall|s: Seq<u8>| s.len() == 8 implies #[trigger] be_bytes(be_value(s)) =~= s by {
        assert(s.reverse().len() == 8);
        assert(spec_u64_to_le_bytes(spec_u64_from_le_bytes(s.reverse())) == s.reverse());
        lemma_reverse_reverse(s);
    }
}

/// No two values share a big-endian image.
pub proof fn lemma_be_injective(x: u64, y: u64)
    requires
        be_bytes(x) == be_bytes(y),
    ensures
        x == y,
{
    lemma_be_round_trip();
    assert(be_value(be_bytes(x)) == be_value(be_bytes(y)));
}

/// Writes `x` as eight big-endian bytes.
pub fn u64_to_be(x: u64) -> (r: Vec<u8>)
    ensures
        r@ == be_bytes(x),
        r@.len() == 8,
{
    let le = u64_to_le_bytes(x);
    let mut r: Vec<u8> = Vec::new();
    let mut i: usize = 0;
    while i < 8
        invariant
            i <= 8,
            le@ == spec_u64_to_le_bytes(x),
            le@.len() == 8,
            r@.len() == i,
            forall|j: int| 0 <= j < i ==> r@[j] == le@[7 - j],
        decreases 8 - i,
    {
        r.push(le[7 - i]);
        i += 1;
    }
    proof {
        assert(r@ =~= be_bytes(x));
    }
    r
}

/// Reads a value back from eight big-endian bytes.
pub fn u64_from_be(b: &Vec<u8>) -> (r: u64)
    requires
        b@.len() == 8,
    ensures
        r == be_value(b@),
        be_bytes(r) == b@,
{
    let mut rev: Vec<u8> = Vec::new();
    let mut i: usize = 0;
    while i < 8
        invariant
            i <= 8,
            b@.len() == 8,
            rev@.len() == i,
            forall|j: int| 0 <= j < i ==> rev@[j] == b@[7 - j],
        decreases 8 - i,
    {
        rev.push(b[7 - i]);
        i += 1;
    }
    proof {
        assert(rev@ =~= b@.reverse());
    }
    let r = u64_from_le_bytes(rev.as_slice());
    proof {
        lemma_be_round_trip();
        assert(r == be_value(b@));
        assert(be_bytes(be_value(b@)) =~= b@);
    }
    r
}

/// Copies `v[from..to]` out as a fresh vector.
pub fn sub_vec(v: &Vec<u8>, from: usize, to: usize) -> (r: Vec<u8>)
    requires
        from <= to <= v@.len(),
    ensures
        r@ == v@.subrange(from as int, to as int),
{
    let mut r: Vec<u8> = Vec::new();
    let mut i: usize = from;
    while i < to
        invariant
            from <= i <= to <= v@.len(),
            r@.len() == i - from,
            forall|j: int| 0 <= j < i - from ==> r@[j] == v@[from + j],
        decreases to - i,
    {
        r.push(v[i]);
        i += 1;
    }
    proof {
        assert(r@ =~= v@.subrange(from as int, to as int));
    }
    r
}

} // verus!
