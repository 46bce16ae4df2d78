//! The atomic write batch.
//!
//! Everything a Ready cycle persists — hard state, appended entries, applied
//! mutations, the advanced apply state — is staged here and committed to the
//! engine as one unit: all of it or none of it. The batch also counts its
//! bytes, which feed the WAL sync policy.

use vstd::prelude::*;

verus! {

/// The byte count of a sequence of staged puts.
pub open spec fn spec_batch_bytes(s: Seq<(Seq<u8>, Seq<u8>)>) -> nat
    decreases s.len(),
{
    if s.len() == 0 {
        0
    } else {
        spec_batch_bytes(s.drop_last()) + s.last().0.len() + s.last().1.len()
    }
}

/// A batch of key/value puts staged for one atomic engine write.
pub struct WriteBatch {
    ops: Vec<(Vec<u8>, Vec<u8>)>,
    size: u64,
}

impl View for WriteBatch {
    type V = Seq<(Seq<u8>, Seq<u8>)>;

    closed spec fn view(&self) -> Seq<(Seq<u8>, Seq<u8>)> {
        self.ops@.map_values(|p: (Vec<u8>, Vec<u8>)| (p.0@, p.1@))
    }
}

impl WriteBatch {
    /// The byte counter holds the staged bytes, saturating at its top.
    pub closed spec fn wf(self) -> bool {
        self.size == if spec_batch_bytes(self@) <= u64::MAX {
            spec_batch_bytes(self@) as u64
        } else {
            u64::MAX
        }
    }

    /// An empty batch.
    pub fn new() -> (r: WriteBatch)
        ensures
            r@ == Seq::<(Seq<u8>, Seq<u8>)>::empty(),
            r.wf(),
    {
        let r = WriteBatch { ops: Vec::new(), size: 0 };
        proof {
            assert(r@ =~= Seq::<(Seq<u8>, Seq<u8>)>::empty());
        }
        r
    }

    /// Stages one put behind everything staged so far.
    pub fn put(&mut self, key: Vec<u8>, value: Vec<u8>)
        requires
            old(self).wf(),
        ensures
            final(self).wf(),
            final(self)@ == old(self)@.push((key@, value@)),
    {
        let ghost orig = self@;
        let klen = key.len() as u64;
        let vlen = value.len() as u64;
        self.ops.push((key, value));
        let added = if u64::MAX - klen < vlen {
            u64::MAX
        } else {
            klen + vlen
        };
        self.size = if u64::MAX - self.size < added {
            u64::MAX
        } else {
            self.size + added
        };
        proof {
            assert(self@ =~= orig.push((key@, value@)));
            assert(self@.drop_last() =~= orig);
        }
    }

    /// Whether anything is staged.
    pub fn is_empty(&self) -> (r: bool)
        ensures
            r == (self@.len() == 0),
    {
        self.ops.len() == 0
    }

    /// How many puts are staged.
    pub fn len(&self) -> (r: usize)
        ensures
            r == self@.len(),
    {
        self.ops.len()
    }

    /// The staged put at position `i`.
    pub fn get(&self, i: usize) -> (r: (&Vec<u8>, &Vec<u8>))
        requires
            i < self@.len(),
        ensures
            (r.0@, r.1@) == self@[i as int],
    {
        let p = &self.ops[i];
        (&p.0, &p.1)
    }

    /// The staged bytes, saturating at the counter's top.
    pub fn data_size(&self) -> (r: u64)
        requires
            self.wf(),
        ensures
            r == if spec_batch_bytes(self@) <= u64::MAX {
                spec_batch_bytes(self@) as u64
            } else {
                u64::MAX
            },
    {
        self.size
    }

    /// Empties the batch after it was committed (or abandoned).
    pub fn clear(&mut self)
        ensures
            final(self).wf(),
            final(self)@ == Seq::<(Seq<u8>, Seq<u8>)>::empty(),
    {
        self.ops.clear();
        self.size = 0;
        proof {
            assert(self@ =~= Seq::<(Seq<u8>, Seq<u8>)>::empty());
        }
    }
}

} // verus!
