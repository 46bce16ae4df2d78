//! An ordered key-value engine, modelled as its write history.
//!
//! The durable store under the driver is a key-value engine with atomic
//! batch writes and point-in-time snapshots. This one keeps the full put
//! history and reads the latest write per key; its view is the map the
//! history denotes. Batches commit all their puts or none.

use vstd::prelude::*;

use crate::batch::WriteBatch;
use crate::codec::sub_vec;

verus! {

/// The map denoted by a put history: later writes shadow earlier ones.
pub open spec fn hist_map(s: Seq<(Vec<u8>, Vec<u8>)>) -> Map<Seq<u8>, Seq<u8>>
    decreases s.len(),
{
    if s.len() == 0 {
        Map::empty()
    } else {
        hist_map(s.drop_last()).insert(s.last().0@, s.last().1@)
    }
}

/// A map after a sequence of puts was applied to it, in order.
pub open spec fn apply_ops(m: Map<Seq<u8>, Seq<u8>>, ops: Seq<(Seq<u8>, Seq<u8>)>) -> Map<
    Seq<u8>,
    Seq<u8>,
>
    decreases ops.len(),
{
    if ops.len() == 0 {
        m
    } else {
        apply_ops(m, ops.drop_last()).insert(ops.last().0, ops.last().1)
    }
}

/// The key-value engine. Its view is the map from keys to their latest
/// written value.
pub struct MemEngine {
    pairs: Vec<(Vec<u8>, Vec<u8>)>,
}

impl View for MemEngine {
    type V = Map<Seq<u8>, Seq<u8>>;

    closed spec fn view(&self) -> Map<Seq<u8>, Seq<u8>> {
        hist_map(self.pairs@)
    }
}

impl MemEngine {
    /// An empty engine.
    pub fn new() -> (r: MemEngine)
        ensures
            r@ == Map::<Seq<u8>, Seq<u8>>::empty(),
    {
        MemEngine { pairs: Vec::new() }
    }

    /// Writes one key directly, outside any batch.
    pub fn put(&mut self, key: Vec<u8>, value: Vec<u8>)
        ensures
            final(self)@ == old(self)@.insert(key@, value@),
    {
        let ghost orig = self.pairs@;
        self.pairs.push((key, value));
        proof {
            assert(self.pairs@.drop_last() =~= orig);
        }
    }

    /// Reads the latest value written under `key`.
    #[verifier::loop_isolation(false)]
    pub fn get(&self, key: &Vec<u8>) -> (r: Option<Vec<u8>>)
        ensures
            match r {
                Some(v) => self@.contains_key(key@) && self@[key@] == v@,
                None => !self@.contains_key(key@),
            },
    {
        let mut i: usize = self.pairs.len();
        proof {
            assert(self.pairs@.take(self.pairs@.len() as int) =~= self.pairs@);
        }
        while i > 0
            invariant
                0 <= i <= self.pairs@.len(),
                self@.contains_key(key@) == hist_map(self.pairs@.take(i as int)).contains_key(
                    key@,
                ),
                self@.contains_key(key@) ==> self@[key@] == hist_map(
                    self.pairs@.take(i as int),
                )[key@],
            decreases i,
        {
            proof {
                assert(self.pairs@.take(i as int).drop_last() =~= self.pairs@.take(i - 1));
                assert(self.pairs@.take(i as int).last() == self.pairs@[i - 1]);
            }
            if compare_bytes(&self.pairs[i - 1].0, key) {
                let v = sub_vec(&self.pairs[i - 1].1, 0, self.pairs[i - 1].1.len());
                return Some(v);
            }
            i -= 1;
        }
        proof {
            assert(self.pairs@.take(0) =~= Seq::<(Vec<u8>, Vec<u8>)>::empty());
        }
        None
    }

    /// Commits a batch: all its puts land, in order, as one unit.
    #[verifier::loop_isolation(false)]
    pub fn write(&mut self, batch: &WriteBatch)
        ensures
            final(self)@ == apply_ops(old(self)@, batch@),
    {
        let ghost orig = self@;
        let mut i: usize = 0;
        while i < batch.len()
            invariant
                0 <= i <= batch@.len(),
                self@ == apply_ops(orig, batch@.take(i as int)),
            decreases batch@.len() - i,
        {
            let (k, v) = batch.get(i);
            let key = sub_vec(k, 0, k.len());
            let value = sub_vec(v, 0, v.len());
            proof {
                assert(key@ =~= batch@[i as int].0);
                assert(value@ =~= batch@[i as int].1);
            }
            self.put(key, value);
            proof {
                assert(batch@.take(i + 1).drop_last() =~= batch@.take(i as int));
                assert(batch@.take(i + 1).last() == batch@[i as int]);
            }
            i += 1;
        }
        proof {
            assert(batch@.take(batch@.len() as int) =~= batch@);
        }
    }

    /// The put history as rows, oldest first: what a startup replay walks.
    /// Their map is exactly the engine's view.
    #[verifier::loop_isolation(false)]
    pub fn rows(&self) -> (r: Vec<(Vec<u8>, Vec<u8>)>)
        ensures
            hist_map(r@) == self@,
    {
        let mut pairs: Vec<(Vec<u8>, Vec<u8>)> = Vec::new();
        let mut i: usize = 0;
        while i < self.pairs.len()
            invariant
                0 <= i <= self.pairs@.len(),
                pairs@.len() == i,
                forall|j: int| 0 <= j < i ==> (#[trigger] pairs@[j]).0@ == self.pairs@[j].0@
                    && pairs@[j].1@ == self.pairs@[j].1@,
            decreases self.pairs@.len() - i,
        {
            let k = sub_vec(&self.pairs[i].0, 0, self.pairs[i].0.len());
            let v = sub_vec(&self.pairs[i].1, 0, self.pairs[i].1.len());
            pairs.push((k, v));
            i += 1;
        }
        proof {
            lemma_hist_map_views(pairs@, self.pairs@);
        }
        pairs
    }

    /// A point-in-time snapshot: an engine with the same view, unaffected
    /// by later writes to this one.
    #[verifier::loop_isolation(false)]
    pub fn snapshot(&self) -> (r: MemEngine)
        ensures
            r@ == self@,
    {
        let mut pairs: Vec<(Vec<u8>, Vec<u8>)> = Vec::new();
        let mut i: usize = 0;
        while i < self.pairs.len()
            invariant
                0 <= i <= self.pairs@.len(),
                pairs@.len() == i,
                forall|j: int| 0 <= j < i ==> (#[trigger] pairs@[j]).0@ == self.pairs@[j].0@
                    && pairs@[j].1@ == self.pairs@[j].1@,
            decreases self.pairs@.len() - i,
        {
            let k = sub_vec(&self.pairs[i].0, 0, self.pairs[i].0.len());
            let v = sub_vec(&self.pairs[i].1, 0, self.pairs[i].1.len());
            pairs.push((k, v));
            i += 1;
        }
        let r = MemEngine { pairs };
        proof {
            lemma_hist_map_views(r.pairs@, self.pairs@);
        }
        r
    }
}

/// What a sequence of puts leaves under one key: the last put under that
/// key if there is one, else what the map already held.
#[verifier::rlimit(100)]
#[verifier::spinoff_prover]
pub proof fn lemma_apply_ops_key(
    m: Map<Seq<u8>, Seq<u8>>,
    ops: Seq<(Seq<u8>, Seq<u8>)>,
    key: Seq<u8>,
)
    ensures
        apply_ops(m, ops).contains_key(key) <==> (m.contains_key(key) || exists|i: int|
            0 <= i < ops.len() && (#[trigger] ops[i]).0 == key),
        forall|i: int|
            (0 <= i < ops.len() && (#[trigger] ops[i]).0 == key && (forall|j: int|
                i < j < ops.len() ==> (#[trigger] ops[j]).0 != key)) ==> apply_ops(m, ops)[key]
                == ops[i].1,
        (forall|i: int| 0 <= i < ops.len() ==> (#[trigger] ops[i]).0 != key) ==> (apply_ops(
            m,
            ops,
        ).contains_key(key) == m.contains_key(key) && (m.contains_key(key) ==> apply_ops(m, ops)[key]
            == m[key])),
    decreases ops.len(),
{
    if ops.len() > 0 {
        lemma_apply_ops_key(m, ops.drop_last(), key);
        assert(forall|i: int| 0 <= i < ops.len() - 1 ==> ops.drop_last()[i] == ops[i]);
        if ops.last().0 == key {
            assert(ops[ops.len() - 1].0 == key);
        }
    }
}

/// Histories whose puts agree pairwise denote the same map.
proof fn lemma_hist_map_views(a: Seq<(Vec<u8>, Vec<u8>)>, b: Seq<(Vec<u8>, Vec<u8>)>)
    requires
        a.len() == b.len(),
        forall|j: int| 0 <= j < a.len() ==> (#[trigger] a[j]).0@ == b[j].0@ && a[j].1@ == b[j].1@,
    ensures
        hist_map(a) == hist_map(b),
    decreases a.len(),
{
    if a.len() > 0 {
        lemma_hist_map_views(a.drop_last(), b.drop_last());
    }
}

/// Byte-wise equality of two keys.
#[verifier::loop_isolation(false)]
pub fn compare_bytes(a: &Vec<u8>, b: &Vec<u8>) -> (r: bool)
    ensures
        r == (a@ == b@),
{
    if a.len() != b.len() {
        proof {
            assert(a@ != b@);
        }
        return false;
    }
    let mut i: usize = 0;
    while i < a.len()
        invariant
            0 <= i <= a@.len(),
            a@.len() == b@.len(),
            forall|j: int| 0 <= j < i ==> a@[j] == b@[j],
        decreases a@.len() - i,
    {
        if a[i] != b[i] {
            proof {
                assert(a@[i as int] != b@[i as int]);
            }
            return false;
        }
        i += 1;
    }
    proof {
        assert(a@ =~= b@);
    }
    true
}

} // verus!
