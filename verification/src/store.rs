//! The storage adapter: durable log, hard state, apply state and address
//! book on top of the key-value engine, in the shape the consensus core
//! consumes.
//!
//! The adapter caches the log and both state rows in memory; every durable
//! change is staged into the atomic write batch of the current Ready cycle
//! (`process_ready`) and the cache is advanced only after the batch
//! committed (`post_ready`). Bootstrap seeds an empty engine once and leaves
//! a non-empty one untouched.

use vstd::prelude::*;

use crate::batch::WriteBatch;
use crate::codec::{be_bytes, be_value, lemma_be_round_trip, sub_vec, u64_from_be, u64_to_be};
use crate::engine::{apply_ops, lemma_apply_ops_key, MemEngine};
use crate::keys::{
    address_key, log_key, spec_address_key, spec_log_key, APPLY_STATE_KEY, HARD_STATE_KEY,
};
use crate::state::{
    decode_apply_state, decode_entry, decode_hard_state, encode_apply_state, encode_entry,
    encode_hard_state, lemma_entry_encoding_shape, spec_encode_apply_state, spec_encode_entry,
    spec_encode_hard_state, ApplyState, Entry, EntryKind, EntryView, HardState,
};

verus! {

/// Why the consensus core could not be served from the log.
#[derive(Clone, Copy, PartialEq, Eq, Structural, Debug)]
pub enum StorageError {
    /// The range starts before the log does.
    Compacted,
    /// The range ends past the last appended entry.
    Unavailable,
    /// No snapshot can be produced right now.
    SnapshotTemporarilyUnavailable,
}

/// Carries the apply-state advance of one Ready cycle from staging
/// (`process_ready`) to the cache update after commit (`post_ready`).
#[derive(Clone, Copy, PartialEq, Eq, Structural)]
pub struct InvokeContext {
    /// The apply state the cycle will leave behind.
    pub apply_state: ApplyState,
}

/// The engine holds a seeded store: bootstrap ran at some point.
pub open spec fn spec_exists(m: Map<Seq<u8>, Seq<u8>>) -> bool {
    m.contains_key(seq![APPLY_STATE_KEY])
}

/// The in-memory size of an entry row, the unit of the fetch budget.
pub open spec fn entry_bytes(e: EntryView) -> nat {
    25 + e.context.len() + e.data.len()
}

/// The bytes of the first `k` entries of a segment.
pub open spec fn prefix_bytes(s: Seq<Entry>, k: int) -> nat
    decreases k,
{
    if k <= 0 {
        0
    } else {
        prefix_bytes(s, k - 1) + entry_bytes(s[k - 1]@)
    }
}

/// `x` clipped to a machine word.
pub open spec fn sat64(x: nat) -> u64 {
    if x <= u64::MAX {
        x as u64
    } else {
        u64::MAX
    }
}

/// The voter set a log prefix denotes: the peers named by configuration
/// entries at or below the commit index, in log order.
pub open spec fn conf_voters(log: Seq<Entry>, commit: u64) -> Seq<u64>
    decreases log.len(),
{
    if log.len() == 0 {
        Seq::empty()
    } else if log.last()@.kind == EntryKind::ConfChange && log.last()@.index <= commit
        && log.last()@.data.len() == 8 {
        conf_voters(log.drop_last(), commit).push(be_value(log.last()@.data))
    } else {
        conf_voters(log.drop_last(), commit)
    }
}

/// A deep copy of an entry.
pub fn clone_entry(e: &Entry) -> (r: Entry)
    ensures
        r@ == e@,
{
    let context = sub_vec(&e.context, 0, e.context.len());
    let data = sub_vec(&e.data, 0, e.data.len());
    proof {
        assert(context@ =~= e.context@);
        assert(data@ =~= e.data@);
    }
    Entry { index: e.index, term: e.term, kind: e.kind, context, data }
}

/// The key of the hard state row.
pub fn hard_state_key() -> (r: Vec<u8>)
    ensures
        r@ == seq![HARD_STATE_KEY],
{
    let mut r: Vec<u8> = Vec::new();
    r.push(HARD_STATE_KEY);
    proof {
        assert(r@ =~= seq![HARD_STATE_KEY]);
    }
    r
}

/// The key of the apply state row.
pub fn apply_state_key() -> (r: Vec<u8>)
    ensures
        r@ == seq![APPLY_STATE_KEY],
{
    let mut r: Vec<u8> = Vec::new();
    r.push(APPLY_STATE_KEY);
    proof {
        assert(r@ =~= seq![APPLY_STATE_KEY]);
    }
    r
}

/// The storage adapter over one engine.
pub struct LogStore {
    /// The local peer id.
    pub my_id: u64,
    /// First log index; the log is never compacted here, so it stays 1.
    pub first: u64,
    /// Last log index; `first - 1` when the log is empty.
    pub last: u64,
    /// The persistent consensus triple.
    pub hard_state: HardState,
    /// How far the state machine has consumed the log.
    pub apply: ApplyState,
    /// The voter set of the initial configuration.
    pub voters: Vec<u64>,
    /// Cached log entries, `first ..= last` in order.
    pub log: Vec<Entry>,
}

impl LogStore {
    /// The log cache covers exactly `first ..= last` with matching indices.
    pub open spec fn wf(self) -> bool {
        &&& self.first >= 1
        &&& self.last + 1 >= self.first
        &&& self.log@.len() == self.last + 1 - self.first
        &&& forall|k: int| 0 <= k < self.log@.len()
            ==> (#[trigger] self.log@[k])@.index == self.first + k
    }

    /// The local peer id.
    pub fn id(&self) -> (r: u64)
        ensures
            r == self.my_id,
    {
        self.my_id
    }

    /// First index of the log.
    pub fn first_index(&self) -> (r: u64)
        ensures
            r == self.first,
    {
        self.first
    }

    /// Last index of the log.
    pub fn last_index(&self) -> (r: u64)
        ensures
            r == self.last,
    {
        self.last
    }

    /// The applied index the state machine has reached.
    pub fn applied(&self) -> (r: u64)
        ensures
            r == self.apply.applied_index,
    {
        self.apply.applied_index
    }

    /// The hard state and voter set the consensus core starts from.
    pub fn initial_state(&self) -> (r: (HardState, Vec<u64>))
        ensures
            r.0 == self.hard_state,
            r.1@ == self.voters@,
    {
        let mut voters: Vec<u64> = Vec::new();
        let mut i: usize = 0;
        while i < self.voters.len()
            invariant
                0 <= i <= self.voters@.len(),
                voters@ == self.voters@.take(i as int),
            decreases self.voters@.len() - i,
        {
            voters.push(self.voters[i]);
            proof {
                assert(voters@ =~= self.voters@.take(i + 1));
            }
            i += 1;
        }
        proof {
            assert(self.voters@.take(self.voters@.len() as int) =~= self.voters@);
        }
        (self.hard_state, voters)
    }

    /// True exactly when the initial configuration is this peer alone — the
    /// node may then campaign at once.
    pub fn singleton(&self) -> (r: bool)
        ensures
            r == (self.voters@.len() == 1 && self.voters@[0] == self.my_id),
    {
        self.voters.len() == 1 && self.voters[0] == self.my_id
    }

    /// Serves `lo .. hi` of the log, stopping early once the size budget is
    /// spent but always serving at least one entry. Fails `Compacted` when
    /// the range starts before the log, `Unavailable` when it ends past it.
    #[verifier::loop_isolation(false)]
    pub fn entries(&self, lo: u64, hi: u64, max_size: u64) -> (r: Result<Vec<Entry>, StorageError>)
        requires
            self.wf(),
            lo <= hi,
        ensures
            match r {
                Ok(v) => {
                    &&& self.first <= lo
                    &&& hi <= self.last + 1
                    &&& exists|n: int|
                        #![trigger prefix_bytes(self.log@.subrange(lo - self.first, hi - self.first), n)]
                    {
                        let seg = self.log@.subrange(lo - self.first, hi - self.first);
                        &&& 0 <= n <= seg.len()
                        &&& (n == 0 ==> seg.len() == 0)
                        &&& v@.len() == n
                        &&& (forall|k: int| 0 <= k < n ==> (#[trigger] v@[k])@ == seg[k]@)
                        &&& (n < seg.len() ==> sat64(prefix_bytes(seg, n + 1)) > max_size)
                        &&& (n > 1 ==> sat64(prefix_bytes(seg, n)) <= max_size)
                    }
                },
                Err(StorageError::Compacted) => lo < self.first,
                Err(StorageError::Unavailable) => lo >= self.first && hi > self.last + 1,
                Err(StorageError::SnapshotTemporarilyUnavailable) => false,
            },
    {
        if lo < self.first {
            return Err(StorageError::Compacted);
        }
        if hi - 1 > self.last {
            return Err(StorageError::Unavailable);
        }
        let ghost seg = self.log@.subrange(lo - self.first, hi - self.first);
        let mut v: Vec<Entry> = Vec::new();
        let mut total: u64 = 0;
        let mut i: u64 = lo;
        proof {
            assert(prefix_bytes(seg, 0) == 0);
        }
        while i < hi
            invariant
                lo <= i <= hi,
                v@.len() == i - lo,
                forall|k: int| 0 <= k < v@.len() ==> (#[trigger] v@[k])@ == seg[k]@,
                total == sat64(prefix_bytes(seg, i - lo)),
                i - lo > 1 ==> total <= max_size,
            decreases hi - i,
        {
            let nlog = self.log.len();
            proof {
                assert(i - self.first < nlog);
            }
            let e = &self.log[(i - self.first) as usize];
            proof {
                assert(seg[i - lo] == self.log@[i - self.first]);
            }
            let clen = e.context.len() as u64;
            let dlen = e.data.len() as u64;
            let size = sat_add(sat_add(25, clen), dlen);
            let new_total = sat_add(total, size);
            proof {
                let x = prefix_bytes(seg, i - lo);
                let y = entry_bytes(seg[i - lo]@);
                assert(e@ == seg[i - lo]@);
                assert(y == (25 + clen + dlen) as nat);
                assert(prefix_bytes(seg, i - lo + 1) == x + y);
                lemma_sat_add_collapse((25 + clen) as nat, dlen as nat);
                assert(size == sat64(y));
                lemma_sat_both(x, y);
                assert(new_total == sat64(prefix_bytes(seg, i - lo + 1)));
            }
            if new_total > max_size && i > lo {
                proof {
                    let n = i - lo;
                    assert(sat64(prefix_bytes(seg, n + 1)) > max_size);
                }
                return Ok(v);
            }
            v.push(clone_entry(e));
            total = new_total;
            i += 1;
        }
        Ok(v)
    }

    /// The term of the entry at `index`; index zero — the log's base — has
    /// term zero. Fails `Compacted` before the base, `Unavailable` past the
    /// last entry.
    pub fn term(&self, index: u64) -> (r: Result<u64, StorageError>)
        requires
            self.wf(),
        ensures
            match r {
                Ok(t) => {
                    &&& self.first - 1 <= index <= self.last
                    &&& t == if index == self.first - 1 {
                        0u64
                    } else {
                        self.log@[index - self.first]@.term
                    }
                },
                Err(StorageError::Compacted) => index < self.first - 1,
                Err(StorageError::Unavailable) => index > self.last,
                Err(StorageError::SnapshotTemporarilyUnavailable) => false,
            },
    {
        if index < self.first - 1 {
            return Err(StorageError::Compacted);
        }
        if index > self.last {
            return Err(StorageError::Unavailable);
        }
        if index == self.first - 1 {
            return Ok(0);
        }
        let n = self.log.len();
        proof {
            assert(index - self.first < n);
        }
        Ok(self.log[(index - self.first) as usize].term)
    }

    /// The minimal snapshot hook: no snapshot is ever produced here, the
    /// consensus core is told to retry later.
    pub fn snapshot(&self, request_index: u64) -> (r: Result<Entry, StorageError>)
        ensures
            r == Result::<Entry, StorageError>::Err(StorageError::SnapshotTemporarilyUnavailable),
    {
        let _ = request_index;
        Err(StorageError::SnapshotTemporarilyUnavailable)
    }

    /// What one Ready cycle stages durably: the new hard state if any, the
    /// newly appended entries under their log keys, and the advanced apply
    /// state if it moved.
    pub open spec fn spec_staged_rows(
        self,
        ctx: InvokeContext,
        hs: Option<HardState>,
        es: Seq<Entry>,
    ) -> Seq<(Seq<u8>, Seq<u8>)> {
        (match hs {
            Some(h) => seq![(seq![HARD_STATE_KEY], spec_encode_hard_state(h))],
            None => Seq::empty(),
        }) + Seq::new(es.len(), |i: int| (spec_log_key(es[i]@.index), spec_encode_entry(es[i]@)))
            + (if ctx.apply_state != self.apply {
            seq![(seq![APPLY_STATE_KEY], spec_encode_apply_state(ctx.apply_state))]
        } else {
            Seq::empty()
        })
    }

    /// Stages one Ready cycle's durable rows into the batch: hard state,
    /// appended entries, advanced apply state — nothing else, in that order.
    /// The apply state never moves backwards.
    #[verifier::loop_isolation(false)]
    pub fn process_ready(
        &self,
        ctx: &InvokeContext,
        hs: &Option<HardState>,
        new_entries: &Vec<Entry>,
        batch: &mut WriteBatch,
    )
        requires
            old(batch).wf(),
            ctx.apply_state.applied_index >= self.apply.applied_index,
        ensures
            final(batch).wf(),
            final(batch)@ == old(batch)@ + self.spec_staged_rows(*ctx, *hs, new_entries@),
    {
        let ghost orig = batch@;
        let ghost staged = self.spec_staged_rows(*ctx, *hs, new_entries@);
        let ghost hs_part: Seq<(Seq<u8>, Seq<u8>)> = match *hs {
            Some(h) => seq![(seq![HARD_STATE_KEY], spec_encode_hard_state(h))],
            None => Seq::empty(),
        };
        let ghost entry_part = Seq::new(
            new_entries@.len(),
            |i: int| (spec_log_key(new_entries@[i]@.index), spec_encode_entry(new_entries@[i]@)),
        );
        match hs {
            Some(h) => {
                batch.put(hard_state_key(), encode_hard_state(h));
            }
            None => {}
        }
        proof {
            assert(batch@ =~= orig + hs_part);
        }
        let mut i: usize = 0;
        while i < new_entries.len()
            invariant
                0 <= i <= new_entries@.len(),
                batch.wf(),
                batch@ == orig + hs_part + entry_part.take(i as int),
            decreases new_entries@.len() - i,
        {
            let e = &new_entries[i];
            batch.put(log_key(e.index), encode_entry(e));
            proof {
                assert(batch@ =~= orig + hs_part + entry_part.take(i + 1));
            }
            i += 1;
        }
        proof {
            assert(entry_part.take(entry_part.len() as int) =~= entry_part);
        }
        let moved = !(ctx.apply_state.applied_index == self.apply.applied_index
            && ctx.apply_state.applied_term == self.apply.applied_term);
        if moved {
            batch.put(apply_state_key(), encode_apply_state(&ctx.apply_state));
        }
        proof {
            assert(batch@ =~= orig + staged);
        }
    }

    /// Advances the cached state after the cycle's batch committed: the log
    /// tail is replaced by the appended entries and the apply state moves
    /// forward — never back.
    #[verifier::loop_isolation(false)]
    pub fn post_ready(&mut self, ctx: InvokeContext, new_entries: Vec<Entry>)
        requires
            old(self).wf(),
            ctx.apply_state.applied_index >= old(self).apply.applied_index,
            forall|j: int| 0 <= j < new_entries@.len()
                ==> (#[trigger] new_entries@[j])@.index == new_entries@[0]@.index + j,
            new_entries@.len() > 0 ==> old(self).first <= new_entries@[0]@.index
                <= old(self).last + 1,
            new_entries@.len() > 0
                ==> new_entries@[0]@.index + new_entries@.len() - 1 <= u64::MAX,
        ensures
            final(self).wf(),
            final(self).my_id == old(self).my_id,
            final(self).first == old(self).first,
            final(self).hard_state == old(self).hard_state,
            final(self).voters == old(self).voters,
            final(self).apply == ctx.apply_state,
            final(self).apply.applied_index >= old(self).apply.applied_index,
            final(self).last == if new_entries@.len() > 0 {
                (new_entries@[0]@.index + new_entries@.len() - 1) as u64
            } else {
                old(self).last
            },
            final(self).log@.len() == final(self).last + 1 - final(self).first,
            forall|k: int| 0 <= k < final(self).log@.len()
                ==> (#[trigger] final(self).log@[k])@ == if new_entries@.len() > 0
                    && k >= new_entries@[0]@.index - old(self).first {
                    new_entries@[k - (new_entries@[0]@.index - old(self).first)]@
                } else {
                    old(self).log@[k]@
                },
    {
        self.apply = ctx.apply_state;
        if new_entries.len() == 0 {
            return;
        }
        let start = new_entries[0].index;
        let loglen = self.log.len();
        proof {
            assert(start - self.first <= loglen);
        }
        let keep = (start - self.first) as usize;
        let ghost orig_log = self.log@;
        proof {
            assert(self.log@ =~= orig_log.take(orig_log.len() as int));
        }
        while self.log.len() > keep
            invariant
                keep <= self.log@.len() <= orig_log.len(),
                self.log@ == orig_log.take(self.log@.len() as int),
                self.my_id == old(self).my_id,
                self.first == old(self).first,
                self.last == old(self).last,
                self.hard_state == old(self).hard_state,
                self.voters == old(self).voters,
                self.apply == ctx.apply_state,
            decreases self.log@.len(),
        {
            self.log.pop();
            proof {
                assert(orig_log.take(self.log@.len() as int + 1).drop_last()
                    =~= orig_log.take(self.log@.len() as int));
            }
        }
        let mut j: usize = 0;
        let ghost kept = self.log@;
        while j < new_entries.len()
            invariant
                0 <= j <= new_entries@.len(),
                self.log@.len() == keep + j,
                self.log@.take(keep as int) == kept,
                kept == orig_log.take(keep as int),
                forall|k: int| keep <= k < keep + j
                    ==> (#[trigger] self.log@[k])@ == new_entries@[k - keep]@,
                self.my_id == old(self).my_id,
                self.first == old(self).first,
                self.last == old(self).last,
                self.hard_state == old(self).hard_state,
                self.voters == old(self).voters,
                self.apply == ctx.apply_state,
            decreases new_entries@.len() - j,
        {
            self.log.push(clone_entry(&new_entries[j]));
            proof {
                assert(self.log@.take(keep as int) =~= kept);
            }
            j += 1;
        }
        self.last = (start - 1) + (new_entries.len() as u64);
        proof {
            assert(kept == orig_log.take(keep as int));
            assert forall|k: int| 0 <= k < keep
                implies (#[trigger] self.log@[k])@ == orig_log[k]@ by {
                assert(self.log@.take(keep as int)[k] == self.log@[k]);
                assert(kept[k] == orig_log[k]);
            }
            assert forall|k: int| 0 <= k < self.log@.len()
                implies (#[trigger] self.log@[k])@.index == self.first + k by {
                if k < keep {
                    assert(self.log@[k]@ == orig_log[k]@);
                    assert(orig_log[k]@.index == self.first + k);
                } else {
                    assert(self.log@[k]@ == new_entries@[k - keep]@);
                    assert(new_entries@[k - keep]@.index == new_entries@[0]@.index + (k - keep));
                }
            }
        }
    }
}

/// The voter set a first start seeds: the initial peers when the local id
/// is one of them, else nobody — the node waits to be added by a
/// configuration change.
pub open spec fn spec_initial_voters(peers: Seq<u64>, my_id: u64) -> Seq<u64> {
    if peers.contains(my_id) {
        peers
    } else {
        Seq::empty()
    }
}

/// The configuration entry seeding voter `peer` at `index`.
pub open spec fn spec_conf_entry(index: u64, peer: u64) -> EntryView {
    EntryView {
        index,
        term: 1,
        kind: EntryKind::ConfChange,
        context: Seq::empty(),
        data: be_bytes(peer),
    }
}

/// The hard state a first start seeds: term one, no vote, the seeded
/// configuration entries committed.
pub open spec fn spec_bootstrap_hard_state(n: u64) -> HardState {
    HardState { term: 1, vote: 0, commit: n }
}

/// The apply state a first start seeds: the configuration entries count as
/// consumed.
pub open spec fn spec_bootstrap_apply_state(n: u64) -> ApplyState {
    ApplyState { applied_index: n, applied_term: if n == 0 { 0u64 } else { 1u64 } }
}

/// Everything a first start writes: one configuration entry per voter, the
/// hard state, the apply state, and the initial address book.
pub open spec fn spec_bootstrap_rows(voters: Seq<u64>, addresses: Seq<(u64, Seq<u8>)>) -> Seq<
    (Seq<u8>, Seq<u8>),
> {
    Seq::new(
        voters.len() as nat,
        |i: int| (
            spec_log_key((i + 1) as u64),
            spec_encode_entry(spec_conf_entry((i + 1) as u64, voters[i])),
        ),
    ) + seq![
        (seq![HARD_STATE_KEY], spec_encode_hard_state(spec_bootstrap_hard_state(voters.len() as u64))),
        (
            seq![APPLY_STATE_KEY],
            spec_encode_apply_state(spec_bootstrap_apply_state(voters.len() as u64)),
        ),
    ] + Seq::new(addresses.len() as nat, |i: int| (spec_address_key(addresses[i].0), addresses[i].1))
}

/// Seeds an empty engine with the initial configuration and address book;
/// an engine that already holds a store is left exactly as it is, so
/// running this twice changes nothing the second time.
#[verifier::loop_isolation(false)]
#[verifier::rlimit(50)]
pub fn bootstrap(
    engine: &mut MemEngine,
    initial_peers: &Vec<u64>,
    my_id: u64,
    addresses: &Vec<(u64, Vec<u8>)>,
)
    requires
        initial_peers@.len() <= u64::MAX,
    ensures
        spec_exists(old(engine)@) ==> final(engine)@ == old(engine)@,
        !spec_exists(old(engine)@) ==> final(engine)@ == apply_ops(
            old(engine)@,
            spec_bootstrap_rows(
                spec_initial_voters(initial_peers@, my_id),
                addresses@.map_values(|p: (u64, Vec<u8>)| (p.0, p.1@)),
            ),
        ),
        spec_exists(final(engine)@),
{
    let probe = engine.get(&apply_state_key());
    if probe.is_some() {
        return;
    }
    let mut member = false;
    let mut i: usize = 0;
    while i < initial_peers.len()
        invariant
            0 <= i <= initial_peers@.len(),
            member == exists|j: int| 0 <= j < i && initial_peers@[j] == my_id,
        decreases initial_peers@.len() - i,
    {
        if initial_peers[i] == my_id {
            member = true;
        }
        i += 1;
    }
    let ghost voters_spec = spec_initial_voters(initial_peers@, my_id);
    let ghost addrs_spec = addresses@.map_values(|p: (u64, Vec<u8>)| (p.0, p.1@));
    let ghost rows = spec_bootstrap_rows(voters_spec, addrs_spec);
    let ghost orig = engine@;
    proof {
        assert(member == initial_peers@.contains(my_id));
    }
    let n: u64 = if member {
        initial_peers.len() as u64
    } else {
        0
    };
    proof {
        assert(voters_spec.len() == n);
        assert(engine@ =~= apply_ops(orig, rows.take(0)));
    }
    let mut k: u64 = 0;
    while k < n
        invariant
            0 <= k <= n,
            n == voters_spec.len(),
            member ==> voters_spec == initial_peers@,
            engine@ == apply_ops(orig, rows.take(k as int)),
        decreases n - k,
    {
        let peer = initial_peers[k as usize];
        let entry = Entry {
            index: k + 1,
            term: 1,
            kind: EntryKind::ConfChange,
            context: Vec::new(),
            data: u64_to_be(peer),
        };
        proof {
            assert(entry@ =~= spec_conf_entry((k + 1) as u64, voters_spec[k as int]));
        }
        engine.put(log_key(k + 1), encode_entry(&entry));
        proof {
            assert(rows.take(k as int + 1).drop_last() =~= rows.take(k as int));
            assert(rows[k as int] == (spec_log_key((k + 1) as u64), spec_encode_entry(entry@)));
            assert(engine@ =~= apply_ops(orig, rows.take(k as int + 1)));
        }
        k += 1;
    }
    let hs = HardState { term: 1, vote: 0, commit: n };
    engine.put(hard_state_key(), encode_hard_state(&hs));
    proof {
        assert(rows.take(n as int + 1).drop_last() =~= rows.take(n as int));
        assert(rows[n as int] == (seq![HARD_STATE_KEY], spec_encode_hard_state(hs)));
        assert(engine@ =~= apply_ops(orig, rows.take(n as int + 1)));
    }
    let apply = ApplyState { applied_index: n, applied_term: if n == 0 { 0 } else { 1 } };
    engine.put(apply_state_key(), encode_apply_state(&apply));
    proof {
        assert(rows.take(n as int + 2).drop_last() =~= rows.take(n as int + 1));
        assert(rows[n as int + 1] == (seq![APPLY_STATE_KEY], spec_encode_apply_state(apply)));
        assert(engine@ =~= apply_ops(orig, rows.take(n as int + 2)));
    }
    let mut a: usize = 0;
    while a < addresses.len()
        invariant
            0 <= a <= addresses@.len(),
            n == voters_spec.len(),
            engine@ == apply_ops(orig, rows.take(n as int + 2 + a)),
        decreases addresses@.len() - a,
    {
        let (id, addr) = (&addresses[a].0, &addresses[a].1);
        let value = sub_vec(addr, 0, addr.len());
        proof {
            assert(value@ =~= addresses@[a as int].1@);
        }
        engine.put(address_key(*id), value);
        proof {
            assert(rows.take(n as int + 2 + a + 1).drop_last() =~= rows.take(n as int + 2 + a));
            assert(addrs_spec[a as int] == (addresses@[a as int].0, addresses@[a as int].1@));
            assert(rows[n as int + 2 + a] == (
                spec_address_key(addresses@[a as int].0),
                addresses@[a as int].1@,
            ));
            assert(engine@ =~= apply_ops(orig, rows.take(n as int + 2 + a + 1)));
        }
        a += 1;
    }
    proof {
        assert(rows.take(rows.len() as int) =~= rows);
        lemma_apply_ops_key(orig, rows, seq![APPLY_STATE_KEY]);
        assert(rows[n as int + 1].0 == seq![APPLY_STATE_KEY]);
    }
}

/// Reads the store back from the engine: both state rows (absent rows mean
/// a fresh peer) and the contiguous log from index one. Returns nothing —
/// storage corruption — exactly when a present row fails to decode, a log
/// row carries the wrong index, or the log never ends.
#[verifier::loop_isolation(false)]
pub fn open(engine: &MemEngine, my_id: u64) -> (r: Option<LogStore>)
    ensures
        match r {
            Some(s) => {
                &&& s.wf()
                &&& s.my_id == my_id
                &&& s.first == 1
                &&& if engine@.contains_key(seq![HARD_STATE_KEY]) {
                    engine@[seq![HARD_STATE_KEY]] == spec_encode_hard_state(s.hard_state)
                } else {
                    s.hard_state == (HardState { term: 0, vote: 0, commit: 0 })
                }
                &&& if engine@.contains_key(seq![APPLY_STATE_KEY]) {
                    engine@[seq![APPLY_STATE_KEY]] == spec_encode_apply_state(s.apply)
                } else {
                    s.apply == (ApplyState { applied_index: 0, applied_term: 0 })
                }
                &&& forall|k: int| 0 <= k < s.log@.len() ==> {
                    &&& engine@.contains_key(spec_log_key((k + 1) as u64))
                    &&& engine@[spec_log_key((k + 1) as u64)] == spec_encode_entry(
                        (#[trigger] s.log@[k])@,
                    )
                }
                &&& s.last < u64::MAX ==> !engine@.contains_key(spec_log_key((s.last + 1) as u64))
                &&& s.voters@ == conf_voters(s.log@, s.hard_state.commit)
            },
            None => {
                ||| (engine@.contains_key(seq![HARD_STATE_KEY]) && (forall|h: HardState|
                    engine@[seq![HARD_STATE_KEY]] != spec_encode_hard_state(h)))
                ||| (engine@.contains_key(seq![APPLY_STATE_KEY]) && (forall|a: ApplyState|
                    engine@[seq![APPLY_STATE_KEY]] != spec_encode_apply_state(a)))
                ||| (exists|i: u64|
                    #![trigger spec_log_key(i)]
                    {
                        &&& 1 <= i
                        &&& (forall|j: u64| 1 <= j < i
                                ==> engine@.contains_key(#[trigger] spec_log_key(j)))
                        &&& engine@.contains_key(spec_log_key(i))
                        &&& (forall|ev: EntryView| ev.index == i
                                ==> engine@[spec_log_key(i)] != spec_encode_entry(ev))
                    })
                ||| (forall|j: u64| 1 <= j ==> engine@.contains_key(#[trigger] spec_log_key(j)))
            },
        },
{
    let hard_state = match engine.get(&hard_state_key()) {
        Some(row) => {
            match decode_hard_state(&row) {
                Some(h) => h,
                None => {
                    return None;
                }
            }
        }
        None => HardState { term: 0, vote: 0, commit: 0 },
    };
    let apply = match engine.get(&apply_state_key()) {
        Some(row) => {
            match decode_apply_state(&row) {
                Some(a) => a,
                None => {
                    return None;
                }
            }
        }
        None => ApplyState { applied_index: 0, applied_term: 0 },
    };
    let mut log: Vec<Entry> = Vec::new();
    let mut i: u64 = 1;
    loop
        invariant
            1 <= i,
            log@.len() == i - 1,
            forall|j: u64| 1 <= j < i ==> engine@.contains_key(#[trigger] spec_log_key(j)),
            forall|k: int| 0 <= k < log@.len() ==> {
                &&& engine@.contains_key(spec_log_key((k + 1) as u64))
                &&& engine@[spec_log_key((k + 1) as u64)] == spec_encode_entry(
                    (#[trigger] log@[k])@,
                )
                &&& log@[k]@.index == k + 1
            },
        decreases u64::MAX - i,
    {
        let row = match engine.get(&log_key(i)) {
            Some(row) => row,
            None => {
                break;
            }
        };
        let e = match decode_entry(&row) {
            Some(e) => e,
            None => {
                return None;
            }
        };
        if e.index != i {
            proof {
                crate::codec::lemma_be_round_trip();
                assert forall|ev: EntryView| ev.index == i
                    implies engine@[spec_log_key(i)] != spec_encode_entry(ev) by {
                    lemma_entry_encoding_shape(ev);
                    lemma_entry_encoding_shape(e@);
                    if engine@[spec_log_key(i)] == spec_encode_entry(ev) {
                        assert(spec_encode_entry(e@).subrange(0, 8) == be_bytes(e.index));
                        assert(spec_encode_entry(ev).subrange(0, 8) == be_bytes(ev.index));
                        crate::codec::lemma_be_injective(e.index, ev.index);
                    }
                }
            }
            return None;
        }
        if i == u64::MAX {
            proof {
                assert forall|j: u64| 1 <= j
                    implies engine@.contains_key(#[trigger] spec_log_key(j)) by {
                    if j < u64::MAX {
                    } else {
                        assert(engine@.contains_key(spec_log_key(u64::MAX)));
                    }
                }
            }
            return None;
        }
        log.push(e);
        i += 1;
    }
    let last = log.len() as u64;
    let mut voters: Vec<u64> = Vec::new();
    let mut j: usize = 0;
    proof {
        assert(voters@ =~= conf_voters(log@.take(0), hard_state.commit));
    }
    while j < log.len()
        invariant
            0 <= j <= log@.len(),
            voters@ == conf_voters(log@.take(j as int), hard_state.commit),
        decreases log@.len() - j,
    {
        let e = &log[j];
        proof {
            assert(log@.take(j as int + 1).drop_last() =~= log@.take(j as int));
            assert(log@.take(j as int + 1).last() == log@[j as int]);
        }
        let is_conf = match e.kind {
            EntryKind::ConfChange => true,
            EntryKind::Normal => false,
        };
        if is_conf && e.index <= hard_state.commit && e.data.len() == 8 {
            voters.push(u64_from_be(&e.data));
        }
        j += 1;
    }
    proof {
        assert(log@.take(log@.len() as int) =~= log@);
    }
    Some(LogStore { my_id, first: 1, last, hard_state, apply, voters, log })
}

/// Clipping the left operand first does not change a clipped sum.
proof fn lemma_sat_add_collapse(x: nat, y: nat)
    ensures
        sat64((sat64(x) + y) as nat) == sat64((x + y) as nat),
{
}

/// Clipping both operands first does not change a clipped sum.
proof fn lemma_sat_both(x: nat, y: nat)
    ensures
        sat64((sat64(x) + sat64(y)) as nat) == sat64((x + y) as nat),
{
}

/// Addition clipped at the top of the machine word.
pub fn sat_add(a: u64, b: u64) -> (r: u64)
    ensures
        r == sat64((a + b) as nat),
{
    if u64::MAX - a < b {
        u64::MAX
    } else {
        a + b
    }
}

} // verus!
