//! The replicated state machine driver.
//!
//! One cooperative loop owns the consensus instance, the storage adapter,
//! the write batch, the WAL controller and the proposal and read trackers.
//! The host process runs the loop: it blocks on the inbound channel, calls
//! into the consensus core, performs sends and timers, and hands every
//! outcome to this driver as plain values. The driver makes every decision —
//! what to stage, whom to notify, when to sync — and returns the actions
//! the host must carry out, in order.

use vstd::prelude::*;

use crate::batch::WriteBatch;
use crate::codec::{be_bytes, be_value, lemma_be_round_trip, u64_from_be, u64_to_be};
use crate::command::{spec_decoded, Command, CommandView};
use crate::engine::{apply_ops, hist_map, MemEngine};
use crate::keys::{spec_address_key, spec_valid_data_key, valid_data_key, address_key};
use crate::proposal::{lex_le, lex_lt, sorted, strictly_sorted, Proposal, ProposalQueue};
use crate::read::{ReadDisposition, ReadTracker};
use crate::state::{ApplyState, Entry, EntryView, HardState};
use crate::store::{InvokeContext, LogStore};
use crate::wal::WalControl;

verus! {

/// Relies on rand's thread-local generator to draw a value; nothing is
/// promised of the result — every nonce the call may return is handled.
pub assume_specification<T>[ rand::random::<T> ]() -> (r: T)
    where
        rand::distributions::Standard: rand::distributions::Distribution<T>,
;

/// Why a request failed.
#[derive(Clone, Copy, PartialEq, Eq, Structural, Debug)]
pub enum FailReason {
    /// The consensus core refused the proposal: not the leader, or the
    /// proposal was dropped.
    ProposeRejected,
    /// The command addressed a key outside the data prefix.
    InvalidKey,
    /// A read waited longer than the timeout.
    Timeout,
}

/// What a waiter is told through its single-shot notifier.
pub enum Reply {
    /// The command was applied.
    Success,
    /// The request failed; the reason says why.
    Fail(FailReason),
    /// A point-in-time view of the engine, safe at the request's read index.
    Snapshot(MemEngine),
    /// The cluster has this leader now.
    Leader(u64),
}

/// One instruction back to the host, to be carried out in order.
pub enum Action {
    /// Resolve the notifier token with the reply.
    Notify { notifier: u64, reply: Reply },
    /// Send the outbound consensus message held under this token.
    Send { token: u64 },
    /// Sync the engine's write-ahead log now.
    Sync,
    /// Tell the consensus core that everything up to this Ready number is
    /// durable.
    NotifyPersisted { number: u64 },
}

/// The map an address-row history denotes: later writes shadow earlier
/// ones.
pub open spec fn addr_hist(s: Seq<(u64, Vec<u8>)>) -> Map<u64, Seq<u8>>
    decreases s.len(),
{
    if s.len() == 0 {
        Map::empty()
    } else {
        addr_hist(s.drop_last()).insert(s.last().0, s.last().1@)
    }
}

/// The in-memory address map after a batch of committed entries: each
/// decoded address update inserts its row, in log order.
pub open spec fn spec_apply_addrs(m: Map<u64, Seq<u8>>, es: Seq<Entry>) -> Map<u64, Seq<u8>>
    decreases es.len(),
{
    if es.len() == 0 {
        m
    } else {
        match spec_decoded(es.last()@.data) {
            Some(CommandView::UpdateAddress { id, address }) => spec_apply_addrs(
                m,
                es.drop_last(),
            ).insert(id, address),
            _ => spec_apply_addrs(m, es.drop_last()),
        }
    }
}

/// The engine rows one committed entry stages: a valid put lands under its
/// own key, an address update under the peer's address row, everything else
/// — an invalid key, a payload that is no command — stages nothing.
pub open spec fn spec_entry_effect(e: EntryView) -> Seq<(Seq<u8>, Seq<u8>)> {
    match spec_decoded(e.data) {
        Some(CommandView::Put { key, value }) => if spec_valid_data_key(key) {
            seq![(key, value)]
        } else {
            Seq::empty()
        },
        Some(CommandView::UpdateAddress { id, address }) => seq![(spec_address_key(id), address)],
        None => Seq::empty(),
    }
}

/// The engine rows a batch of committed entries stages, in log order.
pub open spec fn spec_applied_rows(es: Seq<Entry>) -> Seq<(Seq<u8>, Seq<u8>)>
    decreases es.len(),
{
    if es.len() == 0 {
        Seq::empty()
    } else {
        spec_applied_rows(es.drop_last()) + spec_entry_effect(es.last()@)
    }
}

/// Whether applying this entry answers its waiter with success: everything
/// but a put outside the data prefix does.
pub open spec fn spec_entry_ok(e: EntryView) -> bool {
    match spec_decoded(e.data) {
        Some(CommandView::Put { key, .. }) => spec_valid_data_key(key),
        _ => true,
    }
}

/// The WAL controller as it stands at this cycle's sync decision: the
/// written batch's bytes counted, nothing yet reset. An idle or empty
/// cycle leaves the controller untouched.
pub open spec fn spec_mid_wal(s: Driver, ready: Option<ReadyInfo>) -> WalControl {
    match ready {
        Some(ri) => if s.has_ready && spec_cycle_rows(s, ri).len() > 0 {
            WalControl {
                unsynced_bytes: crate::store::sat64(
                    (s.wal.unsynced_bytes + crate::store::sat64(
                        crate::batch::spec_batch_bytes(spec_cycle_rows(s, ri)),
                    )) as nat,
                ),
                last_sync_us: s.wal.last_sync_us,
            }
        } else {
            s.wal
        },
        None => s.wal,
    }
}

/// Whether the core's durability demand counts this cycle: only when its
/// batch was actually written.
pub open spec fn spec_must_sync(s: Driver, ready: Option<ReadyInfo>) -> bool {
    match ready {
        Some(ri) => s.has_ready && spec_cycle_rows(s, ri).len() > 0 && ri.must_sync,
        None => false,
    }
}

/// Whether this cycle syncs the WAL: exactly the controller's policy on
/// the mid-cycle state — the size ceiling, the interval floor, or a
/// durability demand on a written batch.
pub open spec fn spec_did_sync(s: Driver, ready: Option<ReadyInfo>, now_us: u64) -> bool {
    spec_mid_wal(s, ready).spec_should_sync(now_us, spec_must_sync(s, ready))
}

/// The message backlog after this cycle's deferral decision: durability-
/// bound messages join it unless nothing was written and nothing waits.
pub open spec fn spec_backlog_mid(s: Driver, ready: Option<ReadyInfo>) -> Seq<Vec<u64>> {
    match ready {
        Some(ri) => if s.has_ready && ri.persisted_messages@.len() > 0 && !(spec_cycle_rows(
            s,
            ri,
        ).len() == 0 && s.persisted_backlog@.len() == 0) {
            s.persisted_backlog@.push(ri.persisted_messages)
        } else {
            s.persisted_backlog@
        },
        None => s.persisted_backlog@,
    }
}

/// The standing relation between the proposal queue and the committed
/// entries not yet applied (those from position `j` on): a queued proposal
/// sharing an entry's term sits at or past that entry, unless an earlier
/// unapplied entry is the one that resolves it.
pub open spec fn entries_match(q: Seq<Proposal>, es: Seq<Entry>, j: int) -> bool {
    forall|a: int, j2: int|
        0 <= a < q.len() && j <= j2 < es.len() && (#[trigger] q[a]).term == (
        #[trigger] es[j2])@.term ==> q[a].index >= es[j2]@.index || (es[0]@.index + j <= q[a].index
            && es[q[a].index - es[0]@.index]@.term == q[a].term)
}

/// The queue once the proposals a term change superseded — those of terms
/// before the entry's — are dropped from the front.
#[verifier::opaque]
pub open spec fn drop_superseded(q: Seq<Proposal>, term: u64) -> Seq<Proposal>
    decreases q.len(),
{
    if q.len() > 0 && q[0].term < term {
        drop_superseded(q.drop_first(), term)
    } else {
        q
    }
}

/// Whether a committed entry finds its own proposal at the drained front.
#[verifier::opaque]
pub open spec fn entry_resolves(q: Seq<Proposal>, e: EntryView) -> bool {
    let qd = drop_superseded(q, e.term);
    qd.len() > 0 && qd[0].term == e.term && qd[0].index == e.index
}

/// The queue one committed entry leaves behind: the superseded front gone,
/// and the matched proposal popped when there is one.
#[verifier::opaque]
pub open spec fn queue_after_entry(q: Seq<Proposal>, e: EntryView) -> Seq<Proposal> {
    let qd = drop_superseded(q, e.term);
    if entry_resolves(q, e) {
        qd.drop_first()
    } else {
        qd
    }
}

/// The queue after the first `j` entries of a committed batch were applied.
#[verifier::opaque]
pub open spec fn queue_after(q: Seq<Proposal>, es: Seq<Entry>, j: int) -> Seq<Proposal>
    decreases j,
{
    if j <= 0 {
        q
    } else {
        queue_after_entry(queue_after(q, es, j - 1), es[j - 1]@)
    }
}

/// The notifications the first `j` entries produce, in apply order: each
/// entry that finds its proposal answers exactly once, with success iff the
/// entry applied cleanly.
#[verifier::opaque]
pub open spec fn notifies_after(q: Seq<Proposal>, es: Seq<Entry>, j: int) -> Seq<(u64, bool)>
    decreases j,
{
    if j <= 0 {
        Seq::empty()
    } else {
        notifies_after(q, es, j - 1) + {
            let qp = queue_after(q, es, j - 1);
            if entry_resolves(qp, es[j - 1]@) {
                seq![
                    (drop_superseded(qp, es[j - 1]@.term)[0].notifier, spec_entry_ok(es[j - 1]@)),
                ]
            } else {
                Seq::empty()
            }
        }
    }
}

/// The action answering one produced notification.
pub open spec fn notify_action(n: (u64, bool)) -> Action {
    Action::Notify {
        notifier: n.0,
        reply: if n.1 {
            Reply::Success
        } else {
            Reply::Fail(FailReason::InvalidKey)
        },
    }
}

/// Dropping the superseded front is exactly skipping the leading proposals
/// of earlier terms.
proof fn lemma_drop_superseded_skip(q: Seq<Proposal>, t: u64, d: int)
    requires
        0 <= d <= q.len(),
        forall|j: int| 0 <= j < d ==> (#[trigger] q[j]).term < t,
        d == q.len() || q[d].term >= t,
    ensures
        drop_superseded(q, t) == q.skip(d),
    decreases d,
{
    reveal(drop_superseded);
    if d == 0 {
        assert(q.skip(0) =~= q);
    } else {
        assert(q[0].term < t);
        let qt = q.drop_first();
        assert(forall|j: int| 0 <= j < qt.len() ==> #[trigger] qt[j] == q[j + 1]);
        lemma_drop_superseded_skip(qt, t, d - 1);
        assert(qt.skip(d - 1) =~= q.skip(d));
    }
}

/// Dropping a prefix of the queue keeps the match relation, one entry
/// further on, as long as the entry just applied no longer has a proposal
/// in what remains.
#[verifier::spinoff_prover]
proof fn lemma_entries_match_step(
    qc: Seq<Proposal>,
    qn: Seq<Proposal>,
    es: Seq<Entry>,
    j: int,
    t: int,
)
    requires
        entries_match(qc, es, j),
        0 <= j < es.len(),
        forall|j2: int| 0 <= j2 < es.len() ==> (#[trigger] es[j2])@.index == es[0]@.index + j2,
        0 <= t <= qc.len(),
        qn == qc.skip(t),
        forall|a: int| 0 <= a < qn.len() ==> !((#[trigger] qn[a]).term == es[j]@.term
            && qn[a].index == es[j]@.index),
    ensures
        entries_match(qn, es, j + 1),
{
    assert forall|a: int, j2: int|
        0 <= a < qn.len() && j + 1 <= j2 < es.len() && (#[trigger] qn[a]).term == (
        #[trigger] es[j2])@.term implies qn[a].index >= es[j2]@.index || (es[0]@.index + j + 1
            <= qn[a].index && es[qn[a].index - es[0]@.index]@.term == qn[a].term) by {
        assert(qn[a] == qc[t + a]);
        let p = qc[t + a];
        if p.index < es[j2]@.index {
            assert(es[0]@.index + j <= p.index && es[p.index - es[0]@.index]@.term == p.term);
            if p.index == es[0]@.index + j {
                assert(es[j]@.term == p.term && es[j]@.index == p.index);
                assert(false);
            }
        }
    }
}

/// One read state from the consensus core: the context of the read-index
/// call and the commit index at which the read is safe.
pub struct ReadState {
    /// The context handed to the read-index call: the request's nonce.
    pub ctx: Vec<u8>,
    /// The read index.
    pub index: u64,
}

/// Everything one Ready from the consensus core tells the host, as plain
/// values; messages stay with the host and are named here by token.
pub struct ReadyInfo {
    /// The Ready's number, quoted back once it is durable.
    pub number: u64,
    /// The leader the core currently knows, zero for none.
    pub leader_id: u64,
    /// Committed entries to apply, in log order.
    pub committed: Vec<Entry>,
    /// Tokens of messages that may be sent at once.
    pub messages: Vec<u64>,
    /// Tokens of messages that must wait for durability.
    pub persisted_messages: Vec<u64>,
    /// Read states yielded by earlier read-index calls.
    pub read_states: Vec<ReadState>,
    /// A new hard state to persist, if it changed.
    pub hard_state: Option<HardState>,
    /// Entries to append to the log.
    pub new_entries: Vec<Entry>,
    /// The core demands durability before the cycle ends.
    pub must_sync: bool,
}

/// The apply state one cycle leaves behind: advanced to the last committed
/// entry, or unchanged when nothing committed.
pub open spec fn spec_new_apply(a: ApplyState, committed: Seq<Entry>) -> ApplyState {
    if committed.len() > 0 {
        ApplyState {
            applied_index: committed.last()@.index,
            applied_term: committed.last()@.term,
        }
    } else {
        a
    }
}

/// Every row one cycle commits to the engine, in order: the applied
/// mutations, then what the storage adapter stages.
pub open spec fn spec_cycle_rows(s: Driver, ri: ReadyInfo) -> Seq<(Seq<u8>, Seq<u8>)> {
    spec_applied_rows(ri.committed@) + s.store.spec_staged_rows(
        InvokeContext { apply_state: spec_new_apply(s.store.apply, ri.committed@) },
        ri.hard_state,
        ri.new_entries@,
    )
}

/// How many sync instructions a list of actions carries.
pub open spec fn count_sync(s: Seq<Action>) -> int
    decreases s.len(),
{
    if s.len() == 0 {
        0
    } else {
        count_sync(s.drop_last()) + if s.last() is Sync {
            1int
        } else {
            0int
        }
    }
}

/// A contiguous run of send instructions for these tokens, in order.
pub open spec fn msg_seg_ok(acts: Seq<Action>, base: int, toks: Seq<u64>) -> bool {
    &&& base >= 0
    &&& base + toks.len() <= acts.len()
    &&& forall|i: int| 0 <= i < toks.len() ==> acts[base + i] == (Action::Send {
        token: #[trigger] toks[i],
    })
}

/// A snapshot reply to this notifier, carrying this engine view.
pub open spec fn is_snap_notify(a: Action, n: u64, view: Map<Seq<u8>, Seq<u8>>) -> bool {
    a matches Action::Notify { notifier: nn, reply: Reply::Snapshot(sn) } && nn == n && sn@
        == view
}

/// A contiguous run of snapshot replies to these notifiers, in order, each
/// carrying the given engine view.
pub open spec fn snap_seg_ok(
    acts: Seq<Action>,
    base: int,
    ns: Seq<u64>,
    view: Map<Seq<u8>, Seq<u8>>,
) -> bool {
    &&& base >= 0
    &&& base + ns.len() <= acts.len()
    &&& forall|i: int| 0 <= i < ns.len() ==> is_snap_notify(acts[base + i], #[trigger] ns[i], view)
}

/// Appending an action does not disturb an established send run.
proof fn lemma_msg_seg_push(a: Seq<Action>, x: Action, base: int, toks: Seq<u64>)
    requires
        msg_seg_ok(a, base, toks),
    ensures
        msg_seg_ok(a.push(x), base, toks),
{
    assert forall|i: int| 0 <= i < toks.len() implies a.push(x)[base + i] == (Action::Send {
        token: #[trigger] toks[i],
    }) by {
        assert(a[base + i] == (Action::Send { token: toks[i] }));
        assert(a.push(x)[base + i] == a[base + i]);
    }
}

/// Appending an action does not disturb an established run of snapshot
/// replies.
proof fn lemma_snap_seg_push(
    a: Seq<Action>,
    x: Action,
    base: int,
    ns: Seq<u64>,
    view: Map<Seq<u8>, Seq<u8>>,
)
    requires
        snap_seg_ok(a, base, ns, view),
    ensures
        snap_seg_ok(a.push(x), base, ns, view),
{
    assert forall|i: int| 0 <= i < ns.len() implies is_snap_notify(
        a.push(x)[base + i],
        #[trigger] ns[i],
        view,
    ) by {
        assert(is_snap_notify(a[base + i], ns[i], view));
        assert(a.push(x)[base + i] == a[base + i]);
    }
}

/// A list without a sync instruction counts none.
proof fn lemma_count_sync_none(s: Seq<Action>)
    requires
        forall|k: int| 0 <= k < s.len() ==> !((#[trigger] s[k]) is Sync),
    ensures
        count_sync(s) == 0,
    decreases s.len(),
{
    if s.len() > 0 {
        lemma_count_sync_none(s.drop_last());
    }
}

/// After popping the proposal of entry `j` at position `k` (and the
/// superseded ones before it), the queue is a well-ordered tail that still
/// matches the remaining entries.
#[verifier::spinoff_prover]
proof fn lemma_queue_after_pop(
    qc: Seq<Proposal>,
    qn: Seq<Proposal>,
    es: Seq<Entry>,
    j: int,
    k: int,
)
    requires
        sorted(qc),
        strictly_sorted(qc),
        entries_match(qc, es, j),
        0 <= j < es.len(),
        forall|j2: int| 0 <= j2 < es.len() ==> (#[trigger] es[j2])@.index == es[0]@.index + j2,
        0 <= k < qc.len(),
        qc[k].term == es[j]@.term,
        qc[k].index == es[j]@.index,
        forall|j2: int| 0 <= j2 < k ==> (#[trigger] qc[j2]).term < es[j]@.term,
        qn == qc.skip(k + 1),
    ensures
        sorted(qn),
        strictly_sorted(qn),
        entries_match(qn, es, j + 1),
        entry_resolves(qc, es[j]@),
        queue_after_entry(qc, es[j]@) == qn,
        drop_superseded(qc, es[j]@.term)[0].notifier == qc[k].notifier,
{
    reveal(entry_resolves);
    reveal(queue_after_entry);
    lemma_drop_superseded_skip(qc, es[j]@.term, k);
    assert(qc.skip(k)[0] == qc[k]);
    assert(qc.skip(k).drop_first() =~= qc.skip(k + 1));
    assert forall|a: int, b: int| 0 <= a < b < qn.len()
        implies lex_lt(#[trigger] qn[a], #[trigger] qn[b]) && lex_le(qn[a], qn[b]) by {
        assert(qn[a] == qc[k + 1 + a]);
        assert(qn[b] == qc[k + 1 + b]);
        assert(lex_lt(qc[k + 1 + a], qc[k + 1 + b]));
    }
    assert forall|a: int| 0 <= a < qn.len()
        implies !((#[trigger] qn[a]).term == es[j]@.term && qn[a].index == es[j]@.index) by {
        assert(qn[a] == qc[k + 1 + a]);
        assert(lex_lt(qc[k], qc[k + 1 + a]));
    }
    lemma_entries_match_step(qc, qn, es, j, k + 1);
}

/// After dropping only superseded proposals for an entry no proposal of
/// this queue belongs to, the queue is a well-ordered tail that still
/// matches the remaining entries.
#[verifier::spinoff_prover]
proof fn lemma_queue_after_skip(
    qc: Seq<Proposal>,
    qn: Seq<Proposal>,
    es: Seq<Entry>,
    j: int,
    d: int,
)
    requires
        sorted(qc),
        strictly_sorted(qc),
        entries_match(qc, es, j),
        0 <= j < es.len(),
        forall|j2: int| 0 <= j2 < es.len() ==> (#[trigger] es[j2])@.index == es[0]@.index + j2,
        0 <= d <= qc.len(),
        qn == qc.skip(d),
        forall|j2: int| 0 <= j2 < d ==> (#[trigger] qc[j2]).term < es[j]@.term,
        qn.len() == 0 || qn[0].term >= es[j]@.term,
        forall|i: int| 0 <= i < qc.len() ==> !((#[trigger] qc[i]).term == es[j]@.term && qc[i].index
            == es[j]@.index),
    ensures
        sorted(qn),
        strictly_sorted(qn),
        entries_match(qn, es, j + 1),
        !entry_resolves(qc, es[j]@),
        queue_after_entry(qc, es[j]@) == qn,
{
    reveal(entry_resolves);
    reveal(queue_after_entry);
    lemma_drop_superseded_skip(qc, es[j]@.term, d);
    if entry_resolves(qc, es[j]@) {
        assert(qc.skip(d)[0] == qc[d]);
        assert(qc[d].term == es[j]@.term && qc[d].index == es[j]@.index);
    }
    assert forall|a: int, b: int| 0 <= a < b < qn.len()
        implies lex_lt(#[trigger] qn[a], #[trigger] qn[b]) && lex_le(qn[a], qn[b]) by {
        assert(qn[a] == qc[d + a]);
        assert(qn[b] == qc[d + b]);
        assert(lex_lt(qc[d + a], qc[d + b]));
    }
    assert forall|a: int| 0 <= a < qn.len()
        implies !((#[trigger] qn[a]).term == es[j]@.term && qn[a].index == es[j]@.index) by {
        assert(qn[a] == qc[d + a]);
    }
    lemma_entries_match_step(qc, qn, es, j, d);
}

/// The match relation delivers the precondition the queue drain needs: a
/// queued proposal of the entry's own term never sits before the entry.
proof fn lemma_front_precondition(q: Seq<Proposal>, es: Seq<Entry>, j: int)
    requires
        entries_match(q, es, j),
        0 <= j < es.len(),
        forall|j2: int| 0 <= j2 < es.len() ==> (#[trigger] es[j2])@.index == es[0]@.index + j2,
    ensures
        forall|a: int| 0 <= a < q.len() && (#[trigger] q[a]).term == es[j]@.term ==> q[a].index
            >= es[j]@.index,
{
    assert forall|a: int|
        0 <= a < q.len() && (#[trigger] q[a]).term == es[j]@.term
        implies q[a].index >= es[j]@.index by {
        assert(q[a].index >= es[j]@.index || (es[0]@.index + j <= q[a].index && es[q[a].index
            - es[0]@.index]@.term == q[a].term));
    }
}

/// The driver: every decision of the poll loop lives here; the host only
/// moves bytes.
pub struct Driver {
    /// The storage adapter the consensus core reads.
    pub store: LogStore,
    /// The durable engine under the adapter.
    pub engine: MemEngine,
    /// The atomic batch of the current Ready cycle.
    pub batch: WriteBatch,
    /// The WAL sync policy.
    pub wal: WalControl,
    /// In-flight proposals, FIFO.
    pub proposals: ProposalQueue,
    /// In-flight snapshot reads.
    pub reads: ReadTracker,
    /// Notifier tokens waiting to learn of a leader.
    pub role_observers: Vec<u64>,
    /// The in-memory address book the transport reads.
    pub address_map: Vec<(u64, Vec<u8>)>,
    /// Message-token batches whose sending awaits durability.
    pub persisted_backlog: Vec<Vec<u64>>,
    /// The consensus core may have work for the next cycle.
    pub has_ready: bool,
    /// A stop message arrived; the loop exits after the current cycle.
    pub abort: bool,
    /// Messages handled since the drain counter was last reset.
    pub processed_msg_cnt: u64,
    /// The number of the last Ready taken from the consensus core.
    pub last_ready_number: u64,
}

impl Driver {
    /// The standing well-formedness of the driver between events: adapter
    /// and trackers are well-formed and the batch is empty at rest.
    pub open spec fn wf(self) -> bool {
        &&& self.store.wf()
        &&& self.batch.wf()
        &&& sorted(self.proposals@)
        &&& strictly_sorted(self.proposals@)
        &&& self.reads.wf()
        &&& forall|i: int| 0 <= i < self.reads.queue().len()
            ==> (#[trigger] self.reads.queue()[i]).0 > self.store.apply.applied_index
    }

    /// A driver over a freshly opened store, with nothing in flight.
    pub fn new(store: LogStore, engine: MemEngine, now_us: u64) -> (r: Driver)
        requires
            store.wf(),
        ensures
            r.wf(),
            r.store == store,
            r.engine == engine,
            r.wal.unsynced_bytes == 0,
            r.wal.last_sync_us == now_us,
            r.proposals@.len() == 0,
            r.reads.pending().len() == 0,
            r.reads.queue().len() == 0,
            r.role_observers@.len() == 0,
            r.address_map@.len() == 0,
            r.persisted_backlog@.len() == 0,
            !r.has_ready,
            !r.abort,
    {
        Driver {
            store,
            engine,
            batch: WriteBatch::new(),
            wal: WalControl::new(now_us),
            proposals: ProposalQueue::new(),
            reads: ReadTracker::new(),
            role_observers: Vec::new(),
            address_map: Vec::new(),
            persisted_backlog: Vec::new(),
            has_ready: false,
            abort: false,
            processed_msg_cnt: 0,
            last_ready_number: 0,
        }
    }

    /// Books the outcome of a propose call. An accepted command joins the
    /// proposal queue under the (term, index) the core assigned — handed
    /// over in propose order, which keeps the queue sorted; a rejected one
    /// fails its waiter at once.
    pub fn on_propose_result(
        &mut self,
        accepted: bool,
        term: u64,
        index: u64,
        notifier: Option<u64>,
    ) -> (r: Vec<Action>)
        requires
            old(self).wf(),
            accepted && notifier is Some ==> old(self).proposals@.len() == 0 || lex_lt(
                old(self).proposals@.last(),
                Proposal { index, term, notifier: notifier->0 },
            ),
        ensures
            final(self).wf(),
            final(self).engine == old(self).engine,
            final(self).store == old(self).store,
            if accepted {
                &&& final(self).has_ready
                &&& r@.len() == 0
                &&& match notifier {
                    Some(n) => final(self).proposals@ == old(self).proposals@.push(
                        Proposal { index, term, notifier: n },
                    ),
                    None => final(self).proposals@ == old(self).proposals@,
                }
            } else {
                &&& final(self).has_ready == old(self).has_ready
                &&& final(self).proposals@ == old(self).proposals@
                &&& match notifier {
                    Some(n) => r@.len() == 1 && (r@[0] matches Action::Notify {
                        notifier: m,
                        reply: Reply::Fail(FailReason::ProposeRejected),
                    } && m == n),
                    None => r@.len() == 0,
                }
            },
    {
        let mut actions: Vec<Action> = Vec::new();
        if accepted {
            self.has_ready = true;
            if let Some(n) = notifier {
                let ghost q0 = self.proposals@;
                let p = Proposal { index, term, notifier: n };
                self.proposals.enqueue(p);
                proof {
                    assert forall|a: int, b: int| 0 <= a < b < self.proposals@.len()
                        implies lex_lt(
                            #[trigger] self.proposals@[a],
                            #[trigger] self.proposals@[b],
                        ) by {
                        if b < q0.len() {
                            assert(lex_lt(q0[a], q0[b]));
                        } else {
                            assert(lex_lt(q0[q0.len() - 1], p));
                            if a < q0.len() - 1 {
                                assert(lex_lt(q0[a], q0[q0.len() - 1]));
                            }
                        }
                    }
                }
            }
        } else {
            if let Some(n) = notifier {
                actions.push(
                    Action::Notify { notifier: n, reply: Reply::Fail(FailReason::ProposeRejected) },
                );
            }
        }
        actions
    }

    /// Starts a snapshot read: draws a random nonce, tracks the request
    /// under it, and returns the context bytes for the read-index call. A
    /// colliding nonce replaces the earlier request, which the timeout
    /// sweep would otherwise reap.
    pub fn handle_snapshot_request(&mut self, notifier: u64, now_us: u64) -> (r: Vec<u8>)
        requires
            old(self).wf(),
        ensures
            final(self).wf(),
            final(self).engine == old(self).engine,
            final(self).store == old(self).store,
            final(self).batch == old(self).batch,
            final(self).wal == old(self).wal,
            final(self).proposals == old(self).proposals,
            final(self).role_observers == old(self).role_observers,
            final(self).address_map == old(self).address_map,
            final(self).persisted_backlog == old(self).persisted_backlog,
            final(self).has_ready == old(self).has_ready,
            final(self).abort == old(self).abort,
            final(self).last_ready_number == old(self).last_ready_number,
            final(self).reads.queue() == old(self).reads.queue(),
            r@ == be_bytes(be_value(r@)),
            r@.len() == 8,
            if crate::read::pending_has(old(self).reads.pending(), be_value(r@)) {
                exists|i: int| {
                    &&& 0 <= i < old(self).reads.pending().len()
                    &&& (#[trigger] old(self).reads.pending()[i]).0 == be_value(r@)
                    &&& final(self).reads.pending() == old(self).reads.pending().remove(i).push(
                        (
                            be_value(r@),
                            crate::read::ReadRequest { notifier, start_us: now_us },
                        ),
                    )
                }
            } else {
                final(self).reads.pending() == old(self).reads.pending().push(
                    (be_value(r@), crate::read::ReadRequest { notifier, start_us: now_us }),
                )
            },
            crate::read::pending_has(final(self).reads.pending(), be_value(r@)),
    {
        let nonce: u64 = rand::random::<u64>();
        self.reads.register(nonce, notifier, now_us);
        let r = u64_to_be(nonce);
        proof {
            lemma_be_round_trip();
            assert(be_value(r@) == nonce);
            if crate::read::pending_has(old(self).reads.pending(), nonce) {
                let i = choose|i: int|
                    0 <= i < old(self).reads.pending().len()
                        && (#[trigger] old(self).reads.pending()[i]).0 == nonce
                        && final(self).reads.pending() == old(self).reads.pending().remove(i).push(
                        (nonce, crate::read::ReadRequest { notifier, start_us: now_us }),
                    );
                assert(final(self).reads.pending().last().0 == nonce);
            } else {
                assert(final(self).reads.pending().last().0 == nonce);
            }
        }
        r
    }

    /// Answers a leader query: a known leader is reported at once, an
    /// unknown one parks the notifier with the role observers.
    pub fn on_wait_till_leader(&mut self, notifier: u64, leader_id: u64) -> (r: Vec<Action>)
        requires
            old(self).wf(),
        ensures
            final(self).wf(),
            final(self).engine == old(self).engine,
            final(self).store == old(self).store,
            if leader_id != 0 {
                &&& final(self).role_observers@ == old(self).role_observers@
                &&& r@.len() == 1
                &&& (r@[0] matches Action::Notify { notifier: m, reply: Reply::Leader(l) } && m
                    == notifier && l == leader_id)
            } else {
                &&& final(self).role_observers@ == old(self).role_observers@.push(notifier)
                &&& r@.len() == 0
            },
    {
        let mut actions: Vec<Action> = Vec::new();
        if leader_id != 0 {
            actions.push(Action::Notify { notifier, reply: Reply::Leader(leader_id) });
        } else {
            self.role_observers.push(notifier);
        }
        actions
    }

    /// Books the outcome of stepping an inbound consensus message.
    pub fn on_raft_message(&mut self, stepped: bool)
        requires
            old(self).wf(),
        ensures
            final(self).wf(),
            *final(self) == (Driver { has_ready: old(self).has_ready || stepped, ..*old(self) }),
    {
        self.has_ready = self.has_ready || stepped;
    }

    /// Books a logical-clock tick; the host schedules the next one.
    pub fn on_tick(&mut self, produced_work: bool)
        requires
            old(self).wf(),
        ensures
            final(self).wf(),
            *final(self) == (Driver {
                has_ready: old(self).has_ready || produced_work,
                ..*old(self)
            }),
    {
        self.has_ready = self.has_ready || produced_work;
    }

    /// Books a stop message: the loop exits after the in-flight cycle.
    pub fn on_stop(&mut self)
        requires
            old(self).wf(),
        ensures
            final(self).wf(),
            *final(self) == (Driver { abort: true, ..*old(self) }),
    {
        self.abort = true;
    }

    /// Counts a drained message and says whether the drain must pause: after
    /// a run of messages the cycle proceeds if work is pending, else the
    /// counter restarts.
    pub fn note_processed(&mut self) -> (pause: bool)
        requires
            old(self).wf(),
        ensures
            final(self).wf(),
            final(self).engine == old(self).engine,
            final(self).store == old(self).store,
            final(self).has_ready == old(self).has_ready,
            pause == (old(self).processed_msg_cnt + 1 >= 4096 && old(self).has_ready),
            final(self).processed_msg_cnt == if old(self).processed_msg_cnt + 1 >= 4096
                && !old(self).has_ready {
                0u64
            } else if old(self).processed_msg_cnt + 1 >= 4096 {
                old(self).processed_msg_cnt
            } else {
                (old(self).processed_msg_cnt + 1) as u64
            },
    {
        if self.processed_msg_cnt >= 4095 {
            if self.has_ready {
                return true;
            }
            self.processed_msg_cnt = 0;
            return false;
        }
        self.processed_msg_cnt = self.processed_msg_cnt + 1;
        false
    }

    /// Applies one committed entry: a valid put or an address row is staged
    /// into the write batch, an address update also lands in the in-memory
    /// map, and the result says whether the entry's waiter is owed success —
    /// everything but a put outside the data prefix is.
    #[verifier::spinoff_prover]
    pub fn apply_entry(&mut self, e: &Entry) -> (ok: bool)
        requires
            old(self).batch.wf(),
        ensures
            final(self).batch.wf(),
            ok == spec_entry_ok(e@),
            final(self).batch@ == old(self).batch@ + spec_entry_effect(e@),
            addr_hist(final(self).address_map@) == match spec_decoded(e@.data) {
                Some(CommandView::UpdateAddress { id, address }) => addr_hist(
                    old(self).address_map@,
                ).insert(id, address),
                _ => addr_hist(old(self).address_map@),
            },
            final(self).engine == old(self).engine,
            final(self).store == old(self).store,
            final(self).reads == old(self).reads,
            final(self).wal == old(self).wal,
            final(self).proposals == old(self).proposals,
            final(self).role_observers == old(self).role_observers,
            final(self).persisted_backlog == old(self).persisted_backlog,
            final(self).has_ready == old(self).has_ready,
            final(self).abort == old(self).abort,
            final(self).processed_msg_cnt == old(self).processed_msg_cnt,
            final(self).last_ready_number == old(self).last_ready_number,
    {
        let ghost b0 = self.batch@;
        let context = crate::codec::sub_vec(&e.context, 0, e.context.len());
        let data = crate::codec::sub_vec(&e.data, 0, e.data.len());
        proof {
            assert(data@ =~= e.data@);
        }
        match Command::from_proposal(context, data) {
            None => {
                proof {
                    assert(spec_entry_effect(e@) =~= Seq::<(Seq<u8>, Seq<u8>)>::empty());
                    assert(self.batch@ =~= b0 + spec_entry_effect(e@));
                }
                true
            }
            Some(Command::Put { key, value }) => {
                let ghost kv = key@;
                let ghost vv = value@;
                if valid_data_key(&key) {
                    self.batch.put(key, value);
                    proof {
                        assert(spec_entry_effect(e@) =~= seq![(kv, vv)]);
                        assert(self.batch@ =~= b0 + spec_entry_effect(e@));
                    }
                    true
                } else {
                    proof {
                        assert(spec_entry_effect(e@) =~= Seq::<(Seq<u8>, Seq<u8>)>::empty());
                        assert(self.batch@ =~= b0 + spec_entry_effect(e@));
                    }
                    false
                }
            }
            Some(Command::UpdateAddress { id, address }) => {
                let ghost av = address@;
                let ghost amv = self.address_map@;
                let addr_copy = crate::codec::sub_vec(&address, 0, address.len());
                proof {
                    assert(addr_copy@ =~= av);
                }
                self.batch.put(address_key(id), addr_copy);
                self.address_map.push((id, address));
                proof {
                    assert(spec_entry_effect(e@) =~= seq![(spec_address_key(id), av)]);
                    assert(self.batch@ =~= b0 + spec_entry_effect(e@));
                    assert(self.address_map@.drop_last() =~= amv);
                    assert(addr_hist(self.address_map@) == addr_hist(amv).insert(id, av));
                }
                true
            }
        }
    }

    /// Applies a batch of committed entries: each entry's mutation is
    /// staged into the write batch, address updates land in the in-memory
    /// map, and each entry's waiter — found by matching the entry's (index,
    /// term) against the proposal queue — is answered with the outcome.
    /// Returns the notifications and the new applied index.
    #[verifier::rlimit(100)]
    #[verifier::spinoff_prover]
    pub fn handle_committed_entries(&mut self, entries: &Vec<Entry>) -> (r: (Vec<Action>, u64))
        requires
            old(self).wf(),
            entries@.len() > 0,
            forall|j: int| 0 <= j < entries@.len() ==> (#[trigger] entries@[j])@.index
                == entries@[0]@.index + j,
            forall|i: int, j: int| 0 <= i < j < entries@.len() ==> (#[trigger] entries@[i])@.term
                <= (#[trigger] entries@[j])@.term,
            entries_match(old(self).proposals@, entries@, 0),
        ensures
            final(self).wf(),
            r.1 == entries@.last()@.index,
            final(self).batch@ == old(self).batch@ + spec_applied_rows(entries@),
            addr_hist(final(self).address_map@) == spec_apply_addrs(
                addr_hist(old(self).address_map@),
                entries@,
            ),
            final(self).proposals@ == queue_after(
                old(self).proposals@,
                entries@,
                entries@.len() as int,
            ),
            r.0@ == notifies_after(old(self).proposals@, entries@, entries@.len() as int)
                .map_values(|n: (u64, bool)| notify_action(n)),
            final(self).engine == old(self).engine,
            final(self).store == old(self).store,
            final(self).reads == old(self).reads,
            final(self).wal == old(self).wal,
            final(self).role_observers == old(self).role_observers,
            final(self).persisted_backlog == old(self).persisted_backlog,
            final(self).has_ready == old(self).has_ready,
            final(self).abort == old(self).abort,
            final(self).last_ready_number == old(self).last_ready_number,
    {
        let applied_index = entries[entries.len() - 1].index;
        let mut actions: Vec<Action> = Vec::new();
        let ghost es = entries@;
        let ghost q0 = self.proposals@;
        let ghost b0 = self.batch@;
        let ghost am0 = addr_hist(self.address_map@);
        let ghost engine0 = self.engine;
        let ghost store0 = self.store;
        let ghost reads0 = self.reads;
        let ghost wal0 = self.wal;
        let ghost ro0 = self.role_observers;
        let ghost pb0 = self.persisted_backlog;
        let ghost hr0 = self.has_ready;
        let ghost ab0 = self.abort;
        let ghost lr0 = self.last_ready_number;
        let mut j: usize = 0;
        proof {
            assert(self.batch@ =~= b0 + spec_applied_rows(es.take(0)));
            reveal_with_fuel(queue_after, 2);
            reveal_with_fuel(notifies_after, 2);
            assert(self.proposals@ =~= q0.skip(0));
            assert(actions@ =~= notifies_after(q0, es, 0).map_values(
                |n: (u64, bool)| notify_action(n),
            ));
        }
        while j < entries.len()
            invariant
                0 <= j <= es.len(),
                es == entries@,
                es.len() > 0,
                forall|j2: int| 0 <= j2 < es.len() ==> (#[trigger] es[j2])@.index == es[0]@.index
                    + j2,
                forall|i2: int, j2: int| 0 <= i2 < j2 < es.len() ==> (#[trigger] es[i2])@.term <= (
                #[trigger] es[j2])@.term,
                self.engine == engine0,
                self.store == store0,
                self.reads == reads0,
                self.wal == wal0,
                self.role_observers == ro0,
                self.persisted_backlog == pb0,
                self.has_ready == hr0,
                self.abort == ab0,
                self.last_ready_number == lr0,
                store0.wf(),
                reads0.wf(),
                self.batch.wf(),
                self.batch@ == b0 + spec_applied_rows(es.take(j as int)),
                addr_hist(self.address_map@) == spec_apply_addrs(am0, es.take(j as int)),
                sorted(self.proposals@),
                strictly_sorted(self.proposals@),
                self.proposals@ == queue_after(q0, es, j as int),
                actions@ == notifies_after(q0, es, j as int).map_values(
                    |n: (u64, bool)| notify_action(n),
                ),
                entries_match(self.proposals@, es, j as int),
            decreases es.len() - j,
        {
            let e = &entries[j];
            proof {
                assert(es.take(j + 1).drop_last() =~= es.take(j as int));
                assert(es.take(j + 1).last() == es[j as int]);
            }
            let ok = self.apply_entry(e);
            proof {
                assert(self.batch@ =~= b0 + spec_applied_rows(es.take(j + 1)));
                assert(spec_apply_addrs(am0, es.take(j + 1)) == addr_hist(self.address_map@));
            }
            let idx = e.index;
            let term = e.term;
            let ghost qc = self.proposals@;
            proof {
                assert(es[j as int]@.term == term && es[j as int]@.index == idx);
                lemma_front_precondition(qc, es, j as int);
            }
            match self.proposals.get_notifier(idx, term) {
                Some(n) => {
                    let reply = if ok {
                        Reply::Success
                    } else {
                        Reply::Fail(FailReason::InvalidKey)
                    };
                    proof {
                        let k = choose|k: int| {
                            &&& 0 <= k < qc.len()
                            &&& (#[trigger] qc[k]).term == term
                            &&& qc[k].index == idx
                            &&& qc[k].notifier == n
                            &&& (forall|j2: int| 0 <= j2 < k ==> (#[trigger] qc[j2]).term < term)
                            &&& self.proposals@ == qc.skip(k + 1)
                        };
                        reveal_with_fuel(queue_after, 2);
                        reveal_with_fuel(notifies_after, 2);
                        lemma_queue_after_pop(qc, self.proposals@, es, j as int, k);
                        assert(queue_after(q0, es, j + 1) == self.proposals@);
                        assert(notifies_after(q0, es, j + 1) =~= notifies_after(q0, es, j as int)
                            .push((n, spec_entry_ok(es[j as int]@))));
                    }
                    let ghost acts_before = actions@;
                    actions.push(Action::Notify { notifier: n, reply });
                    proof {
                        assert(actions@ =~= notifies_after(q0, es, j + 1).map_values(
                            |n2: (u64, bool)| notify_action(n2),
                        ));
                    }
                }
                None => {
                    proof {
                        let d = choose|d: int| {
                            &&& 0 <= d <= qc.len()
                            &&& (forall|j2: int| 0 <= j2 < d ==> (#[trigger] qc[j2]).term < term)
                            &&& self.proposals@ == qc.skip(d)
                        };
                        assert(forall|i: int| 0 <= i < qc.len() ==> !((#[trigger] qc[i]).term
                            == term && qc[i].index == idx));
                        reveal_with_fuel(queue_after, 2);
                        reveal_with_fuel(notifies_after, 2);
                        lemma_queue_after_skip(qc, self.proposals@, es, j as int, d);
                        assert(queue_after(q0, es, j + 1) == self.proposals@);
                        assert(notifies_after(q0, es, j + 1) =~= notifies_after(
                            q0,
                            es,
                            j as int,
                        ));
                        assert(actions@ =~= notifies_after(q0, es, j + 1).map_values(
                            |n2: (u64, bool)| notify_action(n2),
                        ));
                    }
                }
            }
            j += 1;
        }
        proof {
            assert(es.take(es.len() as int) =~= es);
        }
        (actions, applied_index)
    }

    /// Releases every parked leader observer once a leader is known — each
    /// exactly once: the list is emptied as it is notified.
    pub fn notify_role_changed(&mut self, leader_id: u64) -> (r: Vec<Action>)
        requires
            old(self).wf(),
        ensures
            final(self).wf(),
            final(self).engine == old(self).engine,
            final(self).store == old(self).store,
            final(self).batch == old(self).batch,
            final(self).wal == old(self).wal,
            final(self).proposals == old(self).proposals,
            final(self).reads == old(self).reads,
            final(self).address_map == old(self).address_map,
            final(self).persisted_backlog == old(self).persisted_backlog,
            final(self).has_ready == old(self).has_ready,
            final(self).abort == old(self).abort,
            final(self).last_ready_number == old(self).last_ready_number,
            if leader_id != 0 {
                &&& final(self).role_observers@.len() == 0
                &&& r@.len() == old(self).role_observers@.len()
                &&& forall|k: int| 0 <= k < r@.len() ==> (#[trigger] r@[k] matches Action::Notify {
                    notifier: m,
                    reply: Reply::Leader(l),
                } && m == old(self).role_observers@[k] && l == leader_id)
            } else {
                &&& final(self).role_observers@ == old(self).role_observers@
                &&& r@.len() == 0
            },
    {
        let mut actions: Vec<Action> = Vec::new();
        if leader_id == 0 {
            return actions;
        }
        let ghost obs = self.role_observers@;
        let mut i: usize = 0;
        while i < self.role_observers.len()
            invariant
                0 <= i <= obs.len(),
                self.role_observers@ == obs,
                self.store == old(self).store,
                self.engine == old(self).engine,
                self.batch == old(self).batch,
                self.wal == old(self).wal,
                self.proposals == old(self).proposals,
                self.reads == old(self).reads,
                self.address_map == old(self).address_map,
                self.persisted_backlog == old(self).persisted_backlog,
                self.has_ready == old(self).has_ready,
                self.abort == old(self).abort,
                self.last_ready_number == old(self).last_ready_number,
                actions@.len() == i,
                forall|k: int| 0 <= k < i ==> (#[trigger] actions@[k] matches Action::Notify {
                    notifier: m,
                    reply: Reply::Leader(l),
                } && m == obs[k] && l == leader_id),
            decreases obs.len() - i,
        {
            let n = self.role_observers[i];
            actions.push(Action::Notify { notifier: n, reply: Reply::Leader(leader_id) });
            i += 1;
        }
        self.role_observers = Vec::new();
        proof {
            assert(self.role_observers@ =~= Seq::<u64>::empty());
        }
        actions
    }

    /// How long the poll loop may block on the inbound channel before the
    /// next mandatory cycle.
    pub fn suggest_timeout(&self, now_us: u64) -> (r: Option<u64>)
        ensures
            match r {
                Some(dur) => {
                    &&& self.wal.unsynced_bytes > 0 || self.has_ready
                    &&& dur == if now_us >= self.wal.last_sync_us && now_us - self.wal.last_sync_us
                        < crate::wal::SYNC_INTERVAL_US {
                        (crate::wal::SYNC_INTERVAL_US - (now_us - self.wal.last_sync_us)) as u64
                    } else {
                        0u64
                    }
                },
                None => self.wal.unsynced_bytes == 0 && !self.has_ready,
            },
    {
        self.wal.suggest_timeout(now_us, self.has_ready)
    }

    /// Rebuilds the in-memory address map from the persisted address-book
    /// rows at startup: afterwards the map holds exactly what the engine
    /// holds under the address prefix — an address update survives a
    /// restart.
    #[verifier::loop_isolation(false)]
    pub fn load_address_map(&mut self)
        requires
            old(self).wf(),
        ensures
            final(self).wf(),
            final(self).engine == old(self).engine,
            final(self).store == old(self).store,
            final(self).batch == old(self).batch,
            final(self).wal == old(self).wal,
            final(self).proposals == old(self).proposals,
            final(self).reads == old(self).reads,
            final(self).role_observers == old(self).role_observers,
            final(self).persisted_backlog == old(self).persisted_backlog,
            final(self).has_ready == old(self).has_ready,
            final(self).abort == old(self).abort,
            final(self).last_ready_number == old(self).last_ready_number,
            forall|id: u64|
                #![trigger spec_address_key(id)]
                {
                    &&& addr_hist(final(self).address_map@).contains_key(id)
                        == old(self).engine@.contains_key(spec_address_key(id))
                    &&& (old(self).engine@.contains_key(spec_address_key(id)) ==> addr_hist(
                        final(self).address_map@,
                    )[id] == old(self).engine@[spec_address_key(id)])
                },
    {
        let rows = self.engine.rows();
        let ghost rv = rows@;
        let mut out: Vec<(u64, Vec<u8>)> = Vec::new();
        let mut i: usize = 0;
        proof {
            assert(rv.take(0) =~= Seq::<(Vec<u8>, Vec<u8>)>::empty());
        }
        while i < rows.len()
            invariant
                0 <= i <= rv.len(),
                rows@ == rv,
                forall|id: u64|
                    #![trigger spec_address_key(id)]
                    {
                        &&& addr_hist(out@).contains_key(id) == hist_map(
                            rv.take(i as int),
                        ).contains_key(spec_address_key(id))
                        &&& (hist_map(rv.take(i as int)).contains_key(spec_address_key(id))
                            ==> addr_hist(out@)[id] == hist_map(
                            rv.take(i as int),
                        )[spec_address_key(id)])
                    },
            decreases rv.len() - i,
        {
            proof {
                assert(rv.take(i + 1).drop_last() =~= rv.take(i as int));
                assert(rv.take(i + 1).last() == rv[i as int]);
            }
            let ghost out_before = out@;
            match crate::keys::decode_address_row(&rows[i].0, &rows[i].1) {
                Some((id, addr)) => {
                    let ghost av = addr@;
                    out.push((id, addr));
                    proof {
                        assert(out@.drop_last() =~= out_before);
                        assert(addr_hist(out@) == addr_hist(out_before).insert(id, av));
                        assert forall|id2: u64|
                            #![trigger spec_address_key(id2)]
                            addr_hist(out@).contains_key(id2) == hist_map(
                                rv.take(i + 1),
                            ).contains_key(spec_address_key(id2)) && (hist_map(
                            rv.take(i + 1),
                        ).contains_key(spec_address_key(id2)) ==> addr_hist(out@)[id2] == hist_map(
                            rv.take(i + 1),
                        )[spec_address_key(id2)]) by {
                            if id2 == id {
                            } else {
                                if spec_address_key(id2) == spec_address_key(id) {
                                    crate::keys::lemma_address_key_injective(id2, id);
                                }
                            }
                        }
                    }
                }
                None => {
                    proof {
                        assert forall|id2: u64|
                            #![trigger spec_address_key(id2)]
                            addr_hist(out@).contains_key(id2) == hist_map(
                                rv.take(i + 1),
                            ).contains_key(spec_address_key(id2)) && (hist_map(
                            rv.take(i + 1),
                        ).contains_key(spec_address_key(id2)) ==> addr_hist(out@)[id2] == hist_map(
                            rv.take(i + 1),
                        )[spec_address_key(id2)]) by {
                            assert(rv[i as int].0@ != spec_address_key(id2));
                        }
                    }
                }
            }
            i += 1;
        }
        proof {
            assert(rv.take(rv.len() as int) =~= rv);
        }
        self.address_map = out;
    }

    /// The transport's address lookup: the latest address written for the
    /// peer, if any. An unknown peer has no route — its message is dropped.
    #[verifier::loop_isolation(false)]
    pub fn lookup_address(&self, id: u64) -> (r: Option<Vec<u8>>)
        ensures
            match r {
                Some(a) => addr_hist(self.address_map@).contains_key(id) && addr_hist(
                    self.address_map@,
                )[id] == a@,
                None => !addr_hist(self.address_map@).contains_key(id),
            },
    {
        let mut i: usize = self.address_map.len();
        proof {
            assert(self.address_map@.take(self.address_map@.len() as int) =~= self.address_map@);
        }
        while i > 0
            invariant
                0 <= i <= self.address_map@.len(),
                addr_hist(self.address_map@).contains_key(id) == addr_hist(
                    self.address_map@.take(i as int),
                ).contains_key(id),
                addr_hist(self.address_map@).contains_key(id) ==> addr_hist(
                    self.address_map@,
                )[id] == addr_hist(self.address_map@.take(i as int))[id],
            decreases i,
        {
            proof {
                assert(self.address_map@.take(i as int).drop_last() =~= self.address_map@.take(
                    i - 1,
                ));
                assert(self.address_map@.take(i as int).last() == self.address_map@[i - 1]);
            }
            if self.address_map[i - 1].0 == id {
                let a = &self.address_map[i - 1].1;
                return Some(crate::codec::sub_vec(a, 0, a.len()));
            }
            i -= 1;
        }
        proof {
            assert(self.address_map@.take(0) =~= Seq::<(u64, Vec<u8>)>::empty());
        }
        None
    }

    /// Runs one Ready cycle and the sync policy, in order: release leader
    /// observers, apply committed entries and answer their waiters, hand
    /// out sendable messages, stage and commit the cycle's rows as one
    /// atomic batch, advance the adapter, resolve every read whose index is
    /// now applied, sweep stale reads, defer or release durability-bound
    /// messages, and finally sync the WAL when the policy demands it. The
    /// applied index never moves back; the engine changes by exactly the
    /// cycle's rows; a sync instruction is emitted exactly when the policy
    /// fires.
    #[verifier::rlimit(100)]
    #[verifier::spinoff_prover]
    pub fn process_ready(&mut self, now_us: u64, ready: Option<ReadyInfo>) -> (r: Vec<Action>)
        requires
            old(self).wf(),
            old(self).batch@.len() == 0,
            match ready {
                Some(ri) => old(self).has_ready ==> {
                    &&& (ri.committed@.len() > 0 ==> {
                        &&& (forall|j: int| 0 <= j < ri.committed@.len()
                            ==> (#[trigger] ri.committed@[j])@.index == ri.committed@[0]@.index
                                + j)
                        &&& (forall|i: int, j: int| 0 <= i < j < ri.committed@.len()
                            ==> (#[trigger] ri.committed@[i])@.term
                                <= (#[trigger] ri.committed@[j])@.term)
                        &&& entries_match(old(self).proposals@, ri.committed@, 0)
                        &&& ri.committed@.last()@.index >= old(self).store.apply.applied_index
                    })
                    &&& (ri.new_entries@.len() > 0 ==> {
                        &&& (forall|j: int| 0 <= j < ri.new_entries@.len()
                            ==> (#[trigger] ri.new_entries@[j])@.index
                                == ri.new_entries@[0]@.index + j)
                        &&& old(self).store.first <= ri.new_entries@[0]@.index <= old(self).store.last
                            + 1
                        &&& ri.new_entries@[0]@.index + ri.new_entries@.len() - 1 <= u64::MAX
                    })
                },
                None => true,
            },
        ensures
            final(self).wf(),
            final(self).batch@.len() == 0,
            final(self).store.apply.applied_index >= old(self).store.apply.applied_index,
            match ready {
                Some(ri) => if old(self).has_ready {
                    &&& final(self).engine@ == apply_ops(
                        old(self).engine@,
                        spec_cycle_rows(*old(self), ri),
                    )
                    &&& final(self).store.apply == spec_new_apply(
                        old(self).store.apply,
                        ri.committed@,
                    )
                    &&& final(self).last_ready_number == ri.number
                    &&& (forall|i: int| 0 <= i < final(self).reads.pending().len()
                        ==> !crate::read::is_stale(
                            (#[trigger] final(self).reads.pending()[i]).1,
                            now_us,
                        ))
                    &&& exists|mb: int|
                        #![trigger r@.subrange(mb, mb + ri.messages@.len() as int)]
                        {
                            &&& 0 <= mb && mb + ri.messages@.len() <= r@.len()
                            &&& r@.subrange(mb, mb + ri.messages@.len() as int)
                                == ri.messages@.map_values(|t: u64| Action::Send { token: t })
                        }
                    &&& (ri.persisted_messages@.len() > 0 && spec_cycle_rows(*old(self), ri).len()
                        == 0 && old(self).persisted_backlog@.len() == 0 ==> exists|pb: int|
                        #![trigger r@.subrange(pb, pb + ri.persisted_messages@.len() as int)]
                        {
                            &&& 0 <= pb && pb + ri.persisted_messages@.len() <= r@.len()
                            &&& r@.subrange(pb, pb + ri.persisted_messages@.len() as int)
                                == ri.persisted_messages@.map_values(
                                |t: u64| Action::Send { token: t },
                            )
                        })
                    &&& exists|db: int, dc: int|
                        #![trigger r@.subrange(db, db + dc)]
                        {
                            let q = old(self).reads.queue();
                            let a = spec_new_apply(
                                old(self).store.apply,
                                ri.committed@,
                            ).applied_index;
                            &&& 0 <= dc <= q.len()
                            &&& (forall|i2: int| 0 <= i2 < dc ==> (#[trigger] q[i2]).0 <= a)
                            &&& (dc < q.len() ==> q[dc].0 > a)
                            &&& 0 <= db && db + dc <= r@.len()
                            &&& (forall|i2: int| 0 <= i2 < dc ==> is_snap_notify(
                                #[trigger] r@[db + i2],
                                q[i2].1,
                                final(self).engine@,
                            ))
                        }
                } else {
                    final(self).engine@ == old(self).engine@ && final(self).store
                        == old(self).store
                },
                None => final(self).engine@ == old(self).engine@ && final(self).store
                    == old(self).store,
            },
            count_sync(r@) == if spec_did_sync(*old(self), ready, now_us) {
                1int
            } else {
                0int
            },
            final(self).has_ready == spec_did_sync(*old(self), ready, now_us),
            final(self).wal == if spec_did_sync(*old(self), ready, now_us) {
                WalControl { unsynced_bytes: 0, last_sync_us: now_us }
            } else {
                spec_mid_wal(*old(self), ready)
            },
            final(self).persisted_backlog@ == if spec_did_sync(*old(self), ready, now_us) {
                Seq::<Vec<u64>>::empty()
            } else {
                spec_backlog_mid(*old(self), ready)
            },
            spec_did_sync(*old(self), ready, now_us) ==> exists|k: int| {
                &&& 0 <= k && k + 1 < r@.len()
                &&& (#[trigger] r@[k]) is Sync
                &&& r@[k + 1] == (Action::NotifyPersisted {
                    number: final(self).last_ready_number,
                })
            },
    {
        let mut actions: Vec<Action> = Vec::new();
        let mut sync_log = false;
        let ghost pre = *self;
        let ghost gready = ready;
        let ghost mut seg_msgs: Seq<u64> = Seq::empty();
        let ghost mut msg_base: int = 0;
        let ghost mut seg_drained: Seq<u64> = Seq::empty();
        let ghost mut dr_base: int = 0;
        let ghost mut dr_view: Map<Seq<u8>, Seq<u8>> = Map::empty();
        let ghost mut seg_pm: Seq<u64> = Seq::empty();
        let ghost mut pm_base: int = 0;
        let ghost mut qread: Seq<(u64, u64)> = Seq::empty();
        let ghost mut dr_count: int = 0;
        let ghost mut ga: u64 = 0;
        match ready {
            Some(ri) => {
                if self.has_ready {
                    let ghost rig = ri;
                    let mut acts = self.notify_role_changed(ri.leader_id);
                    actions.append(&mut acts);
                    proof {
                        assert forall|k: int| 0 <= k < actions@.len()
                            implies !((#[trigger] actions@[k]) is Sync) by {
                            if rig.leader_id != 0 {
                                assert(actions@[k] matches Action::Notify { .. });
                            }
                        }
                    }
                    let mut ctx = InvokeContext { apply_state: self.store.apply };
                    if ri.committed.len() > 0 {
                        let ghost before = actions@;
                        let (mut acts2, applied) = self.handle_committed_entries(&ri.committed);
                        let ghost acts2_g = acts2@;
                        actions.append(&mut acts2);
                        proof {
                            assert forall|k: int| 0 <= k < actions@.len()
                                implies !((#[trigger] actions@[k]) is Sync) by {
                                if k >= before.len() {
                                    assert(acts2_g[k - before.len()] == notify_action(
                                        notifies_after(
                                            pre.proposals@,
                                            rig.committed@,
                                            rig.committed@.len() as int,
                                        )[k - before.len()],
                                    ));
                                }
                            }
                        }
                        let last_term = ri.committed[ri.committed.len() - 1].term;
                        ctx.apply_state = ApplyState {
                            applied_index: applied,
                            applied_term: last_term,
                        };
                    }
                    proof {
                        assert(ctx.apply_state == spec_new_apply(pre.store.apply, rig.committed@));
                    }
                    proof {
                        msg_base = actions@.len() as int;
                        seg_msgs = ri.messages@;
                    }
                    let mut m: usize = 0;
                    while m < ri.messages.len()
                        invariant
                            0 <= m <= ri.messages@.len(),
                            0 <= msg_base,
                            seg_msgs == ri.messages@,
                            actions@.len() == msg_base + m,
                            msg_seg_ok(actions@, msg_base, seg_msgs.take(m as int)),
                            forall|k: int| 0 <= k < actions@.len()
                                ==> !((#[trigger] actions@[k]) is Sync),
                        decreases ri.messages@.len() - m,
                    {
                        let ghost acts_b = actions@;
                        actions.push(Action::Send { token: ri.messages[m] });
                        proof {
                            assert forall|i2: int|
                                #![trigger actions@[msg_base + i2]]
                                0 <= i2 < m + 1
                                implies actions@[msg_base + i2] == (Action::Send {
                                    token: seg_msgs.take(m + 1)[i2],
                                }) by {
                                if i2 < m {
                                    assert(acts_b[msg_base + i2] == (Action::Send {
                                        token: seg_msgs.take(m as int)[i2],
                                    }));
                                }
                            }
                        }
                        m += 1;
                    }
                    proof {
                        assert(seg_msgs.take(seg_msgs.len() as int) =~= seg_msgs);
                        assert(msg_seg_ok(actions@, msg_base, seg_msgs));
                    }
                    self.store.process_ready(
                        &ctx,
                        &ri.hard_state,
                        &ri.new_entries,
                        &mut self.batch,
                    );
                    proof {
                        assert(self.batch@ =~= spec_cycle_rows(pre, rig));
                    }
                    let wrote = !self.batch.is_empty();
                    if wrote {
                        sync_log = ri.must_sync;
                        self.wal.note_written(self.batch.data_size());
                        self.engine.write(&self.batch);
                        proof {
                            assert(self.wal == spec_mid_wal(pre, gready));
                            assert(sync_log == spec_must_sync(pre, gready));
                        }
                    } else {
                        proof {
                            assert(spec_cycle_rows(pre, rig) =~= Seq::<(Seq<u8>, Seq<u8>)>::empty());
                            assert(self.engine@ == apply_ops(pre.engine@, spec_cycle_rows(pre, rig)));
                            assert(self.wal == spec_mid_wal(pre, gready));
                            assert(sync_log == spec_must_sync(pre, gready));
                        }
                    }
                    self.store.post_ready(ctx, ri.new_entries);
                    let applied_now = self.store.applied();
                    proof {
                        qread = self.reads.queue();
                        assert(qread == pre.reads.queue());
                        ga = applied_now;
                        assert(ga == spec_new_apply(pre.store.apply, rig.committed@).applied_index);
                    }
                    let drained = self.reads.drain_applied(applied_now);
                    proof {
                        dr_count = choose|dd: int| {
                            &&& 0 <= dd <= qread.len()
                            &&& (forall|j2: int| 0 <= j2 < dd ==> (#[trigger] qread[j2]).0
                                <= applied_now)
                            &&& (forall|j2: int| dd <= j2 < qread.len() ==> (
                            #[trigger] qread[j2]).0 > applied_now)
                            &&& self.reads.queue() == qread.skip(dd)
                            &&& drained@ == qread.take(dd).map_values(|pr: (u64, u64)| pr.1)
                        };
                        assert(forall|j2: int| 0 <= j2 < dr_count ==> (#[trigger] qread[j2]).0
                            <= ga);
                        assert(forall|j2: int| dr_count <= j2 < qread.len() ==> (
                        #[trigger] qread[j2]).0 > ga);
                        assert(drained@ == qread.take(dr_count).map_values(
                            |pr: (u64, u64)| pr.1,
                        ));
                    }
                    let ghost state_b = *self;
                    proof {
                        dr_base = actions@.len() as int;
                        seg_drained = drained@;
                        dr_view = self.engine@;
                    }
                    let mut d: usize = 0;
                    while d < drained.len()
                        invariant
                            0 <= d <= drained@.len(),
                            seg_drained == drained@,
                            dr_view == self.engine@,
                            self.engine == state_b.engine,
                            0 <= dr_base,
                            actions@.len() == dr_base + d,
                            snap_seg_ok(actions@, dr_base, seg_drained.take(d as int), dr_view),
                            msg_seg_ok(actions@, msg_base, seg_msgs),
                            forall|k: int| 0 <= k < actions@.len()
                                ==> !((#[trigger] actions@[k]) is Sync),
                        decreases drained@.len() - d,
                    {
                        let snap = self.engine.snapshot();
                        let ghost acts_b = actions@;
                        let ghost pushed = Action::Notify {
                            notifier: drained@[d as int],
                            reply: Reply::Snapshot(snap),
                        };
                        actions.push(
                            Action::Notify { notifier: drained[d], reply: Reply::Snapshot(snap) },
                        );
                        proof {
                            lemma_msg_seg_push(acts_b, pushed, msg_base, seg_msgs);
                            lemma_snap_seg_push(
                                acts_b,
                                pushed,
                                dr_base,
                                seg_drained.take(d as int),
                                dr_view,
                            );
                            assert forall|i2: int|
                                0 <= i2 < d + 1
                                implies is_snap_notify(
                                    actions@[dr_base + i2],
                                    #[trigger] seg_drained.take(d + 1)[i2],
                                    dr_view,
                                ) by {
                                if i2 < d {
                                    assert(is_snap_notify(
                                        actions@[dr_base + i2],
                                        seg_drained.take(d as int)[i2],
                                        dr_view,
                                    ));
                                } else {
                                    assert(actions@[dr_base + d] == pushed);
                                    assert(is_snap_notify(pushed, seg_drained[d as int], dr_view));
                                }
                            }
                        }
                        d += 1;
                    }
                    proof {
                        assert(seg_drained.take(seg_drained.len() as int) =~= seg_drained);
                        assert(snap_seg_ok(actions@, dr_base, seg_drained, dr_view));
                    }
                    let ghost applied_g = applied_now;
                    let mut rs: usize = 0;
                    while rs < ri.read_states.len()
                        invariant
                            applied_g == applied_now,
                            msg_seg_ok(actions@, msg_base, seg_msgs),
                            snap_seg_ok(actions@, dr_base, seg_drained, dr_view),
                            self.reads.wf(),
                            self.engine == state_b.engine,
                            self.store == state_b.store,
                            self.batch == state_b.batch,
                            self.wal == state_b.wal,
                            self.proposals == state_b.proposals,
                            self.role_observers == state_b.role_observers,
                            self.address_map == state_b.address_map,
                            self.persisted_backlog == state_b.persisted_backlog,
                            self.has_ready == state_b.has_ready,
                            self.abort == state_b.abort,
                            self.last_ready_number == state_b.last_ready_number,
                            forall|i: int| 0 <= i < self.reads.queue().len()
                                ==> (#[trigger] self.reads.queue()[i]).0 > applied_g,
                            forall|k: int| 0 <= k < actions@.len()
                                ==> !((#[trigger] actions@[k]) is Sync),
                        decreases ri.read_states@.len() - rs,
                    {
                        let st = &ri.read_states[rs];
                        if st.ctx.len() == 8 {
                            let nonce = u64_from_be(&st.ctx);
                            let ghost qpre = self.reads.queue();
                            let ghost ppre = self.reads.pending();
                            match self.reads.on_read_state(nonce, st.index, applied_now) {
                                ReadDisposition::ResolveNow { notifier } => {
                                    let snap = self.engine.snapshot();
                                    let ghost acts_b = actions@;
                                    let ghost pushed = Action::Notify {
                                        notifier,
                                        reply: Reply::Snapshot(snap),
                                    };
                                    actions.push(
                                        Action::Notify { notifier, reply: Reply::Snapshot(snap) },
                                    );
                                    proof {
                                        lemma_msg_seg_push(acts_b, pushed, msg_base, seg_msgs);
                                        lemma_snap_seg_push(
                                            acts_b,
                                            pushed,
                                            dr_base,
                                            seg_drained,
                                            dr_view,
                                        );
                                    }
                                }
                                ReadDisposition::Queued => {
                                    proof {
                                        let ip = choose|i: int| {
                                            &&& 0 <= i < ppre.len()
                                            &&& (#[trigger] ppre[i]).0 == nonce
                                            &&& self.reads.pending() == ppre.remove(i)
                                            &&& crate::read::inserted_sorted(
                                                qpre,
                                                self.reads.queue(),
                                                st.index,
                                                ppre[i].1.notifier,
                                            )
                                        };
                                        let nv = ppre[ip].1.notifier;
                                        assert(crate::read::inserted_sorted(
                                            qpre,
                                            self.reads.queue(),
                                            st.index,
                                            nv,
                                        ));
                                        let p = choose|p: int| {
                                            &&& 0 <= p <= qpre.len()
                                            &&& self.reads.queue() == #[trigger] qpre.insert(
                                                p,
                                                (st.index, nv),
                                            )
                                        };
                                        qpre.insert_ensures(p, (st.index, nv));
                                        assert forall|i: int|
                                            0 <= i < self.reads.queue().len()
                                            implies (#[trigger] self.reads.queue()[i]).0
                                                > applied_g by {
                                            if i < p {
                                                assert(self.reads.queue()[i] == qpre[i]);
                                            } else if i == p {
                                                assert(self.reads.queue()[i] == (st.index, nv));
                                            } else {
                                                assert(self.reads.queue()[i] == qpre[i - 1]);
                                            }
                                        }
                                    }
                                }
                                ReadDisposition::Unknown => {}
                            }
                        }
                        rs += 1;
                    }
                    let stale = self.reads.sweep_stale(now_us);
                    let mut t: usize = 0;
                    while t < stale.len()
                        invariant
                            msg_seg_ok(actions@, msg_base, seg_msgs),
                            snap_seg_ok(actions@, dr_base, seg_drained, dr_view),
                            forall|k: int| 0 <= k < actions@.len()
                                ==> !((#[trigger] actions@[k]) is Sync),
                        decreases stale@.len() - t,
                    {
                        let ghost acts_b = actions@;
                        let ghost pushed = Action::Notify {
                            notifier: stale@[t as int],
                            reply: Reply::Fail(FailReason::Timeout),
                        };
                        actions.push(
                            Action::Notify {
                                notifier: stale[t],
                                reply: Reply::Fail(FailReason::Timeout),
                            },
                        );
                        proof {
                            lemma_msg_seg_push(acts_b, pushed, msg_base, seg_msgs);
                            lemma_snap_seg_push(acts_b, pushed, dr_base, seg_drained, dr_view);
                        }
                        t += 1;
                    }
                    if ri.persisted_messages.len() > 0 {
                        if !wrote && self.persisted_backlog.len() == 0 {
                            proof {
                                pm_base = actions@.len() as int;
                                seg_pm = ri.persisted_messages@;
                            }
                            let mut pm: usize = 0;
                            while pm < ri.persisted_messages.len()
                                invariant
                                    0 <= pm <= ri.persisted_messages@.len(),
                                    seg_pm == ri.persisted_messages@,
                                    0 <= pm_base,
                                    actions@.len() == pm_base + pm,
                                    msg_seg_ok(actions@, pm_base, seg_pm.take(pm as int)),
                                    msg_seg_ok(actions@, msg_base, seg_msgs),
                                    snap_seg_ok(actions@, dr_base, seg_drained, dr_view),
                                    forall|k: int| 0 <= k < actions@.len()
                                        ==> !((#[trigger] actions@[k]) is Sync),
                                decreases ri.persisted_messages@.len() - pm,
                            {
                                let ghost acts_b = actions@;
                                let ghost pushed = Action::Send {
                                    token: ri.persisted_messages@[pm as int],
                                };
                                actions.push(Action::Send { token: ri.persisted_messages[pm] });
                                proof {
                                    lemma_msg_seg_push(acts_b, pushed, msg_base, seg_msgs);
                                    lemma_snap_seg_push(
                                        acts_b,
                                        pushed,
                                        dr_base,
                                        seg_drained,
                                        dr_view,
                                    );
                                    assert forall|i2: int|
                                        #![trigger actions@[pm_base + i2]]
                                        0 <= i2 < pm + 1
                                        implies actions@[pm_base + i2] == (Action::Send {
                                            token: seg_pm.take(pm + 1)[i2],
                                        }) by {
                                        if i2 < pm {
                                            assert(acts_b[pm_base + i2] == (Action::Send {
                                                token: seg_pm.take(pm as int)[i2],
                                            }));
                                        }
                                    }
                                }
                                pm += 1;
                            }
                            proof {
                                assert(seg_pm.take(seg_pm.len() as int) =~= seg_pm);
                                assert(msg_seg_ok(actions@, pm_base, seg_pm));
                            }
                        } else {
                            self.persisted_backlog.push(ri.persisted_messages);
                        }
                    }
                    proof {
                        assert(self.persisted_backlog@ == spec_backlog_mid(pre, gready));
                    }
                    self.batch.clear();
                    self.last_ready_number = ri.number;
                }
            }
            None => {}
        }
        self.has_ready = false;
        proof {
            assert(self.wal == spec_mid_wal(pre, gready));
            assert(sync_log == spec_must_sync(pre, gready));
            assert(self.persisted_backlog@ == spec_backlog_mid(pre, gready));
        }
        let do_sync = self.wal.should_sync(now_us, sync_log);
        proof {
            assert(do_sync == spec_did_sync(pre, gready, now_us));
            lemma_count_sync_none(actions@);
        }
        if do_sync {
            let ghost sync_pos = actions@.len() as int;
            let ghost before_sync = actions@;
            actions.push(Action::Sync);
            proof {
                assert(actions@.drop_last() =~= before_sync);
                assert(count_sync(actions@) == 1);
                lemma_msg_seg_push(before_sync, Action::Sync, msg_base, seg_msgs);
                lemma_snap_seg_push(before_sync, Action::Sync, dr_base, seg_drained, dr_view);
                lemma_msg_seg_push(before_sync, Action::Sync, pm_base, seg_pm);
            }
            self.wal.on_synced(now_us);
            let ghost before_np = actions@;
            let ghost np = Action::NotifyPersisted { number: self.last_ready_number };
            actions.push(Action::NotifyPersisted { number: self.last_ready_number });
            proof {
                assert(actions@.drop_last() =~= before_np);
                assert(actions@[sync_pos] is Sync);
                assert(actions@[sync_pos + 1] == (Action::NotifyPersisted {
                    number: self.last_ready_number,
                }));
                lemma_msg_seg_push(before_np, np, msg_base, seg_msgs);
                lemma_snap_seg_push(before_np, np, dr_base, seg_drained, dr_view);
                lemma_msg_seg_push(before_np, np, pm_base, seg_pm);
            }
            self.has_ready = true;
            let ghost lrn = self.last_ready_number;
            proof {
                assert(msg_seg_ok(actions@, msg_base, seg_msgs));
                assert(snap_seg_ok(actions@, dr_base, seg_drained, dr_view));
                assert(msg_seg_ok(actions@, pm_base, seg_pm));
            }
            let mut b: usize = 0;
            while b < self.persisted_backlog.len()
                invariant
                    count_sync(actions@) == 1,
                    0 <= sync_pos && sync_pos + 1 < actions@.len(),
                    actions@[sync_pos] is Sync,
                    actions@[sync_pos + 1] == (Action::NotifyPersisted { number: lrn }),
                    lrn == self.last_ready_number,
                    msg_seg_ok(actions@, msg_base, seg_msgs),
                    snap_seg_ok(actions@, dr_base, seg_drained, dr_view),
                    msg_seg_ok(actions@, pm_base, seg_pm),
                decreases self.persisted_backlog@.len() - b,
            {
                let tokens_len = self.persisted_backlog[b].len();
                let mut tk: usize = 0;
                while tk < tokens_len
                    invariant
                        count_sync(actions@) == 1,
                        0 <= sync_pos && sync_pos + 1 < actions@.len(),
                        actions@[sync_pos] is Sync,
                        actions@[sync_pos + 1] == (Action::NotifyPersisted { number: lrn }),
                        b < self.persisted_backlog@.len(),
                        tokens_len == self.persisted_backlog@[b as int]@.len(),
                        msg_seg_ok(actions@, msg_base, seg_msgs),
                        snap_seg_ok(actions@, dr_base, seg_drained, dr_view),
                        msg_seg_ok(actions@, pm_base, seg_pm),
                    decreases tokens_len - tk,
                {
                    let ghost before = actions@;
                    let ghost pushed = Action::Send {
                        token: self.persisted_backlog@[b as int]@[tk as int],
                    };
                    actions.push(Action::Send { token: self.persisted_backlog[b][tk] });
                    proof {
                        assert(actions@.drop_last() =~= before);
                        lemma_msg_seg_push(before, pushed, msg_base, seg_msgs);
                        lemma_snap_seg_push(before, pushed, dr_base, seg_drained, dr_view);
                        lemma_msg_seg_push(before, pushed, pm_base, seg_pm);
                    }
                    tk += 1;
                }
                b += 1;
            }
            self.persisted_backlog = Vec::new();
            proof {
                assert(self.persisted_backlog@ =~= Seq::<Vec<u64>>::empty());
            }
        }
        proof {
            if pre.has_ready && gready is Some {
                assert(actions@.subrange(msg_base, msg_base + seg_msgs.len() as int)
                    =~= seg_msgs.map_values(|t: u64| Action::Send { token: t }));
                if seg_pm.len() > 0 {
                    assert(actions@.subrange(pm_base, pm_base + seg_pm.len() as int)
                        =~= seg_pm.map_values(|t: u64| Action::Send { token: t }));
                }
                assert(seg_drained.len() == dr_count);
                assert(actions@.subrange(dr_base, dr_base + dr_count).len() == dr_count);
                assert(dr_view == self.engine@);
                assert forall|i2: int| 0 <= i2 < dr_count implies is_snap_notify(
                    #[trigger] actions@[dr_base + i2],
                    qread[i2].1,
                    self.engine@,
                ) by {
                    assert(is_snap_notify(actions@[dr_base + i2], seg_drained[i2], dr_view));
                    assert(seg_drained[i2] == qread[i2].1);
                }
            }
        }
        actions
    }
}

} // verus!
