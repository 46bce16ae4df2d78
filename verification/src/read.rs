//! Read-index bookkeeping for linearizable reads.
//!
//! A snapshot request draws a nonce, issues a read-index call with the
//! nonce as context, and is tracked here until the consensus core yields
//! the matching read state. A read whose index is already applied resolves
//! at once; otherwise its notifier waits in a queue keyed by the read index
//! and is released only when the applied index has caught up. Requests that
//! wait longer than ten seconds of wall clock are failed with a timeout.

use vstd::prelude::*;

verus! {

/// Fail a read that has waited longer than this many microseconds (10 s).
pub const READ_TIMEOUT_US: u64 = 10_000_000;

/// A read waiting for its read state, with the instant it arrived.
#[derive(Clone, Copy, PartialEq, Eq, Structural)]
pub struct ReadRequest {
    /// Host-side token of the single-shot response sink.
    pub notifier: u64,
    /// Microsecond instant at which the request reached the driver.
    pub start_us: u64,
}

/// A request is stale once it has waited past the timeout. A start instant
/// that reads after `now_us` counts as fresh.
pub open spec fn is_stale(req: ReadRequest, now_us: u64) -> bool {
    now_us >= req.start_us && now_us - req.start_us > READ_TIMEOUT_US
}

/// No two waiting requests share a nonce.
pub open spec fn unique_nonces(s: Seq<(u64, ReadRequest)>) -> bool {
    forall|i: int, j: int| 0 <= i < j < s.len() ==> (#[trigger] s[i]).0 != (#[trigger] s[j]).0
}

/// The wait queue is ordered by read index, front to back.
pub open spec fn queue_sorted(s: Seq<(u64, u64)>) -> bool {
    forall|i: int, j: int| 0 <= i < j < s.len() ==> (#[trigger] s[i]).0 <= (#[trigger] s[j]).0
}

/// There is a request under this nonce.
pub open spec fn pending_has(s: Seq<(u64, ReadRequest)>, nonce: u64) -> bool {
    exists|i: int| 0 <= i < s.len() && (#[trigger] s[i]).0 == nonce
}

/// The requests that survive a sweep at `now_us`, in order.
pub open spec fn keep_fresh(s: Seq<(u64, ReadRequest)>, now_us: u64) -> Seq<(u64, ReadRequest)>
    decreases s.len(),
{
    if s.len() == 0 {
        Seq::empty()
    } else if is_stale(s.last().1, now_us) {
        keep_fresh(s.drop_last(), now_us)
    } else {
        keep_fresh(s.drop_last(), now_us).push(s.last())
    }
}

/// The notifiers of the requests a sweep at `now_us` removes, in order.
pub open spec fn stale_notifiers(s: Seq<(u64, ReadRequest)>, now_us: u64) -> Seq<u64>
    decreases s.len(),
{
    if s.len() == 0 {
        Seq::empty()
    } else if is_stale(s.last().1, now_us) {
        stale_notifiers(s.drop_last(), now_us).push(s.last().1.notifier)
    } else {
        stale_notifiers(s.drop_last(), now_us)
    }
}

/// Everything that survives a sweep was already waiting, is fresh, and no
/// two survivors share a nonce if none did before.
pub proof fn lemma_keep_fresh(s: Seq<(u64, ReadRequest)>, now_us: u64)
    ensures
        forall|i: int| 0 <= i < keep_fresh(s, now_us).len()
            ==> !is_stale((#[trigger] keep_fresh(s, now_us)[i]).1, now_us),
        forall|i: int| 0 <= i < keep_fresh(s, now_us).len()
            ==> s.contains(#[trigger] keep_fresh(s, now_us)[i]),
        unique_nonces(s) ==> unique_nonces(keep_fresh(s, now_us)),
    decreases s.len(),
{
    if s.len() == 0 {
    } else {
        let head = s.drop_last();
        lemma_keep_fresh(head, now_us);
        assert(forall|i: int| 0 <= i < head.len() ==> head[i] == s[i]);
        assert forall|i: int| 0 <= i < keep_fresh(head, now_us).len()
            implies s.contains(#[trigger] keep_fresh(head, now_us)[i]) by {
            assert(head.contains(keep_fresh(head, now_us)[i]));
            let w = choose|j: int| 0 <= j < head.len() && head[j] == keep_fresh(head, now_us)[i];
            assert(s[w] == keep_fresh(head, now_us)[i]);
        }
        if unique_nonces(s) {
            assert(unique_nonces(head));
            if !is_stale(s.last().1, now_us) {
                let kept = keep_fresh(head, now_us).push(s.last());
                assert forall|i: int, j: int| 0 <= i < j < kept.len()
                    implies (#[trigger] kept[i]).0 != (#[trigger] kept[j]).0 by {
                    if j < kept.len() - 1 {
                        assert(kept[i] == keep_fresh(head, now_us)[i]);
                        assert(kept[j] == keep_fresh(head, now_us)[j]);
                    } else {
                        assert(kept[j] == s.last());
                        assert(head.contains(kept[i]));
                        let w = choose|m: int| 0 <= m < head.len() && head[m] == kept[i];
                        assert(s[w] == kept[i]);
                        assert(s[w].0 != s[s.len() - 1].0);
                    }
                }
            }
        }
    }
}

/// `qnew` is `qold` with `(idx, notifier)` inserted behind every entry at
/// or below `idx` and ahead of every entry above it.
pub open spec fn inserted_sorted(
    qold: Seq<(u64, u64)>,
    qnew: Seq<(u64, u64)>,
    idx: u64,
    notifier: u64,
) -> bool {
    exists|p: int| {
        &&& 0 <= p <= qold.len()
        &&& (forall|j: int| 0 <= j < p ==> (#[trigger] qold[j]).0 <= idx)
        &&& (forall|j: int| p <= j < qold.len() ==> (#[trigger] qold[j]).0 > idx)
        &&& qnew == #[trigger] qold.insert(p, (idx, notifier))
    }
}

/// Tracks in-flight snapshot reads: the nonce-keyed waiting set and the
/// queue of reads whose index has not yet been applied.
pub struct ReadTracker {
    pending: Vec<(u64, ReadRequest)>,
    queue: Vec<(u64, u64)>,
}

/// What became of a read state handed back by the consensus core.
pub enum ReadDisposition {
    /// The read index is already applied: resolve with a fresh snapshot.
    ResolveNow { notifier: u64 },
    /// The read index is ahead of the applied index: the notifier waits.
    Queued,
    /// No request under this nonce: it was swept or never existed.
    Unknown,
}

impl ReadTracker {
    /// The waiting set: (nonce, request) pairs in arrival order.
    pub closed spec fn pending(self) -> Seq<(u64, ReadRequest)> {
        self.pending@
    }

    /// The wait queue: (read index, notifier) pairs ordered by read index.
    pub closed spec fn queue(self) -> Seq<(u64, u64)> {
        self.queue@
    }

    /// Nonces are unique and the wait queue is ordered.
    pub open spec fn wf(self) -> bool {
        unique_nonces(self.pending()) && queue_sorted(self.queue())
    }

    /// An empty tracker.
    pub fn new() -> (r: ReadTracker)
        ensures
            r.pending() == Seq::<(u64, ReadRequest)>::empty(),
            r.queue() == Seq::<(u64, u64)>::empty(),
            r.wf(),
    {
        let r = ReadTracker { pending: Vec::new(), queue: Vec::new() };
        proof {
            assert(r.pending() =~= Seq::<(u64, ReadRequest)>::empty());
            assert(r.queue() =~= Seq::<(u64, u64)>::empty());
        }
        r
    }

    /// Tracks a new snapshot request under `nonce`. A colliding nonce —
    /// possible, the nonce being random — replaces the earlier request,
    /// whose caller is left to the timeout it would have reached anyway.
    #[verifier::loop_isolation(false)]
    pub fn register(&mut self, nonce: u64, notifier: u64, now_us: u64)
        requires
            old(self).wf(),
        ensures
            final(self).wf(),
            final(self).queue() == old(self).queue(),
            if pending_has(old(self).pending(), nonce) {
                exists|i: int| {
                    &&& 0 <= i < old(self).pending().len()
                    &&& (#[trigger] old(self).pending()[i]).0 == nonce
                    &&& final(self).pending() == old(self).pending().remove(i).push(
                        (nonce, ReadRequest { notifier, start_us: now_us }),
                    )
                }
            } else {
                final(self).pending() == old(self).pending().push(
                    (nonce, ReadRequest { notifier, start_us: now_us }),
                )
            },
    {
        let ghost orig = self.pending@;
        let mut i: usize = 0;
        let mut found: bool = false;
        while i < self.pending.len() && !found
            invariant
                0 <= i <= orig.len(),
                self.pending@ == orig,
                !found ==> forall|j: int| 0 <= j < i ==> (#[trigger] orig[j]).0 != nonce,
                found ==> i < orig.len() && orig[i as int].0 == nonce,
            decreases orig.len() - i + (if found { 0int } else { 1int }),
        {
            if self.pending[i].0 == nonce {
                found = true;
            } else {
                i += 1;
            }
        }
        let req = ReadRequest { notifier, start_us: now_us };
        if found {
            self.pending.remove(i);
            self.pending.push((nonce, req));
            proof {
                assert(orig[i as int].0 == nonce);
                assert(self.pending@ == orig.remove(i as int).push((nonce, req)));
                assert forall|a: int, b: int| 0 <= a < b < self.pending@.len()
                    implies (#[trigger] self.pending@[a]).0 != (#[trigger] self.pending@[b]).0 by {
                    if b < self.pending@.len() - 1 {
                        assert(self.pending@[a] == if a < i { orig[a] } else { orig[a + 1] });
                        assert(self.pending@[b] == if b < i { orig[b] } else { orig[b + 1] });
                    } else {
                        assert(self.pending@[b].0 == nonce);
                        assert(self.pending@[a] == if a < i { orig[a] } else { orig[a + 1] });
                    }
                }
            }
        } else {
            self.pending.push((nonce, req));
            proof {
                assert(!pending_has(orig, nonce));
                assert forall|a: int, b: int| 0 <= a < b < self.pending@.len()
                    implies (#[trigger] self.pending@[a]).0 != (#[trigger] self.pending@[b]).0 by {
                    if b < orig.len() {
                        assert(orig[a].0 != orig[b].0);
                    } else {
                        assert(self.pending@[a] == orig[a]);
                        assert(!(0 <= a < orig.len() && orig[a].0 == nonce));
                    }
                }
            }
        }
    }

    /// Handles a read state `(nonce, read_index)` from the consensus core.
    /// The matching request — if it still waits — either resolves now, when
    /// the read index is already applied, or joins the wait queue under its
    /// read index. A notification is never released while `read_index`
    /// exceeds `applied`.
    #[verifier::loop_isolation(false)]
    pub fn on_read_state(&mut self, nonce: u64, read_index: u64, applied: u64) -> (r:
        ReadDisposition)
        requires
            old(self).wf(),
        ensures
            final(self).wf(),
            match r {
                ReadDisposition::ResolveNow { notifier } => {
                    &&& read_index <= applied
                    &&& exists|i: int| 0 <= i < old(self).pending().len()
                        && (#[trigger] old(self).pending()[i]).0 == nonce
                        && old(self).pending()[i].1.notifier == notifier
                        && final(self).pending() == old(self).pending().remove(i)
                    &&& final(self).queue() == old(self).queue()
                },
                ReadDisposition::Queued => {
                    &&& read_index > applied
                    &&& exists|i: int| {
                        &&& 0 <= i < old(self).pending().len()
                        &&& (#[trigger] old(self).pending()[i]).0 == nonce
                        &&& final(self).pending() == old(self).pending().remove(i)
                        &&& inserted_sorted(
                            old(self).queue(),
                            final(self).queue(),
                            read_index,
                            old(self).pending()[i].1.notifier,
                        )
                    }
                },
                ReadDisposition::Unknown => {
                    &&& !pending_has(old(self).pending(), nonce)
                    &&& final(self).pending() == old(self).pending()
                    &&& final(self).queue() == old(self).queue()
                },
            },
    {
        let ghost orig = self.pending@;
        let mut i: usize = 0;
        let mut found: bool = false;
        while i < self.pending.len() && !found
            invariant
                0 <= i <= orig.len(),
                self.pending@ == orig,
                !found ==> forall|j: int| 0 <= j < i ==> (#[trigger] orig[j]).0 != nonce,
                found ==> i < orig.len() && orig[i as int].0 == nonce,
            decreases orig.len() - i + (if found { 0int } else { 1int }),
        {
            if self.pending[i].0 == nonce {
                found = true;
            } else {
                i += 1;
            }
        }
        if !found {
            return ReadDisposition::Unknown;
        }
        let req = self.pending[i].1;
        self.pending.remove(i);
        proof {
            assert forall|a: int, b: int| 0 <= a < b < self.pending@.len()
                implies (#[trigger] self.pending@[a]).0 != (#[trigger] self.pending@[b]).0 by {
                assert(self.pending@[a] == if a < i { orig[a] } else { orig[a + 1] });
                assert(self.pending@[b] == if b < i { orig[b] } else { orig[b + 1] });
            }
        }
        if read_index <= applied {
            ReadDisposition::ResolveNow { notifier: req.notifier }
        } else {
            let ghost qorig = self.queue@;
            let mut p: usize = 0;
            while p < self.queue.len() && self.queue[p].0 <= read_index
                invariant
                    0 <= p <= qorig.len(),
                    self.queue@ == qorig,
                    forall|j: int| 0 <= j < p ==> (#[trigger] qorig[j]).0 <= read_index,
                decreases qorig.len() - p,
            {
                p += 1;
            }
            proof {
                assert forall|j: int| p <= j < qorig.len()
                    implies (#[trigger] qorig[j]).0 > read_index by {
                    if j > p {
                        assert(qorig[p as int].0 <= qorig[j].0);
                    }
                }
            }
            self.queue.insert(p, (read_index, req.notifier));
            proof {
                assert forall|a: int, b: int| 0 <= a < b < self.queue@.len()
                    implies (#[trigger] self.queue@[a]).0 <= (#[trigger] self.queue@[b]).0 by {
                    let at = if a < p { qorig[a] } else if a == p { (read_index, req.notifier) } else { qorig[a - 1] };
                    let bt = if b < p { qorig[b] } else if b == p { (read_index, req.notifier) } else { qorig[b - 1] };
                    assert(self.queue@[a] == at);
                    assert(self.queue@[b] == bt);
                }
            }
            ReadDisposition::Queued
        }
    }

    /// Releases every queued read whose index is now applied, in index
    /// order, and keeps the rest waiting. Each returned notifier belongs to
    /// a read index at or below `applied`.
    #[verifier::loop_isolation(false)]
    pub fn drain_applied(&mut self, applied: u64) -> (r: Vec<u64>)
        requires
            old(self).wf(),
        ensures
            final(self).wf(),
            final(self).pending() == old(self).pending(),
            exists|d: int| {
                &&& 0 <= d <= old(self).queue().len()
                &&& (forall|j: int| 0 <= j < d ==> (#[trigger] old(self).queue()[j]).0 <= applied)
                &&& (forall|j: int| d <= j < old(self).queue().len()
                        ==> (#[trigger] old(self).queue()[j]).0 > applied)
                &&& final(self).queue() == old(self).queue().skip(d)
                &&& r@ == old(self).queue().take(d).map_values(|pr: (u64, u64)| pr.1)
            },
    {
        let ghost qorig = self.queue@;
        let ghost porig = self.pending@;
        let mut out: Vec<u64> = Vec::new();
        let ghost mut d: int = 0;
        proof {
            assert(self.queue@ =~= qorig.skip(0));
            assert(out@ =~= qorig.take(0).map_values(|pr: (u64, u64)| pr.1));
        }
        while self.queue.len() > 0 && self.queue[0].0 <= applied
            invariant
                0 <= d <= qorig.len(),
                self.queue@ == qorig.skip(d),
                self.pending@ == porig,
                forall|j: int| 0 <= j < d ==> (#[trigger] qorig[j]).0 <= applied,
                out@ == qorig.take(d).map_values(|pr: (u64, u64)| pr.1),
            decreases self.queue@.len(),
        {
            let front = self.queue.remove(0);
            out.push(front.1);
            proof {
                assert(front == qorig[d]);
                assert(self.queue@ =~= qorig.skip(d + 1));
                assert(out@ =~= qorig.take(d + 1).map_values(|pr: (u64, u64)| pr.1));
                d = d + 1;
            }
        }
        proof {
            assert forall|j: int| d <= j < qorig.len()
                implies (#[trigger] qorig[j]).0 > applied by {
                if self.queue@.len() > 0 {
                    assert(qorig[d] == self.queue@[0]);
                    if j > d {
                        assert(qorig[d].0 <= qorig[j].0);
                    }
                }
            }
            assert forall|a: int, b: int| 0 <= a < b < self.queue@.len()
                implies (#[trigger] self.queue@[a]).0 <= (#[trigger] self.queue@[b]).0 by {
                assert(self.queue@[a] == qorig[d + a]);
                assert(self.queue@[b] == qorig[d + b]);
            }
        }
        out
    }

    /// Sweeps the waiting set: every request that has waited past the
    /// timeout is removed and its notifier returned for a timeout failure.
    /// No request older than the timeout survives the sweep.
    #[verifier::loop_isolation(false)]
    pub fn sweep_stale(&mut self, now_us: u64) -> (r: Vec<u64>)
        requires
            old(self).wf(),
        ensures
            final(self).wf(),
            final(self).queue() == old(self).queue(),
            final(self).pending() == keep_fresh(old(self).pending(), now_us),
            r@ == stale_notifiers(old(self).pending(), now_us),
            forall|i: int| 0 <= i < final(self).pending().len()
                ==> !is_stale((#[trigger] final(self).pending()[i]).1, now_us),
    {
        let ghost orig = self.pending@;
        let mut kept: Vec<(u64, ReadRequest)> = Vec::new();
        let mut out: Vec<u64> = Vec::new();
        let mut i: usize = 0;
        proof {
            assert(kept@ =~= keep_fresh(orig.take(0), now_us));
            assert(out@ =~= stale_notifiers(orig.take(0), now_us));
        }
        while i < self.pending.len()
            invariant
                0 <= i <= orig.len(),
                self.pending@ == orig,
                kept@ == keep_fresh(orig.take(i as int), now_us),
                out@ == stale_notifiers(orig.take(i as int), now_us),
            decreases orig.len() - i,
        {
            let entry = self.pending[i];
            let stale = now_us >= entry.1.start_us && now_us - entry.1.start_us > READ_TIMEOUT_US;
            proof {
                assert(orig.take(i + 1).drop_last() =~= orig.take(i as int));
                assert(orig.take(i + 1).last() == entry);
            }
            if stale {
                out.push(entry.1.notifier);
            } else {
                kept.push(entry);
            }
            i += 1;
        }
        proof {
            assert(orig.take(orig.len() as int) =~= orig);
        }
        self.pending = kept;
        proof {
            lemma_keep_fresh(orig, now_us);
        }
        out
    }
}

} // verus!
