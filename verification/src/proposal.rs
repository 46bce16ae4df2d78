//! In-flight proposal tracking.
//!
//! Proposals are queued FIFO at propose time, carrying the (term, index) the
//! consensus core assigned and a host-side token for the single-shot
//! response sink. When an entry commits, the queue front is drained past
//! proposals of older terms (superseded by a term change, dropped silently),
//! and the matching proposal — if any — is popped and its notifier handed
//! back for resolution.

use vstd::prelude::*;

verus! {

/// An in-flight proposal awaiting its committed entry.
#[derive(Clone, Copy, PartialEq, Eq, Structural)]
pub struct Proposal {
    /// Log index the consensus core assigned at propose time.
    pub index: u64,
    /// Term at propose time.
    pub term: u64,
    /// Host-side token of the single-shot response sink.
    pub notifier: u64,
}

/// (term, index) lexicographic order, the order in which proposals enter
/// the queue.
pub open spec fn lex_le(a: Proposal, b: Proposal) -> bool {
    a.term < b.term || (a.term == b.term && a.index <= b.index)
}

/// Front-to-back (term, index) order: the queue invariant.
pub open spec fn sorted(s: Seq<Proposal>) -> bool {
    forall|i: int, j: int| 0 <= i < j < s.len() ==> lex_le(#[trigger] s[i], #[trigger] s[j])
}

/// Strict (term, index) order: consensus assigns every accepted proposal a
/// fresh, higher slot, so no two queued proposals share term and index.
pub open spec fn lex_lt(a: Proposal, b: Proposal) -> bool {
    a.term < b.term || (a.term == b.term && a.index < b.index)
}

/// Strict front-to-back order.
pub open spec fn strictly_sorted(s: Seq<Proposal>) -> bool {
    forall|i: int, j: int| 0 <= i < j < s.len() ==> lex_lt(#[trigger] s[i], #[trigger] s[j])
}

/// The FIFO of in-flight proposals.
pub struct ProposalQueue {
    items: Vec<Proposal>,
}

impl View for ProposalQueue {
    type V = Seq<Proposal>;

    closed spec fn view(&self) -> Seq<Proposal> {
        self.items@
    }
}

impl ProposalQueue {
    /// An empty queue.
    pub fn new() -> (r: ProposalQueue)
        ensures
            r@ == Seq::<Proposal>::empty(),
            sorted(r@),
    {
        let r = ProposalQueue { items: Vec::new() };
        proof {
            assert(r@ =~= Seq::<Proposal>::empty());
        }
        r
    }

    /// How many proposals are in flight.
    pub fn len(&self) -> (r: usize)
        ensures
            r == self@.len(),
    {
        self.items.len()
    }

    /// Queues a proposal at propose time. The caller hands proposals over
    /// in (term, index) order, which keeps the queue sorted.
    pub fn enqueue(&mut self, p: Proposal)
        requires
            sorted(old(self)@),
            old(self)@.len() > 0 ==> lex_le(old(self)@.last(), p),
        ensures
            final(self)@ == old(self)@.push(p),
            sorted(final(self)@),
    {
        let ghost orig = self@;
        self.items.push(p);
        proof {
            assert(self@ =~= orig.push(p));
            assert forall|i: int, j: int| 0 <= i < j < self@.len()
                implies lex_le(#[trigger] self@[i], #[trigger] self@[j]) by {
                if j < orig.len() {
                    assert(lex_le(orig[i], orig[j]));
                } else {
                    assert(lex_le(orig[orig.len() - 1], p));
                    if i < orig.len() - 1 {
                        assert(lex_le(orig[i], orig[orig.len() - 1]));
                    }
                }
            }
        }
    }

    /// Finds the notifier for the committed entry `(index, term)`.
    ///
    /// Proposals whose term precedes the entry's are dropped from the front
    /// without an answer: a term change superseded them. If the front then
    /// carries exactly the entry's term and index it is popped and its
    /// notifier returned; otherwise no proposal of this queue belongs to the
    /// entry and the queue is left at the first proposal at or past it.
    ///
    /// The popped proposal's (index, term) always equals the committed
    /// entry's (index, term): proposal-order matching.
    #[verifier::loop_isolation(false)]
    pub fn get_notifier(&mut self, index: u64, term: u64) -> (r: Option<u64>)
        requires
            sorted(old(self)@),
            forall|i: int| 0 <= i < old(self)@.len() && (#[trigger] old(self)@[i]).term == term
                ==> old(self)@[i].index >= index,
        ensures
            sorted(final(self)@),
            match r {
                Some(n) => exists|k: int| {
                    &&& 0 <= k < old(self)@.len()
                    &&& (#[trigger] old(self)@[k]).term == term
                    &&& old(self)@[k].index == index
                    &&& old(self)@[k].notifier == n
                    &&& (forall|j: int| 0 <= j < k ==> (#[trigger] old(self)@[j]).term < term)
                    &&& final(self)@ == old(self)@.skip(k + 1)
                },
                None => {
                    &&& forall|i: int| 0 <= i < old(self)@.len()
                        ==> !((#[trigger] old(self)@[i]).term == term && old(self)@[i].index == index)
                    &&& exists|d: int| {
                        &&& 0 <= d <= old(self)@.len()
                        &&& (forall|j: int| 0 <= j < d ==> (#[trigger] old(self)@[j]).term < term)
                        &&& final(self)@ == old(self)@.skip(d)
                    }
                    &&& final(self)@.len() == 0 || final(self)@[0].term >= term
                },
            },
    {
        let ghost orig = self@;
        let ghost mut d: int = 0;
        proof {
            assert(self@ =~= orig.skip(0));
        }
        loop
            invariant
                sorted(orig),
                forall|i: int| 0 <= i < orig.len() && (#[trigger] orig[i]).term == term
                    ==> orig[i].index >= index,
                0 <= d <= orig.len(),
                self@ == orig.skip(d),
                forall|j: int| 0 <= j < d ==> (#[trigger] orig[j]).term < term,
            decreases self@.len(),
        {
            if self.items.len() == 0 {
                proof {
                    assert forall|i: int| 0 <= i < orig.len()
                        implies !((#[trigger] orig[i]).term == term && orig[i].index == index) by {
                        assert(orig[i].term < term);
                    }
                }
                return None;
            }
            let front = self.items[0];
            proof {
                assert(front == orig[d]);
                assert forall|i: int, j: int| 0 <= i < j < self@.len()
                    implies lex_le(#[trigger] self@[i], #[trigger] self@[j]) by {
                    assert(lex_le(orig[d + i], orig[d + j]));
                }
            }
            if front.term < term {
                self.items.remove(0);
                proof {
                    assert(self@ =~= orig.skip(d + 1));
                    d = d + 1;
                }
            } else if front.term > term || front.index > index {
                proof {
                    assert forall|i: int| 0 <= i < orig.len()
                        implies !((#[trigger] orig[i]).term == term && orig[i].index == index) by {
                        if i < d {
                            assert(orig[i].term < term);
                        } else {
                            assert(lex_le(orig[d], orig[i]));
                            if orig[i].term == term {
                                assert(orig[i].index >= index);
                                if front.term == term {
                                    assert(orig[i].index >= front.index > index);
                                }
                            }
                        }
                    }
                    assert(sorted(self@));
                }
                return None;
            } else {
                let p = self.items.remove(0);
                proof {
                    assert(p == orig[d]);
                    assert(p.index >= index);
                    assert(p.index == index);
                    assert(self@ =~= orig.skip(d + 1));
                    assert(sorted(orig.skip(d + 1))) by {
                        assert forall|i: int, j: int| 0 <= i < j < orig.skip(d + 1).len()
                            implies lex_le(
                                #[trigger] orig.skip(d + 1)[i],
                                #[trigger] orig.skip(d + 1)[j],
                            ) by {
                            assert(lex_le(orig[d + 1 + i], orig[d + 1 + j]));
                        }
                    }
                }
                return Some(p.notifier);
            }
        }
    }
}

} // verus!
