//! Buffered non-blocking sender over a bounded channel.
//!
//! `TrySender` wraps a bounded multi-producer channel with an overflow
//! queue: a send that hits a full channel parks in the overflow and still
//! succeeds; `drain_ready` replays the overflow in order once the channel
//! has room. The ghost field `passed` records the messages handed to the
//! channel, in order; together with the parked messages it always equals
//! the submission order, so nothing sent through the buffered path is
//! lost, duplicated or reordered. The channel itself delivers in FIFO
//! order, so the receiver dequeues the submitted messages in submission
//! order.

use vstd::prelude::*;

verus! {

#[verifier::external_type_specification]
#[verifier::external_body]
#[verifier::reject_recursive_types(T)]
pub struct ExSender<T>(async_channel::Sender<T>);

/// What a non-blocking enqueue attempt can come to.
pub enum TrySendOutcome<M> {
    Sent,
    Full(M),
    Closed(M),
}

/// Relies on `async_channel::Sender::try_send`: a non-blocking enqueue
/// that hands the message back inside the error when the channel is full
/// or closed. Whether the channel is full depends on the receiver, so
/// nothing is promised about which outcome comes back.
#[verifier::external_body]
fn chan_try_send<M>(s: &async_channel::Sender<M>, msg: M) -> (r: TrySendOutcome<M>)
    ensures
        r matches TrySendOutcome::Full(m) ==> m == msg,
        r matches TrySendOutcome::Closed(m) ==> m == msg,
{
    match s.try_send(msg) {
        Ok(()) => TrySendOutcome::Sent,
        Err(async_channel::TrySendError::Full(m)) => TrySendOutcome::Full(m),
        Err(async_channel::TrySendError::Closed(m)) => TrySendOutcome::Closed(m),
    }
}

/// Relies on `async_channel::Sender::is_full`: a snapshot of shared
/// state, so nothing is promised of the answer.
#[verifier::external_body]
fn chan_is_full<M>(s: &async_channel::Sender<M>) -> bool {
    s.is_full()
}

/// Relies on `async_channel::Sender::len`: the number of queued messages
/// at some instant; a snapshot, so nothing is promised of it.
#[verifier::external_body]
fn chan_len<M>(s: &async_channel::Sender<M>) -> usize {
    s.len()
}

/// Relies on `async_channel::Sender::clone`: the clone is another handle
/// to the same channel.
#[verifier::external_body]
pub fn clone_sender<M>(s: &async_channel::Sender<M>) -> async_channel::Sender<M> {
    s.clone()
}

/// The one failure a buffered send can report: the peer is gone.
#[derive(Clone, Copy, Debug, PartialEq, Eq, Structural)]
pub enum SendError {
    Disconnected,
}

/// A bounded send handle with a primary and a scratch overflow queue.
#[verifier::reject_recursive_types(M)]
pub struct TrySender<M> {
    pub addr: async_channel::Sender<M>,
    pub pending: Vec<M>,
    pub pending2: Vec<M>,
    pub passed: Ghost<Seq<M>>,
}

impl<M> TrySender<M> {
    /// Everything accepted by the buffered path, in submission order:
    /// first what was handed to the channel, then what waits parked.
    pub open spec fn submitted(self) -> Seq<M> {
        self.passed@ + self.pending@
    }

    /// Between drains the scratch overflow is empty.
    pub open spec fn wf(self) -> bool {
        self.pending2@.len() == 0
    }

    /// Wrap a bounded send handle; the overflow starts empty.
    pub fn new(addr: async_channel::Sender<M>) -> (r: TrySender<M>)
        ensures
            r.wf(),
            r.submitted() == Seq::<M>::empty(),
            r.passed@ == Seq::<M>::empty(),
            r.pending@.len() == 0,
    {
        let r = TrySender {
            addr,
            pending: Vec::new(),
            pending2: Vec::new(),
            passed: Ghost(Seq::empty()),
        };
        proof {
            assert(r.submitted() =~= Seq::<M>::empty());
        }
        r
    }

    /// Non-blocking send that cannot stall: a full channel parks the
    /// message in the overflow, in submission order, and the call still
    /// succeeds. Only a disconnected peer fails, and then nothing
    /// changes. While anything is parked, new messages park behind it,
    /// so the submission order is never overtaken.
    pub fn try_send_safe(&mut self, msg: M) -> (r: Result<(), SendError>)
        requires
            old(self).wf(),
        ensures
            final(self).wf(),
            old(self).pending@.len() > 0 ==> r is Ok,
            r is Ok ==> final(self).submitted() == old(self).submitted().push(msg),
            r is Err ==> final(self).submitted() == old(self).submitted() && final(self).passed@
                == old(self).passed@,
            old(self).passed@.is_prefix_of(final(self).passed@),
            r matches Err(e) ==> e == SendError::Disconnected,
    {
        proof {
            assert(old(self).passed@.is_prefix_of(old(self).passed@)) by {
                assert(old(self).passed@.take(old(self).passed@.len() as int) =~= old(
                    self,
                ).passed@);
            }
        }
        if self.pending.len() > 0 {
            self.pending.push(msg);
            proof {
                assert(self.submitted() =~= old(self).submitted().push(msg));
            }
            Ok(())
        } else {
            match chan_try_send(&self.addr, msg) {
                TrySendOutcome::Sent => {
                    proof {
                        let ghost p = self.passed@;
                        assert(p.is_prefix_of(p.push(msg))) by {
                            assert(p.push(msg).take(p.len() as int) =~= p);
                        }
                    }
                    self.passed = Ghost(self.passed@.push(msg));
                    proof {
                        assert(self.submitted() =~= old(self).submitted().push(msg));
                    }
                    Ok(())
                },
                TrySendOutcome::Full(m) => {
                    self.pending.push(m);
                    proof {
                        assert(self.submitted() =~= old(self).submitted().push(msg));
                    }
                    Ok(())
                },
                TrySendOutcome::Closed(_m) => Err(SendError::Disconnected),
            }
        }
    }

    /// Admission gate: true only when nothing is parked and the channel
    /// reported room.
    pub fn ready(&self) -> (r: bool)
        ensures
            r ==> self.pending@.len() == 0,
    {
        let not_full = !chan_is_full(&self.addr);
        let no_pending = self.pending.len() == 0;
        not_full && no_pending
    }

    /// Replay the overflow in order while the channel accepts; a message
    /// the channel refuses goes back to the front of the overflow with
    /// everything behind it, in the original order, so the submission
    /// order survives interrupted drains. (A refusal by a closed channel
    /// also parks the rest rather than dropping it.) Returns the
    /// post-drain readiness: true only once every message accepted
    /// earlier has been handed to the channel.
    #[verifier::loop_isolation(false)]
    pub fn drain_ready(&mut self) -> (r: bool)
        requires
            old(self).wf(),
        ensures
            final(self).wf(),
            final(self).submitted() == old(self).submitted(),
            old(self).passed@.is_prefix_of(final(self).passed@),
            r ==> final(self).pending@.len() == 0 && final(self).passed@ == old(self).submitted(),
    {
        let ghost sub0 = old(self).submitted();
        let ghost passed0 = old(self).passed@;
        let some_pending = self.pending.len() > 0;
        let not_full = !chan_is_full(&self.addr);
        if some_pending && not_full {
            core::mem::swap(&mut self.pending, &mut self.pending2);
            let mut bad = false;
            proof {
                assert(self.passed@ + self.pending@ + self.pending2@ =~= sub0);
                assert(passed0.take(passed0.len() as int) =~= passed0);
            }
            while self.pending2.len() > 0
                invariant
                    self.passed@ + self.pending@ + self.pending2@ == sub0,
                    passed0.is_prefix_of(self.passed@),
                    !bad ==> self.pending@.len() == 0,
                decreases self.pending2@.len(),
            {
                let msg = self.pending2.remove(0);
                let ghost before_passed = self.passed@;
                let ghost before_pending = self.pending@;
                let ghost before_scratch = self.pending2@;
                if bad {
                    self.pending.push(msg);
                    proof {
                        assert(self.passed@ + self.pending@ + self.pending2@ =~= sub0);
                    }
                } else {
                    match chan_try_send(&self.addr, msg) {
                        TrySendOutcome::Sent => {
                            self.passed = Ghost(self.passed@.push(msg));
                            proof {
                                assert(self.passed@ + self.pending@ + self.pending2@ =~= sub0);
                                assert(passed0.is_prefix_of(self.passed@)) by {
                                    assert(self.passed@.take(passed0.len() as int)
                                        =~= before_passed.take(passed0.len() as int));
                                }
                            }
                        },
                        TrySendOutcome::Full(m) => {
                            self.pending.push(m);
                            bad = true;
                            proof {
                                assert(self.passed@ + self.pending@ + self.pending2@ =~= sub0);
                            }
                        },
                        TrySendOutcome::Closed(m) => {
                            self.pending.push(m);
                            bad = true;
                            proof {
                                assert(self.passed@ + self.pending@ + self.pending2@ =~= sub0);
                            }
                        },
                    }
                }
            }
            proof {
                assert(self.pending2@ =~= Seq::<M>::empty());
                assert(self.submitted() =~= sub0);
            }
        } else {
            proof {
                assert(self.submitted() =~= sub0);
                assert(passed0.take(passed0.len() as int) =~= passed0);
            }
        }
        let not_full2 = !chan_is_full(&self.addr);
        let no_pending = self.pending.len() == 0;
        let r = not_full2 && no_pending;
        proof {
            if no_pending {
                assert(self.passed@ =~= self.passed@ + self.pending@);
            }
        }
        r
    }

    /// Best-effort non-blocking send past the overflow: a full or closed
    /// channel discards the message; the overflow is untouched.
    pub fn maybe_send(&self, msg: M) -> (r: bool) {
        match chan_try_send(&self.addr, msg) {
            TrySendOutcome::Sent => true,
            TrySendOutcome::Full(_m) => false,
            TrySendOutcome::Closed(_m) => false,
        }
    }

    /// How many messages the channel holds right now (a snapshot).
    pub fn len(&self) -> usize {
        chan_len(&self.addr)
    }

    /// The underlying send handle, for awaitable sends.
    pub fn sender(&self) -> (r: &async_channel::Sender<M>)
        ensures
            *r == self.addr,
    {
        &self.addr
    }
}

impl<M> Clone for TrySender<M> {
    /// A clone shares the channel but starts with its own empty
    /// overflow: overflow belongs to the sending site, not to the queue.
    fn clone(&self) -> (r: Self)
        ensures
            r.wf(),
            r.pending@.len() == 0,
            r.submitted() == Seq::<M>::empty(),
    {
        let r = TrySender {
            addr: clone_sender(&self.addr),
            pending: Vec::new(),
            pending2: Vec::new(),
            passed: Ghost(Seq::empty()),
        };
        proof {
            assert(r.submitted() =~= Seq::<M>::empty());
        }
        r
    }
}

/// Order law for the buffered path: what has been handed to the channel
/// is a prefix of the submission order. The channel is FIFO, so with no
/// drain pending the receiver dequeues the submitted messages in
/// submission order.
pub proof fn lemma_passed_prefix_of_submitted<M>(s: TrySender<M>)
    ensures
        s.passed@.is_prefix_of(s.submitted()),
{
    assert(s.submitted().take(s.passed@.len() as int) =~= s.passed@);
}

} // verus!
