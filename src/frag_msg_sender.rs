use std::collections::VecDeque;

use vstd::prelude::*;

use crate::messages::{frag_views, max_message_spec, split_message, split_message_spec, NONCE_LEN};

verus! {

/// Smallest datagram that carries a fragment with one byte of share data.
pub const MIN_DGRAM_LEN: usize = 19;
/// Largest datagram that the sender accepts.
pub const MAX_DGRAM_LEN: usize = 255;

/// Why a sender cannot be built, or a message not sent.
#[derive(Debug, PartialEq, Eq)]
pub enum SendError {
    DatagramLenOutOfRange,
    InputTooLarge,
}

struct PendingDgrams<A> {
    address: A,
    dgrams: VecDeque<Vec<u8>>,
}

/// The fragments of one message still to be sent, and their address.
pub struct PendingView<A> {
    pub address: A,
    pub dgrams: Seq<Seq<u8>>,
}

/// Turns messages into fragments and hands them out one at a time, keeping
/// the rest of a message while downstream is not ready: one message's
/// fragments all go out before the next message is accepted.
pub struct FragMsgSender<A> {
    max_dgram_len: usize,
    opt_pending_dgrams: Option<PendingDgrams<A>>,
}

impl<A> FragMsgSender<A> {
    /// The datagram length the sender splits for.
    pub closed spec fn dgram_len(&self) -> nat {
        self.max_dgram_len as nat
    }

    /// The fragments still to be sent, if a message is in progress.
    pub closed spec fn pending(&self) -> Option<PendingView<A>> {
        match self.opt_pending_dgrams {
            Some(p) => Some(PendingView { address: p.address, dgrams: frag_views(p.dgrams@) }),
            None => None,
        }
    }

    pub closed spec fn wf(&self) -> bool {
        MIN_DGRAM_LEN <= self.max_dgram_len <= MAX_DGRAM_LEN
    }

    /// A sender for datagrams of at most `max_dgram_len` bytes.
    pub fn new(max_dgram_len: usize) -> (r: Result<Self, SendError>)
        ensures
            match r {
                Ok(s) => s.wf() && s.dgram_len() == max_dgram_len && s.pending() is None,
                Err(e) => e == SendError::DatagramLenOutOfRange && (max_dgram_len < MIN_DGRAM_LEN
                    || max_dgram_len > MAX_DGRAM_LEN),
            },
    {
        if max_dgram_len < MIN_DGRAM_LEN || max_dgram_len > MAX_DGRAM_LEN {
            return Err(SendError::DatagramLenOutOfRange);
        }
        Ok(FragMsgSender { max_dgram_len, opt_pending_dgrams: None })
    }

    /// Whether a message is still being sent.
    pub fn is_busy(&self) -> (r: bool)
        ensures
            r == self.pending() is Some,
    {
        self.opt_pending_dgrams.is_some()
    }

    /// Split `msg` with `nonce` and keep its fragments, in ascending share
    /// index order, to be sent to `address`.
    pub fn load(&mut self, msg: &[u8], address: A, nonce: &[u8; NONCE_LEN]) -> (r: Result<(), SendError>)
        requires
            old(self).wf(),
            old(self).pending() is None,
        ensures
            final(self).wf(),
            final(self).dgram_len() == old(self).dgram_len(),
            r is Err <==> msg@.len() > max_message_spec(old(self).dgram_len() as int),
            r is Err ==> r == Err::<(), SendError>(SendError::InputTooLarge) && final(self).pending() is None,
            r is Ok ==> final(self).pending() == Some(PendingView {
                address,
                dgrams: split_message_spec(msg@, nonce@, old(self).dgram_len() as int),
            }),
    {
        let frags = match split_message(msg, nonce, self.max_dgram_len) {
            Ok(frags) => frags,
            Err(()) => return Err(SendError::InputTooLarge),
        };
        let ghost expected = frag_views(frags@);
        let mut dgrams: VecDeque<Vec<u8>> = VecDeque::new();
        let mut frags = frags;
        let mut rest: Vec<Vec<u8>> = Vec::new();
        // Move the fragments over, last first, to keep them in order.
        while frags.len() > 0
            invariant
                frag_views(frags@) + frag_views(rest@).reverse() == expected,
            decreases frags@.len(),
        {
            let ghost before = frags@;
            let f = frags.pop().unwrap();
            rest.push(f);
            assert(frag_views(frags@) + frag_views(rest@).reverse() =~= expected) by {
                assert(frag_views(before) =~= frag_views(frags@).push(f@));
                assert(frag_views(rest@).reverse() =~= seq![f@] + frag_views(rest@).drop_last().reverse());
            }
        }
        assert(frag_views(frags@) =~= Seq::<Seq<u8>>::empty());
        assert(frag_views(dgrams@) =~= Seq::<Seq<u8>>::empty());
        while rest.len() > 0
            invariant
                frag_views(dgrams@) + frag_views(rest@).reverse() == expected,
            decreases rest@.len(),
        {
            let ghost before = rest@;
            let f = rest.pop().unwrap();
            dgrams.push_back(f);
            assert(frag_views(dgrams@) + frag_views(rest@).reverse() =~= expected) by {
                assert(frag_views(before).reverse() =~= seq![f@] + frag_views(rest@).reverse());
            }
        }
        assert(frag_views(dgrams@) =~= expected);
        self.opt_pending_dgrams = Some(PendingDgrams { address, dgrams });
        Ok(())
    }
}

impl<A: Copy> FragMsgSender<A> {
    /// Hand out the next fragment of the message in progress, with its
    /// address. When none is left the message is done and the sender is free.
    pub fn next_dgram(&mut self) -> (r: Option<(Vec<u8>, A)>)
        requires
            old(self).wf(),
        ensures
            final(self).wf(),
            final(self).dgram_len() == old(self).dgram_len(),
            match old(self).pending() {
                None => r is None && final(self).pending() is None,
                Some(p) => if p.dgrams.len() == 0 {
                    r is None && final(self).pending() is None
                } else {
                    r matches Some(x) && x.0@ == p.dgrams[0] && x.1 == p.address && final(self).pending()
                        == Some(PendingView { address: p.address, dgrams: p.dgrams.drop_first() })
                },
            },
    {
        let mut pending = match self.opt_pending_dgrams.take() {
            Some(p) => p,
            None => return None,
        };
        match pending.dgrams.pop_front() {
            Some(d) => {
                let address = pending.address;
                assert(frag_views(pending.dgrams@) =~= frag_views(old(self).opt_pending_dgrams->0.dgrams@).drop_first());
                self.opt_pending_dgrams = Some(pending);
                Some((d, address))
            },
            None => None,
        }
    }

    /// Put back a fragment that downstream was not ready for: it goes out
    /// first next time.
    pub fn unsend(&mut self, dgram: Vec<u8>)
        requires
            old(self).wf(),
            old(self).pending() is Some,
        ensures
            final(self).wf(),
            final(self).dgram_len() == old(self).dgram_len(),
            final(self).pending() == Some(PendingView {
                address: old(self).pending()->0.address,
                dgrams: seq![dgram@] + old(self).pending()->0.dgrams,
            }),
    {
        match self.opt_pending_dgrams.take() {
            Some(mut p) => {
                let ghost before = p.dgrams@;
                p.dgrams.push_front(dgram);
                assert(frag_views(p.dgrams@) =~= seq![dgram@] + frag_views(before));
                self.opt_pending_dgrams = Some(p);
            },
            None => {},
        }
    }
}

} // verus!
