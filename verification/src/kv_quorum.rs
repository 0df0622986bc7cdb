//! Writes that wait until enough peers have confirmed them.

use crate::kv::{hlc_next, outcome_for, wrote, KvHandle};
use crate::text::{dec_string, dec_text, join3};
use crate::wire::id_hash;
use vstd::prelude::*;

verus! {

/// The senders that an acknowledgement table holds.
pub uninterp spec fn acked_senders(m: papaya::HashMap<u64, ()>) -> Set<u64>;

/// `papaya::HashMap::new`: a map without entries.
#[verifier::external_body]
fn acks_new() -> (m: papaya::HashMap<u64, ()>)
    ensures
        acked_senders(m) == Set::<u64>::empty(),
{
    papaya::HashMap::new()
}

/// `papaya::HashMapRef::insert`: `sender` has an entry afterwards; no other
/// key changes.
#[verifier::external_body]
fn acks_insert(m: &mut papaya::HashMap<u64, ()>, sender: u64)
    ensures
        acked_senders(*final(m)) == acked_senders(*old(m)).insert(sender),
{
    m.pin().insert(sender, ());
}

/// `papaya::HashMapRef::len`: the number of entries.
#[verifier::external_body]
fn acks_len(m: &papaya::HashMap<u64, ()>) -> (n: usize)
    ensures
        n == acked_senders(*m).len(),
{
    m.pin().len()
}

/// Tracks which peers have confirmed a write.
pub struct QuorumAckTracker {
    /// An update counts from this timestamp on.
    pub write_ts: u64,
    /// The hash of this node, whose own updates do not count.
    pub self_hash: u64,
    pub acked_by: papaya::HashMap<u64, ()>,
}

/// Whether an update counts as a confirmation.
pub open spec fn confirms(t: QuorumAckTracker, sender: u64, timestamp: u64) -> bool {
    sender != t.self_hash && timestamp >= t.write_ts
}

impl QuorumAckTracker {
    /// The peers that have confirmed the write.
    pub open spec fn acked(&self) -> Set<u64> {
        acked_senders(self.acked_by)
    }

    /// A tracker that nobody has confirmed to.
    pub fn new(write_ts: u64, self_hash: u64) -> (t: QuorumAckTracker)
        ensures
            t.write_ts == write_ts,
            t.self_hash == self_hash,
            t.acked() == Set::<u64>::empty(),
    {
        QuorumAckTracker { write_ts, self_hash, acked_by: acks_new() }
    }

    /// Takes note of an update of the tracked key. Where it counts, returns
    /// how many different peers have confirmed by now.
    pub fn observe(&mut self, sender: u64, timestamp: u64) -> (n: Option<usize>)
        ensures
            final(self).write_ts == old(self).write_ts,
            final(self).self_hash == old(self).self_hash,
            n is Some <==> confirms(*old(self), sender, timestamp),
            final(self).acked() == (if confirms(*old(self), sender, timestamp) {
                old(self).acked().insert(sender)
            } else {
                old(self).acked()
            }),
            n matches Some(k) ==> k == final(self).acked().len(),
            sender == old(self).self_hash || timestamp < old(self).write_ts ==> n is None && final(self).acked() == old(
                self,
            ).acked(),
            sender != old(self).self_hash && timestamp >= old(self).write_ts ==> n is Some && final(self).acked() == old(
                self,
            ).acked().insert(sender),
    {
        if sender != self.self_hash && timestamp >= self.write_ts {
            acks_insert(&mut self.acked_by, sender);
            Some(acks_len(&self.acked_by))
        } else {
            None
        }
    }

    /// How many different peers have confirmed.
    pub fn acks(&self) -> (n: usize)
        ensures
            n == self.acked().len(),
    {
        acks_len(&self.acked_by)
    }

    /// Whether enough peers have confirmed, and how many.
    pub fn reached(&self, min_acks: usize) -> (r: Option<usize>)
        ensures
            r is Some <==> self.acked().len() >= min_acks,
            r matches Some(n) ==> n == self.acked().len(),
    {
        let n: usize = acks_len(&self.acked_by);
        if n >= min_acks {
            Some(n)
        } else {
            None
        }
    }

    /// What a write that waited reports: how many peers confirmed it, or that
    /// they were too few in time.
    pub fn outcome(&self, timed_out: bool) -> (r: Result<usize, QuorumError>)
        ensures
            !timed_out ==> r is Ok && r->Ok_0 == self.acked().len(),
            timed_out ==> r is Err && r->Err_0->acks_received == self.acked().len(),
    {
        let n: usize = acks_len(&self.acked_by);
        if timed_out {
            Err(QuorumError::Timeout { acks_received: n })
        } else {
            Ok(n)
        }
    }
}

/// Why a write was not confirmed.
#[derive(Debug, Clone, Copy, PartialEq, Eq, Structural)]
pub enum QuorumError {
    /// Fewer peers than asked for confirmed in time.
    Timeout {
        /// How many did.
        acks_received: usize,
    },
}

impl QuorumError {
    /// The error in words.
    pub fn message(&self) -> (s: String)
        ensures
            s@ == "set_with_min_acks timed out ("@ + dec_text(self->acks_received as nat)
                + " peer(s) acknowledged)"@,
    {
        match self {
            QuorumError::Timeout { acks_received } => join3(
                "set_with_min_acks timed out (",
                dec_string(*acks_received as u64).as_str(),
                " peer(s) acknowledged)",
            ),
        }
    }
}

impl KvHandle {
    /// Writes `value` and, where confirmations are asked for, returns the
    /// tracker that waits for them. Nothing is taken back where they do not
    /// come.
    pub fn set_with_min_acks(&mut self, key: &str, value: Vec<u8>, min_acks: usize, now_ms: u64) -> (t: Option<
        QuorumAckTracker,
    >)
        requires
            old(self).wf(),
            old(self).clock < u64::MAX,
            hlc_next(old(self).clock, now_ms) < u64::MAX,
        ensures
            min_acks == 0 ==> t is None && wrote(
                *old(self),
                *final(self),
                key@,
                Some(value@),
                now_ms,
                outcome_for(*old(self), key@),
            ),
            min_acks > 0 ==> t is Some && t->0.acked() == Set::<u64>::empty() && t->0.write_ts == hlc_next(
                old(self).clock,
                now_ms,
            ) && t->0.self_hash == id_hash(old(self).node_id@) && wrote(
                (KvHandle { clock: hlc_next(old(self).clock, now_ms) as u64, ..*old(self) }),
                *final(self),
                key@,
                Some(value@),
                now_ms,
                outcome_for(*old(self), key@),
            ),
    {
        if min_acks == 0 {
            let _ = self.set(key, value, now_ms);
            return None;
        }
        let write_ts: u64 = self.tick(now_ms);
        let tracker = QuorumAckTracker::new(write_ts, self.node_id.id_hash());
        assert(*self == (KvHandle { clock: write_ts, ..*old(self) }));
        let _ = self.set(key, value, now_ms);
        Some(tracker)
    }
}

/// The update that a tracked write itself produces never counts as a
/// confirmation of it.
pub proof fn law_own_write_is_no_ack(t: QuorumAckTracker, timestamp: u64)
    ensures
        !confirms(t, t.self_hash, timestamp),
{
}

/// An update confirms a write exactly if it comes from another node and is not older
/// than the write.
pub proof fn law_confirmations_are_of_others_and_not_older(t: QuorumAckTracker, sender: u64, timestamp: u64)
    ensures
        sender != t.self_hash && timestamp >= t.write_ts ==> confirms(t, sender, timestamp),
        timestamp < t.write_ts ==> !confirms(t, sender, timestamp),
        sender == t.self_hash ==> !confirms(t, sender, timestamp),
{
}

} // verus!
