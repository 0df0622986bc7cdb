//! Durable evidence of signals, and the framing of requests and replies.

use crate::kv::KvHandle;
use crate::mesh::{MeshHandle, MIN_CHECK_MS, QUORUM_PREFIX};
use crate::scan::{
    lemma_listing_count, lemma_pick, lemma_picked_all, lemma_skip, lists_live_ts, picked, reading_at,
    reading_keys, Reading,
};
use crate::signals::last_delivery;
use crate::store::Table;
use crate::text::{has_prefix, join3};
use vstd::bytes::{spec_u64_from_le_bytes, spec_u64_to_le_bytes};
use vstd::prelude::*;

verus! {

// ── Leading numbers ──────────────────────────────────────────────────────────

/// The number in the first eight bytes, `None` if there are fewer.
pub open spec fn leading_u64(v: Seq<u8>) -> Option<u64> {
    if v.len() < 8 {
        None
    } else {
        Some(spec_u64_from_le_bytes(v.take(8)))
    }
}

/// `n` in little-endian order, followed by `rest`.
pub open spec fn with_leading_u64(n: u64, rest: Seq<u8>) -> Seq<u8> {
    spec_u64_to_le_bytes(n) + rest
}

/// Reads the number in the first eight bytes.
pub fn read_leading_u64(v: &Vec<u8>) -> (r: Option<u64>)
    ensures
        r == leading_u64(v@),
{
    if v.len() < 8 {
        return None;
    }
    let mut head: Vec<u8> = Vec::new();
    let mut i: usize = 0;
    while i < 8
        invariant
            i <= 8 <= v@.len(),
            head@ == v@.take(i as int),
        decreases 8 - i,
    {
        head.push(v[i]);
        assert(v@.take(i + 1) =~= v@.take(i as int).push(v@[i as int]));
        i += 1;
    }
    Some(vstd::bytes::u64_from_le_bytes(head.as_slice()))
}

/// What follows the first eight bytes.
pub fn behind_leading_u64(v: &Vec<u8>) -> (r: Vec<u8>)
    requires
        v@.len() >= 8,
    ensures
        r@ == v@.skip(8),
{
    let mut out: Vec<u8> = Vec::new();
    let mut i: usize = 8;
    while i < v.len()
        invariant
            8 <= i <= v@.len(),
            out@ == v@.subrange(8, i as int),
        decreases v.len() - i,
    {
        out.push(v[i]);
        assert(v@.subrange(8, i + 1) =~= v@.subrange(8, i as int).push(v@[i as int]));
        i += 1;
    }
    assert(out@ =~= v@.skip(8));
    out
}

/// Puts `n` in front of `rest`: the frame of a request or a reply.
pub fn frame_with_nonce(n: u64, rest: &Vec<u8>) -> (r: Vec<u8>)
    ensures
        r@ == with_leading_u64(n, rest@),
{
    let mut out = vstd::bytes::u64_to_le_bytes(n);
    let ghost head = out@;
    let mut i: usize = 0;
    assert(head + rest@.take(0) =~= head);
    while i < rest.len()
        invariant
            i <= rest.len(),
            out@ == head + rest@.take(i as int),
        decreases rest.len() - i,
    {
        out.push(rest[i]);
        assert(rest@.take(i + 1) =~= rest@.take(i as int).push(rest@[i as int]));
        assert((head + rest@.take(i as int)).push(rest@[i as int]) =~= head + rest@.take(i + 1));
        i += 1;
    }
    assert(rest@.take(i as int) =~= rest@);
    out
}

/// Whether `payload` answers the request with this nonce.
pub fn is_reply_to(payload: &Vec<u8>, nonce: u64) -> (r: bool)
    ensures
        r == (leading_u64(payload@) == Some(nonce)),
{
    match read_leading_u64(payload) {
        Some(n) => n == nonce,
        None => false,
    }
}

/// A framed reply is recognised by its nonce, by no other nonce, and gives
/// its payload back.
pub proof fn law_frame_round_trip(n: u64, rest: Seq<u8>)
    ensures
        leading_u64(with_leading_u64(n, rest)) == Some(n),
        with_leading_u64(n, rest).skip(8) == rest,
{
    vstd::bytes::lemma_auto_spec_u64_to_from_le_bytes();
    let head = spec_u64_to_le_bytes(n);
    assert(head.len() == 8);
    assert(with_leading_u64(n, rest).take(8) =~= head);
    assert(with_leading_u64(n, rest).skip(8) =~= rest);
}

// ── Evidence ─────────────────────────────────────────────────────────────────

/// `sys/quorum/{kind}/`.
pub open spec fn evidence_prefix(kind: Seq<char>) -> Seq<char> {
    QUORUM_PREFIX@ + kind + "/"@
}

/// When a piece of evidence was written, where that lies within the window.
pub open spec fn recent_evidence(window_ms: u64, now: u64) -> Reading<u64> {
    |k: Seq<char>, v: Seq<u8>, ts: u64|
        match leading_u64(v) {
            Some(at) => if now - at <= window_ms {
                Some(at)
            } else {
                None
            },
            None => None,
        }
}

/// The age of a piece of evidence that is not from the future.
pub open spec fn evidence_age(now: u64) -> Reading<u64> {
    |k: Seq<char>, v: Seq<u8>, ts: u64|
        match leading_u64(v) {
            Some(at) => if at <= now {
                Some((now - at) as u64)
            } else {
                None
            },
            None => None,
        }
}

impl KvHandle {
    /// How many senders of `kind` left durable evidence within the window.
    pub fn quorum_persistent(&self, kind: &str, window_ms: u64, now_ms: u64) -> (n: usize)
        ensures
            reading_keys(self.table(), evidence_prefix(kind@), recent_evidence(window_ms, now_ms)).finite(),
            n == reading_keys(
                self.table(),
                evidence_prefix(kind@),
                recent_evidence(window_ms, now_ms),
            ).len(),
    {
        let prefix = join3(QUORUM_PREFIX, kind, "/");
        let found = self.scan_prefix_with_ts(prefix.as_str());
        let ghost f = recent_evidence(window_ms, now_ms);
        let ghost mut src: Seq<int> = Seq::empty();
        let mut out: Vec<u64> = Vec::new();
        let mut i: usize = 0;
        while i < found.len()
            invariant
                i <= found.len(),
                f == recent_evidence(window_ms, now_ms),
                picked(found@, i as int, src, out@, f),
            decreases found.len() - i,
        {
            let ghost before = out@;
            let at = read_leading_u64(&found[i].1);
            let recent = match at {
                Some(t) => now_ms.saturating_sub(t) <= window_ms,
                None => false,
            };
            if recent {
                match at {
                    Some(t) => {
                        proof {
                            lemma_pick(found@, i as int, src, before, f, t);
                            src = src.push(i as int);
                        }
                        out.push(t);
                    },
                    None => {},
                }
            } else {
                proof {
                    lemma_skip(found@, i as int, src, before, f);
                }
            }
            i += 1;
        }
        proof {
            lemma_picked_all(found@, self.table(), prefix@, src, out@, f);
            lemma_listing_count(out@, self.table(), prefix@, f);
        }
        out.len()
    }
}

/// Whether `m` is the age of the youngest evidence of `kind`.
pub open spec fn is_youngest(m: u64, t: Table, kind: Seq<char>, now: u64) -> bool {
    &&& exists|k: Seq<char>|
        has_prefix(k, evidence_prefix(kind)) && (#[trigger] reading_at(t, k, evidence_age(now))) == Some(m)
    &&& forall|k: Seq<char>|
        has_prefix(k, evidence_prefix(kind)) && (#[trigger] reading_at(t, k, evidence_age(now))) is Some
            ==> m <= reading_at(t, k, evidence_age(now))->0
}

impl MeshHandle {
    /// How long ago the youngest durable evidence of `kind` was written.
    pub fn last_signal_persistent(&self, kind: &str, now_ms: u64) -> (r: Option<u64>)
        ensures
            r is None <==> forall|k: Seq<char>|
                has_prefix(k, evidence_prefix(kind@)) ==> (#[trigger] reading_at(
                    self.kv.table(),
                    k,
                    evidence_age(now_ms),
                )) is None,
            r matches Some(m) ==> is_youngest(m, self.kv.table(), kind@, now_ms),
    {
        let prefix = join3(QUORUM_PREFIX, kind, "/");
        let found = self.kv.scan_prefix_with_ts(prefix.as_str());
        let ghost f = evidence_age(now_ms);
        let ghost t = self.kv.table();
        let mut best: Option<u64> = None;
        let mut i: usize = 0;
        while i < found.len()
            invariant
                i <= found.len(),
                prefix@ == evidence_prefix(kind@),
                t == self.kv.table(),
                f == evidence_age(now_ms),
                lists_live_ts(found@, t, prefix@),
                best is None ==> forall|j: int|
                    0 <= j < i ==> f((#[trigger] found@[j]).0@, found@[j].1@, found@[j].2) is None,
                best matches Some(m) ==> (exists|j: int|
                    0 <= j < i && f((#[trigger] found@[j]).0@, found@[j].1@, found@[j].2) == Some(m)),
                best matches Some(m) ==> forall|j: int|
                    0 <= j < i ==> (f((#[trigger] found@[j]).0@, found@[j].1@, found@[j].2) matches Some(a)
                        ==> m <= a),
            decreases found.len() - i,
        {
            let ghost was = best;
            match read_leading_u64(&found[i].1) {
                Some(at) => {
                    if at <= now_ms {
                        let age: u64 = now_ms - at;
                        assert(f(found@[i as int].0@, found@[i as int].1@, found@[i as int].2) == Some(age));
                        match best {
                            None => {
                                best = Some(age);
                            },
                            Some(m) => {
                                if age < m {
                                    best = Some(age);
                                } else {
                                    assert(exists|j: int|
                                        0 <= j < i + 1 && f(
                                            (#[trigger] found@[j]).0@,
                                            found@[j].1@,
                                            found@[j].2,
                                        ) == Some(m));
                                }
                            },
                        }
                    }
                },
                None => {},
            }
            i += 1;
        }
        proof {
            assert forall|k: Seq<char>|
                has_prefix(k, prefix@) && (#[trigger] reading_at(t, k, f)) is Some implies exists|j: int|
                0 <= j < found@.len() && f((#[trigger] found@[j]).0@, found@[j].1@, found@[j].2)
                    == reading_at(t, k, f) by {
                let j = choose|j: int| 0 <= j < found@.len() && #[trigger] found@[j].0@ == k;
                assert(f(found@[j].0@, found@[j].1@, found@[j].2) == reading_at(t, k, f));
            }
            if best is Some {
                let j = choose|j: int|
                    0 <= j < found@.len() && f((#[trigger] found@[j]).0@, found@[j].1@, found@[j].2) == best;
                assert(reading_at(t, found@[j].0@, f) == best);
            }
        }
        best
    }

    /// Whether `kind` is stale at `now_ms`: its last delivery here lies
    /// further back than the threshold, or there was none and no durable
    /// evidence lies within it.
    pub fn is_stale_signal(&self, kind: &str, threshold_ms: u64, now_ms: u64) -> (r: bool)
        ensures
            r == (match last_delivery(self.log.log(), kind@) {
                Some(at) => now_ms - at > threshold_ms,
                None => reading_keys(
                    self.kv.table(),
                    evidence_prefix(kind@),
                    recent_evidence(threshold_ms, now_ms),
                ).len() == 0,
            }),
            r == stale(self.log.log(), self.kv.table(), kind@, threshold_ms, now_ms),
    {
        match self.last_signal(kind) {
            Some(at) => now_ms.saturating_sub(at) > threshold_ms,
            None => self.kv.quorum_persistent(kind, threshold_ms, now_ms) == 0,
        }
    }
}

/// How often a watch with this threshold looks: four times as often, but not
/// more than ten times a second.
pub fn check_interval_ms(threshold_ms: u64) -> (ms: u64)
    ensures
        ms == (if threshold_ms / 4 > MIN_CHECK_MS {
            threshold_ms / 4
        } else {
            MIN_CHECK_MS
        }),
        ms >= 100,
        4 * ms > threshold_ms || threshold_ms - 4 * ms < 4,
        ms > 100 ==> 4 * ms <= threshold_ms,
{
    let q: u64 = threshold_ms / 4;
    if q > MIN_CHECK_MS {
        q
    } else {
        MIN_CHECK_MS
    }
}

/// Whether `kind` is stale, given the deliveries `v` and the table `t`.
pub open spec fn stale(
    v: Seq<crate::signals::DeliveryView>,
    t: Table,
    kind: Seq<char>,
    threshold_ms: u64,
    now_ms: u64,
) -> bool {
    match last_delivery(v, kind) {
        Some(at) => now_ms - at > threshold_ms,
        None => reading_keys(t, evidence_prefix(kind), recent_evidence(threshold_ms, now_ms)).len() == 0,
    }
}

/// Once a kind was delivered, it is stale exactly if its last delivery lies further
/// back than the threshold.
pub proof fn law_last_delivery_decides_staleness(
    v: Seq<crate::signals::DeliveryView>,
    t: Table,
    kind: Seq<char>,
    threshold_ms: u64,
    now_ms: u64,
    i: int,
)
    requires
        0 <= i < v.len(),
        v[i].0 == kind,
        forall|j: int| i < j < v.len() ==> (#[trigger] v[j]).0 != kind,
    ensures
        stale(v, t, kind, threshold_ms, now_ms) <==> v[i].2 + threshold_ms < now_ms,
    decreases v.len(),
{
    if i < v.len() - 1 {
        assert(v[v.len() - 1].0 != kind);
        law_last_delivery_decides_staleness(v.drop_last(), t, kind, threshold_ms, now_ms, i);
    }
}

/// The durable evidence at `k` says that the kind was delivered, no longer ago than
/// the window.
pub open spec fn evidence_within(t: Table, k: Seq<char>, window_ms: u64, now_ms: u64) -> bool {
    crate::store::live(t, k) is Some && crate::store::live(t, k)->0.len() >= 8 && spec_u64_from_le_bytes(
        crate::store::live(t, k)->0.take(8),
    ) + window_ms >= now_ms
}

/// Durable evidence counts once for each entry under the kind's prefix whose time
/// lies within the window.
pub proof fn law_evidence_counts_within_the_window(t: Table, kind: Seq<char>, window_ms: u64, now_ms: u64, k: Seq<char>)
    ensures
        reading_keys(t, evidence_prefix(kind), recent_evidence(window_ms, now_ms)).contains(k) <==> has_prefix(
            k,
            "sys/quorum/"@ + kind + "/"@,
        ) && evidence_within(t, k, window_ms, now_ms),
{
}

/// A kind that was never delivered here is stale exactly if no durable evidence of it
/// lies within the threshold.
pub proof fn law_evidence_decides_where_nothing_was_delivered(
    v: Seq<crate::signals::DeliveryView>,
    t: Table,
    kind: Seq<char>,
    threshold_ms: u64,
    now_ms: u64,
)
    requires
        forall|i: int| 0 <= i < v.len() ==> (#[trigger] v[i]).0 != kind,
        t.dom().finite(),
    ensures
        stale(v, t, kind, threshold_ms, now_ms) <==> forall|k: Seq<char>|
            has_prefix(k, "sys/quorum/"@ + kind + "/"@) ==> !#[trigger] evidence_within(
                t,
                k,
                threshold_ms,
                now_ms,
            ),
    decreases v.len(),
{
    if v.len() > 0 {
        assert(v[v.len() - 1].0 != kind);
        law_evidence_decides_where_nothing_was_delivered(v.drop_last(), t, kind, threshold_ms, now_ms);
    } else {
        let keys = reading_keys(t, evidence_prefix(kind), recent_evidence(threshold_ms, now_ms));
        assert forall|k: Seq<char>| keys.contains(k) implies t.dom().contains(k) by {}
        assert(keys.subset_of(t.dom()));
        vstd::set_lib::lemma_len_subset(keys, t.dom());
        assert forall|k: Seq<char>|
            has_prefix(k, "sys/quorum/"@ + kind + "/"@) && #[trigger] evidence_within(
                t,
                k,
                threshold_ms,
                now_ms,
            ) implies keys.contains(k) by {
            law_evidence_counts_within_the_window(t, kind, threshold_ms, now_ms, k);
        }
        if keys.len() > 0 {
            let k = keys.choose();
            assert(keys.contains(k));
            law_evidence_counts_within_the_window(t, kind, threshold_ms, now_ms, k);
        } else {
            assert(keys =~= Set::empty());
        }
    }
}

/// The age that is told of the last signal is that of some durable evidence, and no
/// other evidence of the kind that lies in the past is younger.
pub proof fn law_youngest_evidence_is_told(t: Table, kind: Seq<char>, now: u64, m: u64)
    requires
        is_youngest(m, t, kind, now),
    ensures
        forall|k: Seq<char>|
            has_prefix(k, "sys/quorum/"@ + kind + "/"@) && #[trigger] crate::store::live(t, k) is Some
                && crate::store::live(t, k)->0.len() >= 8 && spec_u64_from_le_bytes(
                crate::store::live(t, k)->0.take(8),
            ) <= now ==> spec_u64_from_le_bytes(crate::store::live(t, k)->0.take(8)) + m <= now,
        exists|k: Seq<char>|
            has_prefix(k, "sys/quorum/"@ + kind + "/"@) && #[trigger] crate::store::live(t, k) is Some
                && crate::store::live(t, k)->0.len() >= 8 && spec_u64_from_le_bytes(
                crate::store::live(t, k)->0.take(8),
            ) + m == now,
{
    let f = evidence_age(now);
    let k = choose|k: Seq<char>|
        has_prefix(k, evidence_prefix(kind)) && (#[trigger] reading_at(t, k, f)) == Some(m);
    assert(crate::store::live(t, k) is Some);
    assert forall|k: Seq<char>|
        has_prefix(k, "sys/quorum/"@ + kind + "/"@) && #[trigger] crate::store::live(t, k) is Some
            && crate::store::live(t, k)->0.len() >= 8 && spec_u64_from_le_bytes(
            crate::store::live(t, k)->0.take(8),
        ) <= now implies spec_u64_from_le_bytes(crate::store::live(t, k)->0.take(8)) + m <= now by {
        assert(reading_at(t, k, f) is Some);
    }
}

} // verus!
