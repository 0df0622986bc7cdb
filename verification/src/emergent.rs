//! Detectors of emergent pathologies. Each reads the table that this node
//! holds and nothing else; none of them changes anything.

use crate::capability::{cap_key_parts, fresh, is_fresh, parse_cap_key, ReqEntry};
use crate::capcodec::req_in;
use crate::groups::{group_members_of, lists_members};
use crate::kv::KvHandle;
use crate::load::{is_opaque_mark, opaque_mark, LOAD_PREFIX};
use crate::node_id::NodeId;
use crate::pairs::{changes, lemma_push_new, set_transitions, Pair, PairSet};
use crate::resolve::satisfied;
use crate::scan::{
    lemma_pick, lemma_pick_at, lemma_picked_all, lemma_read_all, lemma_read_step, lemma_skip,
    lists_live_ts, lists_readings, picked, read_so_far, reading_at, reading_set, readings_by_key, Reading,
};
use crate::store::{live, Table};
use crate::text::{
    contains_text, has_prefix, join3, same_text, split_once, strip_prefix, text_before, text_lt, views,
};
use vstd::prelude::*;

verus! {

/// Rounds that a condition must hold before it counts as confirmed.
pub const CONFIRM_TICKS: u32 = 2;

/// A peer heard longer ago than this, in milliseconds, does not count as
/// heard.
pub const HEARD_WINDOW_MS: u64 = 30_000;

/// A load mark older than this, in milliseconds, does not count.
pub const OPAQUE_MAX_AGE_MS: u64 = 30_000;

/// The window, in milliseconds, over which membership changes are counted.
pub const FLAP_WINDOW_MS: u64 = 60_000;

/// Changes within the window that make a member flap: two full cycles of
/// joining and leaving.
pub const FLAP_THRESHOLD: usize = 4;

/// Prefix of the intents of membership governors.
pub const MEMBERSHIP_PREFIX: &'static str = "sys/membership/";

/// An intent older than this, in milliseconds, has evaporated.
pub const MEMBERSHIP_INTENT_TTL_MS: u64 = 60_000;

// ── Intents ──────────────────────────────────────────────────────────────────

/// How many members a governor wants a group to have.
#[derive(Debug, Clone, PartialEq, Eq)]
pub struct MembershipIntent {
    pub group: String,
    pub min: u64,
    pub max: Option<u64>,
    pub written_at_ms: u64,
}

/// The bytes that `bincode` writes for an intent.
pub uninterp spec fn intent_bytes(group: Seq<char>, min: u64, max: Option<u64>, written_at_ms: u64) -> Seq<u8>;

/// The intent that `bincode` reads from `bytes`, `None` where it finds none.
pub uninterp spec fn intent_parts(bytes: Seq<u8>) -> Option<(Seq<char>, u64, Option<u64>, u64)>;

/// `bincode::serde::encode_to_vec` of an intent, with integers of fixed
/// width: the result is a function of the intent, and reading it gives the
/// intent back.
#[verifier::external_body]
fn encode_intent(group: &str, min: u64, max: Option<u64>, written_at_ms: u64) -> (r: Vec<u8>)
    ensures
        r@ == intent_bytes(group@, min, max, written_at_ms),
        intent_parts(r@) == Some((group@, min, max, written_at_ms)),
{
    let cfg = bincode::config::standard().with_fixed_int_encoding();
    bincode::serde::encode_to_vec((group, min, max, written_at_ms), cfg).unwrap_or_default()
}

/// `bincode::serde::decode_from_slice` of an intent, with integers of fixed
/// width: the result is a function of the bytes. Before it,
/// `bincode::serde::borrow_decode_from_slice` reads the same with borrowed
/// texts: it fails where a length goes beyond the bytes, for which an owned
/// text would be allocated first.
#[verifier::external_body]
fn decode_intent(bytes: &Vec<u8>) -> (r: Option<(String, u64, Option<u64>, u64)>)
    ensures
        r is Some <==> intent_parts(bytes@) is Some,
        r matches Some(p) ==> intent_parts(bytes@) == Some((p.0@, p.1, p.2, p.3)),
{
    let cfg = bincode::config::standard().with_fixed_int_encoding();
    bincode::serde::borrow_decode_from_slice::<(&str, u64, Option<u64>, u64), _>(bytes, cfg).ok()?;
    bincode::serde::decode_from_slice(bytes, cfg).ok().map(|(v, _)| v)
}

impl MembershipIntent {
    /// The bytes of the intent; they hold it.
    pub fn encode(&self) -> (r: Vec<u8>)
        ensures
            r@ == intent_bytes(self.group@, self.min, self.max, self.written_at_ms),
            intent_parts(r@) == Some((self.group@, self.min, self.max, self.written_at_ms)),
    {
        encode_intent(self.group.as_str(), self.min, self.max, self.written_at_ms)
    }

    /// The intent in `bytes`, if there is one.
    pub fn decode(bytes: &Vec<u8>) -> (r: Option<MembershipIntent>)
        ensures
            r is Some <==> intent_parts(bytes@) is Some,
            r matches Some(i) ==> intent_parts(bytes@) == Some(
                (i.group@, i.min, i.max, i.written_at_ms),
            ),
    {
        match decode_intent(bytes) {
            None => None,
            Some((group, min, max, written_at_ms)) => Some(
                MembershipIntent { group, min, max, written_at_ms },
            ),
        }
    }
}

// ── Governed groups ──────────────────────────────────────────────────────────

/// A governed group whose membership is outside what its governor wants.
#[derive(Debug, Clone, PartialEq, Eq)]
pub struct GroupConflict {
    pub group: String,
    pub observed: usize,
    pub min: u64,
    pub max: Option<u64>,
}

/// A governed group: what its governor wants, and what is observed.
#[derive(Debug, Clone, PartialEq, Eq)]
pub struct GroupStatus {
    pub group: String,
    pub min: u64,
    pub max: Option<u64>,
    pub observed: usize,
    pub conflict: bool,
}

/// The model of a [`GroupStatus`].
#[verifier::ext_equal]
pub struct StatusView {
    pub group: Seq<char>,
    pub min: u64,
    pub max: Option<u64>,
    pub observed: int,
    pub conflict: bool,
}

impl View for GroupStatus {
    type V = StatusView;

    open spec fn view(&self) -> StatusView {
        StatusView {
            group: self.group@,
            min: self.min,
            max: self.max,
            observed: self.observed as int,
            conflict: self.conflict,
        }
    }
}

pub open spec fn status_views(v: Seq<GroupStatus>) -> Seq<StatusView> {
    v.map_values(|s: GroupStatus| s@)
}

/// How many entries make a node a member of `group`.
pub open spec fn member_count(t: Table, group: Seq<char>) -> int {
    choose|n: int| #[trigger] has_member_count(t, group, n)
}

/// Whether `n` entries make a node a member of `group`.
pub open spec fn has_member_count(t: Table, group: Seq<char>, n: int) -> bool {
    exists|r: Seq<NodeId>| #[trigger] lists_members(r, t, group) && r.len() == n
}

proof fn lemma_member_count_unique(t: Table, group: Seq<char>, a: Seq<NodeId>, b: Seq<NodeId>)
    requires
        lists_members(a, t, group),
        lists_members(b, t, group),
    ensures
        a.len() == b.len(),
{
    let ka = choose|ks: Seq<Seq<char>>| #[trigger] crate::groups::members_by_entry(a, ks, t, group);
    let kb = choose|ks: Seq<Seq<char>>| #[trigger] crate::groups::members_by_entry(b, ks, t, group);
    assert(ka.to_set() =~= kb.to_set()) by {
        assert forall|x: Seq<char>| ka.contains(x) <==> kb.contains(x) by {
            if ka.contains(x) {
                let i = choose|i: int| 0 <= i < ka.len() && ka[i] == x;
                assert(crate::groups::member_entry(t, group, x, a[i]@));
            }
            if kb.contains(x) {
                let i = choose|i: int| 0 <= i < kb.len() && kb[i] == x;
                assert(crate::groups::member_entry(t, group, x, b[i]@));
            }
        }
    }
    ka.unique_seq_to_set();
    kb.unique_seq_to_set();
}

fn count_members(kv: &KvHandle, group: &str) -> (n: usize)
    ensures
        n == member_count(kv.table(), group@),
{
    let members = group_members_of(kv, group);
    proof {
        let t = kv.table();
        assert(has_member_count(t, group@, members@.len() as int));
        let m = member_count(t, group@);
        assert(has_member_count(t, group@, m));
        let r = choose|r: Seq<NodeId>| #[trigger] lists_members(r, t, group@) && r.len() == m;
        lemma_member_count_unique(t, group@, members@, r);
    }
    members.len()
}

/// Whether `observed` members are too few or too many.
pub open spec fn out_of_bounds(observed: int, min: u64, max: Option<u64>) -> bool {
    observed < min || (max is Some && observed > max->0)
}

/// The status that an entry under the governors' prefix gives: that of its
/// group, as long as the intent has not evaporated.
pub open spec fn status_at(t: Table, now: u64, v: Seq<u8>) -> Option<StatusView> {
    match intent_parts(v) {
        Some(p) => if now - p.3 > MEMBERSHIP_INTENT_TTL_MS {
            None
        } else {
            let observed = member_count(t, p.0);
            Some(
                StatusView {
                    group: p.0,
                    min: p.1,
                    max: p.2,
                    observed,
                    conflict: out_of_bounds(observed, p.1, p.2),
                },
            )
        },
        None => None,
    }
}

/// [`status_at`] as a reading of the table.
pub open spec fn status_reading(t: Table, now: u64) -> Reading<StatusView> {
    |k: Seq<char>, v: Seq<u8>, ts: u64| status_at(t, now, v)
}

/// [`status_at`] for the groups in conflict only.
pub open spec fn conflict_reading(t: Table, now: u64) -> Reading<StatusView> {
    |k: Seq<char>, v: Seq<u8>, ts: u64|
        match status_at(t, now, v) {
            Some(s) => if s.conflict {
                Some(s)
            } else {
                None
            },
            None => None,
        }
}

fn read_status(kv: &KvHandle, value: &Vec<u8>, now: u64) -> (r: Option<GroupStatus>)
    ensures
        r is Some <==> status_at(kv.table(), now, value@) is Some,
        r matches Some(s) ==> status_at(kv.table(), now, value@) == Some(s@),
{
    match MembershipIntent::decode(value) {
        None => None,
        Some(intent) => {
            if now.saturating_sub(intent.written_at_ms) > MEMBERSHIP_INTENT_TTL_MS {
                return None;
            }
            let observed: usize = count_members(kv, intent.group.as_str());
            let under = (observed as u64) < intent.min;
            let over = match intent.max {
                Some(m) => observed as u64 > m,
                None => false,
            };
            Some(
                GroupStatus {
                    group: intent.group,
                    min: intent.min,
                    max: intent.max,
                    observed,
                    conflict: under || over,
                },
            )
        },
    }
}

pub open spec fn conflict_views(v: Seq<GroupConflict>) -> Seq<StatusView> {
    v.map_values(
        |c: GroupConflict|
            StatusView {
                group: c.group@,
                min: c.min,
                max: c.max,
                observed: c.observed as int,
                conflict: true,
            },
    )
}

/// Every governed group whose membership is outside the bounds of a fresh
/// intent, in no particular order.
pub fn detect_governed_group_conflicts(kv: &KvHandle, now: u64) -> (r: Vec<GroupConflict>)
    ensures
        lists_readings(
            conflict_views(r@),
            kv.table(),
            MEMBERSHIP_PREFIX@,
            conflict_reading(kv.table(), now),
        ),
{
    let found = kv.scan_prefix_with_ts(MEMBERSHIP_PREFIX);
    let ghost f = conflict_reading(kv.table(), now);
    let ghost mut src: Seq<int> = Seq::empty();
    let mut out: Vec<GroupConflict> = Vec::new();
    let mut i: usize = 0;
    assert(conflict_views(out@) =~= Seq::empty());
    while i < found.len()
        invariant
            i <= found.len(),
            f == conflict_reading(kv.table(), now),
            picked(found@, i as int, src, conflict_views(out@), f),
        decreases found.len() - i,
    {
        match read_status(kv, &found[i].1, now) {
            Some(s) => {
                if s.conflict {
                    let ghost x = s@;
                    let c = GroupConflict {
                        group: s.group,
                        observed: s.observed,
                        min: s.min,
                        max: s.max,
                    };
                    proof {
                        lemma_pick(found@, i as int, src, conflict_views(out@), f, x);
                        src = src.push(i as int);
                        assert(conflict_views(out@.push(c)) =~= conflict_views(out@).push(x));
                    }
                    out.push(c);
                } else {
                    proof {
                        lemma_skip(found@, i as int, src, conflict_views(out@), f);
                    }
                }
            },
            None => {
                proof {
                    lemma_skip(found@, i as int, src, conflict_views(out@), f);
                }
            },
        }
        i += 1;
    }
    proof {
        lemma_picked_all(found@, kv.table(), MEMBERSHIP_PREFIX@, src, conflict_views(out@), f);
    }
    out
}

/// No group stands before one that precedes it.
pub open spec fn sorted_by_group(v: Seq<StatusView>) -> bool {
    forall|i: int, j: int|
        0 <= i < j < v.len() ==> !text_lt((#[trigger] v[j]).group, (#[trigger] v[i]).group)
}

proof fn lemma_insert_by_group(s: Seq<StatusView>, x: StatusView, at: int)
    requires
        sorted_by_group(s),
        0 <= at <= s.len(),
        forall|k: int| 0 <= k < at ==> !text_lt(x.group, (#[trigger] s[k]).group),
        at < s.len() ==> text_lt(x.group, s[at].group),
    ensures
        sorted_by_group(s.insert(at, x)),
{
    let t = s.insert(at, x);
    assert forall|k: int| at <= k < s.len() implies !text_lt((#[trigger] s[k]).group, x.group) by {
        if text_lt(s[k].group, x.group) {
            crate::text::lemma_lt_transitive(s[k].group, x.group, s[at].group);
            if k == at {
                crate::text::lemma_lt_irreflexive(s[k].group);
            }
        }
    }
    assert forall|i: int, j: int| 0 <= i < j < t.len() implies !text_lt(
        (#[trigger] t[j]).group,
        (#[trigger] t[i]).group,
    ) by {
        let a = if i < at {
            i
        } else {
            i - 1
        };
        let b = if j < at {
            j
        } else {
            j - 1
        };
        if i == at {
            assert(t[j] == s[b]);
        } else if j == at {
            assert(t[i] == s[a]);
        } else {
            assert(t[i] == s[a] && t[j] == s[b]);
        }
    }
}

/// Every governed group with a fresh intent, ordered by group.
pub fn governed_group_statuses(kv: &KvHandle, now: u64) -> (r: Vec<GroupStatus>)
    ensures
        lists_readings(status_views(r@), kv.table(), MEMBERSHIP_PREFIX@, status_reading(kv.table(), now)),
        sorted_by_group(status_views(r@)),
{
    let found = kv.scan_prefix_with_ts(MEMBERSHIP_PREFIX);
    let ghost f = status_reading(kv.table(), now);
    let ghost mut src: Seq<int> = Seq::empty();
    let mut out: Vec<GroupStatus> = Vec::new();
    let mut i: usize = 0;
    assert(status_views(out@) =~= Seq::empty());
    while i < found.len()
        invariant
            i <= found.len(),
            f == status_reading(kv.table(), now),
            picked(found@, i as int, src, status_views(out@), f),
            sorted_by_group(status_views(out@)),
        decreases found.len() - i,
    {
        match read_status(kv, &found[i].1, now) {
            Some(s) => {
                let ghost v = status_views(out@);
                let mut at: usize = 0;
                while at < out.len() && !text_before(s.group.as_str(), out[at].group.as_str())
                    invariant
                        at <= out.len(),
                        v == status_views(out@),
                        forall|k: int| 0 <= k < at ==> !text_lt(s.group@, (#[trigger] v[k]).group),
                    decreases out.len() - at,
                {
                    at += 1;
                }
                proof {
                    lemma_insert_by_group(v, s@, at as int);
                    lemma_pick_at(found@, i as int, src, v, f, s@, at as int);
                    src = src.insert(at as int, i as int);
                }
                let ghost x = s@;
                out.insert(at, s);
                assert(status_views(out@) =~= v.insert(at as int, x));
            },
            None => {
                proof {
                    lemma_skip(found@, i as int, src, status_views(out@), f);
                }
            },
        }
        i += 1;
    }
    proof {
        lemma_picked_all(found@, kv.table(), MEMBERSHIP_PREFIX@, src, status_views(out@), f);
    }
    out
}

// ── Hysteresis ───────────────────────────────────────────────────────────────

/// For how many rounds in a row each key has been reported.
#[derive(Debug)]
pub struct Streaks {
    pub entries: Vec<(String, u32)>,
}

/// The streak of `k` in `e`.
pub open spec fn streak_of(e: Seq<(String, u32)>, k: Seq<char>) -> Option<u32>
    decreases e.len(),
{
    if e.len() == 0 {
        None
    } else if e.last().0@ == k {
        Some(e.last().1)
    } else {
        streak_of(e.drop_last(), k)
    }
}

impl Streaks {
    /// The streak of `k`.
    pub open spec fn of(&self, k: Seq<char>) -> Option<u32> {
        streak_of(self.entries@, k)
    }

    /// The keys with a streak of at least `n` rounds.
    pub open spec fn at_least(&self, n: u32) -> Set<Seq<char>> {
        Set::new(|k: Seq<char>| self.of(k) is Some && self.of(k)->0 >= n)
    }

    /// No key has been reported.
    pub fn new() -> (s: Streaks)
        ensures
            forall|k: Seq<char>| s.of(k) is None,
    {
        Streaks { entries: Vec::new() }
    }

    /// Whether no key has a streak.
    pub fn is_empty(&self) -> (r: bool)
        ensures
            r == forall|k: Seq<char>| (#[trigger] self.of(k)) is None,
    {
        proof {
            if self.entries@.len() > 0 {
                let k = self.entries@.last().0@;
                assert(self.of(k) is Some);
            }
        }
        self.entries.len() == 0
    }

    fn get(&self, k: &str) -> (r: Option<u32>)
        ensures
            r == self.of(k@),
    {
        let ghost e = self.entries@;
        let mut i: usize = self.entries.len();
        assert(e.take(i as int) =~= e);
        while i > 0
            invariant
                i <= self.entries.len(),
                e == self.entries@,
                streak_of(e, k@) == streak_of(e.take(i as int), k@),
            decreases i,
        {
            assert(e.take(i as int).drop_last() =~= e.take(i - 1));
            if same_text(self.entries[i - 1].0.as_str(), k) {
                return Some(self.entries[i - 1].1);
            }
            i -= 1;
        }
        None
    }
}

/// One round more, held at the highest number.
pub open spec fn next_streak(n: Option<u32>) -> u32 {
    match n {
        None => 1,
        Some(m) => if m == u32::MAX {
            m
        } else {
            (m + 1) as u32
        },
    }
}

proof fn lemma_streak_push(e: Seq<(String, u32)>, x: (String, u32))
    ensures
        forall|k: Seq<char>|
            streak_of(e.push(x), k) == (if x.0@ == k {
                Some(x.1)
            } else {
                streak_of(e, k)
            }),
{
    assert(e.push(x).drop_last() =~= e);
}

/// Takes one round's reports: a key that is reported again has a streak one
/// longer, a key that is not reported loses its streak. Returns how many keys
/// have been reported `confirm_ticks` rounds in a row.
pub fn confirm_by_key(keys: &Vec<String>, streaks: &mut Streaks, confirm_ticks: u32) -> (n: u64)
    ensures
        forall|k: Seq<char>| #[trigger]
            final(streaks).of(k) == (if views(keys@).contains(k) {
                Some(next_streak(old(streaks).of(k)))
            } else {
                None
            }),
        final(streaks).at_least(confirm_ticks).finite(),
        n == final(streaks).at_least(confirm_ticks).len(),
{
    let mut next = Streaks { entries: Vec::new() };
    let ghost mut confirmed: Seq<Seq<char>> = Seq::empty();
    let mut n: u64 = 0;
    let mut i: usize = 0;
    while i < keys.len()
        invariant
            i <= keys.len(),
            n == confirmed.len(),
            n <= i,
            confirmed.no_duplicates(),
            forall|k: Seq<char>| #[trigger] confirmed.contains(k) <==> next.at_least(confirm_ticks).contains(k),
            forall|k: Seq<char>| #[trigger]
                next.of(k) == (if views(keys@).take(i as int).contains(k) {
                    Some(next_streak(old(streaks).of(k)))
                } else {
                    None
                }),
            *streaks == *old(streaks),
        decreases keys.len() - i,
    {
        let ghost before = next.entries@;
        let ghost old_next = next;
        let ghost was = confirmed;
        let ghost w = views(keys@);
        let ghost key = w[i as int];
        proof {
            assert forall|k: Seq<char>| #[trigger] w.take(i + 1).contains(k) <==> w.take(i as int).contains(k) || k
                == key by {
                crate::textset::lemma_take_to_set(w, i as int);
                assert(w.take(i + 1).to_set().contains(k) <==> w.take(i + 1).contains(k));
                assert(w.take(i as int).to_set().contains(k) <==> w.take(i as int).contains(k));
            }
        }
        if next.get(keys[i].as_str()).is_none() {
            let streak: u32 = match streaks.get(keys[i].as_str()) {
                None => 1,
                Some(m) => if m == u32::MAX {
                    m
                } else {
                    m + 1
                },
            };
            next.entries.push((keys[i].clone(), streak));
            proof {
                let x = next.entries@.last();
                assert(next.entries@ =~= before.push(x));
                lemma_streak_push(before, x);
                assert(!was.contains(key)) by {
                    if was.contains(key) {
                        assert(streak_of(before, key) is Some);
                    }
                }
                if streak >= confirm_ticks {
                    lemma_push_new(was, key);
                    confirmed = was.push(key);
                    assert forall|k: Seq<char>| #[trigger]
                        confirmed.contains(k) <==> next.at_least(confirm_ticks).contains(k) by {
                        assert(confirmed.to_set().contains(k) <==> confirmed.contains(k));
                        assert(was.to_set().contains(k) <==> was.contains(k));
                        assert(streak_of(before, k) == (if w.take(i as int).contains(k) {
                            Some(next_streak(old(streaks).of(k)))
                        } else {
                            None::<u32>
                        }));
                    }
                }
            }
            if streak >= confirm_ticks {
                n += 1;
            }
        }
        proof {
            assert forall|k: Seq<char>| #[trigger] next.of(k) == (if w.take(i + 1).contains(k) {
                Some(next_streak(old(streaks).of(k)))
            } else {
                None
            }) by {
                assert(old_next.of(k) == (if w.take(i as int).contains(k) {
                    Some(next_streak(old(streaks).of(k)))
                } else {
                    None::<u32>
                }));
            }
        }
        i += 1;
    }
    proof {
        assert(views(keys@).take(i as int) =~= views(keys@));
        assert(next.at_least(confirm_ticks) =~= confirmed.to_set());
        confirmed.unique_seq_to_set();
    }
    *streaks = next;
    n
}

/// [`confirm_by_key`] over conflicts, by group.
pub fn confirm_conflicts(raw: &Vec<GroupConflict>, streaks: &mut Streaks, confirm_ticks: u32) -> (n: u64)
    ensures
        forall|k: Seq<char>| #[trigger]
            final(streaks).of(k) == (if exists|i: int| 0 <= i < raw@.len() && (#[trigger] raw@[i]).group@ == k {
                Some(next_streak(old(streaks).of(k)))
            } else {
                None
            }),
        final(streaks).at_least(confirm_ticks).finite(),
        n == final(streaks).at_least(confirm_ticks).len(),
{
    let mut keys: Vec<String> = Vec::new();
    let mut i: usize = 0;
    while i < raw.len()
        invariant
            i <= raw.len(),
            keys@.len() == i,
            forall|k: int| 0 <= k < i ==> (#[trigger] keys@[k])@ == raw@[k].group@,
        decreases raw.len() - i,
    {
        keys.push(raw[i].group.clone());
        i += 1;
    }
    proof {
        assert forall|k: Seq<char>| views(keys@).contains(k) <==> exists|i: int|
            0 <= i < raw@.len() && (#[trigger] raw@[i]).group@ == k by {
            if views(keys@).contains(k) {
                let j = choose|j: int| 0 <= j < views(keys@).len() && views(keys@)[j] == k;
                assert(keys@[j]@ == raw@[j].group@);
            }
            if exists|i: int| 0 <= i < raw@.len() && (#[trigger] raw@[i]).group@ == k {
                let j = choose|j: int| 0 <= j < raw@.len() && (#[trigger] raw@[j]).group@ == k;
                assert(keys@[j]@ == raw@[j].group@);
                assert(views(keys@)[j] == k);
            }
        }
    }
    confirm_by_key(&keys, streaks, confirm_ticks)
}

/// A key that has just appeared is not confirmed where confirmation takes two
/// rounds or more.
pub proof fn law_transient_not_confirmed(before: Option<u32>, confirm_ticks: u32)
    requires
        before is None,
        confirm_ticks >= 2,
    ensures
        next_streak(before) < confirm_ticks,
{
}

// ── Coverage gaps ────────────────────────────────────────────────────────────

/// The capability that an entry under `req/` needs and nobody provides.
pub open spec fn gap_at(t: Table, now: u64, k: Seq<char>, v: Seq<u8>, ts: u64) -> Option<Seq<char>> {
    match (cap_key_parts("req/"@, k), req_in(v)) {
        (Some(key), Some(req)) => if fresh(req.1, ts, now) && !satisfied(t, req.0, now) {
            Some(key.1 + "/"@ + key.2)
        } else {
            None
        },
        _ => None,
    }
}

/// [`gap_at`] as a reading of the table.
pub open spec fn gap_reading(t: Table, now: u64) -> Reading<Seq<char>> {
    |k: Seq<char>, v: Seq<u8>, ts: u64| gap_at(t, now, k, v, ts)
}

fn read_gap(kv: &KvHandle, key: &String, value: &Vec<u8>, ts: u64, now: u64) -> (r: Option<String>)
    ensures
        r is Some <==> gap_at(kv.table(), now, key@, value@, ts) is Some,
        r matches Some(s) ==> gap_at(kv.table(), now, key@, value@, ts) == Some(s@),
{
    let (_node, ns, name) = match parse_cap_key("req/", key.as_str()) {
        Some(p) => p,
        None => {
            return None;
        },
    };
    let req = match ReqEntry::decode(value) {
        Some(e) => e,
        None => {
            return None;
        },
    };
    if !is_fresh(req.refresh_interval_ms, ts, now) || kv.is_satisfied(&req.filter, now) {
        return None;
    }
    Some(join3(ns.as_str(), "/", name.as_str()))
}

/// The capabilities that a fresh requirement names and nobody provides, each
/// once, in no particular order.
pub fn detect_coverage_gaps(kv: &KvHandle, now: u64) -> (r: Vec<String>)
    ensures
        views(r@).no_duplicates(),
        views(r@).to_set() == reading_set(kv.table(), "req/"@, gap_reading(kv.table(), now)),
{
    let found = kv.scan_prefix_with_ts("req/");
    let ghost f = gap_reading(kv.table(), now);
    let mut out: Vec<String> = Vec::new();
    proof {
        lemma_read_all(found@, kv.table(), "req/"@, f);
        assert(views(out@) =~= Seq::empty());
        assert(views(out@).to_set() =~= Set::empty());
    }
    let mut i: usize = 0;
    while i < found.len()
        invariant
            i <= found.len(),
            f == gap_reading(kv.table(), now),
            views(out@).no_duplicates(),
            views(out@).to_set() == read_so_far(found@, i as int, f),
        decreases found.len() - i,
    {
        proof {
            lemma_read_step(found@, i as int, f);
        }
        match read_gap(kv, &found[i].0, &found[i].1, found[i].2, now) {
            Some(s) => {
                let ghost before = views(out@);
                if !contains_text(&out, s.as_str()) {
                    proof {
                        lemma_push_new(before, s@);
                        assert(views(out@.push(s)) =~= before.push(s@));
                    }
                    out.push(s);
                } else {
                    assert(before.to_set().insert(s@) =~= before.to_set());
                }
            },
            None => {},
        }
        i += 1;
    }
    out
}

// ── Membership ───────────────────────────────────────────────────────────────

/// Which value makes an entry count.
enum PairRule {
    /// Any value that is not empty.
    NonEmpty,
    /// A fresh mark of a shedding node.
    Opaque { now: u64, max_age_ms: u64 },
}

spec fn rule_admits(rule: PairRule, v: Seq<u8>) -> bool {
    match rule {
        PairRule::NonEmpty => v.len() > 0,
        PairRule::Opaque { now, max_age_ms } => opaque_mark(v, now, max_age_ms),
    }
}

/// The key `{prefix}{a}/{b}` of a pair.
pub open spec fn pair_key(prefix: Seq<char>, p: Pair) -> Seq<char> {
    prefix + (p.0 + seq!['/'] + p.1)
}

spec fn pairs_by_rule(t: Table, prefix: Seq<char>, rule: PairRule) -> Set<Pair> {
    Set::new(
        |p: Pair|
            !p.0.contains('/') && live(t, pair_key(prefix, p)) is Some && rule_admits(
                rule,
                live(t, pair_key(prefix, p))->0,
            ),
    )
}

spec fn pair_at(prefix: Seq<char>, rule: PairRule, k: Seq<char>, v: Seq<u8>) -> Option<Pair> {
    if exists|p: Pair| k == #[trigger] pair_key(prefix, p) && !p.0.contains('/') && rule_admits(rule, v) {
        Some(choose|p: Pair| k == #[trigger] pair_key(prefix, p) && !p.0.contains('/') && rule_admits(rule, v))
    } else {
        None
    }
}

spec fn pair_reading(prefix: Seq<char>, rule: PairRule) -> Reading<Pair> {
    |k: Seq<char>, v: Seq<u8>, ts: u64| pair_at(prefix, rule, k, v)
}

proof fn lemma_pair_key_unique(prefix: Seq<char>, p: Pair, q: Pair)
    requires
        pair_key(prefix, p) == pair_key(prefix, q),
        !p.0.contains('/'),
        !q.0.contains('/'),
    ensures
        p == q,
{
    let k = pair_key(prefix, p);
    assert(p.0 + seq!['/'] + p.1 =~= k.skip(prefix.len() as int));
    assert(q.0 + seq!['/'] + q.1 =~= k.skip(prefix.len() as int));
    crate::capability::lemma_first_split_unique(p.0, p.1, q.0, q.1, '/');
}

proof fn lemma_pairs_by_rule(t: Table, prefix: Seq<char>, rule: PairRule)
    ensures
        reading_set(t, prefix, pair_reading(prefix, rule)) == pairs_by_rule(t, prefix, rule),
{
    let f = pair_reading(prefix, rule);
    let a = reading_set(t, prefix, f);
    let b = pairs_by_rule(t, prefix, rule);
    assert forall|p: Pair| a.contains(p) <==> b.contains(p) by {
        if a.contains(p) {
            let k = choose|k: Seq<char>| has_prefix(k, prefix) && (#[trigger] reading_at(t, k, f)) == Some(p);
            assert(k == pair_key(prefix, p));
        }
        if b.contains(p) {
            let k = pair_key(prefix, p);
            let v = live(t, k)->0;
            assert(k.take(prefix.len() as int) =~= prefix);
            assert(has_prefix(k, prefix));
            assert(pair_at(prefix, rule, k, v) is Some);
            lemma_pair_key_unique(prefix, p, pair_at(prefix, rule, k, v)->0);
            assert(reading_at(t, k, f) == Some(p));
        }
    }
    assert(a =~= b);
}

fn scan_pairs(kv: &KvHandle, prefix: &str, rule: PairRule) -> (out: PairSet)
    ensures
        out.wf(),
        out@ == pairs_by_rule(kv.table(), prefix@, rule),
{
    let found = kv.scan_prefix_with_ts(prefix);
    let ghost f = pair_reading(prefix@, rule);
    let mut out = PairSet::new();
    proof {
        lemma_read_all(found@, kv.table(), prefix@, f);
        lemma_pairs_by_rule(kv.table(), prefix@, rule);
    }
    let mut i: usize = 0;
    while i < found.len()
        invariant
            i <= found.len(),
            f == pair_reading(prefix@, rule),
            lists_live_ts(found@, kv.table(), prefix@),
            out.wf(),
            out@ == read_so_far(found@, i as int, f),
        decreases found.len() - i,
    {
        let ghost k = found@[i as int].0@;
        let ghost v = found@[i as int].1@;
        proof {
            lemma_read_step(found@, i as int, f);
            assert(has_prefix(k, prefix@));
        }
        let admitted = match &rule {
            PairRule::NonEmpty => found[i].1.len() > 0,
            PairRule::Opaque { now, max_age_ms } => is_opaque_mark(&found[i].1, *now, *max_age_ms),
        };
        if admitted {
            match strip_prefix(found[i].0.as_str(), prefix) {
                None => {},
                Some(tail) => match split_once(tail.as_str(), '/') {
                    None => {
                        proof {
                            if pair_at(prefix@, rule, k, v) is Some {
                                let p = pair_at(prefix@, rule, k, v)->0;
                                assert(tail@ =~= p.0 + seq!['/'] + p.1);
                                assert(tail@[p.0.len() as int] == '/');
                            }
                        }
                    },
                    Some((a, b)) => {
                        proof {
                            let p = (a@, b@);
                            assert(k =~= pair_key(prefix@, p));
                            assert(pair_at(prefix@, rule, k, v) is Some);
                            lemma_pair_key_unique(prefix@, p, pair_at(prefix@, rule, k, v)->0);
                        }
                        let _ = out.insert(a, b);
                    },
                },
            }
        }
        i += 1;
    }
    out
}

/// The memberships that the table holds: pairs of a group and a member with a
/// live entry `grp/{group}/{member}` that is not empty.
pub open spec fn memberships(t: Table) -> Set<Pair> {
    Set::new(
        |p: Pair|
            !p.0.contains('/') && live(t, pair_key("grp/"@, p)) is Some && live(
                t,
                pair_key("grp/"@, p),
            )->0.len() > 0,
    )
}

/// Group membership across all groups, as pairs of a group and a member.
pub fn membership_snapshot(kv: &KvHandle) -> (out: PairSet)
    ensures
        out.wf(),
        out@ == memberships(kv.table()),
{
    let out = scan_pairs(kv, "grp/", PairRule::NonEmpty);
    assert(pairs_by_rule(kv.table(), "grp/"@, PairRule::NonEmpty) =~= memberships(kv.table()));
    out
}

/// The memberships that began or ended between two snapshots.
pub fn flap_transitions(prev: &PairSet, curr: &PairSet) -> (changed: PairSet)
    ensures
        changed.wf(),
        changed@ == changes(prev@, curr@),
{
    set_transitions(prev, curr)
}

/// The pairs of a node and a kind that a fresh mark shows as shedding.
pub open spec fn shedding(t: Table, now: u64, max_age_ms: u64) -> Set<Pair> {
    Set::new(
        |p: Pair|
            !p.0.contains('/') && live(t, pair_key(LOAD_PREFIX@, p)) is Some && opaque_mark(
                live(t, pair_key(LOAD_PREFIX@, p))->0,
                now,
                max_age_ms,
            ),
    )
}

/// The pairs of a node and a kind that a fresh mark shows as shedding.
pub fn opacity_pairs(kv: &KvHandle, now: u64, max_age_ms: u64) -> (out: PairSet)
    ensures
        out.wf(),
        out@ == shedding(kv.table(), now, max_age_ms),
{
    let out = scan_pairs(kv, LOAD_PREFIX, PairRule::Opaque { now, max_age_ms });
    assert(pairs_by_rule(kv.table(), LOAD_PREFIX@, PairRule::Opaque { now, max_age_ms }) =~= shedding(
        kv.table(),
        now,
        max_age_ms,
    ));
    out
}

/// The conflicting ones among the first statuses are the conflicts that were
/// read from the same keys.
proof fn lemma_conflicts_among(
    r: Seq<StatusView>,
    ks: Seq<Seq<char>>,
    c: Seq<StatusView>,
    kc: Seq<Seq<char>>,
    status: spec_fn(Seq<char>) -> StatusView,
)
    requires
        ks.len() == r.len(),
        kc.len() == c.len(),
        ks.no_duplicates(),
        kc.no_duplicates(),
        forall|i: int| 0 <= i < ks.len() ==> status(#[trigger] ks[i]) == r[i],
        forall|i: int| 0 <= i < kc.len() ==> status(#[trigger] kc[i]) == c[i],
        forall|k: Seq<char>| #[trigger] kc.contains(k) <==> ks.contains(k) && status(k).conflict,
    ensures
        r.filter(|s: StatusView| s.conflict).to_multiset() == c.to_multiset(),
    decreases r.len(),
{
    broadcast use vstd::seq_lib::group_to_multiset_ensures;
    let bad = |s: StatusView| s.conflict;
    reveal(Seq::filter);
    if r.len() == 0 {
        if kc.len() > 0 {
            assert(kc.contains(kc[0]));
        }
        assert(r.filter(bad) =~= c);
    } else {
        let last = r.len() - 1;
        let k = ks[last];
        let (r1, k1) = (r.drop_last(), ks.drop_last());
        assert forall|x: Seq<char>| #[trigger] k1.contains(x) <==> ks.contains(x) && x != k by {
            if k1.contains(x) {
                let i = choose|i: int| 0 <= i < k1.len() && k1[i] == x;
                assert(ks[i] == x);
            }
            if ks.contains(x) && x != k {
                let i = choose|i: int| 0 <= i < ks.len() && ks[i] == x;
                assert(k1[i] == x);
            }
        }
        assert forall|i: int| 0 <= i < k1.len() implies status(#[trigger] k1[i]) == r1[i] by {
            assert(status(ks[i]) == r[i]);
        }
        assert(status(ks[last]) == r[last]);
        assert(ks.contains(k));
        if r[last].conflict {
            assert(kc.contains(k));
            let j = choose|j: int| 0 <= j < kc.len() && kc[j] == k;
            let (c1, kd) = (c.remove(j), kc.remove(j));
            assert forall|i: int| 0 <= i < kd.len() implies status(#[trigger] kd[i]) == c1[i] by {
                let o = if i < j {
                    i
                } else {
                    i + 1
                };
                assert(kd[i] == kc[o]);
                assert(status(kc[o]) == c[o]);
            }
            assert forall|x: Seq<char>| #[trigger] kd.contains(x) <==> kc.contains(x) && x != k by {
                if kd.contains(x) {
                    let i = choose|i: int| 0 <= i < kd.len() && kd[i] == x;
                    let o = if i < j {
                        i
                    } else {
                        i + 1
                    };
                    assert(kc[o] == x);
                }
                if kc.contains(x) && x != k {
                    let o = choose|o: int| 0 <= o < kc.len() && kc[o] == x;
                    assert(kd[if o < j {
                        o
                    } else {
                        o - 1
                    }] == x);
                }
            }
            lemma_conflicts_among(r1, k1, c1, kd, status);
            assert(status(kc[j]) == c[j]);
            assert(r.filter(bad) == r1.filter(bad).push(r[last]));
            assert(c =~= c1.insert(j, r[last]));
            assert(r.filter(bad).to_multiset() =~= c.to_multiset());
        } else {
            lemma_conflicts_among(r1, k1, c, kc, status);
            assert(r.filter(bad) == r1.filter(bad));
        }
    }
}

/// The statuses in conflict are, as a multiset, the conflicts that are detected
/// in the same table at the same time.
pub proof fn law_conflicting_statuses_are_the_conflicts(
    statuses: Seq<StatusView>,
    conflicts: Seq<StatusView>,
    t: Table,
    now: u64,
)
    requires
        lists_readings(statuses, t, MEMBERSHIP_PREFIX@, status_reading(t, now)),
        lists_readings(conflicts, t, MEMBERSHIP_PREFIX@, conflict_reading(t, now)),
    ensures
        statuses.filter(|s: StatusView| s.conflict).to_multiset() == conflicts.to_multiset(),
{
    let f = status_reading(t, now);
    let g = conflict_reading(t, now);
    let p = MEMBERSHIP_PREFIX@;
    let ks = choose|ks: Seq<Seq<char>>| #[trigger] readings_by_key(statuses, ks, t, p, f);
    let kc = choose|kc: Seq<Seq<char>>| #[trigger] readings_by_key(conflicts, kc, t, p, g);
    let status = |k: Seq<char>| reading_at(t, k, f)->0;
    assert forall|k: Seq<char>| #[trigger] kc.contains(k) <==> ks.contains(k) && status(k).conflict by {
        if kc.contains(k) {
            let i = choose|i: int| 0 <= i < kc.len() && kc[i] == k;
            assert(has_prefix(kc[i], p) && reading_at(t, kc[i], g) == Some(conflicts[i]));
            assert(reading_at(t, k, f) is Some);
        }
        if ks.contains(k) && status(k).conflict {
            let i = choose|i: int| 0 <= i < ks.len() && ks[i] == k;
            assert(has_prefix(ks[i], p) && reading_at(t, ks[i], f) == Some(statuses[i]));
            assert(reading_at(t, k, g) is Some);
        }
    }
    assert forall|i: int| 0 <= i < ks.len() implies status(#[trigger] ks[i]) == statuses[i] by {
        assert(reading_at(t, ks[i], f) == Some(statuses[i]));
    }
    assert forall|i: int| 0 <= i < kc.len() implies status(#[trigger] kc[i]) == conflicts[i] by {
        assert(reading_at(t, kc[i], g) == Some(conflicts[i]));
        assert(reading_at(t, kc[i], f) == Some(conflicts[i]));
    }
    lemma_conflicts_among(statuses, ks, conflicts, kc, status);
}

/// What is shown of a governed group is what an intent asks that was written within
/// the last minute, beside the number of members that a lookup finds; a conflict is
/// a number outside of the bounds, which themselves are allowed.
pub proof fn law_status_tells_the_group(
    t: Table,
    now: u64,
    statuses: Seq<StatusView>,
    i: int,
    members: Seq<NodeId>,
)
    requires
        lists_readings(statuses, t, MEMBERSHIP_PREFIX@, status_reading(t, now)),
        0 <= i < statuses.len(),
        lists_members(members, t, statuses[i].group),
    ensures
        statuses[i].observed == members.len(),
        statuses[i].conflict <==> members.len() < statuses[i].min || (statuses[i].max is Some && statuses[i].max->0
            < members.len()),
        exists|k: Seq<char>|
            has_prefix(k, "sys/membership/"@) && #[trigger] live(t, k) is Some && intent_parts(live(t, k)->0) is Some
                && ({
                let p = intent_parts(live(t, k)->0)->0;
                p.0 == statuses[i].group && p.1 == statuses[i].min && p.2 == statuses[i].max && now - p.3 <= 60_000
            }),
{
    let f = status_reading(t, now);
    let ks = choose|ks: Seq<Seq<char>>| #[trigger] readings_by_key(statuses, ks, t, MEMBERSHIP_PREFIX@, f);
    let k = ks[i];
    assert(reading_at(t, k, f) == Some(statuses[i]));
    assert(live(t, k) is Some);
    let g = statuses[i].group;
    assert(has_member_count(t, g, members.len() as int));
    let n = member_count(t, g);
    assert(has_member_count(t, g, n));
    let r = choose|r: Seq<NodeId>| #[trigger] lists_members(r, t, g) && r.len() == n;
    lemma_member_count_unique(t, g, members, r);
}

/// Every intent that was written within the last minute governs: its group is shown
/// with the bounds that it asks for.
pub proof fn law_current_intent_governs(t: Table, now: u64, statuses: Seq<StatusView>, k: Seq<char>)
    requires
        lists_readings(statuses, t, MEMBERSHIP_PREFIX@, status_reading(t, now)),
        has_prefix(k, "sys/membership/"@),
        live(t, k) is Some,
        intent_parts(live(t, k)->0) is Some,
        now - (intent_parts(live(t, k)->0)->0).3 <= 60_000,
    ensures
        exists|i: int|
            0 <= i < statuses.len() && ({
                let p = intent_parts(live(t, k)->0)->0;
                (#[trigger] statuses[i]).group == p.0 && statuses[i].min == p.1 && statuses[i].max == p.2
            }),
{
    let f = status_reading(t, now);
    let ks = choose|ks: Seq<Seq<char>>| #[trigger] readings_by_key(statuses, ks, t, MEMBERSHIP_PREFIX@, f);
    assert(reading_at(t, k, f) is Some);
    assert(ks.contains(k));
    let i = choose|i: int| 0 <= i < ks.len() && ks[i] == k;
    assert(reading_at(t, ks[i], f) == Some(statuses[i]));
}

/// A streak starts at one and grows by one with every round, up to the largest
/// number that it can hold.
pub proof fn law_streak_grows_by_one(n: u32)
    ensures
        next_streak(None) == 1,
        n < 0xffff_ffff ==> next_streak(Some(n)) == n + 1,
        next_streak(Some(0xffff_ffff)) == 0xffff_ffff,
{
}

/// A gap is a capability that some requirement names which was written no longer ago
/// than three of its refresh intervals, while nobody meets that requirement; and
/// every such capability is a gap.
pub proof fn law_gap_is_wanted_and_not_provided(t: Table, now: u64, gap: Seq<char>)
    ensures
        reading_set(t, "req/"@, gap_reading(t, now)).contains(gap) <==> exists|k: Seq<char>|
            has_prefix(k, "req/"@) && #[trigger] live(t, k) is Some && cap_key_parts("req/"@, k) is Some && req_in(
                live(t, k)->0,
            ) is Some && ({
                let p = cap_key_parts("req/"@, k)->0;
                let q = req_in(live(t, k)->0)->0;
                gap == p.1 + "/"@ + p.2 && now - t[k].1 as int / 0x1_0000 <= 3 * q.1 && !satisfied(t, q.0, now)
            }),
{
    let f = gap_reading(t, now);
    if reading_set(t, "req/"@, f).contains(gap) {
        let k = choose|k: Seq<char>| has_prefix(k, "req/"@) && (#[trigger] reading_at(t, k, f)) == Some(gap);
        crate::capability::law_fresh_for_three_intervals((req_in(live(t, k)->0)->0).1, t[k].1, now);
        assert(live(t, k) is Some);
    }
    assert forall|k: Seq<char>|
        has_prefix(k, "req/"@) && #[trigger] live(t, k) is Some && cap_key_parts("req/"@, k) is Some && req_in(
            live(t, k)->0,
        ) is Some && ({
            let p = cap_key_parts("req/"@, k)->0;
            let q = req_in(live(t, k)->0)->0;
            gap == p.1 + "/"@ + p.2 && now - t[k].1 as int / 0x1_0000 <= 3 * q.1 && !satisfied(t, q.0, now)
        }) implies reading_set(t, "req/"@, f).contains(gap) by {
        crate::capability::law_fresh_for_three_intervals((req_in(live(t, k)->0)->0).1, t[k].1, now);
        assert(reading_at(t, k, f) == Some(gap));
    }
}

proof fn lemma_pair_key(prefix: Seq<char>, a: Seq<char>, b: Seq<char>)
    ensures
        pair_key(prefix, (a, b)) == prefix + a + "/"@ + b,
{
    reveal_strlit("/");
    assert(pair_key(prefix, (a, b)) =~= prefix + a + "/"@ + b);
}

/// A snapshot of the memberships holds a group and a name exactly while the group's
/// entry for that name is live and says something.
pub proof fn law_membership_is_an_entry(t: Table, group: Seq<char>, name: Seq<char>)
    requires
        !group.contains('/'),
    ensures
        memberships(t).contains((group, name)) <==> live(t, "grp/"@ + group + "/"@ + name) is Some && live(
            t,
            "grp/"@ + group + "/"@ + name,
        )->0 != Seq::<u8>::empty(),
{
    lemma_pair_key("grp/"@, group, name);
    if live(t, "grp/"@ + group + "/"@ + name) is Some {
        let v = live(t, "grp/"@ + group + "/"@ + name)->0;
        assert(v.len() == 0 <==> v =~= Seq::<u8>::empty());
    }
}

/// A node sheds a kind exactly while its load mark for that kind says so and is no
/// older than the limit.
pub proof fn law_shedding_is_a_recent_mark(t: Table, now: u64, max_age_ms: u64, node: Seq<char>, kind: Seq<char>)
    requires
        !node.contains('/'),
    ensures
        shedding(t, now, max_age_ms).contains((node, kind)) <==> live(t, "sys/load/"@ + node + "/"@ + kind) is Some
            && ({
            let p = crate::load::load_parts(live(t, "sys/load/"@ + node + "/"@ + kind)->0);
            p is Some && (p->0).1 && now - (p->0).2 <= max_age_ms
        }),
{
    lemma_pair_key("sys/load/"@, node, kind);
}

/// The streak of a key is what the last entry for it says; a key without one has none.
pub proof fn law_streak_is_that_of_the_entry(s: Streaks, k: Seq<char>, i: int)
    requires
        0 <= i < s.entries@.len(),
        s.entries@[i].0@ == k,
        forall|j: int| i < j < s.entries@.len() ==> (#[trigger] s.entries@[j]).0@ != k,
    ensures
        s.of(k) == Some(s.entries@[i].1),
{
    lemma_streak_at(s.entries@, k, i);
}

proof fn lemma_streak_at(e: Seq<(String, u32)>, k: Seq<char>, i: int)
    requires
        0 <= i < e.len(),
        e[i].0@ == k,
        forall|j: int| i < j < e.len() ==> (#[trigger] e[j]).0@ != k,
    ensures
        streak_of(e, k) == Some(e[i].1),
    decreases e.len(),
{
    if i < e.len() - 1 {
        assert(e[e.len() - 1].0@ != k);
        lemma_streak_at(e.drop_last(), k, i);
    }
}

} // verus!
