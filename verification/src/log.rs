//! Ordered durable logs on top of the table: `log/{stream}/{hlc:016x}`.

use crate::json::{json_quote, json_string};
use crate::kv::{hlc_next, outcome_for, wrote, KvHandle};
use crate::node_id::node_text;
use crate::scan::{
    lemma_pick, lemma_pick_at, lemma_picked_all, lemma_skip, lists_live_ts, lists_readings, picked,
    reading_at, readings_by_key, Reading,
};
use crate::store::{live, Table};
use crate::text::{
    behind, copy_bytes, dec_string, dec_text, has_prefix, hex16, hex_fixed, join2, join3, parse_hex_spec,
    parse_hex_u64, strip_prefix, text_lt,
};
use crate::wire::Dispatch;
use vstd::prelude::*;
use vstd::string::StrSliceExecFns;
use vstd::utf8::{decode_utf8, encode_utf8, valid_utf8};

verus! {

/// How long a consumer's claim lasts, in milliseconds.
pub const CLAIM_TTL_MS: u64 = 30_000;

/// One entry of a log.
#[derive(Debug, Clone, PartialEq, Eq)]
pub struct LogEntry {
    /// The timestamp under which the entry was appended.
    pub hlc: u64,
    pub value: Vec<u8>,
}

/// The model of a [`LogEntry`].
pub type LogView = (u64, Seq<u8>);

pub open spec fn log_views(v: Seq<LogEntry>) -> Seq<LogView> {
    v.map_values(|e: LogEntry| (e.hlc, e.value@))
}

/// `log/{stream}/`.
pub open spec fn log_prefix_text(stream: Seq<char>) -> Seq<char> {
    "log/"@ + stream + "/"@
}

/// `log/{stream}/{hlc:016x}`.
pub open spec fn log_key_text(stream: Seq<char>, hlc: u64) -> Seq<char> {
    log_prefix_text(stream) + hex_fixed(hlc as int, 16)
}

/// The timestamp in a key of `stream`.
pub open spec fn log_stamp(stream: Seq<char>, k: Seq<char>) -> Option<u64> {
    parse_hex_spec(behind(k, log_prefix_text(stream)))
}

/// What a scan of `stream` from `from` up to but not including `to` makes of
/// an entry.
pub open spec fn log_reading(stream: Seq<char>, from: u64, to: u64) -> Reading<LogView> {
    |k: Seq<char>, v: Seq<u8>, ts: u64|
        match log_stamp(stream, k) {
            Some(h) => if from <= h && h < to {
                Some((h, v))
            } else {
                None
            },
            None => None,
        }
}

/// The timestamps never fall.
pub open spec fn sorted_by_hlc(v: Seq<LogView>) -> bool {
    forall|i: int, j: int| 0 <= i < j < v.len() ==> (#[trigger] v[i]).0 <= (#[trigger] v[j]).0
}

fn log_prefix(stream: &str) -> (s: String)
    ensures
        s@ == log_prefix_text(stream@),
{
    join3("log/", stream, "/")
}

fn log_key(stream: &str, hlc: u64) -> (s: String)
    ensures
        s@ == log_key_text(stream@, hlc),
{
    join2(log_prefix(stream).as_str(), hex16(hlc).as_str())
}

fn read_stamp(key: &String, prefix: &String) -> (r: Option<u64>)
    requires
        has_prefix(key@, prefix@),
    ensures
        r == parse_hex_spec(behind(key@, prefix@)),
{
    match strip_prefix(key.as_str(), prefix.as_str()) {
        None => None,
        Some(suffix) => parse_hex_u64(suffix.as_str()),
    }
}

proof fn lemma_insert_by_hlc(s: Seq<LogView>, x: LogView, at: int)
    requires
        sorted_by_hlc(s),
        0 <= at <= s.len(),
        forall|k: int| 0 <= k < at ==> (#[trigger] s[k]).0 <= x.0,
        at < s.len() ==> x.0 < s[at].0,
    ensures
        sorted_by_hlc(s.insert(at, x)),
{
    let t = s.insert(at, x);
    assert forall|i: int, j: int| 0 <= i < j < t.len() implies (#[trigger] t[i]).0 <= (#[trigger] t[j]).0 by {
        let a = if i < at {
            i
        } else {
            i - 1
        };
        let b = if j < at {
            j
        } else {
            j - 1
        };
        if i == at {
            assert(t[j] == s[b]);
            if b > at {
                assert(s[at].0 <= s[b].0);
            }
        } else if j == at {
            assert(t[i] == s[a]);
        } else {
            assert(t[i] == s[a] && t[j] == s[b]);
        }
    }
}

/// `post` is `pre` after the keys were deleted one after the other.
pub open spec fn deleted_all(pre: KvHandle, post: KvHandle, keys: Seq<Seq<char>>, now_ms: u64) -> bool
    decreases keys.len(),
{
    if keys.len() == 0 {
        post == pre
    } else {
        exists|mid: KvHandle|
            deleted_all(pre, mid, keys.drop_last(), now_ms) && #[trigger] wrote(
                mid,
                post,
                keys.last(),
                None,
                now_ms,
                outcome_for(mid, keys.last()),
            )
    }
}

impl KvHandle {
    /// Appends `value` to `stream` and returns the timestamp of the entry.
    pub fn append(&mut self, stream: &str, value: Vec<u8>, now_ms: u64) -> (hlc: u64)
        requires
            old(self).wf(),
            old(self).clock < u64::MAX,
            hlc_next(old(self).clock, now_ms) < u64::MAX,
        ensures
            hlc == hlc_next(old(self).clock, now_ms),
            wrote(
                (KvHandle { clock: hlc, ..*old(self) }),
                *final(self),
                log_key_text(stream@, hlc),
                Some(value@),
                now_ms,
                outcome_for(*old(self), log_key_text(stream@, hlc)),
            ),
    {
        let hlc: u64 = self.tick(now_ms);
        let key = log_key(stream, hlc);
        assert(*self == (KvHandle { clock: hlc, ..*old(self) }));
        let _ = self.set(key.as_str(), value, now_ms);
        hlc
    }

    /// The entries of `stream` from `from` up to but not including `to`,
    /// oldest first.
    pub fn scan_log(&self, stream: &str, from: u64, to: u64) -> (r: Vec<LogEntry>)
        ensures
            lists_readings(
                log_views(r@),
                self.table(),
                log_prefix_text(stream@),
                log_reading(stream@, from, to),
            ),
            sorted_by_hlc(log_views(r@)),
            forall|i: int| 0 <= i < r@.len() ==> from <= (#[trigger] r@[i]).hlc < to,
    {
        let prefix = log_prefix(stream);
        let found = self.scan_prefix_with_ts(prefix.as_str());
        let ghost f = log_reading(stream@, from, to);
        let ghost mut src: Seq<int> = Seq::empty();
        let mut out: Vec<LogEntry> = Vec::new();
        let mut i: usize = 0;
        assert(log_views(out@) =~= Seq::empty());
        while i < found.len()
            invariant
                i <= found.len(),
                prefix@ == log_prefix_text(stream@),
                lists_live_ts(found@, self.table(), prefix@),
                f == log_reading(stream@, from, to),
                picked(found@, i as int, src, log_views(out@), f),
                sorted_by_hlc(log_views(out@)),
                forall|i: int| 0 <= i < out@.len() ==> from <= (#[trigger] out@[i]).hlc < to,
            decreases found.len() - i,
        {
            let ghost v = log_views(out@);
            assert(has_prefix(found@[i as int].0@, prefix@));
            let stamp = read_stamp(&found[i].0, &prefix);
            let wanted = match stamp {
                Some(h) => from <= h && h < to,
                None => false,
            };
            if wanted {
                match stamp {
                    None => {},
                    Some(h) => {
                        let ghost x = (h, found@[i as int].1@);
                        let mut at: usize = 0;
                        while at < out.len() && out[at].hlc <= h
                            invariant
                                at <= out.len(),
                                v == log_views(out@),
                                forall|k: int| 0 <= k < at ==> (#[trigger] v[k]).0 <= h,
                            decreases out.len() - at,
                        {
                            at += 1;
                        }
                        proof {
                            lemma_insert_by_hlc(v, x, at as int);
                            lemma_pick_at(found@, i as int, src, v, f, x, at as int);
                            src = src.insert(at as int, i as int);
                        }
                        let ghost before = out@;
                        let e = LogEntry { hlc: h, value: copy_bytes(&found[i].1) };
                        let ghost ev = e;
                        out.insert(at, e);
                        proof {
                            assert(log_views(out@) =~= v.insert(at as int, x));
                            assert forall|i: int| 0 <= i < out@.len() implies from <= (#[trigger] out@[i]).hlc < to by {
                                if i != at {
                                    assert(out@[i] == before[if i < at {
                                        i
                                    } else {
                                        i - 1
                                    }]);
                                }
                            }
                        }
                    },
                }
            } else {
                proof {
                    lemma_skip(found@, i as int, src, v, f);
                }
            }
            i += 1;
        }
        proof {
            lemma_picked_all(found@, self.table(), prefix@, src, log_views(out@), f);
        }
        out
    }

    /// Deletes all entries of `stream` with a timestamp below `before_hlc`.
    pub fn compact_log(&mut self, stream: &str, before_hlc: u64, now_ms: u64)
        requires
            old(self).wf(),
            crate::kv::packed(now_ms) + compactable(old(self).table(), stream@, before_hlc).len()
                < u64::MAX,
            old(self).clock + compactable(old(self).table(), stream@, before_hlc).len() < u64::MAX,
        ensures
            final(self).wf(),
            exists|r: Seq<LogView>, ks: Seq<Seq<char>>|
                #![trigger readings_by_key(r, ks, old(self).table(), log_prefix_text(stream@), log_reading(stream@, 0, before_hlc))]
                readings_by_key(
                    r,
                    ks,
                    old(self).table(),
                    log_prefix_text(stream@),
                    log_reading(stream@, 0, before_hlc),
                ) && deleted_all(*old(self), *final(self), ks, now_ms),
    {
        let prefix = log_prefix(stream);
        let found = self.scan_prefix_with_ts(prefix.as_str());
        let ghost f = log_reading(stream@, 0, before_hlc);
        let ghost t = self.table();
        let ghost mut src: Seq<int> = Seq::empty();
        let ghost mut r: Seq<LogView> = Seq::empty();
        let mut keys: Vec<String> = Vec::new();
        let mut i: usize = 0;
        while i < found.len()
            invariant
                i <= found.len(),
                prefix@ == log_prefix_text(stream@),
                t == old(self).table(),
                *self == *old(self),
                lists_live_ts(found@, t, prefix@),
                f == log_reading(stream@, 0, before_hlc),
                picked(found@, i as int, src, r, f),
                src.len() == keys@.len(),
                forall|j: int| 0 <= j < src.len() ==> keys@[j]@ == found@[#[trigger] src[j]].0@,
            decreases found.len() - i,
        {
            assert(has_prefix(found@[i as int].0@, prefix@));
            let stamp = read_stamp(&found[i].0, &prefix);
            let old_enough = match stamp {
                Some(h) => h < before_hlc,
                None => false,
            };
            if old_enough {
                let ghost was = src;
                proof {
                    let x = (stamp->0, found@[i as int].1@);
                    lemma_pick(found@, i as int, src, r, f, x);
                    src = src.push(i as int);
                    r = r.push(x);
                }
                keys.push(found[i].0.clone());
                assert forall|j: int| 0 <= j < src.len() implies keys@[j]@ == found@[#[trigger] src[j]].0@ by {
                    if j < was.len() {
                        assert(src[j] == was[j]);
                    }
                }
            } else {
                proof {
                    lemma_skip(found@, i as int, src, r, f);
                }
            }
            i += 1;
        }
        let ghost ks = crate::text::views(keys@);
        proof {
            lemma_picked_all(found@, t, prefix@, src, r, f);
            assert(src.map_values(|a: int| found@[a].0@) =~= ks);
            lemma_compactable_count(r, ks, t, stream@, before_hlc);
        }
        self.delete_all(&keys, now_ms);
    }

    /// Deletes the keys one after the other.
    pub fn delete_all(&mut self, keys: &Vec<String>, now_ms: u64)
        requires
            old(self).wf(),
            old(self).clock + keys@.len() < u64::MAX,
            crate::kv::packed(now_ms) + keys@.len() < u64::MAX,
        ensures
            final(self).wf(),
            final(self).same_node(*old(self)),
            final(self).clock <= old(self).clock + keys@.len() || final(self).clock <= crate::kv::packed(
                now_ms,
            ) + keys@.len(),
            deleted_all(*old(self), *final(self), crate::text::views(keys@), now_ms),
    {
        let ghost ks = crate::text::views(keys@);
        let mut n: usize = 0;
        assert(ks.take(0) =~= Seq::empty());
        while n < keys.len()
            invariant
                n <= keys.len(),
                ks == crate::text::views(keys@),
                self.wf(),
                self.same_node(*old(self)),
                crate::kv::packed(now_ms) + keys@.len() < u64::MAX,
                old(self).clock + keys@.len() < u64::MAX,
                self.clock <= old(self).clock + n || self.clock <= crate::kv::packed(now_ms) + n,
                deleted_all(*old(self), *self, ks.take(n as int), now_ms),
            decreases keys.len() - n,
        {
            let ghost mid = *self;
            let _ = self.delete(keys[n].as_str(), now_ms);
            proof {
                let next = ks.take(n + 1);
                assert(next.drop_last() =~= ks.take(n as int));
                assert(next.last() == keys@[n as int]@);
                assert(wrote(mid, *self, next.last(), None, now_ms, outcome_for(mid, next.last())));
            }
            n += 1;
        }
        assert(ks.take(n as int) =~= ks);
    }

    /// One round of a log subscription: the entries from `last_seen` on, and
    /// where to go on from.
    pub fn poll_log(&self, stream: &str, last_seen: u64) -> (r: (Vec<LogEntry>, u64))
        ensures
            lists_readings(
                log_views(r.0@),
                self.table(),
                log_prefix_text(stream@),
                log_reading(stream@, last_seen, u64::MAX),
            ),
            sorted_by_hlc(log_views(r.0@)),
            r.1 == (if r.0@.len() == 0 {
                last_seen as int
            } else {
                r.0@.last().hlc + 1
            }),
            forall|i: int| 0 <= i < r.0@.len() ==> (#[trigger] r.0@[i]).hlc < r.1,
    {
        let entries = self.scan_log(stream, last_seen, u64::MAX);
        if entries.len() == 0 {
            return (entries, last_seen);
        }
        let last: u64 = entries[entries.len() - 1].hlc;
        proof {
            let n = entries@.len() - 1;
            assert(entries@[n].hlc < u64::MAX);
            assert forall|i: int| 0 <= i < entries@.len() implies (#[trigger] entries@[i]).hlc < last + 1 by {
                if i < n {
                    assert(log_views(entries@)[i].0 <= log_views(entries@)[n].0);
                }
            }
        }
        (entries, last + 1)
    }
}

/// The entries of `stream` with a timestamp below `before_hlc`.
pub open spec fn compactable(t: Table, stream: Seq<char>, before_hlc: u64) -> Set<Seq<char>> {
    crate::scan::reading_keys(t, log_prefix_text(stream), log_reading(stream, 0, before_hlc))
}

proof fn lemma_compactable_count(r: Seq<LogView>, ks: Seq<Seq<char>>, t: Table, stream: Seq<char>, before: u64)
    requires
        readings_by_key(r, ks, t, log_prefix_text(stream), log_reading(stream, 0, before)),
    ensures
        compactable(t, stream, before).finite(),
        ks.len() == compactable(t, stream, before).len(),
{
    assert(lists_readings(r, t, log_prefix_text(stream), log_reading(stream, 0, before)));
    crate::scan::lemma_listing_count(r, t, log_prefix_text(stream), log_reading(stream, 0, before));
}

// ── Consumer groups ──────────────────────────────────────────────────────────

/// The record of a lock, as JSON text: when it runs out, and who holds it.
pub open spec fn lock_record_text(holder: Seq<char>, expires_ms: u64) -> Seq<char> {
    "{\"expires_ms\":"@ + dec_text(expires_ms as nat) + ",\"holder\":"@ + json_string(holder) + "}"@
}

/// The bytes of a lock record for `holder` that runs out at `expires_ms`.
pub open spec fn lock_record_bytes(holder: Seq<char>, expires_ms: u64) -> Seq<u8> {
    encode_utf8(lock_record_text(holder, expires_ms))
}

/// Writes the record of a lock.
pub fn lock_record(holder: &str, expires_ms: u64) -> (r: Vec<u8>)
    ensures
        r@ == lock_record_bytes(holder@, expires_ms),
{
    let a = join3("{\"expires_ms\":", dec_string(expires_ms).as_str(), ",\"holder\":");
    let text = join3(a.as_str(), json_quote(holder).as_str(), "}");
    text.as_str().as_bytes_vec()
}

/// `String::from_utf8` of std: the text that the bytes encode, `None` if
/// they are no valid UTF-8.
#[verifier::external_body]
pub(crate) fn utf8_text(bytes: Vec<u8>) -> (r: Option<String>)
    ensures
        r is Some <==> valid_utf8(bytes@),
        r matches Some(s) ==> s@ == decode_utf8(bytes@),
{
    String::from_utf8(bytes).ok()
}

/// `clog/{stream}/{group}/offset`.
pub open spec fn offset_key_text(stream: Seq<char>, group: Seq<char>) -> Seq<char> {
    "clog/"@ + stream + "/"@ + group + "/offset"@
}

/// `lock/clog/{stream}/{group}/claim`.
pub open spec fn claim_key_text(stream: Seq<char>, group: Seq<char>) -> Seq<char> {
    "lock/clog/"@ + stream + "/"@ + group + "/claim"@
}

/// How far a group has read, by the value of its offset entry.
pub open spec fn offset_in(v: Option<Seq<u8>>) -> u64 {
    match v {
        Some(bytes) => if valid_utf8(bytes) {
            match parse_hex_spec(decode_utf8(bytes)) {
                Some(n) => n,
                None => 0,
            }
        } else {
            0
        },
        None => 0,
    }
}

fn scoped_key(head: &str, stream: &str, group: &str, tail: &str) -> (s: String)
    ensures
        s@ == head@ + stream@ + "/"@ + group@ + tail@,
{
    let a = join3(head, stream, "/");
    join3(a.as_str(), group, tail)
}

/// Where a reader that has read up to `offset` goes on.
pub open spec fn resume_at(offset: u64) -> u64 {
    if offset == u64::MAX {
        u64::MAX
    } else {
        (offset + 1) as u64
    }
}

/// What a scan behind `offset` makes of an entry.
pub open spec fn next_reading(stream: Seq<char>, offset: u64) -> Reading<LogView> {
    log_reading(stream, resume_at(offset), u64::MAX)
}

/// Whether `e` is the first entry of `stream` behind `offset`.
pub open spec fn is_next_entry(e: LogView, t: Table, stream: Seq<char>, offset: u64) -> bool {
    &&& exists|k: Seq<char>|
        has_prefix(k, log_prefix_text(stream)) && (#[trigger] reading_at(
            t,
            k,
            next_reading(stream, offset),
        )) == Some(e)
    &&& forall|k: Seq<char>|
        has_prefix(k, log_prefix_text(stream)) && (#[trigger] reading_at(
            t,
            k,
            next_reading(stream, offset),
        )) is Some ==> e.0 <= (reading_at(t, k, next_reading(stream, offset))->0).0
}

/// Whether `stream` has no entry behind `offset`.
pub open spec fn caught_up(t: Table, stream: Seq<char>, offset: u64) -> bool {
    forall|k: Seq<char>|
        has_prefix(k, log_prefix_text(stream)) ==> (#[trigger] reading_at(
            t,
            k,
            next_reading(stream, offset),
        )) is None
}

pub open spec fn entry_view(e: Option<LogEntry>) -> Option<LogView> {
    match e {
        Some(x) => Some((x.hlc, x.value@)),
        None => None,
    }
}

/// `post` is `pre` after a round of a consumer group that gave `r`: the stream
/// is claimed, and where there is an entry behind the group's offset, it is given
/// and the offset is moved to it.
pub open spec fn consumed(
    pre: KvHandle,
    post: KvHandle,
    stream: Seq<char>,
    group: Seq<char>,
    now_ms: u64,
    r: Option<LogView>,
) -> bool {
    exists|mid: KvHandle| #[trigger]
        wrote(
            pre,
            mid,
            claim_key_text(stream, group),
            Some(lock_record_bytes(node_text(pre.node_id@), (now_ms + CLAIM_TTL_MS) as u64)),
            now_ms,
            outcome_for(pre, claim_key_text(stream, group)),
        ) && ({
            let offset = offset_in(live(mid.table(), offset_key_text(stream, group)));
            match r {
                None => caught_up(mid.table(), stream, offset) && post == mid,
                Some(e) => is_next_entry(e, mid.table(), stream, offset) && wrote(
                    mid,
                    post,
                    offset_key_text(stream, group),
                    Some(encode_utf8(hex_fixed(e.0 as int, 16))),
                    now_ms,
                    outcome_for(mid, offset_key_text(stream, group)),
                ),
            }
        })
}

/// The claim of a group, its offset and the entries of a log have different
/// keys.
proof fn lemma_keys_apart(stream: Seq<char>, group: Seq<char>)
    ensures
        claim_key_text(stream, group) != offset_key_text(stream, group),
{
    reveal_strlit("lock/clog/");
    reveal_strlit("clog/");
    assert(claim_key_text(stream, group)[0] == 'l');
    assert(offset_key_text(stream, group)[0] == 'c');
}

proof fn lemma_log_key_apart(stream: Seq<char>, group: Seq<char>, h: u64)
    ensures
        "log/"@ + stream + "/"@ + hex_fixed(h as int, 16) != claim_key_text(stream, group),
        "log/"@ + stream + "/"@ + hex_fixed(h as int, 16) != offset_key_text(stream, group),
{
    reveal_strlit("log/");
    reveal_strlit("lock/clog/");
    reveal_strlit("clog/");
    let k = "log/"@ + stream + "/"@ + hex_fixed(h as int, 16);
    assert(k[0] == 'l' && k[2] == 'g');
    assert(claim_key_text(stream, group)[2] == 'c');
    assert(offset_key_text(stream, group)[0] == 'c');
}

impl KvHandle {
    /// How far `group` has read in `stream`.
    pub fn group_offset(&self, stream: &str, group: &str) -> (offset: u64)
        ensures
            offset == offset_in(live(self.table(), offset_key_text(stream@, group@))),
    {
        let key = scoped_key("clog/", stream, group, "/offset");
        match self.get(key.as_str()) {
            None => 0,
            Some(bytes) => match utf8_text(bytes) {
                None => 0,
                Some(s) => match parse_hex_u64(s.as_str()) {
                    Some(n) => n,
                    None => 0,
                },
            },
        }
    }

    /// The first entry of `stream` behind `offset`.
    pub fn next_entry(&self, stream: &str, offset: u64) -> (r: Option<LogEntry>)
        ensures
            r is None <==> caught_up(self.table(), stream@, offset),
            r matches Some(e) ==> is_next_entry((e.hlc, e.value@), self.table(), stream@, offset),
            r matches Some(e) ==> e.hlc > offset,
            forall|h: u64|
                offset < h < u64::MAX && #[trigger] live(
                    self.table(),
                    "log/"@ + stream@ + "/"@ + hex_fixed(h as int, 16),
                ) is Some ==> (r matches Some(e) && e.hlc <= h),
    {
        proof {
            assert forall|h: u64|
                offset < h < u64::MAX && #[trigger] live(
                    self.table(),
                    "log/"@ + stream@ + "/"@ + hex_fixed(h as int, 16),
                ) is Some implies !caught_up(self.table(), stream@, offset) && (forall|e: LogView| #[trigger]
                is_next_entry(e, self.table(), stream@, offset) ==> e.0 <= h) by {
                law_first_entry_behind_offset_is_next(self.table(), stream@, offset, h);
            }
        }
        let from: u64 = if offset == u64::MAX {
            u64::MAX
        } else {
            offset + 1
        };
        let mut entries = self.scan_log(stream, from, u64::MAX);
        let ghost t = self.table();
        let ghost f = next_reading(stream@, offset);
        let ghost v = log_views(entries@);
        proof {
            let ks = choose|ks: Seq<Seq<char>>| #[trigger]
                readings_by_key(v, ks, t, log_prefix_text(stream@), f);
            if v.len() > 0 {
                assert(has_prefix(ks[0], log_prefix_text(stream@)) && reading_at(t, ks[0], f) == Some(v[0]));
                assert(exists|k: Seq<char>|
                    has_prefix(k, log_prefix_text(stream@)) && (#[trigger] reading_at(t, k, f)) == Some(v[0]));
                assert forall|k: Seq<char>|
                    has_prefix(k, log_prefix_text(stream@)) && (#[trigger] reading_at(t, k, f)) is Some implies v[0].0
                    <= (reading_at(t, k, f)->0).0 by {
                    assert(ks.contains(k));
                    let i = choose|i: int| 0 <= i < ks.len() && ks[i] == k;
                    assert(reading_at(t, ks[i], f) == Some(v[i]));
                    if i > 0 {
                        assert(v[0].0 <= v[i].0);
                    }
                }
            } else {
                assert forall|k: Seq<char>| has_prefix(k, log_prefix_text(stream@)) implies (
                #[trigger] reading_at(t, k, f)) is None by {
                    if reading_at(t, k, f) is Some {
                        assert(ks.contains(k));
                    }
                }
            }
        }
        if entries.len() == 0 {
            return None;
        }
        assert(entries@[0].hlc >= from);
        let first = entries.remove(0);
        proof {
            assert((first.hlc, first.value@) == v[0]);
            let k = choose|k: Seq<char>|
                has_prefix(k, log_prefix_text(stream@)) && (#[trigger] reading_at(t, k, f)) == Some(v[0]);
            assert(reading_at(t, k, f) is Some);
            assert(is_next_entry((first.hlc, first.value@), t, stream@, offset));
        }
        Some(first)
    }

    /// One round of a consumer group: claims the stream for this node, and
    /// where there is an entry behind the group's offset, moves the offset to
    /// it and returns it.
    pub fn consume_next(&mut self, stream: &str, group: &str, now_ms: u64) -> (r: Option<LogEntry>)
        requires
            old(self).wf(),
            now_ms + CLAIM_TTL_MS <= u64::MAX,
            old(self).clock < u64::MAX,
            hlc_next(old(self).clock, now_ms) < u64::MAX,
        ensures
            final(self).wf(),
            consumed(*old(self), *final(self), stream@, group@, now_ms, entry_view(r)),
            forall|h: u64|
                offset_in(live(old(self).table(), offset_key_text(stream@, group@))) < h < u64::MAX
                    && #[trigger] live(
                    old(self).table(),
                    "log/"@ + stream@ + "/"@ + hex_fixed(h as int, 16),
                ) is Some ==> (r matches Some(e) && e.hlc <= h),
    {
        let claim_key = scoped_key("lock/clog/", stream, group, "/claim");
        let record = lock_record(self.node_id.to_text().as_str(), now_ms + CLAIM_TTL_MS);
        let _ = self.set(claim_key.as_str(), record, now_ms);
        let ghost mid = *self;
        let offset: u64 = self.group_offset(stream, group);
        proof {
            lemma_keys_apart(stream@, group@);
            assert forall|h: u64| #[trigger]
                live(old(self).table(), "log/"@ + stream@ + "/"@ + hex_fixed(h as int, 16)) == live(
                    mid.table(),
                    "log/"@ + stream@ + "/"@ + hex_fixed(h as int, 16),
                ) by {
                lemma_log_key_apart(stream@, group@, h);
            }
        }
        match self.next_entry(stream, offset) {
            None => {
                assert(consumed(*old(self), *self, stream@, group@, now_ms, None));
                None
            },
            Some(e) => {
                let key = scoped_key("clog/", stream, group, "/offset");
                let value = hex16(e.hlc).as_str().as_bytes_vec();
                let _ = self.set(key.as_str(), value, now_ms);
                assert(consumed(*old(self), *self, stream@, group@, now_ms, Some((e.hlc, e.value@))));
                Some(e)
            },
        }
    }
}

// ── Laws ─────────────────────────────────────────────────────────────────────

/// The key of an entry holds the entry's timestamp, and lies under the
/// stream's prefix.
pub proof fn law_log_key_round_trip(stream: Seq<char>, hlc: u64)
    ensures
        has_prefix(log_key_text(stream, hlc), log_prefix_text(stream)),
        log_stamp(stream, log_key_text(stream, hlc)) == Some(hlc),
{
    let p = log_prefix_text(stream);
    let k = log_key_text(stream, hlc);
    assert(k.take(p.len() as int) =~= p);
    assert(behind(k, p) =~= hex_fixed(hlc as int, 16));
    crate::text::lemma_hex16_round_trip(hlc);
}

/// Log keys sort as their timestamps do.
pub proof fn law_log_key_order(stream: Seq<char>, a: u64, b: u64)
    requires
        a < b,
    ensures
        text_lt(log_key_text(stream, a), log_key_text(stream, b)),
{
    crate::text::lemma_pow16_64();
    crate::text::lemma_hex_fixed_order(a as int, b as int, 16);
    crate::text::lemma_lt_common_prefix(
        log_prefix_text(stream),
        hex_fixed(a as int, 16),
        hex_fixed(b as int, 16),
    );
}

/// What was appended is found by every later scan whose range holds its
/// timestamp.
pub proof fn law_append_then_scan(
    pre: KvHandle,
    post: KvHandle,
    stream: Seq<char>,
    hlc: u64,
    value: Seq<u8>,
    now_ms: u64,
    d: Dispatch,
    from: u64,
    to: u64,
    found: Seq<LogView>,
)
    requires
        wrote(pre, post, log_key_text(stream, hlc), Some(value), now_ms, d),
        from <= hlc < to,
        lists_readings(found, post.table(), log_prefix_text(stream), log_reading(stream, from, to)),
    ensures
        found.contains((hlc, value)),
{
    law_log_key_round_trip(stream, hlc);
    let f = log_reading(stream, from, to);
    let k = log_key_text(stream, hlc);
    assert(reading_at(post.table(), k, f) == Some((hlc, value)));
    let ks = choose|ks: Seq<Seq<char>>| #[trigger]
        readings_by_key(found, ks, post.table(), log_prefix_text(stream), f);
    assert(ks.contains(k));
    let i = choose|i: int| 0 <= i < ks.len() && ks[i] == k;
    assert(found[i] == (hlc, value));
}

/// Deleting keys one after the other makes exactly those keys absent.
pub proof fn law_deleted_all(pre: KvHandle, post: KvHandle, keys: Seq<Seq<char>>, now_ms: u64)
    requires
        deleted_all(pre, post, keys, now_ms),
    ensures
        forall|k: Seq<char>| #[trigger]
            live(post.table(), k) == (if keys.contains(k) {
                None
            } else {
                live(pre.table(), k)
            }),
        forall|k: Seq<char>| !keys.contains(k) ==> #[trigger] post.table().contains_key(k)
            == pre.table().contains_key(k) && post.table()[k] == pre.table()[k],
    decreases keys.len(),
{
    if keys.len() > 0 {
        let front = keys.drop_last();
        let mid = choose|mid: KvHandle|
            deleted_all(pre, mid, front, now_ms) && #[trigger] wrote(
                mid,
                post,
                keys.last(),
                None,
                now_ms,
                outcome_for(mid, keys.last()),
            );
        law_deleted_all(pre, mid, front, now_ms);
        assert forall|k: Seq<char>| #[trigger] keys.contains(k) <==> front.contains(k) || k == keys.last() by {
            if keys.contains(k) {
                let i = choose|i: int| 0 <= i < keys.len() && keys[i] == k;
                if i < front.len() {
                    assert(front[i] == k);
                }
            }
            if front.contains(k) {
                let i = choose|i: int| 0 <= i < front.len() && front[i] == k;
                assert(keys[i] == k);
            }
            if k == keys.last() {
                assert(keys[keys.len() - 1] == k);
            }
        }
        assert forall|k: Seq<char>| #[trigger] live(post.table(), k) == (if keys.contains(k) {
            None
        } else {
            live(pre.table(), k)
        }) by {
            assert(live(mid.table(), k) == (if front.contains(k) {
                None
            } else {
                live(pre.table(), k)
            }));
        }
        assert forall|k: Seq<char>| !keys.contains(k) implies #[trigger] post.table().contains_key(k)
            == pre.table().contains_key(k) && post.table()[k] == pre.table()[k] by {
            assert(!front.contains(k));
            assert(mid.table().contains_key(k) == pre.table().contains_key(k));
        }
    }
}

/// After compaction no entry below the bound is left, and every other entry
/// of every key reads as before.
pub proof fn law_compaction(
    pre: KvHandle,
    post: KvHandle,
    stream: Seq<char>,
    before_hlc: u64,
    r: Seq<LogView>,
    ks: Seq<Seq<char>>,
    now_ms: u64,
)
    requires
        readings_by_key(r, ks, pre.table(), log_prefix_text(stream), log_reading(stream, 0, before_hlc)),
        deleted_all(pre, post, ks, now_ms),
    ensures
        forall|k: Seq<char>|
            has_prefix(k, log_prefix_text(stream)) ==> (#[trigger] reading_at(
                post.table(),
                k,
                log_reading(stream, 0, before_hlc),
            )) is None,
        forall|k: Seq<char>|
            !compactable(pre.table(), stream, before_hlc).contains(k) ==> #[trigger] live(post.table(), k)
                == live(pre.table(), k),
{
    law_deleted_all(pre, post, ks, now_ms);
    let f = log_reading(stream, 0, before_hlc);
    let p = log_prefix_text(stream);
    assert forall|k: Seq<char>| has_prefix(k, p) implies (#[trigger] reading_at(post.table(), k, f)) is None by {
        if !ks.contains(k) {
            assert(live(post.table(), k) == live(pre.table(), k));
            if reading_at(pre.table(), k, f) is Some {
                assert(ks.contains(k));
            }
        }
    }
    assert forall|k: Seq<char>| !compactable(pre.table(), stream, before_hlc).contains(k) implies #[trigger] live(
        post.table(),
        k,
    ) == live(pre.table(), k) by {
        if ks.contains(k) {
            let i = choose|i: int| 0 <= i < ks.len() && ks[i] == k;
            assert(has_prefix(ks[i], p) && reading_at(pre.table(), ks[i], f) == Some(r[i]));
        }
    }
}

/// The offset that a consumer group stores is the offset it reads back.
pub proof fn law_offset_round_trip(hlc: u64)
    ensures
        offset_in(Some(encode_utf8(hex_fixed(hlc as int, 16)))) == hlc,
{
    let s = hex_fixed(hlc as int, 16);
    vstd::utf8::encode_utf8_valid_utf8(s);
    vstd::utf8::encode_utf8_decode_utf8(s);
    crate::text::lemma_hex16_round_trip(hlc);
}

/// A group reads each entry once: when the offset was moved to an entry, what
/// comes next in any later state of the log is newer, as long as nobody moved
/// the offset back.
pub proof fn law_group_moves_forward(
    pre: KvHandle,
    post: KvHandle,
    later: Table,
    stream: Seq<char>,
    group: Seq<char>,
    hlc: u64,
    now_ms: u64,
    d: Dispatch,
    next: LogView,
)
    requires
        wrote(
            pre,
            post,
            offset_key_text(stream, group),
            Some(encode_utf8(hex_fixed(hlc as int, 16))),
            now_ms,
            d,
        ),
        offset_in(live(later, offset_key_text(stream, group))) >= offset_in(
            live(post.table(), offset_key_text(stream, group)),
        ),
        is_next_entry(next, later, stream, offset_in(live(later, offset_key_text(stream, group)))),
    ensures
        next.0 > hlc,
{
    law_offset_round_trip(hlc);
}

/// Where a stream holds a live entry behind an offset, a reader at that offset is
/// not caught up, and what it gets next lies behind the offset and is no newer than
/// that entry. So the entry with the smallest such timestamp comes next.
pub proof fn law_first_entry_behind_offset_is_next(t: Table, stream: Seq<char>, offset: u64, h: u64)
    requires
        offset < h < u64::MAX,
        live(t, "log/"@ + stream + "/"@ + hex_fixed(h as int, 16)) is Some,
    ensures
        !caught_up(t, stream, offset),
        forall|e: LogView| #[trigger] is_next_entry(e, t, stream, offset) ==> offset < e.0 <= h,
{
    let k = "log/"@ + stream + "/"@ + hex_fixed(h as int, 16);
    let f = next_reading(stream, offset);
    assert(k == log_key_text(stream, h));
    law_log_key_round_trip(stream, h);
    assert(reading_at(t, k, f) == Some((h, live(t, k)->0)));
    assert forall|e: LogView| #[trigger] is_next_entry(e, t, stream, offset) implies offset < e.0 <= h by {
        let j = choose|j: Seq<char>|
            has_prefix(j, log_prefix_text(stream)) && (#[trigger] reading_at(t, j, f)) == Some(e);
        assert(reading_at(t, j, f) is Some);
    }
}

/// What a reader gets next stands in the stream: there is a live entry with this
/// value whose key ends in the timestamp.
pub proof fn law_next_entry_stands_in_the_log(t: Table, stream: Seq<char>, offset: u64, e: LogView)
    requires
        is_next_entry(e, t, stream, offset),
    ensures
        offset < e.0 < u64::MAX,
        exists|s: Seq<char>| #[trigger]
            live(t, "log/"@ + stream + "/"@ + s) == Some(e.1) && parse_hex_spec(s) == Some(e.0),
{
    let f = next_reading(stream, offset);
    let k = choose|k: Seq<char>|
        has_prefix(k, log_prefix_text(stream)) && (#[trigger] reading_at(t, k, f)) == Some(e);
    let s = behind(k, log_prefix_text(stream));
    assert(k =~= "log/"@ + stream + "/"@ + s);
}

/// An entry that was appended behind a group's offset is given to the group: the
/// round returns an entry no newer than it, and from then on the offset of the
/// group is the timestamp of what it got.
pub proof fn law_appended_entry_reaches_the_group(
    pre: KvHandle,
    mid: KvHandle,
    post: KvHandle,
    stream: Seq<char>,
    group: Seq<char>,
    hlc: u64,
    value: Seq<u8>,
    append_ms: u64,
    now_ms: u64,
    d: Dispatch,
    r: Option<LogView>,
)
    requires
        wrote(pre, mid, "log/"@ + stream + "/"@ + hex_fixed(hlc as int, 16), Some(value), append_ms, d),
        offset_in(live(pre.table(), offset_key_text(stream, group))) < hlc < u64::MAX,
        consumed(mid, post, stream, group, now_ms, r),
    ensures
        r matches Some(e) && e.0 <= hlc && offset_in(live(post.table(), offset_key_text(stream, group))) == e.0,
{
    let k = "log/"@ + stream + "/"@ + hex_fixed(hlc as int, 16);
    lemma_keys_apart(stream, group);
    lemma_log_key_apart(stream, group, hlc);
    let m = choose|m: KvHandle| #[trigger]
        wrote(
            mid,
            m,
            claim_key_text(stream, group),
            Some(lock_record_bytes(node_text(mid.node_id@), (now_ms + CLAIM_TTL_MS) as u64)),
            now_ms,
            outcome_for(mid, claim_key_text(stream, group)),
        ) && ({
            let offset = offset_in(live(m.table(), offset_key_text(stream, group)));
            match r {
                None => caught_up(m.table(), stream, offset) && post == m,
                Some(e) => is_next_entry(e, m.table(), stream, offset) && wrote(
                    m,
                    post,
                    offset_key_text(stream, group),
                    Some(encode_utf8(hex_fixed(e.0 as int, 16))),
                    now_ms,
                    outcome_for(m, offset_key_text(stream, group)),
                ),
            }
        });
    let offset = offset_in(live(m.table(), offset_key_text(stream, group)));
    assert(live(m.table(), k) == Some(value));
    assert(offset == offset_in(live(pre.table(), offset_key_text(stream, group))));
    law_first_entry_behind_offset_is_next(m.table(), stream, offset, hlc);
    if r is Some {
        law_offset_round_trip((r->0).0);
    }
}

/// A scan of a stream gives exactly the live entries with a timestamp from `from`
/// up to but not including `to`.
pub proof fn law_scan_gives_the_range(
    t: Table,
    stream: Seq<char>,
    from: u64,
    to: u64,
    found: Seq<LogView>,
    h: u64,
    value: Seq<u8>,
)
    requires
        lists_readings(found, t, log_prefix_text(stream), log_reading(stream, from, to)),
        live(t, "log/"@ + stream + "/"@ + hex_fixed(h as int, 16)) == Some(value),
    ensures
        from <= h < to ==> found.contains((h, value)),
        forall|i: int| 0 <= i < found.len() ==> from <= (#[trigger] found[i]).0 < to,
{
    let k = "log/"@ + stream + "/"@ + hex_fixed(h as int, 16);
    let f = log_reading(stream, from, to);
    let ks = choose|ks: Seq<Seq<char>>| #[trigger] readings_by_key(found, ks, t, log_prefix_text(stream), f);
    assert(k == log_key_text(stream, h));
    law_log_key_round_trip(stream, h);
    if from <= h < to {
        assert(reading_at(t, k, f) == Some((h, value)));
        assert(ks.contains(k));
        let i = choose|i: int| 0 <= i < ks.len() && ks[i] == k;
        assert(reading_at(t, ks[i], f) == Some(found[i]));
    }
    assert forall|i: int| 0 <= i < found.len() implies from <= (#[trigger] found[i]).0 < to by {
        assert(reading_at(t, ks[i], f) == Some(found[i]));
    }
}

/// Compaction removes the entries from before a moment and leaves those from then
/// on as they were.
pub proof fn law_compaction_goes_by_time(
    pre: KvHandle,
    post: KvHandle,
    stream: Seq<char>,
    before_hlc: u64,
    r: Seq<LogView>,
    ks: Seq<Seq<char>>,
    now_ms: u64,
    h: u64,
)
    requires
        readings_by_key(r, ks, pre.table(), log_prefix_text(stream), log_reading(stream, 0, before_hlc)),
        deleted_all(pre, post, ks, now_ms),
    ensures
        ({
            let k = "log/"@ + stream + "/"@ + hex_fixed(h as int, 16);
            live(post.table(), k) == (if h < before_hlc {
                None
            } else {
                live(pre.table(), k)
            })
        }),
{
    let k = "log/"@ + stream + "/"@ + hex_fixed(h as int, 16);
    let f = log_reading(stream, 0, before_hlc);
    assert(k == log_key_text(stream, h));
    law_log_key_round_trip(stream, h);
    law_deleted_all(pre, post, ks, now_ms);
    if live(pre.table(), k) is Some && h < before_hlc {
        assert(reading_at(pre.table(), k, f) is Some);
        assert(ks.contains(k));
    }
    if ks.contains(k) {
        let i = choose|i: int| 0 <= i < ks.len() && ks[i] == k;
        assert(reading_at(pre.table(), ks[i], f) == Some(r[i]));
    }
    if live(pre.table(), k) is None {
        assert(reading_at(pre.table(), k, f) is None);
    }
}

/// Whoever consumes from a group claims the group first, for half a minute.
pub proof fn law_consumer_claims_for_half_a_minute(
    pre: KvHandle,
    post: KvHandle,
    stream: Seq<char>,
    group: Seq<char>,
    now_ms: u64,
    r: Option<LogView>,
)
    requires
        consumed(pre, post, stream, group, now_ms, r),
        now_ms + 30_000 <= u64::MAX,
    ensures
        exists|mid: KvHandle|
            #[trigger] live(mid.table(), claim_key_text(stream, group)) == Some(
                lock_record_bytes(node_text(pre.node_id@), (now_ms + 30_000) as u64),
            ) && (r is None ==> post == mid),
{
    let mid = choose|mid: KvHandle| #[trigger]
        wrote(
            pre,
            mid,
            claim_key_text(stream, group),
            Some(lock_record_bytes(node_text(pre.node_id@), (now_ms + CLAIM_TTL_MS) as u64)),
            now_ms,
            outcome_for(pre, claim_key_text(stream, group)),
        ) && ({
            let offset = offset_in(live(mid.table(), offset_key_text(stream, group)));
            match r {
                None => caught_up(mid.table(), stream, offset) && post == mid,
                Some(_) => true,
            }
        });
    assert(live(mid.table(), claim_key_text(stream, group)) == Some(
        lock_record_bytes(node_text(pre.node_id@), (now_ms + 30_000) as u64),
    ));
}

/// A group that has committed nothing, or nothing that can be read, begins at the start.
pub proof fn law_group_begins_at_the_start(bytes: Seq<u8>)
    ensures
        offset_in(None) == 0,
        !valid_utf8(bytes) ==> offset_in(Some(bytes)) == 0,
        valid_utf8(bytes) && parse_hex_spec(decode_utf8(bytes)) is None ==> offset_in(Some(bytes)) == 0,
{
}

} // verus!
