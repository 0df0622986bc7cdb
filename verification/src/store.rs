//! The replicated key-value table and the one rule by which it changes: the
//! newest write of a key wins.

use crate::text::has_prefix;
use vstd::prelude::*;

verus! {

/// What the table holds for a key: a value or a tombstone, and when it was
/// written.
#[derive(Debug, Clone, PartialEq, Eq)]
pub struct StoreEntry {
    pub data: Option<Vec<u8>>,
    pub timestamp: u64,
}

/// The model of a [`StoreEntry`].
pub type Entry = (Option<Seq<u8>>, u64);

/// The model of a value or tombstone.
pub open spec fn data_view(data: Option<Vec<u8>>) -> Option<Seq<u8>> {
    match data {
        Some(d) => Some(d@),
        None => None,
    }
}

/// The model of the table.
pub type Table = Map<Seq<char>, Entry>;

impl View for StoreEntry {
    type V = Entry;

    open spec fn view(&self) -> Entry {
        (data_view(self.data), self.timestamp)
    }
}

/// The concurrent map of the `papaya` crate.
#[verifier::external_type_specification]
#[verifier::external_body]
#[verifier::reject_recursive_types(K)]
#[verifier::reject_recursive_types(V)]
#[verifier::reject_recursive_types(S)]
pub struct ExPapayaHashMap<K, V, S>(papaya::HashMap<K, V, S>);

/// The entries that a store map holds.
pub uninterp spec fn store_contents(m: papaya::HashMap<String, StoreEntry>) -> Map<Seq<char>, (Option<Seq<u8>>, u64)>;

/// `papaya::HashMap::new`: a map without entries.
#[verifier::external_body]
pub(crate) fn store_new() -> (m: papaya::HashMap<String, StoreEntry>)
    ensures
        store_contents(m) == Table::empty(),
{
    papaya::HashMap::new()
}

/// `papaya::HashMapRef::get`: the entry of `key`, if there is one.
#[verifier::external_body]
pub(crate) fn store_get(m: &papaya::HashMap<String, StoreEntry>, key: &str) -> (r: Option<StoreEntry>)
    ensures
        r is Some <==> store_contents(*m).contains_key(key@),
        r matches Some(e) ==> e@ == store_contents(*m)[key@],
{
    m.pin().get(key).cloned()
}

/// `papaya::HashMapRef::insert`: `key` maps to `entry` afterwards, whatever
/// was there before; no other key changes.
#[verifier::external_body]
pub(crate) fn store_insert(
    m: &mut papaya::HashMap<String, StoreEntry>,
    key: String,
    entry: StoreEntry,
)
    ensures
        store_contents(*final(m)) == store_contents(*old(m)).insert(key@, entry@),
{
    m.pin().insert(key, entry);
}

/// `papaya::HashMapRef::remove`: `key` has no entry afterwards; no other key
/// changes.
#[verifier::external_body]
pub(crate) fn store_remove(m: &mut papaya::HashMap<String, StoreEntry>, key: &str)
    ensures
        store_contents(*final(m)) == store_contents(*old(m)).remove(key@),
{
    m.pin().remove(key);
}

/// `papaya::HashMapRef::iter`: every entry once, in no particular order.
#[verifier::external_body]
pub(crate) fn store_entries(m: &papaya::HashMap<String, StoreEntry>) -> (r: Vec<(String, StoreEntry)>)
    ensures
        lists_all(r@, store_contents(*m)),
{
    m.pin().iter().map(|(k, v)| (k.clone(), v.clone())).collect()
}

/// `r` holds every entry of `t` once.
pub open spec fn lists_all(r: Seq<(String, StoreEntry)>, t: Table) -> bool {
    &&& forall|i: int|
        0 <= i < r.len() ==> t.contains_key(#[trigger] r[i].0@) && t[r[i].0@] == r[i].1@
    &&& forall|i: int, j: int| 0 <= i < j < r.len() ==> #[trigger] r[i].0@ != #[trigger] r[j].0@
    &&& forall|k: Seq<char>| #[trigger]
        t.contains_key(k) ==> exists|i: int| 0 <= i < r.len() && #[trigger] r[i].0@ == k
}

/// The live value of `key`: absent where there is no entry or a tombstone.
pub open spec fn live(t: Table, key: Seq<char>) -> Option<Seq<u8>> {
    if t.contains_key(key) {
        t[key].0
    } else {
        None
    }
}

/// `r` holds every live entry whose key begins with `prefix` once, and
/// nothing else.
pub open spec fn lists_live(r: Seq<(String, Vec<u8>)>, t: Table, prefix: Seq<char>) -> bool {
    &&& forall|i: int|
        0 <= i < r.len() ==> has_prefix(#[trigger] r[i].0@, prefix) && live(t, r[i].0@) == Some(
            r[i].1@,
        )
    &&& forall|i: int, j: int| 0 <= i < j < r.len() ==> #[trigger] r[i].0@ != #[trigger] r[j].0@
    &&& forall|k: Seq<char>|
        has_prefix(k, prefix) && #[trigger] live(t, k) is Some ==> exists|i: int|
            0 <= i < r.len() && #[trigger] r[i].0@ == k
}

/// The table after a write of `e` under `key`: an older or equally old write
/// changes nothing.
pub open spec fn merged(t: Table, key: Seq<char>, e: Entry) -> Table {
    if t.contains_key(key) && e.1 <= t[key].1 {
        t
    } else {
        t.insert(key, e)
    }
}

// ── Laws ─────────────────────────────────────────────────────────────────────

/// Applying one write twice is applying it once.
pub proof fn law_merge_idempotent(t: Table, key: Seq<char>, e: Entry)
    ensures
        merged(merged(t, key, e), key, e) == merged(t, key, e),
{
}

/// Writes with different timestamps may arrive in either order, and so may
/// writes of different keys.
pub proof fn law_merge_commutes(t: Table, k1: Seq<char>, e1: Entry, k2: Seq<char>, e2: Entry)
    requires
        k1 != k2 || e1.1 != e2.1,
    ensures
        merged(merged(t, k1, e1), k2, e2) == merged(merged(t, k2, e2), k1, e1),
{
    let a = merged(merged(t, k1, e1), k2, e2);
    let b = merged(merged(t, k2, e2), k1, e1);
    assert(a =~= b);
}

/// A merge never replaces an entry by an older one.
pub proof fn law_merge_monotone(t: Table, key: Seq<char>, e: Entry, k: Seq<char>)
    requires
        t.contains_key(k),
    ensures
        merged(t, key, e).contains_key(k),
        t[k].1 <= merged(t, key, e)[k].1,
{
}

/// Whatever write of a key is the newest is what the table holds once it has
/// been merged.
pub proof fn law_merge_newest_wins(t: Table, key: Seq<char>, e: Entry)
    requires
        t.contains_key(key) ==> t[key].1 < e.1,
    ensures
        merged(t, key, e)[key] == e,
        live(merged(t, key, e), key) == e.0,
{
}

/// A write that is not newer than what the table has changes nothing.
pub proof fn law_older_write_loses(t: Table, key: Seq<char>, e: Entry)
    requires
        t.contains_key(key),
        e.1 <= t[key].1,
    ensures
        merged(t, key, e) == t,
{
}

/// A write changes no other key.
pub proof fn law_merge_touches_one_key(t: Table, key: Seq<char>, e: Entry, k: Seq<char>)
    requires
        k != key,
    ensures
        merged(t, key, e).contains_key(k) == t.contains_key(k),
        t.contains_key(k) ==> merged(t, key, e)[k] == t[k],
        live(merged(t, key, e), k) == live(t, k),
{
}

/// A key reads as what was written under it; a deleted or absent one as nothing.
pub proof fn law_reading_gives_the_value(t: Table, key: Seq<char>, value: Seq<u8>, ts: u64)
    ensures
        live(t.insert(key, (Some(value), ts)), key) == Some(value),
        live(t.insert(key, (None, ts)), key) is None,
        live(t.remove(key), key) is None,
{
}

} // verus!
