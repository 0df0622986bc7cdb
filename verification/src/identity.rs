//! Verifying keys of the nodes: the published key history, and the set of
//! keys that is retained for each node.

use crate::node_id::{node_text, NodeId};
use vstd::prelude::*;

verus! {

/// The length of a verifying key in bytes.
pub const KEY_LEN: usize = 32;

/// The bytes of a list of keys.
pub open spec fn key_views(v: Seq<[u8; 32]>) -> Seq<Seq<u8>> {
    v.map_values(|k: [u8; 32]| k@)
}

/// `base`, followed by those of `items` that are new when they come.
pub open spec fn with_new(base: Seq<Seq<u8>>, items: Seq<Seq<u8>>) -> Seq<Seq<u8>>
    decreases items.len(),
{
    if items.len() == 0 {
        base
    } else {
        let b = with_new(base, items.drop_last());
        if b.contains(items.last()) {
            b
        } else {
            b.push(items.last())
        }
    }
}

/// All keys in a row.
pub open spec fn flat(keys: Seq<Seq<u8>>) -> Seq<u8>
    decreases keys.len(),
{
    if keys.len() == 0 {
        Seq::empty()
    } else {
        flat(keys.drop_last()) + keys.last()
    }
}

/// The keys in a published history: its length is a multiple of the key
/// length, and it is cut into pieces of that length; anything else holds no
/// keys.
pub open spec fn keys_in(bytes: Seq<u8>) -> Seq<Seq<u8>> {
    if bytes.len() % 32 != 0 {
        Seq::empty()
    } else {
        Seq::new(bytes.len() / 32, |i: int| bytes.subrange(32 * i, 32 * i + 32))
    }
}

/// The published history: the current key, then the others in their order.
pub open spec fn history(current: Seq<u8>, existing: Seq<Seq<u8>>) -> Seq<u8> {
    flat(with_new(seq![current], existing))
}

/// Whether two keys are equal.
pub fn same_key(a: &[u8; 32], b: &[u8; 32]) -> (r: bool)
    ensures
        r == (a@ == b@),
{
    let mut i: usize = 0;
    while i < 32
        invariant
            i <= 32,
            forall|k: int| 0 <= k < i ==> a@[k] == b@[k],
        decreases 32 - i,
    {
        if a[i] != b[i] {
            return false;
        }
        i += 1;
    }
    assert(a@ =~= b@);
    true
}

/// Whether `k` is among `keys`.
pub fn contains_key_bytes(keys: &Vec<[u8; 32]>, k: &[u8; 32]) -> (r: bool)
    ensures
        r == key_views(keys@).contains(k@),
{
    let mut i: usize = 0;
    while i < keys.len()
        invariant
            i <= keys.len(),
            forall|j: int| 0 <= j < i ==> keys@[j]@ != k@,
        decreases keys.len() - i,
    {
        if same_key(&keys[i], k) {
            assert(key_views(keys@)[i as int] == k@);
            return true;
        }
        i += 1;
    }
    assert forall|j: int| 0 <= j < key_views(keys@).len() implies key_views(keys@)[j] != k@ by {
        assert(keys@[j]@ != k@);
    }
    false
}

/// Adds those of `items` to `base` that it does not hold yet.
pub fn add_new(base: Vec<[u8; 32]>, items: &[[u8; 32]]) -> (out: Vec<[u8; 32]>)
    ensures
        key_views(out@) == with_new(key_views(base@), key_views(items@)),
{
    let ghost start = key_views(base@);
    let ghost w = key_views(items@);
    let mut out = base;
    let mut i: usize = 0;
    assert(w.take(0) =~= Seq::<Seq<u8>>::empty());
    while i < items.len()
        invariant
            i <= items.len(),
            w == key_views(items@),
            key_views(out@) == with_new(start, w.take(i as int)),
        decreases items.len() - i,
    {
        proof {
            assert(w.take(i + 1).drop_last() =~= w.take(i as int));
            assert(w.take(i + 1).last() == items@[i as int]@);
        }
        let ghost before = out@;
        if !contains_key_bytes(&out, &items[i]) {
            out.push(items[i]);
            assert(key_views(out@) =~= key_views(before).push(items@[i as int]@));
        }
        i += 1;
    }
    assert(w.take(i as int) =~= w);
    out
}

/// Cuts a published history into its keys: the first is the current one, the
/// rest are retained priors. An empty history, or one whose length is no
/// multiple of the key length, holds none.
pub fn parse_identity_keys(bytes: &[u8]) -> (keys: Vec<[u8; 32]>)
    ensures
        key_views(keys@) == keys_in(bytes@),
{
    let mut out: Vec<[u8; 32]> = Vec::new();
    if bytes.len() % 32 != 0 {
        assert(key_views(out@) =~= keys_in(bytes@));
        return out;
    }
    let total: usize = bytes.len();
    let n: usize = total / 32;
    let mut i: usize = 0;
    while i < n
        invariant
            i <= n,
            total == bytes@.len(),
            n == bytes@.len() / 32,
            bytes@.len() % 32 == 0,
            out@.len() == i,
            forall|j: int|
                0 <= j < i ==> (#[trigger] out@[j])@ == bytes@.subrange(32 * j, 32 * j + 32),
        decreases n - i,
    {
        let key = key_at(bytes, 32 * i);
        out.push(key);
        i += 1;
    }
    assert(key_views(out@) =~= keys_in(bytes@));
    out
}

fn key_at(bytes: &[u8], from: usize) -> (key: [u8; 32])
    requires
        from + 32 <= bytes@.len(),
    ensures
        key@ == bytes@.subrange(from as int, from + 32),
{
    let mut key: [u8; 32] = [0;32];
    let total: usize = bytes.len();
    let mut j: usize = 0;
    while j < 32
        invariant
            j <= 32,
            total == bytes@.len(),
            from + 32 <= bytes@.len(),
            forall|k: int| 0 <= k < j ==> key@[k] == bytes@[from + k],
        decreases 32 - j,
    {
        key[j] = bytes[from + j];
        j += 1;
    }
    assert(key@ =~= bytes@.subrange(from as int, from + 32));
    key
}

/// Builds the history to publish: `current` first, then every other key that
/// was published before, each once, in its order.
pub fn encode_identity_history(current: [u8; 32], existing: &[[u8; 32]]) -> (out: Vec<u8>)
    ensures
        out@ == history(current@, key_views(existing@)),
{
    let mut base: Vec<[u8; 32]> = Vec::new();
    base.push(current);
    assert(key_views(base@) =~= seq![current@]);
    let keys = add_new(base, existing);
    let ghost w = key_views(keys@);
    let mut out: Vec<u8> = Vec::new();
    let mut i: usize = 0;
    assert(w.take(0) =~= Seq::<Seq<u8>>::empty());
    while i < keys.len()
        invariant
            i <= keys.len(),
            w == key_views(keys@),
            out@ == flat(w.take(i as int)),
        decreases keys.len() - i,
    {
        proof {
            assert(w.take(i + 1).drop_last() =~= w.take(i as int));
            assert(w.take(i + 1).last() == keys@[i as int]@);
        }
        let ghost start = out@;
        let mut j: usize = 0;
        while j < 32
            invariant
                j <= 32,
                i < keys.len(),
                out@ == start + keys@[i as int]@.take(j as int),
            decreases 32 - j,
        {
            out.push(keys[i][j]);
            assert(keys@[i as int]@.take(j + 1) =~= keys@[i as int]@.take(j as int).push(
                keys@[i as int]@[j as int],
            ));
            j += 1;
        }
        assert(keys@[i as int]@.take(32) =~= keys@[i as int]@);
        i += 1;
    }
    assert(w.take(i as int) =~= w);
    out
}

// ── Retained keys of the peers ───────────────────────────────────────────────

/// The keys that are retained, by the text of each node.
pub uninterp spec fn retained_keys(m: papaya::HashMap<String, Vec<[u8; 32]>>) -> Map<Seq<char>, Seq<Seq<u8>>>;

/// The model of the retained keys.
pub type KeyTable = Map<Seq<char>, Seq<Seq<u8>>>;

/// The keys retained for `node`.
pub open spec fn keys_of(t: KeyTable, node: Seq<char>) -> Seq<Seq<u8>> {
    if t.contains_key(node) {
        t[node]
    } else {
        Seq::empty()
    }
}

/// The key set that replaces `existing` once `new_keys` are merged into it,
/// `None` where it stays as it is.
fn merge_step(existing: Option<&Vec<[u8; 32]>>, new_keys: &[[u8; 32]]) -> (r: Option<Vec<[u8; 32]>>)
    ensures
        r matches Some(v) ==> key_views(v@) == with_new(
            match existing {
                Some(e) => key_views(e@),
                None => Seq::empty(),
            },
            key_views(new_keys@),
        ),
        r is None ==> existing is Some && with_new(key_views(existing->0@), key_views(new_keys@))
            == key_views(existing->0@),
{
    let mut base: Vec<[u8; 32]> = Vec::new();
    match existing {
        None => {
            assert(key_views(base@) =~= Seq::<Seq<u8>>::empty());
            Some(add_new(base, new_keys))
        },
        Some(e) => {
            let mut i: usize = 0;
            while i < e.len()
                invariant
                    i <= e.len(),
                    base@ == e@.take(i as int),
                decreases e.len() - i,
            {
                base.push(e[i]);
                i += 1;
            }
            assert(base@ =~= e@);
            let merged = add_new(base, new_keys);
            if merged.len() == e.len() {
                proof {
                    lemma_with_new_extends(key_views(e@), key_views(new_keys@));
                    assert(key_views(merged@) =~= key_views(e@));
                }
                None
            } else {
                Some(merged)
            }
        },
    }
}

/// `papaya::HashMap::new`: a map without entries.
#[verifier::external_body]
pub(crate) fn keys_new() -> (m: papaya::HashMap<String, Vec<[u8; 32]>>)
    ensures
        retained_keys(m) == KeyTable::empty(),
{
    papaya::HashMap::new()
}

/// `papaya::HashMapRef::get`: the keys of `node`, if there are any.
#[verifier::external_body]
pub(crate) fn keys_get(m: &papaya::HashMap<String, Vec<[u8; 32]>>, node: &str) -> (r: Option<Vec<[u8; 32]>>)
    ensures
        r is Some <==> retained_keys(*m).contains_key(node@),
        r matches Some(v) ==> key_views(v@) == retained_keys(*m)[node@],
{
    m.pin().get(node).cloned()
}

/// `papaya::HashMapRef::compute`: the entry of `node` is replaced by what
/// the closure makes of it, or left alone where the closure aborts; no other
/// key changes. The closure merges `new_keys` into the entry.
#[verifier::external_body]
pub(crate) fn keys_compute(
    m: &mut papaya::HashMap<String, Vec<[u8; 32]>>,
    node: String,
    new_keys: &[[u8; 32]],
)
    ensures
        retained_keys(*final(m)) == retained_keys(*old(m)).insert(
            node@,
            with_new(keys_of(retained_keys(*old(m)), node@), key_views(new_keys@)),
        ),
{
    m.pin().compute(node, |existing| match merge_step(existing.map(|(_, set)| set), new_keys) {
        None => papaya::Operation::Abort::<_, ()>(()),
        Some(merged) => papaya::Operation::Insert(merged),
    });
}

/// The retained verifying keys of all nodes.
pub struct PeerKeys {
    pub keys: papaya::HashMap<String, Vec<[u8; 32]>>,
}

impl PeerKeys {
    /// The retained keys, by the text of each node.
    pub open spec fn table(&self) -> KeyTable {
        retained_keys(self.keys)
    }

    /// No keys.
    pub fn new() -> (k: PeerKeys)
        ensures
            k.table() == KeyTable::empty(),
    {
        PeerKeys { keys: keys_new() }
    }

    /// The keys retained for `node`.
    pub fn keys_for(&self, node: &NodeId) -> (r: Vec<[u8; 32]>)
        ensures
            key_views(r@) == keys_of(self.table(), node_text(node@)),
    {
        match keys_get(&self.keys, node.to_text().as_str()) {
            Some(v) => v,
            None => {
                let v: Vec<[u8; 32]> = Vec::new();
                assert(key_views(v@) =~= Seq::<Seq<u8>>::empty());
                v
            },
        }
    }
}

/// Adds `new_keys` to the keys retained for `node`; none is ever dropped.
pub fn merge_peer_keys(peer_keys: &mut PeerKeys, node: &NodeId, new_keys: &[[u8; 32]])
    ensures
        final(peer_keys).table() == old(peer_keys).table().insert(
            node_text(node@),
            with_new(keys_of(old(peer_keys).table(), node_text(node@)), key_views(new_keys@)),
        ),
{
    keys_compute(&mut peer_keys.keys, node.to_text(), new_keys);
}

/// The items of `s` that `p` does not hold, in their order.
pub open spec fn without(s: Seq<Seq<u8>>, p: Seq<Seq<u8>>) -> Seq<Seq<u8>> {
    s.filter(|k: Seq<u8>| !p.contains(k))
}

/// All keys by which `node` may be verified: those retained for it, this
/// node's own current key where `node` is this node, and none of the revoked.
pub fn known_verifying_keys(
    peer_keys: &PeerKeys,
    node: &NodeId,
    me: &NodeId,
    own_key: Option<[u8; 32]>,
    revoked: &Vec<[u8; 32]>,
) -> (r: Vec<[u8; 32]>)
    ensures
        key_views(r@) == without(
            with_new(
                keys_of(peer_keys.table(), node_text(node@)),
                if node@ == me@ && own_key is Some {
                    seq![own_key->0@]
                } else {
                    Seq::empty()
                },
            ),
            key_views(revoked@),
        ),
{
    let mut own: Vec<[u8; 32]> = Vec::new();
    if node.same(me) {
        match own_key {
            Some(k) => {
                own.push(k);
                assert(key_views(own@) =~= seq![k@]);
            },
            None => {
                assert(key_views(own@) =~= Seq::<Seq<u8>>::empty());
            },
        }
    } else {
        assert(key_views(own@) =~= Seq::<Seq<u8>>::empty());
    }
    let keys = add_new(peer_keys.keys_for(node), own.as_slice());
    let ghost w = key_views(keys@);
    let ghost keep = |k: Seq<u8>| !key_views(revoked@).contains(k);
    let mut out: Vec<[u8; 32]> = Vec::new();
    let mut i: usize = 0;
    assert(w.take(0).filter(keep) =~= Seq::<Seq<u8>>::empty()) by {
        reveal(Seq::filter);
        assert(w.take(0).len() == 0);
    }
    assert(key_views(out@) =~= Seq::<Seq<u8>>::empty());
    while i < keys.len()
        invariant
            i <= keys.len(),
            w == key_views(keys@),
            keep == (|k: Seq<u8>| !key_views(revoked@).contains(k)),
            key_views(out@) == w.take(i as int).filter(keep),
        decreases keys.len() - i,
    {
        let ghost before = out@;
        proof {
            assert(w.take(i + 1) =~= w.take(i as int).push(keys@[i as int]@));
            assert(w.take(i + 1).drop_last() =~= w.take(i as int));
            reveal(Seq::filter);
        }
        if !contains_key_bytes(revoked, &keys[i]) {
            out.push(keys[i]);
            assert(key_views(out@) =~= key_views(before).push(keys@[i as int]@));
        }
        i += 1;
    }
    assert(w.take(i as int) =~= w);
    out
}

// ── Laws ─────────────────────────────────────────────────────────────────────

/// Merging only ever appends: what was there stays in its place.
pub proof fn lemma_with_new_extends(base: Seq<Seq<u8>>, items: Seq<Seq<u8>>)
    ensures
        with_new(base, items).len() >= base.len(),
        with_new(base, items).take(base.len() as int) == base,
        with_new(base, items).len() == base.len() ==> with_new(base, items) == base,
    decreases items.len(),
{
    if items.len() > 0 {
        lemma_with_new_extends(base, items.drop_last());
        let b = with_new(base, items.drop_last());
        assert(with_new(base, items).take(base.len() as int) =~= b.take(base.len() as int));
    }
    assert(with_new(base, items).take(with_new(base, items).len() as int) =~= with_new(base, items));
}

/// A merge keeps every key of both sides and invents none.
pub proof fn law_merge_is_union(base: Seq<Seq<u8>>, items: Seq<Seq<u8>>, k: Seq<u8>)
    ensures
        with_new(base, items).contains(k) <==> base.contains(k) || items.contains(k),
    decreases items.len(),
{
    if items.len() > 0 {
        let b = with_new(base, items.drop_last());
        law_merge_is_union(base, items.drop_last(), k);
        let w = with_new(base, items);
        assert(items.drop_last().push(items.last()) =~= items);
        if items.contains(k) {
            let i = choose|i: int| 0 <= i < items.len() && items[i] == k;
            if i < items.len() - 1 {
                assert(items.drop_last()[i] == k);
            }
        }
        if items.drop_last().contains(k) {
            let i = choose|i: int| 0 <= i < items.drop_last().len() && items.drop_last()[i] == k;
            assert(items[i] == k);
        }
        if items.last() == k {
            assert(items[items.len() - 1] == k);
        }
        if b.contains(k) {
            let i = choose|i: int| 0 <= i < b.len() && b[i] == k;
            assert(w[i] == k);
        }
        if w.contains(k) {
            let i = choose|i: int| 0 <= i < w.len() && w[i] == k;
            if i < b.len() {
                assert(b[i] == k);
            }
        }
        if !b.contains(items.last()) {
            assert(w[w.len() - 1] == items.last());
        }
    }
}

/// Merging into a set without doubles gives a set without doubles.
pub proof fn law_merge_no_doubles(base: Seq<Seq<u8>>, items: Seq<Seq<u8>>)
    requires
        base.no_duplicates(),
    ensures
        with_new(base, items).no_duplicates(),
    decreases items.len(),
{
    if items.len() > 0 {
        law_merge_no_doubles(base, items.drop_last());
        let b = with_new(base, items.drop_last());
        if !b.contains(items.last()) {
            assert forall|i: int, j: int|
                0 <= i < b.len() + 1 && 0 <= j < b.len() + 1 && i != j implies b.push(
                items.last(),
            )[i] != b.push(items.last())[j] by {
                if i == b.len() {
                    assert(b.contains(b[j]));
                } else if j == b.len() {
                    assert(b.contains(b[i]));
                }
            }
        }
    }
}

proof fn lemma_flat_len(keys: Seq<Seq<u8>>)
    requires
        forall|i: int| 0 <= i < keys.len() ==> (#[trigger] keys[i]).len() == 32,
    ensures
        flat(keys).len() == 32 * keys.len(),
    decreases keys.len(),
{
    if keys.len() > 0 {
        lemma_flat_len(keys.drop_last());
        assert(keys.last() == keys[keys.len() - 1]);
    }
}

/// Reading keys written in a row gives those keys.
pub proof fn law_keys_round_trip(keys: Seq<Seq<u8>>)
    requires
        forall|i: int| 0 <= i < keys.len() ==> (#[trigger] keys[i]).len() == 32,
    ensures
        keys_in(flat(keys)) == keys,
    decreases keys.len(),
{
    lemma_flat_len(keys);
    let bytes = flat(keys);
    if keys.len() > 0 {
        let front = keys.drop_last();
        assert forall|i: int| 0 <= i < front.len() implies (#[trigger] front[i]).len() == 32 by {
            assert(front[i] == keys[i]);
        }
        law_keys_round_trip(front);
        lemma_flat_len(front);
        assert(keys.last().len() == 32) by {
            assert(keys.last() == keys[keys.len() - 1]);
        }
        assert forall|i: int| 0 <= i < keys.len() implies keys_in(bytes)[i] == keys[i] by {
            if i < front.len() {
                assert(keys_in(flat(front))[i] == front[i]);
                assert(bytes.subrange(32 * i, 32 * i + 32) =~= flat(front).subrange(
                    32 * i,
                    32 * i + 32,
                ));
            } else {
                assert(bytes.subrange(32 * i, 32 * i + 32) =~= keys.last());
            }
        }
    }
    assert(keys_in(bytes) =~= keys);
}

/// A rotation publishes the new key first and keeps every earlier one, so
/// what an old key signed stays verifiable through any number of rotations.
pub proof fn law_rotation_retains(current: Seq<u8>, existing: Seq<Seq<u8>>)
    requires
        current.len() == 32,
        forall|i: int| 0 <= i < existing.len() ==> (#[trigger] existing[i]).len() == 32,
    ensures
        keys_in(history(current, existing)).len() > 0,
        keys_in(history(current, existing))[0] == current,
        forall|k: Seq<u8>| #[trigger]
            keys_in(history(current, existing)).contains(k) <==> k == current || existing.contains(
                k,
            ),
        keys_in(history(current, existing)).no_duplicates(),
{
    let base = seq![current];
    let w = with_new(base, existing);
    assert forall|k: Seq<u8>| #[trigger] w.contains(k) <==> k == current || existing.contains(k) by {
        law_merge_is_union(base, existing, k);
        assert(base[0] == current);
        assert(base.contains(k) <==> k == current);
    }
    assert forall|i: int| 0 <= i < w.len() implies (#[trigger] w[i]).len() == 32 by {
        assert(w.contains(w[i]));
        if w[i] != current {
            let j = choose|j: int| 0 <= j < existing.len() && existing[j] == w[i];
            assert(existing[j].len() == 32);
        }
    }
    law_keys_round_trip(w);
    law_merge_no_doubles(base, existing);
    lemma_with_new_extends(base, existing);
    assert(w.take(1)[0] == w[0]);
}

/// What stays is what was there and is not to go.
pub proof fn law_without_takes_away(s: Seq<Seq<u8>>, p: Seq<Seq<u8>>, k: Seq<u8>)
    ensures
        without(s, p).contains(k) <==> s.contains(k) && !p.contains(k),
    decreases s.len(),
{
    reveal(Seq::filter);
    if s.len() > 0 {
        let rest = s.drop_last();
        law_without_takes_away(rest, p, k);
        let kept = without(s, p);
        let front = without(rest, p);
        if s.contains(k) {
            let i = choose|i: int| 0 <= i < s.len() && s[i] == k;
            if i < rest.len() {
                assert(rest[i] == k);
            }
        }
        if rest.contains(k) {
            let i = choose|i: int| 0 <= i < rest.len() && rest[i] == k;
            assert(s[i] == k);
        }
        assert(s[s.len() - 1] == s.last());
        if front.contains(k) {
            let i = choose|i: int| 0 <= i < front.len() && front[i] == k;
            assert(kept[i] == k);
        }
        if kept.contains(k) && !front.contains(k) {
            let i = choose|i: int| 0 <= i < kept.len() && kept[i] == k;
            if i < front.len() {
                assert(front[i] == k);
            }
        }
        if s.last() == k && !p.contains(k) {
            assert(kept[front.len() as int] == k);
        }
    }
}

/// A node that nothing was retained for has no keys.
pub proof fn law_unknown_node_has_no_keys(t: KeyTable, node: Seq<char>)
    ensures
        t.contains_key(node) ==> keys_of(t, node) == t[node],
        !t.contains_key(node) ==> keys_of(t, node) == Seq::<Seq<u8>>::empty(),
{
}

} // verus!
