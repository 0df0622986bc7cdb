//! Load marks: how full a node's signal handlers are, and whether it sheds.

use crate::kv::KvHandle;
use crate::node_id::{node_text, NodeId, NodeView};
use crate::store::Table;
use crate::text::join3;
use vstd::prelude::*;

verus! {

/// Prefix of the load marks: `sys/load/{node}/{kind}`.
pub const LOAD_PREFIX: &'static str = "sys/load/";

/// A node's load for one kind of signal. The fill ratio is held as the four
/// little-endian bytes of a single-precision number.
#[derive(Debug, Clone, Copy, PartialEq, Eq)]
pub struct LoadState {
    pub fill: [u8; 4],
    pub is_opaque: bool,
    pub written_at_ms: u64,
}

/// The bytes of the fill ratio one.
pub const FULL: [u8; 4] = [0, 0, 0x80, 0x3f];

/// The place of a fill ratio in the order of the numbers that it may be: of
/// two numbers the larger one has the larger place.
pub open spec fn fill_rank(fill: Seq<u8>) -> int {
    let bits = fill[0] + fill[1] * 0x100 + fill[2] * 0x1_0000 + fill[3] * 0x100_0000;
    if bits >= 0x8000_0000 {
        0xffff_ffff - bits
    } else {
        bits + 0x8000_0000
    }
}

/// The place of a fill ratio in the order of the numbers that it may be.
pub fn rank_of_fill(fill: &[u8; 4]) -> (r: u32)
    ensures
        r == fill_rank(fill@),
{
    let bits: u32 = fill[0] as u32 + fill[1] as u32 * 0x100 + fill[2] as u32 * 0x1_0000 + fill[3] as u32
        * 0x100_0000;
    if bits >= 0x8000_0000 {
        0xffff_ffff - bits
    } else {
        bits + 0x8000_0000
    }
}

/// Whether the bytes are those of no number.
pub open spec fn is_nan(fill: Seq<u8>) -> bool {
    (fill[3] as int % 0x80) * 0x100_0000 + fill[2] * 0x1_0000 + fill[1] * 0x100 + fill[0] > 0x7f80_0000
}

/// Whether the bytes are those of zero, with either sign.
pub open spec fn is_zero(fill: Seq<u8>) -> bool {
    fill[0] == 0 && fill[1] == 0 && fill[2] == 0 && fill[3] as int % 0x80 == 0
}

/// Whether the fill ratio `a` is at least `b`, as the numbers compare: what is no
/// number is not, and both zeros are alike.
pub open spec fn fill_at_least(a: Seq<u8>, b: Seq<u8>) -> bool {
    !is_nan(a) && !is_nan(b) && (fill_rank(a) >= fill_rank(b) || (is_zero(a) && is_zero(b)))
}

fn nan_bytes(fill: &[u8; 4]) -> (r: bool)
    ensures
        r == is_nan(fill@),
{
    let high: u32 = (fill[3] % 0x80) as u32;
    high * 0x100_0000 + fill[2] as u32 * 0x1_0000 + fill[1] as u32 * 0x100 + fill[0] as u32 > 0x7f80_0000
}

/// Whether the fill ratio `a` is at least `b`.
pub fn at_least_as_full(a: &[u8; 4], b: &[u8; 4]) -> (r: bool)
    ensures
        r == fill_at_least(a@, b@),
{
    let zeros = a[0] == 0 && a[1] == 0 && a[2] == 0 && a[3] % 0x80 == 0 && b[0] == 0 && b[1] == 0 && b[2] == 0
        && b[3] % 0x80 == 0;
    !nan_bytes(a) && !nan_bytes(b) && (rank_of_fill(a) >= rank_of_fill(b) || zeros)
}

/// The bytes that `bincode` writes for a load mark.
pub uninterp spec fn load_bytes(fill: Seq<u8>, is_opaque: bool, written_at_ms: u64) -> Seq<u8>;

/// The load mark that `bincode` reads from `bytes`, `None` where it finds
/// none.
pub uninterp spec fn load_parts(bytes: Seq<u8>) -> Option<(Seq<u8>, bool, u64)>;

/// `bincode::serde::encode_to_vec` of a load mark: the result is a function
/// of the mark, and reading it gives the mark back.
#[verifier::external_body]
fn encode_load(fill: [u8; 4], is_opaque: bool, written_at_ms: u64) -> (r: Vec<u8>)
    ensures
        r@ == load_bytes(fill@, is_opaque, written_at_ms),
        load_parts(r@) == Some((fill@, is_opaque, written_at_ms)),
{
    bincode::serde::encode_to_vec((fill, is_opaque, written_at_ms), bincode::config::standard())
        .unwrap_or_default()
}

/// `bincode::serde::decode_from_slice` of a load mark: the result is a
/// function of the bytes.
#[verifier::external_body]
fn decode_load(bytes: &Vec<u8>) -> (r: Option<([u8; 4], bool, u64)>)
    ensures
        r is Some <==> load_parts(bytes@) is Some,
        r matches Some(p) ==> load_parts(bytes@) == Some((p.0@, p.1, p.2)),
{
    bincode::serde::decode_from_slice(bytes, bincode::config::standard()).ok().map(|(v, _)| v)
}

/// The bytes of a load mark.
pub fn encode_load_state(s: &LoadState) -> (r: Vec<u8>)
    ensures
        r@ == load_bytes(s.fill@, s.is_opaque, s.written_at_ms),
        load_parts(r@) == Some((s.fill@, s.is_opaque, s.written_at_ms)),
{
    encode_load(s.fill, s.is_opaque, s.written_at_ms)
}

/// The load mark in `bytes`, `None` if there is none.
pub fn decode_load_state(bytes: &Vec<u8>) -> (r: Option<LoadState>)
    ensures
        r is Some <==> load_parts(bytes@) is Some,
        r matches Some(s) ==> load_parts(bytes@) == Some((s.fill@, s.is_opaque, s.written_at_ms)),
{
    match decode_load(bytes) {
        None => None,
        Some((fill, is_opaque, written_at_ms)) => Some(LoadState { fill, is_opaque, written_at_ms }),
    }
}

/// Whether `bytes` hold a mark of a shedding node that is no older than
/// `max_age_ms`.
pub open spec fn opaque_mark(bytes: Seq<u8>, now: u64, max_age_ms: u64) -> bool {
    match load_parts(bytes) {
        Some(p) => p.1 && now - p.2 <= max_age_ms,
        None => false,
    }
}

/// Whether `bytes` hold a mark of a shedding node that is no older than
/// `max_age_ms`.
pub fn is_opaque_mark(bytes: &Vec<u8>, now: u64, max_age_ms: u64) -> (r: bool)
    ensures
        r == opaque_mark(bytes@, now, max_age_ms),
{
    match decode_load_state(bytes) {
        None => false,
        Some(s) => s.is_opaque && now.saturating_sub(s.written_at_ms) <= max_age_ms,
    }
}

/// `sys/load/{node}/`.
pub open spec fn load_prefix_of(node: NodeView) -> Seq<char> {
    LOAD_PREFIX@ + node_text(node) + "/"@
}

/// Whether the table holds a mark by which `node` sheds, of whatever age.
pub open spec fn marked_opaque(t: Table, node: NodeView) -> bool {
    exists|k: Seq<char>|
        crate::text::has_prefix(k, load_prefix_of(node)) && (#[trigger] crate::store::live(t, k)
            matches Some(v) && load_parts(v) matches Some(p) && p.1)
}

/// Whether `node` sheds, by the marks in the table.
pub fn is_self_opaque(kv: &KvHandle, node: &NodeId) -> (r: bool)
    ensures
        r == marked_opaque(kv.table(), node@),
{
    let prefix = join3(LOAD_PREFIX, node.to_text().as_str(), "/");
    let found = kv.scan_prefix_with_ts(prefix.as_str());
    let mut i: usize = 0;
    while i < found.len()
        invariant
            i <= found.len(),
            crate::scan::lists_live_ts(found@, kv.table(), load_prefix_of(node@)),
            forall|j: int|
                0 <= j < i ==> !(load_parts((#[trigger] found@[j]).1@) matches Some(p) && p.1),
        decreases found.len() - i,
    {
        match decode_load_state(&found[i].1) {
            Some(s) => {
                if s.is_opaque {
                    assert(crate::store::live(kv.table(), found@[i as int].0@) == Some(
                        found@[i as int].1@,
                    ));
                    return true;
                }
            },
            None => {},
        }
        i += 1;
    }
    assert forall|k: Seq<char>|
        crate::text::has_prefix(k, load_prefix_of(node@)) && (#[trigger] crate::store::live(
            kv.table(),
            k,
        )) is Some implies !(load_parts(crate::store::live(kv.table(), k)->0) matches Some(p) && p.1) by {
        let j = choose|j: int| 0 <= j < found@.len() && #[trigger] found@[j].0@ == k;
        assert(found@[j].1@ == crate::store::live(kv.table(), k)->0);
    }
    false
}

/// Numbers that are not negative are ordered by their bytes from the highest down,
/// negative ones the other way round, and every negative one stands below.
pub proof fn law_fills_are_ordered_as_numbers(a: Seq<u8>, b: Seq<u8>)
    requires
        a.len() == 4,
        b.len() == 4,
        !is_nan(a),
        !is_nan(b),
    ensures
        a[3] < 0x80 && b[3] < 0x80 ==> (fill_at_least(a, b) <==> !bytes_below(a, b)),
        a[3] >= 0x80 && b[3] >= 0x80 ==> (fill_at_least(a, b) <==> !bytes_below(b, a)),
        a[3] < 0x80 && b[3] >= 0x80 ==> fill_at_least(a, b),
        a[3] >= 0x80 && b[3] < 0x80 ==> (fill_at_least(a, b) <==> is_zero(a) && is_zero(b)),
{
}

/// The number that the bytes of `a` spell, the last of them the highest, is the
/// smaller one.
pub open spec fn bytes_below(a: Seq<u8>, b: Seq<u8>) -> bool {
    a[3] < b[3] || (a[3] == b[3] && (a[2] < b[2] || (a[2] == b[2] && (a[1] < b[1] || (a[1] == b[1] && a[0]
        < b[0])))))
}

/// What is not a number is at least as full as nothing, and nothing as it.
pub proof fn law_no_number_compares_with_nothing(a: Seq<u8>, b: Seq<u8>)
    requires
        a.len() == 4,
        b.len() == 4,
        a[3] == 0x7f || a[3] == 0xff,
        a[2] > 0x80 || (a[2] == 0x80 && (a[1] > 0 || a[0] > 0)),
    ensures
        is_nan(a),
        !fill_at_least(a, b),
        !fill_at_least(b, a),
{
}

/// A mark counts exactly while it says that the node sheds and is no older than the
/// limit; one that cannot be read does not count.
pub proof fn law_recent_mark_counts(fill: Seq<u8>, opaque: bool, written: u64, bytes: Seq<u8>, now: u64, max_age_ms: u64)
    requires
        load_parts(bytes) == Some((fill, opaque, written)),
    ensures
        opaque_mark(bytes, now, max_age_ms) <==> opaque && now - written <= max_age_ms,
{
}

/// A node holds itself for shedding exactly if a mark of it for some kind says so.
pub proof fn law_own_mark_degrades(t: Table, node: NodeView)
    ensures
        marked_opaque(t, node) <==> exists|kind: Seq<char>|
            #[trigger] crate::store::live(t, "sys/load/"@ + node_text(node) + "/"@ + kind) is Some && ({
                let p = load_parts(crate::store::live(t, "sys/load/"@ + node_text(node) + "/"@ + kind)->0);
                p is Some && (p->0).1
            }),
{
    let lead = "sys/load/"@ + node_text(node) + "/"@;
    if marked_opaque(t, node) {
        let k = choose|k: Seq<char>|
            crate::text::has_prefix(k, load_prefix_of(node)) && (#[trigger] crate::store::live(t, k)
                matches Some(v) && load_parts(v) matches Some(p) && p.1);
        let kind = k.skip(lead.len() as int);
        assert(k =~= "sys/load/"@ + node_text(node) + "/"@ + kind);
        assert(crate::store::live(t, "sys/load/"@ + node_text(node) + "/"@ + kind) is Some);
    }
    assert forall|kind: Seq<char>|
        #[trigger] crate::store::live(t, "sys/load/"@ + node_text(node) + "/"@ + kind) is Some && ({
            let p = load_parts(crate::store::live(t, "sys/load/"@ + node_text(node) + "/"@ + kind)->0);
            p is Some && (p->0).1
        }) implies marked_opaque(t, node) by {
        let k = "sys/load/"@ + node_text(node) + "/"@ + kind;
        assert(k.take(lead.len() as int) =~= lead);
        assert(crate::text::has_prefix(k, load_prefix_of(node)));
    }
}

/// What is not a number has all bits of the exponent set, and some bit of the fraction.
pub proof fn law_no_number_has_a_fraction(fill: Seq<u8>)
    requires
        fill.len() == 4,
    ensures
        is_nan(fill) <==> (fill[3] == 0x7f || fill[3] == 0xff) && fill[2] >= 0x80 && (fill[2] > 0x80 || fill[1] > 0
            || fill[0] > 0),
        is_zero(fill) <==> fill[0] == 0 && fill[1] == 0 && fill[2] == 0 && (fill[3] == 0 || fill[3] == 0x80),
{
}

} // verus!
