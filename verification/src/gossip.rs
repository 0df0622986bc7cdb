//! Which peers a frame is forwarded to.

use crate::groups::{group_member_set, member_texts};
use crate::kv::KvHandle;
use crate::node_id::{node_text, NodeId};
use crate::store::Table;
use crate::text::views;
use crate::textset::{set_contains, set_count, set_extend, set_items, set_new, text_set};
use crate::wire::{hash_text, id_hash, text_hash, ForwardHint};
use vstd::prelude::*;

verus! {

/// How many peers outside a group also get a frame meant for the group.
pub const EPIDEMIC_K: usize = 3;

/// Which peers a shard forwards to: all bootstrap peers, and as many of the
/// known peers as still fit under `max`.
pub open spec fn target_texts(boot: Seq<Seq<char>>, known: Seq<Seq<char>>, max: int) -> Set<Seq<char>> {
    let b = boot.to_set();
    let room = if max > b.len() {
        max - b.len()
    } else {
        0
    };
    b.union(known.take(if room < known.len() {
        room
    } else {
        known.len() as int
    }).to_set())
}

/// The peers that a shard forwards to.
pub fn forwarding_targets(
    bootstrap: &Vec<String>,
    known: &Vec<String>,
    max_forwarding_peers: usize,
) -> (targets: ahash::AHashSet<String>)
    ensures
        text_set(targets) == target_texts(views(bootstrap@), views(known@), max_forwarding_peers as int),
{
    let mut targets = set_new();
    set_extend(&mut targets, bootstrap, bootstrap.len());
    proof {
        assert(views(bootstrap@).take(bootstrap@.len() as int) =~= views(bootstrap@));
        assert(text_set(targets) =~= views(bootstrap@).to_set());
    }
    let n: usize = set_count(&targets);
    let room: usize = max_forwarding_peers.saturating_sub(n);
    let k: usize = if room < known.len() {
        room
    } else {
        known.len()
    };
    set_extend(&mut targets, known, k);
    targets
}

/// Whether `peer` may get a frame that came from `sender_hash`.
pub open spec fn not_sender(peer: Seq<char>, sender_hash: u64) -> bool {
    text_hash(peer) != sender_hash
}

/// The items of `v` whose membership in `members` is `inside`, without the
/// sender.
fn select(
    v: &Vec<String>,
    members: &ahash::AHashSet<String>,
    inside: bool,
    sender_hash: u64,
) -> (out: Vec<String>)
    requires
        views(v@).no_duplicates(),
    ensures
        views(out@).no_duplicates(),
        forall|x: Seq<char>| #[trigger]
            views(out@).contains(x) <==> views(v@).contains(x) && not_sender(x, sender_hash)
                && text_set(*members).contains(x) == inside,
{
    let mut out: Vec<String> = Vec::new();
    let ghost mut src: Seq<int> = Seq::empty();
    let mut i: usize = 0;
    while i < v.len()
        invariant
            i <= v.len(),
            src.len() == out@.len(),
            forall|j: int|
                0 <= j < src.len() ==> 0 <= #[trigger] src[j] < i && out@[j]@ == v@[src[j]]@
                    && not_sender(out@[j]@, sender_hash) && text_set(*members).contains(out@[j]@)
                    == inside,
            forall|j: int, k: int| 0 <= j < k < src.len() ==> src[j] < src[k],
            forall|a: int|
                0 <= a < i && not_sender((#[trigger] v@[a])@, sender_hash) && text_set(
                    *members,
                ).contains(v@[a]@) == inside ==> src.contains(a),
        decreases v.len() - i,
    {
        let ghost old_src = src;
        let ghost old_out = out@;
        let is_member = set_contains(members, v[i].as_str());
        if hash_text(v[i].as_str()) != sender_hash && is_member == inside {
            out.push(v[i].clone());
            proof {
                src = src.push(i as int);
                assert(src[src.len() - 1] == i);
                assert forall|a: int| old_src.contains(a) implies src.contains(a) by {
                    let j = choose|j: int| 0 <= j < old_src.len() && old_src[j] == a;
                    assert(src[j] == a);
                }
                assert forall|j: int| 0 <= j < src.len() implies 0 <= #[trigger] src[j] < i + 1
                    && out@[j]@ == v@[src[j]]@ && not_sender(out@[j]@, sender_hash) && text_set(
                    *members,
                ).contains(out@[j]@) == inside by {
                    if j < old_src.len() {
                        assert(src[j] == old_src[j]);
                        assert(out@[j] == old_out[j]);
                    }
                }
            }
        }
        i += 1;
    }
    proof {
        let w = views(out@);
        assert forall|a: int, b: int| 0 <= a < w.len() && 0 <= b < w.len() && a != b implies w[a]
            != w[b] by {
            assert(src[a] != src[b]) by {
                if a < b {
                    assert(src[a] < src[b]);
                } else {
                    assert(src[b] < src[a]);
                }
            }
            assert(views(v@)[src[a]] != views(v@)[src[b]]);
        }
        assert forall|x: Seq<char>| #[trigger]
            w.contains(x) <==> views(v@).contains(x) && not_sender(x, sender_hash) && text_set(
                *members,
            ).contains(x) == inside by {
            if w.contains(x) {
                let j = choose|j: int| 0 <= j < w.len() && w[j] == x;
                assert(views(v@)[src[j]] == x);
            }
            if views(v@).contains(x) && not_sender(x, sender_hash) && text_set(*members).contains(x)
                == inside {
                let a = choose|a: int| 0 <= a < views(v@).len() && views(v@)[a] == x;
                assert(v@[a]@ == x);
                assert(src.contains(a));
                let j = choose|j: int| 0 <= j < src.len() && src[j] == a;
                assert(w[j] == x);
            }
        }
    }
    out
}

/// How many peers outside the group get a frame when `n` are left.
pub open spec fn epidemic_count(n: int) -> int {
    if n < EPIDEMIC_K {
        n
    } else {
        EPIDEMIC_K as int
    }
}

/// The peers that follow position `start` in `v`, going round, at most
/// [`EPIDEMIC_K`] of them.
pub fn rotation(v: &Vec<String>, start: usize) -> (out: Vec<String>)
    requires
        start < v@.len(),
    ensures
        out@.len() == epidemic_count(v@.len() as int),
        forall|i: int| 0 <= i < out@.len() ==> (#[trigger] out@[i])@ == v@[(start + i) % v@.len() as int]@,
{
    let k: usize = if v.len() < EPIDEMIC_K {
        v.len()
    } else {
        EPIDEMIC_K
    };
    let mut out: Vec<String> = Vec::new();
    let mut at: usize = start;
    let mut i: usize = 0;
    proof {
        vstd::arithmetic::div_mod::lemma_small_mod(start as nat, v@.len());
    }
    while i < k
        invariant
            i <= k <= v@.len(),
            start < v@.len(),
            at < v@.len(),
            at == (start + i) % v@.len() as int,
            out@.len() == i,
            forall|j: int|
                0 <= j < i ==> (#[trigger] out@[j])@ == v@[(start + j) % v@.len() as int]@,
        decreases k - i,
    {
        out.push(v[at].clone());
        let next: usize = if at == v.len() - 1 {
            0
        } else {
            at + 1
        };
        proof {
            vstd::arithmetic::div_mod::lemma_add_mod_noop(start + i, 1, v@.len() as int);
            if at + 1 == v@.len() {
                vstd::arithmetic::div_mod::lemma_mod_self_0(v@.len() as int);
            } else {
                vstd::arithmetic::div_mod::lemma_small_mod((at + 1) as nat, v@.len());
            }
            vstd::arithmetic::div_mod::lemma_add_mod_noop_right(1, start + i, v@.len() as int);
        }
        at = next;
        i += 1;
    }
    out
}

/// `fastrand::usize(..n)`: some number below `n`; which one is left to
/// chance.
#[verifier::external_body]
pub(crate) fn random_below(n: usize) -> (r: usize)
    requires
        n > 0,
    ensures
        r < n,
{
    fastrand::usize(..n)
}

/// What a forwarding decision promises: `out` names each recipient once, and
/// nobody but a target that is not the sender; who of them, depends on the
/// hint.
pub open spec fn forwards(
    out: Seq<Seq<char>>,
    targets: Set<Seq<char>>,
    t: Table,
    hint: ForwardHint,
    sender_hash: u64,
    group_aware: bool,
) -> bool {
    let eligible = |x: Seq<char>| targets.contains(x) && not_sender(x, sender_hash);
    &&& out.no_duplicates()
    &&& forall|x: Seq<char>| #[trigger] out.contains(x) ==> eligible(x)
    &&& (!group_aware || hint is All) ==> forall|x: Seq<char>| eligible(x) ==> #[trigger] out.contains(x)
    &&& (group_aware && hint is Individual) ==> forall|x: Seq<char>| #[trigger]
        out.contains(x) <==> eligible(x) && x == node_text(hint->Individual_0@)
    &&& (group_aware && hint is Group) ==> {
        let members = member_texts(t, hint->Group_0@);
        let inside = Set::new(|x: Seq<char>| eligible(x) && members.contains(x));
        let outside = Set::new(|x: Seq<char>| eligible(x) && !members.contains(x));
        &&& outside.finite()
        &&& forall|x: Seq<char>| inside.contains(x) ==> #[trigger] out.contains(x)
        &&& out.to_set().intersect(outside).len() == epidemic_count(outside.len() as int)
    }
}

/// Decides who of `targets` gets a frame that came from `sender_hash`.
pub fn forward_recipients(
    targets: &ahash::AHashSet<String>,
    kv: &KvHandle,
    hint: &ForwardHint,
    sender_hash: u64,
    group_aware: bool,
) -> (out: Vec<String>)
    ensures
        forwards(
            views(out@),
            text_set(*targets),
            kv.table(),
            *hint,
            sender_hash,
            group_aware,
        ),
{
    let all = set_items(targets);
    let ghost tset = text_set(*targets);
    let ghost eligible = |x: Seq<char>| tset.contains(x) && not_sender(x, sender_hash);
    proof {
        crate::textset::lemma_listing_len(all@, tset);
        assert forall|x: Seq<char>| #[trigger] views(all@).contains(x) <==> tset.contains(x) by {
            assert(views(all@).to_set().contains(x) <==> views(all@).contains(x));
        }
    }
    let nobody = set_new();
    if !group_aware {
        return select(&all, &nobody, false, sender_hash);
    }
    match hint {
        ForwardHint::All => select(&all, &nobody, false, sender_hash),
        ForwardHint::Individual(target) => {
            let mut out: Vec<String> = Vec::new();
            let text = target.to_text();
            if target.id_hash() != sender_hash && set_contains(targets, text.as_str()) {
                out.push(text);
                assert(views(out@) =~= seq![node_text(target@)]);
                assert(views(out@)[0] == node_text(target@));
            }
            out
        },
        ForwardHint::Group(name) => {
            let members = group_member_set(kv, name.as_str());
            let mut out = select(&all, &members, true, sender_hash);
            let mut others = select(&all, &members, false, sender_hash);
            let ghost first = views(out@);
            let ghost rest = views(others@);
            let ghost inside = Set::new(|x: Seq<char>| eligible(x) && text_set(members).contains(x));
            let ghost outside = Set::new(|x: Seq<char>| eligible(x) && !text_set(members).contains(x));
            proof {
                assert(rest.to_set() =~= outside) by {
                    assert forall|x: Seq<char>| rest.to_set().contains(x) <==> outside.contains(x) by {
                        assert(rest.to_set().contains(x) <==> rest.contains(x));
                    }
                }
                rest.unique_seq_to_set();
            }
            if others.len() > 0 {
                let start: usize = random_below(others.len());
                let mut picked = rotation(&others, start);
                let ghost p = views(picked@);
                out.append(&mut picked);
                proof {
                    lemma_rotation_distinct(rest, p, start as int);
                    assert(views(out@) =~= first + p);
                    lemma_pick(first, p, inside, outside, rest);
                }
            } else {
                proof {
                    assert(first.to_set().intersect(outside) =~= Set::<Seq<char>>::empty()) by {
                        assert forall|x: Seq<char>| !first.to_set().intersect(outside).contains(x) by {
                            if first.contains(x) {
                                assert(text_set(members).contains(x));
                            }
                        }
                    }
                }
            }
            out
        },
    }
}

/// A rotation of at most as many places as there are names names nobody
/// twice, and only names of the list.
proof fn lemma_rotation_distinct(rest: Seq<Seq<char>>, p: Seq<Seq<char>>, start: int)
    requires
        rest.no_duplicates(),
        0 <= start < rest.len(),
        p.len() <= rest.len(),
        forall|i: int| 0 <= i < p.len() ==> #[trigger] p[i] == rest[(start + i) % rest.len() as int],
    ensures
        p.no_duplicates(),
        forall|i: int| 0 <= i < p.len() ==> rest.contains(#[trigger] p[i]),
{
    let n = rest.len() as int;
    assert forall|i: int| 0 <= i < p.len() implies rest.contains(#[trigger] p[i]) by {
        vstd::arithmetic::div_mod::lemma_mod_bound(start + i, n);
        assert(rest[(start + i) % n] == p[i]);
    }
    assert forall|i: int, j: int| 0 <= i < p.len() && 0 <= j < p.len() && i != j implies p[i]
        != p[j] by {
        vstd::arithmetic::div_mod::lemma_mod_bound(start + i, n);
        vstd::arithmetic::div_mod::lemma_mod_bound(start + j, n);
        assert((start + i) % n != (start + j) % n) by {
            lemma_mod_step(start + i, n, start, i);
            lemma_mod_step(start + j, n, start, j);
        }
    }
}

proof fn lemma_mod_step(x: int, n: int, start: int, i: int)
    requires
        x == start + i,
        0 <= start < n,
        0 <= i < n,
    ensures
        x % n == (if start + i < n {
            start + i
        } else {
            start + i - n
        }),
{
    if start + i < n {
        vstd::arithmetic::div_mod::lemma_small_mod(x as nat, n as nat);
    } else {
        vstd::arithmetic::div_mod::lemma_mod_add_multiples_vanish(x - n, n);
        vstd::arithmetic::div_mod::lemma_small_mod((x - n) as nat, n as nat);
    }
}

proof fn lemma_pick(
    first: Seq<Seq<char>>,
    p: Seq<Seq<char>>,
    inside: Set<Seq<char>>,
    outside: Set<Seq<char>>,
    rest: Seq<Seq<char>>,
)
    requires
        first.no_duplicates(),
        p.no_duplicates(),
        rest.to_set() == outside,
        inside.disjoint(outside),
        forall|x: Seq<char>| #[trigger] first.contains(x) <==> inside.contains(x),
        forall|i: int| 0 <= i < p.len() ==> rest.contains(#[trigger] p[i]),
    ensures
        (first + p).no_duplicates(),
        forall|x: Seq<char>| #[trigger] (first + p).contains(x) ==> inside.contains(x)
            || outside.contains(x),
        forall|x: Seq<char>| inside.contains(x) ==> #[trigger] (first + p).contains(x),
        (first + p).to_set().intersect(outside).len() == p.len(),
{
    let all = first + p;
    assert forall|x: Seq<char>| p.contains(x) implies outside.contains(x) by {
        let i = choose|i: int| 0 <= i < p.len() && p[i] == x;
        assert(rest.contains(p[i]));
        assert(rest.to_set().contains(x));
    }
    assert forall|i: int, j: int| 0 <= i < all.len() && 0 <= j < all.len() && i != j implies all[i]
        != all[j] by {
        let f = first.len() as int;
        if i < f && j >= f {
            assert(first.contains(all[i]));
            assert(p[j - f] == all[j]);
            assert(p.contains(all[j]));
        } else if i >= f && j < f {
            assert(first.contains(all[j]));
            assert(p[i - f] == all[i]);
            assert(p.contains(all[i]));
        } else if i >= f {
            assert(p[i - f] != p[j - f]);
        }
    }
    assert forall|x: Seq<char>| #[trigger] all.contains(x) <==> first.contains(x) || p.contains(x) by {
        if all.contains(x) {
            let i = choose|i: int| 0 <= i < all.len() && all[i] == x;
            if i < first.len() {
                assert(first[i] == x);
            } else {
                assert(p[i - first.len()] == x);
            }
        }
        if first.contains(x) {
            let i = choose|i: int| 0 <= i < first.len() && first[i] == x;
            assert(all[i] == x);
        }
        if p.contains(x) {
            let i = choose|i: int| 0 <= i < p.len() && p[i] == x;
            assert(all[i + first.len()] == x);
        }
    }
    assert(all.to_set().intersect(outside) =~= p.to_set()) by {
        assert forall|x: Seq<char>| all.to_set().intersect(outside).contains(x)
            <==> p.to_set().contains(x) by {
            if all.contains(x) && outside.contains(x) {
                if first.contains(x) {
                    assert(inside.contains(x));
                }
            }
        }
    }
    p.unique_seq_to_set();
}

// ── Sending to one peer ──────────────────────────────────────────────────────

/// What a peer's writer did with a frame.
#[derive(Debug, Clone, Copy, PartialEq, Eq, Structural)]
pub enum SendResult {
    Sent,
    Full,
    Closed,
}

/// What to do after an attempt to hand a frame to a peer's writer.
#[derive(Debug, Clone, Copy, PartialEq, Eq, Structural)]
pub enum SendStep {
    /// Nothing more.
    Done,
    /// The frame is lost: count it.
    CountDrop,
    /// Start a new writer and try once more.
    RespawnAndRetry,
}

/// Decides what follows an attempt; only the first attempt is repeated.
pub fn after_send(r: SendResult, first_attempt: bool) -> (step: SendStep)
    ensures
        r == SendResult::Sent ==> step == SendStep::Done,
        r == SendResult::Full ==> step == SendStep::CountDrop,
        r == SendResult::Closed && first_attempt ==> step == SendStep::RespawnAndRetry,
        r == SendResult::Closed && !first_attempt ==> step == SendStep::Done,
{
    match r {
        SendResult::Sent => SendStep::Done,
        SendResult::Full => SendStep::CountDrop,
        SendResult::Closed => if first_attempt {
            SendStep::RespawnAndRetry
        } else {
            SendStep::Done
        },
    }
}

// ── Laws ─────────────────────────────────────────────────────────────────────

/// A frame is only sent to targets, never back to its sender, and to each once.
pub proof fn law_frame_does_not_go_back(
    out: Seq<Seq<char>>,
    targets: Set<Seq<char>>,
    t: Table,
    hint: ForwardHint,
    sender_hash: u64,
    group_aware: bool,
    i: int,
    j: int,
)
    requires
        forwards(out, targets, t, hint, sender_hash, group_aware),
        0 <= i < j < out.len(),
    ensures
        targets.contains(out[i]),
        text_hash(out[i]) != sender_hash,
        out[i] != out[j],
{
    assert(out.contains(out[i]));
}

/// A frame for everybody, and every frame where groups are not minded, goes to all
/// targets but its sender.
pub proof fn law_frame_for_all_reaches_all(
    out: Seq<Seq<char>>,
    targets: Set<Seq<char>>,
    t: Table,
    hint: ForwardHint,
    sender_hash: u64,
    group_aware: bool,
    x: Seq<char>,
)
    requires
        forwards(out, targets, t, hint, sender_hash, group_aware),
        !group_aware || hint is All,
        targets.contains(x),
        text_hash(x) != sender_hash,
    ensures
        out.contains(x),
{
}

/// A frame for one node goes to that node alone.
pub proof fn law_frame_for_one_goes_to_one(
    out: Seq<Seq<char>>,
    targets: Set<Seq<char>>,
    t: Table,
    node: NodeId,
    sender_hash: u64,
    x: Seq<char>,
)
    requires
        forwards(out, targets, t, ForwardHint::Individual(node), sender_hash, true),
    ensures
        out.contains(x) <==> x == node_text(node@) && targets.contains(x) && text_hash(x) != sender_hash,
{
}

/// A frame for a group goes to every target that is a member, and to as many others
/// as there are, up to three.
pub proof fn law_group_frame_reaches_the_members(
    out: Seq<Seq<char>>,
    targets: Set<Seq<char>>,
    t: Table,
    group: String,
    sender_hash: u64,
    x: Seq<char>,
)
    requires
        forwards(out, targets, t, ForwardHint::Group(group), sender_hash, true),
    ensures
        targets.contains(x) && text_hash(x) != sender_hash && member_texts(t, group@).contains(x) ==> out.contains(x),
        ({
            let others = Set::new(
                |y: Seq<char>| targets.contains(y) && text_hash(y) != sender_hash && !member_texts(t, group@).contains(y),
            );
            let told = out.to_set().intersect(others).len();
            (others.len() <= 3 ==> told == others.len()) && (others.len() > 3 ==> told == 3)
        }),
{
    let members = member_texts(t, group@);
    let eligible = |y: Seq<char>| targets.contains(y) && not_sender(y, sender_hash);
    let inside = Set::new(|y: Seq<char>| eligible(y) && members.contains(y));
    let outside = Set::new(|y: Seq<char>| eligible(y) && !members.contains(y));
    let others = Set::new(
        |y: Seq<char>| targets.contains(y) && text_hash(y) != sender_hash && !member_texts(t, group@).contains(y),
    );
    assert(others =~= outside);
    if targets.contains(x) && text_hash(x) != sender_hash && members.contains(x) {
        assert(inside.contains(x));
    }
}

/// Frames are forwarded to all bootstrap peers, and to known peers in their order as
/// far as there is room beside the bootstrap peers.
pub proof fn law_bootstrap_peers_come_first(boot: Seq<Seq<char>>, known: Seq<Seq<char>>, max: int, i: int)
    requires
        max >= 0,
    ensures
        forall|x: Seq<char>| #[trigger] boot.contains(x) ==> target_texts(boot, known, max).contains(x),
        0 <= i < known.len() && i + boot.to_set().len() < max ==> target_texts(boot, known, max).contains(known[i]),
        forall|x: Seq<char>| #[trigger]
            target_texts(boot, known, max).contains(x) ==> boot.contains(x) || known.contains(x),
        max <= boot.to_set().len() ==> target_texts(boot, known, max) == boot.to_set(),
{
    let b = boot.to_set();
    let room = if max > b.len() {
        max - b.len()
    } else {
        0
    };
    let n = if room < known.len() {
        room
    } else {
        known.len() as int
    };
    if 0 <= i < known.len() && i + b.len() < max {
        assert(known.take(n)[i] == known[i]);
        assert(known.take(n).contains(known[i]));
    }
    assert forall|x: Seq<char>| #[trigger] target_texts(boot, known, max).contains(x) implies boot.contains(x)
        || known.contains(x) by {
        if known.take(n).contains(x) {
            let j = choose|j: int| 0 <= j < known.take(n).len() && known.take(n)[j] == x;
            assert(known[j] == x);
        }
    }
    if max <= b.len() {
        assert(known.take(0).to_set() =~= Set::empty());
        assert(target_texts(boot, known, max) =~= b);
    }
}

} // verus!
