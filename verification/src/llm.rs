//! Prompt skills: templates in the table, providers among the capabilities,
//! and the local registry of backends.

use crate::advertise::wrote_some;
use crate::capability::{cap_key_text, CapFilter, Capability, CapView, FilterView};
use crate::capcodec::entry_in;
use crate::json::{
    is_json, json_error, json_fault, json_map, json_members, json_members_at, json_quote, json_string,
    json_text_map, pair_views, read_text, text_at,
};
use crate::kv::{outcome_for, packed, wrote, KvHandle};
use crate::node_id::{node_text, NodeId};
use crate::peers::{peer_table, peers_get, peers_insert, peers_new, peers_remove, PeerMap};
use crate::resolve::{provider_reading, provider_views};
use crate::scan::{
    lemma_pick, lemma_picked_all, lemma_skip, lists_readings, picked, reading_at, readings_by_key, Reading,
};
use crate::store::live;
use crate::text::{behind, has_prefix, join2, join3, lemma_first_slash, split_once, strip_prefix};
use vstd::prelude::*;
use vstd::string::StrSliceExecFns;
use vstd::utf8::encode_utf8;

verus! {

/// Prefix of the templates: `prompts/{ns}/{name}`.
pub const PROMPTS_PREFIX: &'static str = "prompts/";

/// The kind of the requests that invoke a skill.
pub const LLM_INVOKE: &'static str = "llm.invoke";

/// How often a provider of a skill advertises it anew.
pub const SKILL_REFRESH_MS: u64 = 30_000;

/// Why a skill could not be used.
#[derive(Debug, Clone, PartialEq, Eq)]
pub enum PromptSkillError {
    /// Nobody provides the skill.
    NoProvider { ns: String, name: String },
    /// The provider did not reply in time.
    Timeout,
    /// The provider reported an error, or replied with something else.
    LlmError(String),
}

/// `prompts/{ns}/{name}`.
pub open spec fn prompt_key_text(ns: Seq<char>, name: Seq<char>) -> Seq<char> {
    PROMPTS_PREFIX@ + ns + "/"@ + name
}

/// The key of a template.
pub fn prompt_key(ns: &str, name: &str) -> (s: String)
    ensures
        s@ == prompt_key_text(ns@, name@),
{
    let head = join3(PROMPTS_PREFIX, ns, "/");
    join2(head.as_str(), name)
}

/// The skill that a key is about: what stands before and behind the first
/// slash, where the second part is not empty.
pub open spec fn prompt_named(k: Seq<char>) -> Option<(Seq<char>, Seq<char>)> {
    let rest = behind(k, PROMPTS_PREFIX@);
    match rest.index_of_first('/') {
        Some(i) => if rest.len() > i + 1 {
            Some((rest.take(i), rest.skip(i + 1)))
        } else {
            None
        },
        None => None,
    }
}

/// Whether the bytes can hold a template: a template is an object.
pub open spec fn is_template(bytes: Seq<u8>) -> bool {
    json_members_at(bytes, ""@) is Some
}

/// Whether the bytes can hold a template.
pub fn holds_template(bytes: &Vec<u8>) -> (r: bool)
    ensures
        r == is_template(bytes@),
        r ==> is_json(bytes@),
{
    json_members(bytes, "").is_some()
}

/// [`prompt_named`] as a reading of the table.
pub open spec fn prompt_reading() -> Reading<(Seq<char>, Seq<char>)> {
    |k: Seq<char>, v: Seq<u8>, ts: u64| prompt_named(k)
}

pub(crate) fn read_prompt_key(key: &String) -> (r: Option<(String, String)>)
    requires
        has_prefix(key@, PROMPTS_PREFIX@),
    ensures
        r is Some <==> prompt_named(key@) is Some,
        r matches Some(p) ==> prompt_named(key@) == Some((p.0@, p.1@)),
{
    let rest = match strip_prefix(key.as_str(), PROMPTS_PREFIX) {
        Some(s) => s,
        None => {
            return None;
        },
    };
    match split_once(rest.as_str(), '/') {
        None => {
            proof {
                rest@.index_of_first_ensures('/');
            }
            None
        },
        Some((ns, name)) => {
            proof {
                lemma_first_slash(ns@, name@);
                assert(rest@.skip(ns@.len() as int + 1) =~= name@);
            }
            if crate::text::same_text(name.as_str(), "") {
                proof {
                    reveal_strlit("");
                }
                None
            } else {
                proof {
                    reveal_strlit("");
                    if name@.len() == 0 {
                        assert(name@ =~= ""@);
                    }
                }
                Some((ns, name))
            }
        },
    }
}

/// Handle for prompt skills.
pub struct LlmHandle {
    pub kv: KvHandle,
    /// By the name of each skill that this node serves, the number of its
    /// registration.
    pub backends: papaya::HashMap<String, u64>,
    /// The number of the next registration.
    pub next_registration: u64,
    /// Whether the loop that serves the skills runs.
    pub dispatching: bool,
}

/// What a registration gives back.
pub struct SkillRegistration {
    /// The skill, `{ns}/{name}`.
    pub skill: String,
    /// By which the registration is taken back.
    pub registration: u64,
    /// The key of the advertisement.
    pub capability_key: String,
    /// Whether the serving loop has to be started now.
    pub start_dispatch: bool,
}

impl LlmHandle {
    pub open spec fn wf(&self) -> bool {
        self.kv.wf()
    }

    /// The skills that this node serves.
    pub open spec fn serving(&self) -> PeerMap {
        peer_table(self.backends)
    }

    /// A node that serves no skills.
    pub fn new(kv: KvHandle) -> (h: LlmHandle)
        requires
            kv.wf(),
        ensures
            h.wf(),
            h.kv == kv,
            h.serving() == PeerMap::empty(),
            h.next_registration == 0,
            !h.dispatching,
    {
        LlmHandle { kv, backends: peers_new(), next_registration: 0, dispatching: false }
    }

    /// Publishes a template, advertises the skill and registers its backend.
    /// The serving loop is started once.
    pub fn register_prompt_skill(&mut self, ns: &str, name: &str, template: Vec<u8>, now_ms: u64) -> (r: SkillRegistration)
        requires
            old(self).wf(),
            old(self).kv.clock + 1 < u64::MAX,
            packed(now_ms) + 1 < u64::MAX,
            old(self).next_registration < u64::MAX,
        ensures
            final(self).wf(),
            r.skill@ == ns@ + "/"@ + name@,
            r.registration == old(self).next_registration,
            final(self).next_registration == old(self).next_registration + 1,
            r.capability_key@ == cap_key_text("cap/"@, node_text(old(self).kv.node_id@), ns@, name@),
            r.start_dispatch == !old(self).dispatching,
            final(self).dispatching,
            final(self).serving() == old(self).serving().insert(r.skill@, r.registration),
            exists|mid: KvHandle|
                #[trigger] wrote(
                    old(self).kv,
                    mid,
                    prompt_key_text(ns@, name@),
                    Some(template@),
                    now_ms,
                    outcome_for(old(self).kv, prompt_key_text(ns@, name@)),
                ) && wrote_some(
                    mid,
                    final(self).kv,
                    r.capability_key@,
                    now_ms,
                    |v: Seq<u8>|
                        entry_in(v) == Some(
                            (
                                (CapView {
                                    namespace: ns@,
                                    name: name@,
                                    attributes: Seq::empty(),
                                    authorized_callers: Seq::empty(),
                                }),
                                30_000u64,
                            ),
                        ),
                ),
    {
        let key = prompt_key(ns, name);
        let ghost pre = self.kv;
        let _ = self.kv.set(key.as_str(), template, now_ms);
        let ghost mid = self.kv;
        assert(wrote(pre, mid, key@, Some(template@), now_ms, outcome_for(pre, key@)));
        let cap = Capability::new(ns, name);
        let capability_key = self.kv.advertise_capability(&cap, SKILL_REFRESH_MS, now_ms);
        proof {
            let f = |v: Seq<u8>| entry_in(v) == Some((cap@, SKILL_REFRESH_MS));
            let v = choose|v: Seq<u8>| #[trigger]
                wrote(mid, self.kv, capability_key@, Some(v), now_ms, outcome_for(mid, capability_key@)) && f(v);
            assert(f(v));
            assert(self.kv.wf());
        }
        let skill = join3(ns, "/", name);
        let registration: u64 = self.next_registration;
        self.next_registration = registration + 1;
        peers_insert(&mut self.backends, skill.clone(), registration);
        let start_dispatch = !self.dispatching;
        self.dispatching = true;
        SkillRegistration { skill, registration, capability_key, start_dispatch }
    }

    /// Takes a registration back. A later registration of the same skill
    /// stays.
    pub fn unregister_prompt_skill(&mut self, skill: &str, registration: u64) -> (removed: bool)
        ensures
            removed == (old(self).serving().contains_key(skill@) && old(self).serving()[skill@] == registration),
            final(self).serving() == (if removed {
                old(self).serving().remove(skill@)
            } else {
                old(self).serving()
            }),
            final(self).kv == old(self).kv,
            final(self).next_registration == old(self).next_registration,
            final(self).dispatching == old(self).dispatching,
    {
        match peers_get(&self.backends, skill) {
            Some(current) => {
                if current == registration {
                    peers_remove(&mut self.backends, skill);
                    true
                } else {
                    false
                }
            },
            None => false,
        }
    }

    /// Replaces a template. Every node that serves the skill reads it anew.
    pub fn update_prompt(&mut self, ns: &str, name: &str, template: Vec<u8>, now_ms: u64)
        requires
            old(self).wf(),
            old(self).kv.clock < u64::MAX,
        ensures
            final(self).wf(),
            wrote(
                old(self).kv,
                final(self).kv,
                prompt_key_text(ns@, name@),
                Some(template@),
                now_ms,
                outcome_for(old(self).kv, prompt_key_text(ns@, name@)),
            ),
            final(self).serving() == old(self).serving(),
    {
        let key = prompt_key(ns, name);
        let _ = self.kv.set(key.as_str(), template, now_ms);
    }

    /// The template of a skill as it was published, `None` if what stands there
    /// is no template.
    pub fn get_prompt(&self, ns: &str, name: &str) -> (r: Option<Vec<u8>>)
        ensures
            r is Some <==> (live(self.kv.table(), prompt_key_text(ns@, name@)) matches Some(v) && is_template(v)),
            r matches Some(v) ==> live(self.kv.table(), prompt_key_text(ns@, name@)) == Some(v@),
    {
        let key = prompt_key(ns, name);
        match self.kv.get(key.as_str()) {
            Some(v) => if holds_template(&v) {
                Some(v)
            } else {
                None
            },
            None => None,
        }
    }

    /// Every skill with a template in the table, once for each template, in no
    /// particular order.
    pub fn list_prompts(&self) -> (r: Vec<(String, String)>)
        ensures
            lists_readings(pair_views(r@), self.kv.table(), PROMPTS_PREFIX@, prompt_reading()),
    {
        let found = self.kv.scan_prefix_with_ts(PROMPTS_PREFIX);
        let ghost f = prompt_reading();
        let ghost mut src: Seq<int> = Seq::empty();
        let mut out: Vec<(String, String)> = Vec::new();
        let mut i: usize = 0;
        assert(pair_views(out@) =~= Seq::empty());
        while i < found.len()
            invariant
                i <= found.len(),
                f == prompt_reading(),
                crate::scan::lists_live_ts(found@, self.kv.table(), PROMPTS_PREFIX@),
                picked(found@, i as int, src, pair_views(out@), f),
            decreases found.len() - i,
        {
            assert(has_prefix(found@[i as int].0@, PROMPTS_PREFIX@));
            match read_prompt_key(&found[i].0) {
                Some(p) => {
                    proof {
                        lemma_pick(found@, i as int, src, pair_views(out@), f, (p.0@, p.1@));
                        src = src.push(i as int);
                        assert(pair_views(out@.push(p)) =~= pair_views(out@).push((p.0@, p.1@)));
                    }
                    out.push(p);
                },
                None => {
                    proof {
                        lemma_skip(found@, i as int, src, pair_views(out@), f);
                    }
                },
            }
            i += 1;
        }
        proof {
            lemma_picked_all(found@, self.kv.table(), PROMPTS_PREFIX@, src, pair_views(out@), f);
        }
        out
    }

    /// Deletes a template.
    pub fn delete_prompt(&mut self, ns: &str, name: &str, now_ms: u64)
        requires
            old(self).wf(),
            old(self).kv.clock < u64::MAX,
        ensures
            final(self).wf(),
            wrote(
                old(self).kv,
                final(self).kv,
                prompt_key_text(ns@, name@),
                None,
                now_ms,
                outcome_for(old(self).kv, prompt_key_text(ns@, name@)),
            ),
            final(self).serving() == old(self).serving(),
    {
        let key = prompt_key(ns, name);
        let _ = self.kv.delete(key.as_str(), now_ms);
    }

    /// Begins a call of a skill: some provider, and the request for it.
    pub fn plan_prompt_call(
        &self,
        ns: &str,
        name: &str,
        input: &str,
        context: &Vec<(String, String)>,
        now_ms: u64,
    ) -> (r: Result<(NodeId, Vec<u8>), PromptSkillError>)
        ensures
            r is Ok <==> crate::resolve::satisfied(
                self.kv.table(),
                (FilterView { namespace: ns@, name: name@, max_age_ms: None }),
                now_ms,
            ),
            r matches Ok((n, request)) ==> n.wf() && crate::advertise::node_provides(
                self.kv.table(),
                (FilterView { namespace: ns@, name: name@, max_age_ms: None }),
                now_ms,
                n@,
            ) && request@ == encode_utf8(invoke_json(ns@, name@, input@, pair_views(context@))),
            r matches Err(e) ==> (e matches PromptSkillError::NoProvider { ns: a, name: b } && a@ == ns@
                && b@ == name@),
    {
        let filter = CapFilter::new(ns, name);
        let mut providers = self.kv.resolve(&filter, now_ms);
        let ghost v = provider_views(providers@);
        let ghost f = provider_reading(filter@, None, now_ms);
        proof {
            crate::resolve::lemma_satisfied(v, self.kv.table(), filter@, now_ms);
        }
        if providers.len() == 0 {
            return Err(PromptSkillError::NoProvider { ns: ns.to_owned(), name: name.to_owned() });
        }
        proof {
            let ks = choose|ks: Seq<Seq<char>>| #[trigger]
                readings_by_key(v, ks, self.kv.table(), "cap/"@, f);
            assert(has_prefix(ks[0], "cap/"@) && reading_at(self.kv.table(), ks[0], f) == Some(v[0]));
            assert(v[0].0 == providers@[0].0@);
        }
        let target = providers[0].0.copy();
        Ok((target, write_invoke(ns, name, input, context).as_str().as_bytes_vec()))
    }
}

/// The request that invokes a skill.
pub open spec fn invoke_json(
    ns: Seq<char>,
    name: Seq<char>,
    input: Seq<char>,
    context: Seq<(Seq<char>, Seq<char>)>,
) -> Seq<char> {
    "{\"context\":"@ + json_text_map(context) + ",\"input\":"@ + json_string(input) + ",\"prompt\":"@
        + json_string(ns + "/"@ + name) + "}"@
}

/// Writes the request that invokes a skill.
pub fn write_invoke(ns: &str, name: &str, input: &str, context: &Vec<(String, String)>) -> (s: String)
    ensures
        s@ == invoke_json(ns@, name@, input@, pair_views(context@)),
{
    let skill = join3(ns, "/", name);
    let a = join3("{\"context\":", json_map(context).as_str(), ",\"input\":");
    let b = join3(a.as_str(), json_quote(input).as_str(), ",\"prompt\":");
    join3(b.as_str(), json_quote(skill.as_str()).as_str(), "}")
}

/// What a reply to a call of a skill says.
pub open spec fn skill_output(reply: Seq<u8>) -> Result<Seq<char>, Seq<char>> {
    if !is_json(reply) {
        Err(json_fault(reply)->0)
    } else {
        match text_at(reply, "/error"@) {
            Some(e) => Err(
                e + ": "@ + (match text_at(reply, "/detail"@) {
                    Some(d) => d,
                    None => ""@,
                }),
            ),
            None => match text_at(reply, "/output"@) {
                Some(o) => Ok(o),
                None => Err("missing output field"@),
            },
        }
    }
}

/// Ends a call of a skill: the output in the reply, or what went wrong.
/// `None` means that no reply came in time.
pub fn finish_prompt_call(reply: &Option<Vec<u8>>) -> (r: Result<String, PromptSkillError>)
    ensures
        match reply {
            None => r matches Err(e) && e is Timeout,
            Some(v) => match skill_output(v@) {
                Ok(o) => r matches Ok(s) && s@ == o,
                Err(m) => r matches Err(e) && (e matches PromptSkillError::LlmError(t) && t@ == m),
            },
        },
{
    let v = match reply {
        None => {
            return Err(PromptSkillError::Timeout);
        },
        Some(v) => v,
    };
    match json_error(v) {
        Some(m) => {
            return Err(PromptSkillError::LlmError(m));
        },
        None => {},
    }
    match read_text(v, "/error") {
        Some(e) => {
            let detail = match read_text(v, "/detail") {
                Some(d) => d,
                None => "".to_owned(),
            };
            return Err(PromptSkillError::LlmError(join3(e.as_str(), ": ", detail.as_str())));
        },
        None => {},
    }
    match read_text(v, "/output") {
        Some(o) => Ok(o),
        None => Err(PromptSkillError::LlmError("missing output field".to_owned())),
    }
}

/// Taking back an earlier registration of a skill does not touch the one that
/// replaced it.
pub proof fn law_newer_registration_stays(
    serving: PeerMap,
    skill: Seq<char>,
    earlier: u64,
    later: u64,
)
    requires
        earlier < later,
    ensures
        ({
            let now = serving.insert(skill, earlier).insert(skill, later);
            now.contains_key(skill) && now[skill] != earlier
        }),
{
}

/// A template is listed as soon as it is published. The namespace holds no
/// slash and the name is not empty.
pub proof fn law_published_prompt_is_listed(
    pre: KvHandle,
    post: KvHandle,
    ns: Seq<char>,
    name: Seq<char>,
    template: Seq<u8>,
    now_ms: u64,
    listed: Seq<(Seq<char>, Seq<char>)>,
)
    requires
        wrote(
            pre,
            post,
            prompt_key_text(ns, name),
            Some(template),
            now_ms,
            outcome_for(pre, prompt_key_text(ns, name)),
        ),
        !ns.contains('/'),
        name.len() > 0,
        lists_readings(listed, post.table(), PROMPTS_PREFIX@, prompt_reading()),
    ensures
        listed.contains((ns, name)),
{
    let k = prompt_key_text(ns, name);
    let f = prompt_reading();
    reveal_strlit("/");
    assert("/"@ =~= seq!['/']);
    assert(k.take(PROMPTS_PREFIX@.len() as int) =~= PROMPTS_PREFIX@);
    assert(k.skip(PROMPTS_PREFIX@.len() as int) =~= ns + seq!['/'] + name);
    lemma_first_slash(ns, name);
    assert((ns + seq!['/'] + name).skip(ns.len() as int + 1) =~= name);
    assert(reading_at(post.table(), k, f) == Some((ns, name)));
    let ks = choose|ks: Seq<Seq<char>>| #[trigger]
        readings_by_key(listed, ks, post.table(), PROMPTS_PREFIX@, f);
    assert(ks.contains(k));
    let i = choose|i: int| 0 <= i < ks.len() && ks[i] == k;
    assert(listed[i] == (ns, name));
}

/// A reply that is no document, or that names an error, is an error; otherwise what it
/// puts out is the result, and without that it is an error too.
pub proof fn law_reply_is_output_or_error(reply: Seq<u8>)
    ensures
        skill_output(reply) is Ok <==> is_json(reply) && text_at(reply, "/error"@) is None && text_at(
            reply,
            "/output"@,
        ) is Some,
        skill_output(reply) is Ok ==> Some(skill_output(reply)->Ok_0) == text_at(reply, "/output"@),
{
}

/// A prompt's key names its namespace and its name.
pub proof fn law_prompt_key_names_the_prompt(ns: Seq<char>, name: Seq<char>)
    requires
        !ns.contains('/'),
        name.len() > 0,
    ensures
        prompt_named(prompt_key_text(ns, name)) == Some((ns, name)),
{
    reveal_strlit("/");
    let rest = behind(prompt_key_text(ns, name), PROMPTS_PREFIX@);
    assert(rest =~= ns + seq!['/'] + name);
    crate::text::lemma_first_slash(ns, name);
    assert(rest.skip((ns.len() + 1) as int) =~= name);
}

/// A key without a name behind the namespace is no prompt's.
pub proof fn law_prompt_has_a_name(ns: Seq<char>)
    requires
        !ns.contains('/'),
    ensures
        prompt_named("prompts/"@ + ns) is None,
        prompt_named("prompts/"@ + ns + "/"@) is None,
{
    reveal_strlit("/");
    let a = behind("prompts/"@ + ns, PROMPTS_PREFIX@);
    assert(a =~= ns);
    a.index_of_first_ensures('/');
    let b = behind("prompts/"@ + ns + "/"@, PROMPTS_PREFIX@);
    assert(b =~= ns + seq!['/'] + Seq::<char>::empty());
    crate::text::lemma_first_slash(ns, Seq::empty());
}

} // verus!
