//! The adapter for agents outside the mesh: the card that says what skills
//! there are, and the tasks that they send.

use crate::capability::{cap_key_parts, is_cap_locality_key, locality_key, parse_cap_key, Capability, FilterView};
use crate::capcodec::cap_in;
use crate::json::{
    comma_joined, items_at, join_commas, json_at, json_or, json_quote, json_string, json_value_at,
    read_items, read_json_or, read_text, read_text_or_empty, rpc_error, rpc_error_json, rpc_result,
    rpc_result_json, text_at, text_or_empty, ALREADY_COMPLETED, INTERNAL_ERROR, METHOD_NOT_FOUND,
    NOT_FOUND,
};
use crate::kv::{hlc_next, KvHandle};
use crate::node_id::{node_text, NodeId, NodeView};
use crate::num::sat_sub_spec;
use crate::pairs::lemma_push_new;
use crate::resolve::{first_provider, listed_provider};
use crate::scan::{lemma_read_all, lemma_read_step, read_so_far, reading_set, Reading};
use crate::store::Table;
use crate::text::{
    contains_text, hex16, hex_fixed, join2, join3, lemma_first_slash, same_text, split_once, views,
};
use crate::wire::fresh_nonce;
use vstd::prelude::*;
use vstd::string::StrSliceExecFns;
use vstd::utf8::{decode_utf8, encode_utf8, valid_utf8};

verus! {

/// The kind of the requests that invoke a skill.
pub const SKILL_INVOKE: &'static str = "skill.invoke";

/// How long a task is kept.
pub const TASK_TTL_MS: u64 = 300_000;

// ── Tasks ────────────────────────────────────────────────────────────────────

/// A piece of an artifact.
#[derive(Debug, Clone, PartialEq, Eq)]
pub enum Part {
    Text { text: String },
}

/// What a task produced.
#[derive(Debug, Clone, PartialEq, Eq)]
pub struct Artifact {
    pub parts: Vec<Part>,
}

/// How far a task is.
#[derive(Debug, Clone, PartialEq, Eq)]
pub struct TaskStatus {
    pub state: String,
}

/// A task that an outside agent has sent.
#[derive(Debug, Clone, PartialEq, Eq)]
pub struct Task {
    pub id: String,
    pub status: TaskStatus,
    pub artifacts: Vec<Artifact>,
}

/// A task and when it was made.
#[derive(Debug, Clone, PartialEq, Eq)]
pub struct A2aTask {
    pub task: Task,
    pub created_at_ms: u64,
}

/// The model of a [`Task`]: the texts of each artifact stand for it.
#[verifier::ext_equal]
pub struct TaskView {
    pub id: Seq<char>,
    pub state: Seq<char>,
    pub artifacts: Seq<Seq<Seq<char>>>,
}

impl Part {
    pub open spec fn text(&self) -> Seq<char> {
        match self {
            Part::Text { text } => text@,
        }
    }
}

impl View for Artifact {
    type V = Seq<Seq<char>>;

    open spec fn view(&self) -> Seq<Seq<char>> {
        self.parts@.map_values(|p: Part| p.text())
    }
}

impl View for Task {
    type V = TaskView;

    open spec fn view(&self) -> TaskView {
        TaskView {
            id: self.id@,
            state: self.status.state@,
            artifacts: self.artifacts@.map_values(|a: Artifact| a@),
        }
    }
}

/// The model of an [`A2aTask`].
pub type TaskEntry = (TaskView, u64);

/// The model of the tasks that are kept.
pub type TaskMap = Map<Seq<char>, TaskEntry>;

impl View for A2aTask {
    type V = TaskEntry;

    open spec fn view(&self) -> TaskEntry {
        (self.task@, self.created_at_ms)
    }
}

/// The tasks that a table holds, by their ids.
pub uninterp spec fn task_table(m: papaya::HashMap<String, A2aTask>) -> Map<Seq<char>, TaskEntry>;

/// `papaya::HashMap::new`: a map without entries.
#[verifier::external_body]
fn tasks_new() -> (m: papaya::HashMap<String, A2aTask>)
    ensures
        task_table(m) == TaskMap::empty(),
{
    papaya::HashMap::new()
}

/// `papaya::HashMapRef::get`: the task with this id, if there is one.
#[verifier::external_body]
fn tasks_get(m: &papaya::HashMap<String, A2aTask>, id: &str) -> (r: Option<A2aTask>)
    ensures
        r is Some <==> task_table(*m).contains_key(id@),
        r matches Some(t) ==> t@ == task_table(*m)[id@],
{
    m.pin().get(id).cloned()
}

/// `papaya::HashMapRef::insert`: `id` maps to `task` afterwards; no other key
/// changes.
#[verifier::external_body]
fn tasks_insert(m: &mut papaya::HashMap<String, A2aTask>, id: String, task: A2aTask)
    ensures
        task_table(*final(m)) == task_table(*old(m)).insert(id@, task@),
{
    m.pin().insert(id, task);
}

/// `papaya::HashMapRef::remove`: `id` has no entry afterwards; no other key
/// changes.
#[verifier::external_body]
fn tasks_remove(m: &mut papaya::HashMap<String, A2aTask>, id: &str)
    ensures
        task_table(*final(m)) == task_table(*old(m)).remove(id@),
{
    m.pin().remove(id);
}

/// `papaya::HashMapRef::iter`: every id once with the time its task was made,
/// in no particular order.
#[verifier::external_body]
fn tasks_entries(m: &papaya::HashMap<String, A2aTask>) -> (r: Vec<(String, u64)>)
    ensures
        lists_tasks(r@, task_table(*m)),
{
    m.pin().iter().map(|(k, v)| (k.clone(), v.created_at_ms)).collect()
}

/// `r` holds every id of `t` once with the time its task was made, and nothing
/// else.
pub open spec fn lists_tasks(r: Seq<(String, u64)>, t: TaskMap) -> bool {
    &&& forall|i: int|
        0 <= i < r.len() ==> t.contains_key(#[trigger] r[i].0@) && t[r[i].0@].1 == r[i].1
    &&& forall|i: int, j: int| 0 <= i < j < r.len() ==> #[trigger] r[i].0@ != #[trigger] r[j].0@
    &&& forall|k: Seq<char>| #[trigger]
        t.contains_key(k) ==> exists|i: int| 0 <= i < r.len() && #[trigger] r[i].0@ == k
}

/// The text that std makes of any bytes.
pub uninterp spec fn lossy_utf8(bytes: Seq<u8>) -> Seq<char>;

/// `String::from_utf8_lossy`: a function of the bytes, and their text where
/// they are UTF-8.
#[verifier::external_body]
fn lossy_text(bytes: &Vec<u8>) -> (s: String)
    ensures
        s@ == lossy_utf8(bytes@),
        valid_utf8(bytes@) ==> s@ == decode_utf8(bytes@),
{
    String::from_utf8_lossy(bytes).into_owned()
}

/// A completed task whose only artifact is the text of `reply`.
pub open spec fn completed_view(id: Seq<char>, reply: Seq<u8>) -> TaskView {
    TaskView { id, state: "completed"@, artifacts: seq![seq![lossy_utf8(reply)]] }
}

/// The task that a reply completes.
pub fn completed_task(id: &str, reply: &Vec<u8>) -> (t: Task)
    ensures
        t@ == completed_view(id@, reply@),
{
    let mut parts: Vec<Part> = Vec::new();
    parts.push(Part::Text { text: lossy_text(reply) });
    let artifact = Artifact { parts };
    assert(artifact@ =~= seq![lossy_utf8(reply@)]);
    let mut artifacts: Vec<Artifact> = Vec::new();
    artifacts.push(artifact);
    let t = Task {
        id: id.to_owned(),
        status: TaskStatus { state: "completed".to_owned() },
        artifacts,
    };
    assert(t@.artifacts =~= seq![seq![lossy_utf8(reply@)]]);
    t
}

// ── Tasks as JSON ────────────────────────────────────────────────────────────

/// A part inside an answer.
pub open spec fn part_json(text: Seq<char>) -> Seq<char> {
    "{\"text\":"@ + json_string(text) + ",\"type\":\"text\"}"@
}

/// An artifact inside an answer.
pub open spec fn artifact_json(texts: Seq<Seq<char>>) -> Seq<char> {
    "{\"parts\":["@ + comma_joined(texts.map_values(|t: Seq<char>| part_json(t))) + "]}"@
}

/// A task inside an answer; one without artifacts does not mention them.
pub open spec fn task_json(t: TaskView) -> Seq<char> {
    (if t.artifacts.len() == 0 {
        "{\"id\":"@
    } else {
        "{\"artifacts\":["@ + comma_joined(
            t.artifacts.map_values(|a: Seq<Seq<char>>| artifact_json(a)),
        ) + "],\"id\":"@
    }) + json_string(t.id) + ",\"status\":{\"state\":"@ + json_string(t.state) + "}}"@
}

fn write_artifact(a: &Artifact) -> (s: String)
    ensures
        s@ == artifact_json(a@),
{
    let mut out: Vec<String> = Vec::new();
    let mut i: usize = 0;
    while i < a.parts.len()
        invariant
            i <= a.parts.len(),
            out@.len() == i,
            forall|k: int| 0 <= k < i ==> (#[trigger] out@[k])@ == part_json(a.parts@[k].text()),
        decreases a.parts.len() - i,
    {
        match &a.parts[i] {
            Part::Text { text } => {
                out.push(join3("{\"text\":", json_quote(text.as_str()).as_str(), ",\"type\":\"text\"}"));
            },
        }
        i += 1;
    }
    assert(views(out@) =~= a@.map_values(|t: Seq<char>| part_json(t)));
    join3("{\"parts\":[", join_commas(&out).as_str(), "]}")
}

/// Writes a task as it stands inside an answer.
pub fn write_task(t: &Task) -> (s: String)
    ensures
        s@ == task_json(t@),
{
    let head = if t.artifacts.len() == 0 {
        "{\"id\":".to_owned()
    } else {
        let mut out: Vec<String> = Vec::new();
        let mut i: usize = 0;
        while i < t.artifacts.len()
            invariant
                i <= t.artifacts.len(),
                out@.len() == i,
                forall|k: int| 0 <= k < i ==> (#[trigger] out@[k])@ == artifact_json(t.artifacts@[k]@),
            decreases t.artifacts.len() - i,
        {
            out.push(write_artifact(&t.artifacts[i]));
            i += 1;
        }
        assert(views(out@) =~= t@.artifacts.map_values(|a: Seq<Seq<char>>| artifact_json(a)));
        join3("{\"artifacts\":[", join_commas(&out).as_str(), "],\"id\":")
    };
    let a = join3(head.as_str(), json_quote(t.id.as_str()).as_str(), ",\"status\":{\"state\":");
    join3(a.as_str(), json_quote(t.status.state.as_str()).as_str(), "}}")
}

/// What a subscriber is told of the state of a task.
pub open spec fn status_json(id: Seq<char>, state: Seq<char>) -> Seq<char> {
    "{\"id\":"@ + json_string(id) + ",\"status\":{\"state\":"@ + json_string(state) + "}}"@
}

/// Writes what a subscriber is told of the state of a task.
pub fn write_status(id: &str, state: &str) -> (s: String)
    ensures
        s@ == status_json(id@, state@),
{
    let a = join3("{\"id\":", json_quote(id).as_str(), ",\"status\":{\"state\":");
    join3(a.as_str(), json_quote(state).as_str(), "}}")
}

/// The event that ends the stream of a task that a reply has completed.
pub open spec fn completed_event_json(id: Seq<char>, reply: Seq<u8>) -> Seq<char> {
    "{\"id\":"@ + json_string(id)
        + ",\"status\":{\"state\":\"completed\"},\"artifacts\":[{\"parts\":[{\"type\":\"text\",\"text\":"@
        + json_string(lossy_utf8(reply)) + "}]}]}"@
}

/// Writes what a subscriber is told where nobody has the skill.
pub fn write_skill_missing(id: &str) -> (s: String)
    ensures
        s@ == "{\"error\":\"skill not found\",\"id\":"@ + json_string(id@)
            + ",\"status\":{\"state\":\"failed\"}}"@,
{
    join3(
        "{\"error\":\"skill not found\",\"id\":",
        json_quote(id).as_str(),
        ",\"status\":{\"state\":\"failed\"}}",
    )
}

// ── Skills ───────────────────────────────────────────────────────────────────

/// The namespace and the name of a skill id: what stands before and behind
/// its first slash.
pub open spec fn skill_parts(id: Seq<char>) -> Option<(Seq<char>, Seq<char>)> {
    match id.index_of_first('/') {
        Some(i) => Some((id.take(i), id.skip(i + 1))),
        None => None,
    }
}

/// `n` is listed as a provider of the skill.
pub open spec fn has_skill(t: Table, id: Seq<char>, n: NodeView) -> bool {
    skill_parts(id) is Some && listed_provider(
        t,
        (FilterView {
            namespace: (skill_parts(id)->0).0,
            name: (skill_parts(id)->0).1,
            max_age_ms: None,
        }),
        n,
    )
}

/// Some node that has the skill `{ns}/{name}`, if there is one.
pub fn resolve_skill(kv: &KvHandle, skill_id: &str) -> (r: Option<NodeId>)
    ensures
        r is Some <==> exists|n: NodeView| #[trigger] has_skill(kv.table(), skill_id@, n),
        r matches Some(n) ==> n.wf() && has_skill(kv.table(), skill_id@, n@),
{
    match split_once(skill_id, '/') {
        None => {
            proof {
                skill_id@.index_of_first_ensures('/');
            }
            None
        },
        Some((ns, name)) => {
            proof {
                lemma_first_slash(ns@, name@);
                assert(skill_id@.skip(ns@.len() as int + 1) =~= name@);
                assert(skill_parts(skill_id@) == Some((ns@, name@)));
            }
            let r = first_provider(kv, ns.as_str(), name.as_str());
            proof {
                let f = FilterView { namespace: ns@, name: name@, max_age_ms: None };
                if r is Some {
                    assert(has_skill(kv.table(), skill_id@, (r->0)@));
                }
                assert forall|n: NodeView| #[trigger] has_skill(kv.table(), skill_id@, n) implies listed_provider(
                    kv.table(),
                    f,
                    n,
                ) by {}
            }
            r
        },
    }
}

/// The skill that an entry under `cap/` advertises.
pub open spec fn skill_at(k: Seq<char>, v: Seq<u8>) -> Option<Seq<char>> {
    if locality_key(k) {
        None
    } else {
        match (cap_key_parts("cap/"@, k), cap_in(v)) {
            (Some(key), Some(c)) => Some(key.1 + "/"@ + key.2),
            _ => None,
        }
    }
}

/// [`skill_at`] as a reading of the table.
pub open spec fn skill_reading() -> Reading<Seq<char>> {
    |k: Seq<char>, v: Seq<u8>, ts: u64| skill_at(k, v)
}

fn read_skill(key: &String, value: &Vec<u8>) -> (r: Option<String>)
    ensures
        r is Some <==> skill_at(key@, value@) is Some,
        r matches Some(s) ==> skill_at(key@, value@) == Some(s@),
{
    if is_cap_locality_key(key.as_str()) {
        return None;
    }
    match parse_cap_key("cap/", key.as_str()) {
        None => None,
        Some((_node, ns, name)) => match Capability::decode(value) {
            None => None,
            Some(_) => Some(join3(ns.as_str(), "/", name.as_str())),
        },
    }
}

/// A skill on the card.
#[derive(Debug, Clone, PartialEq, Eq)]
pub struct AgentSkill {
    pub id: String,
    pub name: String,
    pub description: String,
}

/// What this node tells outside agents of itself and of the mesh.
#[derive(Debug, Clone, PartialEq, Eq)]
pub struct AgentCard {
    pub name: String,
    pub url: String,
    pub version: String,
    pub streaming: bool,
    pub skills: Vec<AgentSkill>,
}

pub open spec fn skill_ids(v: Seq<AgentSkill>) -> Seq<Seq<char>> {
    v.map_values(|s: AgentSkill| s.id@)
}

/// Every skill in the table once, in no particular order.
pub fn list_skills(kv: &KvHandle) -> (r: Vec<String>)
    ensures
        views(r@).no_duplicates(),
        views(r@).to_set() == reading_set(kv.table(), "cap/"@, skill_reading()),
{
    let found = kv.scan_prefix_with_ts("cap/");
    let ghost f = skill_reading();
    let mut out: Vec<String> = Vec::new();
    let mut i: usize = 0;
    proof {
        lemma_read_all(found@, kv.table(), "cap/"@, f);
        assert(views(out@).to_set() =~= Set::<Seq<char>>::empty());
    }
    while i < found.len()
        invariant
            i <= found.len(),
            f == skill_reading(),
            views(out@).no_duplicates(),
            views(out@).to_set() == read_so_far(found@, i as int, f),
        decreases found.len() - i,
    {
        proof {
            lemma_read_step(found@, i as int, f);
        }
        match read_skill(&found[i].0, &found[i].1) {
            None => {},
            Some(s) => {
                let ghost was = views(out@);
                if contains_text(&out, s.as_str()) {
                    proof {
                        assert(was.to_set().contains(s@));
                        assert(was.to_set().insert(s@) =~= was.to_set());
                    }
                } else {
                    out.push(s);
                    proof {
                        assert(views(out@) =~= was.push(s@));
                        lemma_push_new(was, s@);
                    }
                }
            },
        }
        i += 1;
    }
    out
}

/// The card of this node.
pub fn agent_card(kv: &KvHandle) -> (c: AgentCard)
    ensures
        c.name@ == "Mycelium/"@ + node_text(kv.node_id@),
        c.url@ == "http://"@ + node_text(kv.node_id@),
        c.version@ == "1.0.0"@,
        c.streaming,
        skill_ids(c.skills@).no_duplicates(),
        skill_ids(c.skills@).to_set() == reading_set(kv.table(), "cap/"@, skill_reading()),
        forall|i: int|
            0 <= i < c.skills@.len() ==> (#[trigger] c.skills@[i]).name@ == c.skills@[i].id@
                && c.skills@[i].description@ == ""@,
{
    let ids = list_skills(kv);
    let mut skills: Vec<AgentSkill> = Vec::new();
    let mut i: usize = 0;
    while i < ids.len()
        invariant
            i <= ids.len(),
            skills@.len() == i,
            forall|k: int|
                0 <= k < i ==> (#[trigger] skills@[k]).id@ == ids@[k]@ && skills@[k].name@ == ids@[k]@
                    && skills@[k].description@ == ""@,
        decreases ids.len() - i,
    {
        skills.push(AgentSkill { id: ids[i].clone(), name: ids[i].clone(), description: "".to_owned() });
        i += 1;
    }
    assert(skill_ids(skills@) =~= views(ids@));
    let node = kv.node_id.to_text();
    AgentCard {
        name: join2("Mycelium/", node.as_str()),
        url: join2("http://", node.as_str()),
        version: "1.0.0".to_owned(),
        streaming: true,
        skills,
    }
}

// ── Requests ─────────────────────────────────────────────────────────────────

/// The skill that a request asks for: `skillId`, or `skill_id` where there is
/// no such field; empty where it is no string.
pub open spec fn requested_skill(body: Seq<u8>) -> Seq<char> {
    match json_value_at(body, "/params/skillId"@) {
        Some(v) => match v.text {
            Some(s) => s,
            None => ""@,
        },
        None => text_or_empty(body, "/params/skill_id"@),
    }
}

/// The text of the first part of the message in a request.
pub open spec fn message_text(body: Seq<u8>) -> Seq<char> {
    if items_at(body, "/params/message/parts"@) is Some {
        text_or_empty(body, "/params/message/parts/0/text"@)
    } else {
        ""@
    }
}

/// The task that a request names.
pub open spec fn requested_task(body: Seq<u8>) -> Option<Seq<char>> {
    text_at(body, "/params/id"@)
}

/// An id for a new task: a reading of the clock and a number drawn by chance.
pub open spec fn fresh_task_id(id: Seq<char>, hlc: int) -> bool {
    exists|n: u64| n >= 1 && id == #[trigger] (hex_fixed(hlc, 16) + "-"@ + hex_fixed(n as int, 16))
}

fn read_skill_id(body: &Vec<u8>) -> (s: String)
    ensures
        s@ == requested_skill(body@),
{
    match json_at(body, "/params/skillId") {
        Some(v) => match v.text {
            Some(s) => s,
            None => "".to_owned(),
        },
        None => read_text_or_empty(body, "/params/skill_id"),
    }
}

fn read_message_text(body: &Vec<u8>) -> (s: String)
    ensures
        s@ == message_text(body@),
{
    match read_items(body, "/params/message/parts") {
        Some(_) => read_text_or_empty(body, "/params/message/parts/0/text"),
        None => "".to_owned(),
    }
}

/// What a request asks for.
pub enum A2aStep {
    /// It is answered at once.
    Answer { body: String },
    /// The target is asked; what comes back goes to [`A2aState::finish_send`].
    Ask { target: NodeId, request: Vec<u8>, task_id: String, id: String },
    /// The answer is a stream of events.
    Stream { task_id: String, skill_id: String, text: String },
}

/// `id` is the id that the request gives its task, or a new one.
pub open spec fn task_id_for(id: Seq<char>, body: Seq<u8>, pre: KvHandle, post: KvHandle, now_ms: u64) -> bool {
    match requested_task(body) {
        Some(t) => id == t && post == pre,
        None => fresh_task_id(id, hlc_next(pre.clock, now_ms)) && post == (KvHandle {
            clock: hlc_next(pre.clock, now_ms) as u64,
            ..pre
        }),
    }
}

/// `step` answers with `body`.
pub open spec fn answers(step: A2aStep, body: Seq<char>) -> bool {
    step matches A2aStep::Answer { body: b } && b@ == body
}

/// The tasks that outside agents have sent.
pub struct A2aState {
    pub tasks: papaya::HashMap<String, A2aTask>,
}

impl A2aState {
    /// The tasks, by their ids.
    pub open spec fn table(&self) -> TaskMap {
        task_table(self.tasks)
    }

    /// No tasks.
    pub fn new() -> (s: A2aState)
        ensures
            s.table() == TaskMap::empty(),
    {
        A2aState { tasks: tasks_new() }
    }

    /// Handles `tasks/get`.
    pub fn handle_tasks_get(&self, id: &str, body: &Vec<u8>) -> (s: String)
        ensures
            s@ == get_answer(self.table(), id@, text_or_empty(body@, "/params/id"@)),
    {
        let task_id = read_text_or_empty(body, "/params/id");
        match tasks_get(&self.tasks, task_id.as_str()) {
            Some(entry) => rpc_result(id, write_task(&entry.task).as_str()),
            None => rpc_error(id, NOT_FOUND, "task not found"),
        }
    }

    /// Handles `tasks/cancel`: a task that is not completed is forgotten.
    pub fn handle_tasks_cancel(&mut self, id: &str, body: &Vec<u8>) -> (s: String)
        ensures
            s@ == cancel_answer(old(self).table(), id@, text_or_empty(body@, "/params/id"@)),
            final(self).table() == (if cancels(old(self).table(), text_or_empty(body@, "/params/id"@)) {
                old(self).table().remove(text_or_empty(body@, "/params/id"@))
            } else {
                old(self).table()
            }),
    {
        let task_id = read_text_or_empty(body, "/params/id");
        match tasks_get(&self.tasks, task_id.as_str()) {
            Some(entry) => if same_text(entry.task.status.state.as_str(), "completed") {
                rpc_error(id, ALREADY_COMPLETED, "task already completed")
            } else {
                tasks_remove(&mut self.tasks, task_id.as_str());
                let result = write_status(task_id.as_str(), "canceled");
                rpc_result(id, result.as_str())
            },
            None => rpc_error(id, NOT_FOUND, "task not found"),
        }
    }

    /// Handles a request that is a JSON document.
    pub fn handle(&mut self, kv: &mut KvHandle, body: &Vec<u8>, now_ms: u64) -> (step: A2aStep)
        requires
            old(kv).wf(),
            old(kv).clock < u64::MAX,
        ensures
            final(kv).wf(),
            ({
                let id = json_or(body@, "/id"@, "null"@);
                let method = text_or_empty(body@, "/method"@);
                let task_id = text_or_empty(body@, "/params/id"@);
                if method == "tasks/sendSubscribe"@ {
                    &&& final(self).table() == old(self).table()
                    &&& step matches A2aStep::Stream { task_id: t, skill_id: s, text: x } && task_id_for(
                        t@,
                        body@,
                        *old(kv),
                        *final(kv),
                        now_ms,
                    ) && s@ == requested_skill(body@) && x@ == message_text(body@)
                } else if method == "tasks/send"@ {
                    &&& final(self).table() == old(self).table()
                    &&& if exists|n: NodeView| #[trigger]
                        has_skill(old(kv).table(), requested_skill(body@), n) {
                        step matches A2aStep::Ask { target, request, task_id: t, id: i } && has_skill(
                            old(kv).table(),
                            requested_skill(body@),
                            target@,
                        ) && request@ == encode_utf8(message_text(body@)) && i@ == id && task_id_for(
                            t@,
                            body@,
                            *old(kv),
                            *final(kv),
                            now_ms,
                        )
                    } else {
                        &&& answers(step, rpc_error_json(id, NOT_FOUND@, "skill not found"@))
                        &&& exists|t: Seq<char>| task_id_for(t, body@, *old(kv), *final(kv), now_ms)
                    }
                } else if method == "tasks/get"@ {
                    &&& *final(kv) == *old(kv)
                    &&& final(self).table() == old(self).table()
                    &&& answers(step, get_answer(old(self).table(), id, task_id))
                } else if method == "tasks/cancel"@ {
                    &&& *final(kv) == *old(kv)
                    &&& final(self).table() == (if cancels(old(self).table(), task_id) {
                        old(self).table().remove(task_id)
                    } else {
                        old(self).table()
                    })
                    &&& answers(step, cancel_answer(old(self).table(), id, task_id))
                } else {
                    &&& *final(kv) == *old(kv)
                    &&& final(self).table() == old(self).table()
                    &&& answers(step, rpc_error_json(id, METHOD_NOT_FOUND@, "method not found"@))
                }
            }),
    {
        let id = read_json_or(body, "/id", "null");
        let method = read_text_or_empty(body, "/method");
        if same_text(method.as_str(), "tasks/sendSubscribe") {
            let task_id = task_id_of(kv, body, now_ms);
            return A2aStep::Stream {
                task_id,
                skill_id: read_skill_id(body),
                text: read_message_text(body),
            };
        }
        if same_text(method.as_str(), "tasks/send") {
            let ghost pre = *kv;
            let task_id = task_id_of(kv, body, now_ms);
            assert(task_id_for(task_id@, body@, pre, *kv, now_ms));
            let skill = read_skill_id(body);
            assert(kv.table() == pre.table());
            return match resolve_skill(kv, skill.as_str()) {
                None => A2aStep::Answer { body: rpc_error(id.as_str(), NOT_FOUND, "skill not found") },
                Some(target) => {
                    assert(has_skill(pre.table(), skill@, target@));
                    let text = read_message_text(body);
                    A2aStep::Ask { target, request: text.as_str().as_bytes_vec(), task_id, id }
                },
            };
        }
        if same_text(method.as_str(), "tasks/get") {
            return A2aStep::Answer { body: self.handle_tasks_get(id.as_str(), body) };
        }
        if same_text(method.as_str(), "tasks/cancel") {
            return A2aStep::Answer { body: self.handle_tasks_cancel(id.as_str(), body) };
        }
        A2aStep::Answer { body: rpc_error(id.as_str(), METHOD_NOT_FOUND, "method not found") }
    }

    /// Ends `tasks/send`: a reply completes the task, which is kept; `None`
    /// means that no reply came.
    pub fn finish_send(&mut self, task_id: &str, id: &str, reply: &Option<Vec<u8>>, now_ms: u64) -> (s: String)
        ensures
            match reply {
                Some(v) => final(self).table() == old(self).table().insert(
                    task_id@,
                    (completed_view(task_id@, v@), now_ms),
                ) && s@ == rpc_result_json(id@, task_json(completed_view(task_id@, v@))),
                None => final(self).table() == old(self).table() && s@ == rpc_error_json(
                    id@,
                    INTERNAL_ERROR@,
                    "rpc call failed"@,
                ),
            },
    {
        match reply {
            Some(v) => {
                let task = completed_task(task_id, v);
                let text = rpc_result(id, write_task(&task).as_str());
                tasks_insert(
                    &mut self.tasks,
                    task_id.to_owned(),
                    A2aTask { task, created_at_ms: now_ms },
                );
                text
            },
            None => rpc_error(id, INTERNAL_ERROR, "rpc call failed"),
        }
    }

    /// Ends the stream of a task: the last event that the subscriber is sent. A
    /// reply completes the task, which is kept; `None` means that no reply
    /// came.
    pub fn finish_stream(&mut self, task_id: &str, reply: &Option<Vec<u8>>, now_ms: u64) -> (event: String)
        ensures
            match reply {
                Some(v) => final(self).table() == old(self).table().insert(
                    task_id@,
                    (completed_view(task_id@, v@), now_ms),
                ) && event@ == completed_event_json(task_id@, v@),
                None => final(self).table() == old(self).table() && event@ == status_json(
                    task_id@,
                    "failed"@,
                ),
            },
    {
        match reply {
            Some(v) => {
                let task = completed_task(task_id, v);
                let a = join3(
                    "{\"id\":",
                    json_quote(task_id).as_str(),
                    ",\"status\":{\"state\":\"completed\"},\"artifacts\":[{\"parts\":[{\"type\":\"text\",\"text\":",
                );
                let event = join3(a.as_str(), json_quote(lossy_text(v).as_str()).as_str(), "}]}]}");
                tasks_insert(
                    &mut self.tasks,
                    task_id.to_owned(),
                    A2aTask { task, created_at_ms: now_ms },
                );
                event
            },
            None => write_status(task_id, "failed"),
        }
    }

    /// Forgets the tasks that are older than [`TASK_TTL_MS`].
    pub fn forget_old(&mut self, now_ms: u64)
        ensures
            final(self).table() == old(self).table().restrict(young_tasks(old(self).table(), now_ms)),
    {
        let ghost t = self.table();
        let all = tasks_entries(&self.tasks);
        let mut i: usize = 0;
        while i < all.len()
            invariant
                i <= all.len(),
                lists_tasks(all@, t),
                forall|k: Seq<char>| #[trigger]
                    self.table().contains_key(k) <==> t.contains_key(k) && !gone_before(all@, i as int, k, now_ms),
                forall|k: Seq<char>| #[trigger] self.table().contains_key(k) ==> self.table()[k] == t[k],
            decreases all.len() - i,
        {
            let ghost before = self.table();
            if now_ms.saturating_sub(all[i].1) > TASK_TTL_MS {
                tasks_remove(&mut self.tasks, all[i].0.as_str());
                proof {
                    assert forall|k: Seq<char>| #[trigger] self.table().contains_key(k) <==> t.contains_key(k)
                        && !gone_before(all@, i + 1, k, now_ms) by {
                        assert(before.contains_key(k) <==> t.contains_key(k) && !gone_before(
                            all@,
                            i as int,
                            k,
                            now_ms,
                        ));
                        if k == all@[i as int].0@ {
                            assert(gone_before(all@, i + 1, k, now_ms));
                        }
                        if gone_before(all@, i as int, k, now_ms) {
                            let j = choose|j: int|
                                0 <= j < i && (#[trigger] all@[j]).0@ == k && sat_sub_spec(
                                    now_ms as int,
                                    all@[j].1 as int,
                                ) > TASK_TTL_MS;
                            assert(all@[j].0@ == k);
                        }
                    }
                    assert forall|k: Seq<char>| #[trigger] self.table().contains_key(k) implies self.table()[k]
                        == t[k] by {
                        assert(before.contains_key(k));
                    }
                }
            } else {
                proof {
                    assert forall|k: Seq<char>| #[trigger] self.table().contains_key(k) <==> t.contains_key(k)
                        && !gone_before(all@, i + 1, k, now_ms) by {
                        if gone_before(all@, i as int, k, now_ms) {
                            let j = choose|j: int|
                                0 <= j < i && (#[trigger] all@[j]).0@ == k && sat_sub_spec(
                                    now_ms as int,
                                    all@[j].1 as int,
                                ) > TASK_TTL_MS;
                            assert(all@[j].0@ == k);
                        }
                    }
                }
            }
            i += 1;
        }
        proof {
            let want = t.restrict(young_tasks(t, now_ms));
            assert forall|k: Seq<char>| #[trigger] self.table().contains_key(k) <==> want.contains_key(k) by {
                if t.contains_key(k) {
                    let a = choose|a: int| 0 <= a < all@.len() && #[trigger] all@[a].0@ == k;
                    assert(t[k].1 == all@[a].1);
                    if gone_before(all@, all@.len() as int, k, now_ms) {
                        let j = choose|j: int|
                            0 <= j < all@.len() && (#[trigger] all@[j]).0@ == k && sat_sub_spec(
                                now_ms as int,
                                all@[j].1 as int,
                            ) > TASK_TTL_MS;
                        assert(t[k].1 == all@[j].1);
                    }
                }
            }
            assert(self.table() =~= want);
        }
    }
}

/// One of the first `i` entries is that of `k`, and it is too old.
pub open spec fn gone_before(all: Seq<(String, u64)>, i: int, k: Seq<char>, now_ms: u64) -> bool {
    exists|j: int|
        0 <= j < i && (#[trigger] all[j]).0@ == k && sat_sub_spec(now_ms as int, all[j].1 as int)
            > TASK_TTL_MS
}

/// The ids of the tasks that are not too old.
pub open spec fn young_tasks(t: TaskMap, now_ms: u64) -> Set<Seq<char>> {
    Set::new(
        |k: Seq<char>| t.contains_key(k) && sat_sub_spec(now_ms as int, t[k].1 as int) <= TASK_TTL_MS,
    )
}

/// The answer to `tasks/get`.
pub open spec fn get_answer(t: TaskMap, id: Seq<char>, task_id: Seq<char>) -> Seq<char> {
    if t.contains_key(task_id) {
        rpc_result_json(id, task_json(t[task_id].0))
    } else {
        rpc_error_json(id, NOT_FOUND@, "task not found"@)
    }
}

/// Whether `tasks/cancel` cancels the task.
pub open spec fn cancels(t: TaskMap, task_id: Seq<char>) -> bool {
    t.contains_key(task_id) && t[task_id].0.state != "completed"@
}

/// The answer to `tasks/cancel`.
pub open spec fn cancel_answer(t: TaskMap, id: Seq<char>, task_id: Seq<char>) -> Seq<char> {
    if !t.contains_key(task_id) {
        rpc_error_json(id, NOT_FOUND@, "task not found"@)
    } else if t[task_id].0.state == "completed"@ {
        rpc_error_json(id, ALREADY_COMPLETED@, "task already completed"@)
    } else {
        rpc_result_json(id, status_json(task_id, "canceled"@))
    }
}

fn task_id_of(kv: &mut KvHandle, body: &Vec<u8>, now_ms: u64) -> (s: String)
    requires
        old(kv).wf(),
        old(kv).clock < u64::MAX,
    ensures
        final(kv).wf(),
        final(kv).table() == old(kv).table(),
        task_id_for(s@, body@, *old(kv), *final(kv), now_ms),
{
    match read_text(body, "/params/id") {
        Some(s) => s,
        None => {
            let hlc: u64 = kv.tick(now_ms);
            let n: u64 = fresh_nonce();
            let s = join3(hex16(hlc).as_str(), "-", hex16(n).as_str());
            assert(s@ == hex_fixed(hlc as int, 16) + "-"@ + hex_fixed(n as int, 16));
            assert(*kv == (KvHandle { clock: hlc, ..*old(kv) }));
            s
        },
    }
}

/// A task that was completed can be read, and cannot be cancelled any more.
pub proof fn law_completed_task_stays(
    t: TaskMap,
    id: Seq<char>,
    task_id: Seq<char>,
    reply: Seq<u8>,
    now_ms: u64,
)
    ensures
        ({
            let after = t.insert(task_id, (completed_view(task_id, reply), now_ms));
            &&& get_answer(after, id, task_id) == rpc_result_json(
                id,
                task_json(completed_view(task_id, reply)),
            )
            &&& cancel_answer(after, id, task_id) == rpc_error_json(
                id,
                ALREADY_COMPLETED@,
                "task already completed"@,
            )
            &&& !cancels(after, task_id)
        }),
{
}

/// A task that was cancelled is unknown afterwards.
pub proof fn law_cancelled_task_is_gone(t: TaskMap, id: Seq<char>, task_id: Seq<char>)
    requires
        cancels(t, task_id),
    ensures
        get_answer(t.remove(task_id), id, task_id) == rpc_error_json(id, NOT_FOUND@, "task not found"@),
{
}

/// A finished task can be asked for during five minutes.
pub proof fn law_task_is_kept_for_five_minutes(t: TaskMap, k: Seq<char>, now_ms: u64)
    ensures
        t.restrict(young_tasks(t, now_ms)).contains_key(k) <==> t.contains_key(k) && now_ms - t[k].1 <= 300_000,
        t.contains_key(k) && now_ms - t[k].1 <= 300_000 ==> t.restrict(young_tasks(t, now_ms))[k] == t[k],
{
    assert(young_tasks(t, now_ms).contains(k) <==> t.contains_key(k) && now_ms - t[k].1 <= 300_000);
}

/// What stands before the first slash of a skill is the namespace of its capability,
/// and what stands behind it the name.
pub proof fn law_skill_names_a_capability(ns: Seq<char>, name: Seq<char>)
    requires
        !ns.contains('/'),
    ensures
        skill_parts(ns + "/"@ + name) == Some((ns, name)),
        forall|id: Seq<char>| !id.contains('/') ==> (#[trigger] skill_parts(id)) is None,
{
    reveal_strlit("/");
    assert(ns + "/"@ + name =~= ns + seq!['/'] + name);
    lemma_first_slash(ns, name);
    assert((ns + seq!['/'] + name).skip(ns.len() as int + 1) =~= name);
    assert forall|id: Seq<char>| !id.contains('/') implies (#[trigger] skill_parts(id)) is None by {
        id.index_of_first_ensures('/');
    }
}

/// Only a task that is there and not completed can be cancelled.
pub proof fn law_only_open_tasks_are_cancelled(t: TaskMap, task_id: Seq<char>)
    ensures
        cancels(t, task_id) <==> t.contains_key(task_id) && t[task_id].0.state != "completed"@,
{
}

/// A task has the id that the request gives it; without one it gets a new id that begins
/// with the time, and the clock moves on.
pub proof fn law_task_keeps_its_id(id: Seq<char>, body: Seq<u8>, pre: KvHandle, post: KvHandle, now_ms: u64)
    requires
        task_id_for(id, body, pre, post, now_ms),
        pre.clock < u64::MAX,
    ensures
        text_at(body, "/params/id"@) is Some ==> id == text_at(body, "/params/id"@)->0 && post == pre,
        text_at(body, "/params/id"@) is None ==> post.clock > pre.clock && post.table() == pre.table() && exists|
            rest: Seq<char>,
        | id == #[trigger] (hex_fixed(post.clock as int, 16) + "-"@ + rest),
{
    if text_at(body, "/params/id"@) is None {
        let n = choose|n: u64|
            n >= 1 && id == #[trigger] (hex_fixed(hlc_next(pre.clock, now_ms), 16) + "-"@ + hex_fixed(n as int, 16));
        assert(id == hex_fixed(post.clock as int, 16) + "-"@ + hex_fixed(n as int, 16));
    }
}

} // verus!
