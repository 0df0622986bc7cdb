//! JSON: documents that come in are read by pointers, texts that go out are
//! put together from parts.

use crate::text::{join3, views};
use vstd::prelude::*;

verus! {

/// A value inside a document.
pub struct JsonField {
    /// The value as JSON text.
    pub json: String,
    /// The text, where the value is a string.
    pub text: Option<String>,
    /// The number, where the value is an integer that is not negative.
    pub number: Option<u64>,
    /// How many items there are, where the value is an array.
    pub items: Option<usize>,
}

/// The model of a [`JsonField`].
#[verifier::ext_equal]
pub struct JsonView {
    pub json: Seq<char>,
    pub text: Option<Seq<char>>,
    pub number: Option<u64>,
    pub items: Option<usize>,
}

impl View for JsonField {
    type V = JsonView;

    open spec fn view(&self) -> JsonView {
        JsonView {
            json: self.json@,
            text: match self.text {
                Some(s) => Some(s@),
                None => None,
            },
            number: self.number,
            items: self.items,
        }
    }
}

/// The value that `serde_json` finds in a document behind a pointer, `None`
/// where the bytes are no document or nothing stands there.
pub uninterp spec fn json_value_at(bytes: Seq<u8>, pointer: Seq<char>) -> Option<JsonView>;

/// `serde_json::from_slice` into a `serde_json::Value`, then
/// `serde_json::Value::pointer`: what is found, with its JSON text, is a
/// function of the bytes and the pointer.
#[verifier::external_body]
pub(crate) fn json_at(bytes: &Vec<u8>, pointer: &str) -> (r: Option<JsonField>)
    ensures
        r is Some <==> json_value_at(bytes@, pointer@) is Some,
        r matches Some(v) ==> json_value_at(bytes@, pointer@) == Some(v@),
{
    let document: serde_json::Value = serde_json::from_slice(bytes).ok()?;
    let v = document.pointer(pointer)?;
    Some(JsonField {
        json: v.to_string(),
        text: v.as_str().map(|s| s.to_owned()),
        number: v.as_u64(),
        items: v.as_array().map(|a| a.len()),
    })
}

/// One member of an object.
pub struct JsonMember {
    pub name: String,
    /// The text, where the value is a string.
    pub text: Option<String>,
    /// The value itself, where it is true or false.
    pub truth: Option<bool>,
    /// The number, where the value is an integer of 64 bits with a sign.
    pub integer: Option<i64>,
    /// The bits of the number as a floating-point one, where the value is a
    /// number.
    pub float_bits: Option<u64>,
}

/// The model of a [`JsonMember`].
#[verifier::ext_equal]
pub struct MemberView {
    pub name: Seq<char>,
    pub text: Option<Seq<char>>,
    pub truth: Option<bool>,
    pub integer: Option<i64>,
    pub float_bits: Option<u64>,
}

impl View for JsonMember {
    type V = MemberView;

    open spec fn view(&self) -> MemberView {
        MemberView {
            name: self.name@,
            text: match self.text {
                Some(s) => Some(s@),
                None => None,
            },
            truth: self.truth,
            integer: self.integer,
            float_bits: self.float_bits,
        }
    }
}

pub open spec fn member_views(v: Seq<JsonMember>) -> Seq<MemberView> {
    v.map_values(|m: JsonMember| m@)
}

/// The members of the object that `serde_json` finds in a document behind a
/// pointer, `None` where no object stands there.
pub uninterp spec fn json_members_at(bytes: Seq<u8>, pointer: Seq<char>) -> Option<Seq<MemberView>>;

/// `serde_json::from_slice` into a `serde_json::Value`, then
/// `serde_json::Value::pointer` and `serde_json::Value::as_object`: the members
/// and their order are a function of the bytes and the pointer. Where there is
/// an object, the pointer finds a value.
#[verifier::external_body]
pub(crate) fn json_members(bytes: &Vec<u8>, pointer: &str) -> (r: Option<Vec<JsonMember>>)
    ensures
        r is Some <==> json_members_at(bytes@, pointer@) is Some,
        r matches Some(v) ==> json_members_at(bytes@, pointer@) == Some(member_views(v@)),
        r is Some ==> json_value_at(bytes@, pointer@) is Some,
{
    let document: serde_json::Value = serde_json::from_slice(bytes).ok()?;
    let members = document.pointer(pointer)?.as_object()?;
    let each = members.iter().map(|(name, v)| JsonMember {
        name: name.clone(),
        text: v.as_str().map(|s| s.to_owned()),
        truth: v.as_bool(),
        integer: v.as_i64(),
        float_bits: v.as_f64().map(|n| n.to_bits()),
    });
    Some(each.collect())
}

/// What `serde_json` says is wrong with a document, `None` where it can be
/// read.
pub uninterp spec fn json_fault(bytes: Seq<u8>) -> Option<Seq<char>>;

/// The error of `serde_json::from_slice` into a `serde_json::Value`, in words:
/// a function of the bytes. There is one exactly if the empty pointer, which
/// stands for the whole document, finds nothing.
#[verifier::external_body]
pub(crate) fn json_error(bytes: &Vec<u8>) -> (r: Option<String>)
    ensures
        r is Some <==> json_fault(bytes@) is Some,
        r matches Some(s) ==> json_fault(bytes@) == Some(s@),
        r is Some <==> json_value_at(bytes@, ""@) is None,
{
    let read: Result<serde_json::Value, serde_json::Error> = serde_json::from_slice(bytes);
    read.err().map(|e| e.to_string())
}

/// The JSON string that `serde_json` writes for a text.
pub uninterp spec fn json_string(s: Seq<char>) -> Seq<char>;

/// `serde_json::Value::to_string` of a string value: a function of the text.
#[verifier::external_body]
pub(crate) fn json_quote(s: &str) -> (r: String)
    ensures
        r@ == json_string(s@),
{
    serde_json::Value::from(s).to_string()
}

/// The JSON object that `serde_json` writes for pairs of texts.
pub uninterp spec fn json_text_map(pairs: Seq<(Seq<char>, Seq<char>)>) -> Seq<char>;

pub open spec fn pair_views(pairs: Seq<(String, String)>) -> Seq<(Seq<char>, Seq<char>)> {
    pairs.map_values(|p: (String, String)| (p.0@, p.1@))
}

/// A `serde_json::Map` made from pairs of texts, written by
/// `serde_json::Value::to_string`: a function of the pairs.
#[verifier::external_body]
pub(crate) fn json_map(pairs: &Vec<(String, String)>) -> (r: String)
    ensures
        r@ == json_text_map(pair_views(pairs@)),
{
    let map: serde_json::Map<String, serde_json::Value> =
        pairs.iter().map(|(k, v)| (k.clone(), serde_json::Value::from(v.as_str()))).collect();
    serde_json::Value::Object(map).to_string()
}

// ── Reading ──────────────────────────────────────────────────────────────────

/// Whether the bytes are a document.
pub open spec fn is_json(bytes: Seq<u8>) -> bool {
    json_value_at(bytes, ""@) is Some
}

/// The string behind a pointer, if there is one.
pub open spec fn text_at(bytes: Seq<u8>, pointer: Seq<char>) -> Option<Seq<char>> {
    match json_value_at(bytes, pointer) {
        Some(v) => v.text,
        None => None,
    }
}

/// The integer behind a pointer, if there is one.
pub open spec fn number_at(bytes: Seq<u8>, pointer: Seq<char>) -> Option<u64> {
    match json_value_at(bytes, pointer) {
        Some(v) => v.number,
        None => None,
    }
}

/// The number of items of the array behind a pointer, if there is one.
pub open spec fn items_at(bytes: Seq<u8>, pointer: Seq<char>) -> Option<usize> {
    match json_value_at(bytes, pointer) {
        Some(v) => v.items,
        None => None,
    }
}

/// The JSON text behind a pointer, `otherwise` where nothing stands there.
pub open spec fn json_or(bytes: Seq<u8>, pointer: Seq<char>, otherwise: Seq<char>) -> Seq<char> {
    match json_value_at(bytes, pointer) {
        Some(v) => v.json,
        None => otherwise,
    }
}

/// The string behind a pointer, empty if there is none.
pub open spec fn text_or_empty(bytes: Seq<u8>, pointer: Seq<char>) -> Seq<char> {
    match text_at(bytes, pointer) {
        Some(s) => s,
        None => ""@,
    }
}

/// Whether the bytes are a document.
pub fn is_document(bytes: &Vec<u8>) -> (r: bool)
    ensures
        r == is_json(bytes@),
{
    json_at(bytes, "").is_some()
}

/// Reads the string behind a pointer.
pub fn read_text(bytes: &Vec<u8>, pointer: &str) -> (r: Option<String>)
    ensures
        r is Some <==> text_at(bytes@, pointer@) is Some,
        r matches Some(s) ==> text_at(bytes@, pointer@) == Some(s@),
{
    match json_at(bytes, pointer) {
        Some(v) => v.text,
        None => None,
    }
}

/// Reads the string behind a pointer, empty if there is none.
pub fn read_text_or_empty(bytes: &Vec<u8>, pointer: &str) -> (s: String)
    ensures
        s@ == text_or_empty(bytes@, pointer@),
{
    match read_text(bytes, pointer) {
        Some(s) => s,
        None => "".to_owned(),
    }
}

/// Reads the integer behind a pointer.
pub fn read_number(bytes: &Vec<u8>, pointer: &str) -> (r: Option<u64>)
    ensures
        r == number_at(bytes@, pointer@),
{
    match json_at(bytes, pointer) {
        Some(v) => v.number,
        None => None,
    }
}

/// Reads the number of items of the array behind a pointer.
pub fn read_items(bytes: &Vec<u8>, pointer: &str) -> (r: Option<usize>)
    ensures
        r == items_at(bytes@, pointer@),
{
    match json_at(bytes, pointer) {
        Some(v) => v.items,
        None => None,
    }
}

/// Reads the JSON text behind a pointer.
pub fn read_json_or(bytes: &Vec<u8>, pointer: &str, otherwise: &str) -> (s: String)
    ensures
        s@ == json_or(bytes@, pointer@, otherwise@),
{
    match json_at(bytes, pointer) {
        Some(v) => v.json,
        None => otherwise.to_owned(),
    }
}

// ── Lists ────────────────────────────────────────────────────────────────────

/// The items one after the other, separated by commas.
pub open spec fn comma_joined(items: Seq<Seq<char>>) -> Seq<char>
    decreases items.len(),
{
    if items.len() == 0 {
        ""@
    } else if items.len() == 1 {
        items[0]
    } else {
        comma_joined(items.drop_last()) + ","@ + items.last()
    }
}

/// Writes the items one after the other, separated by commas.
pub fn join_commas(items: &Vec<String>) -> (s: String)
    ensures
        s@ == comma_joined(views(items@)),
{
    let ghost all = views(items@);
    let mut out = "".to_owned();
    let mut i: usize = 0;
    assert(all.take(0) =~= Seq::empty());
    while i < items.len()
        invariant
            i <= items.len(),
            all == views(items@),
            out@ == comma_joined(all.take(i as int)),
        decreases items.len() - i,
    {
        let ghost next = all.take(i + 1);
        proof {
            assert(next.drop_last() =~= all.take(i as int));
            assert(next.last() == items@[i as int]@);
        }
        if i == 0 {
            out = items[i].clone();
        } else {
            out = join3(out.as_str(), ",", items[i].as_str());
        }
        i += 1;
    }
    assert(all.take(i as int) =~= all);
    out
}

// ── JSON-RPC answers ─────────────────────────────────────────────────────────

pub const PARSE_ERROR: &'static str = "-32700";

pub const METHOD_NOT_FOUND: &'static str = "-32601";

pub const INVALID_PARAMS: &'static str = "-32602";

pub const INTERNAL_ERROR: &'static str = "-32603";

pub const SERVER_ERROR: &'static str = "-32000";

pub const NOT_FOUND: &'static str = "-32001";

pub const ALREADY_COMPLETED: &'static str = "-32002";

/// An error answer to the request with the JSON text `id`.
pub open spec fn rpc_error_json(id: Seq<char>, code: Seq<char>, message: Seq<char>) -> Seq<char> {
    "{\"error\":{\"code\":"@ + code + ",\"message\":"@ + json_string(message) + "},\"id\":"@ + id
        + ",\"jsonrpc\":\"2.0\"}"@
}

/// The answer `result` to the request with the JSON text `id`.
pub open spec fn rpc_result_json(id: Seq<char>, result: Seq<char>) -> Seq<char> {
    "{\"id\":"@ + id + ",\"jsonrpc\":\"2.0\",\"result\":"@ + result + "}"@
}

/// Writes an error answer.
pub fn rpc_error(id: &str, code: &str, message: &str) -> (s: String)
    ensures
        s@ == rpc_error_json(id@, code@, message@),
{
    let a = join3("{\"error\":{\"code\":", code, ",\"message\":");
    let b = join3(a.as_str(), json_quote(message).as_str(), "},\"id\":");
    join3(b.as_str(), id, ",\"jsonrpc\":\"2.0\"}")
}

/// Writes an answer.
pub fn rpc_result(id: &str, result: &str) -> (s: String)
    ensures
        s@ == rpc_result_json(id@, result@),
{
    let a = join3("{\"id\":", id, ",\"jsonrpc\":\"2.0\",\"result\":");
    join3(a.as_str(), result, "}")
}

/// Joining two lists is joining each of them, with a comma between.
pub proof fn law_joining_goes_list_by_list(a: Seq<Seq<char>>, b: Seq<Seq<char>>)
    requires
        a.len() > 0,
        b.len() > 0,
    ensures
        comma_joined(a + b) == comma_joined(a) + ","@ + comma_joined(b),
        forall|x: Seq<char>| comma_joined(#[trigger] seq![x]) == x,
        comma_joined(Seq::empty()) == ""@,
    decreases b.len(),
{
    assert((a + b).drop_last() =~= a + b.drop_last());
    assert((a + b).last() == b.last());
    if b.len() == 1 {
        assert(a + b.drop_last() =~= a);
    } else {
        law_joining_goes_list_by_list(a, b.drop_last());
        assert(comma_joined(a) + ","@ + comma_joined(b.drop_last()) + ","@ + b.last() =~= comma_joined(a) + ","@ + (
        comma_joined(b.drop_last()) + ","@ + b.last()));
    }
}

/// What is not there, or is no text, reads as the empty text.
pub proof fn law_missing_text_is_empty(bytes: Seq<u8>, pointer: Seq<char>)
    ensures
        text_at(bytes, pointer) is Some ==> text_or_empty(bytes, pointer) == text_at(bytes, pointer)->0,
        text_at(bytes, pointer) is None ==> text_or_empty(bytes, pointer) == ""@,
        json_value_at(bytes, pointer) is None ==> text_at(bytes, pointer) is None && number_at(bytes, pointer) is None
            && items_at(bytes, pointer) is None,
{
}

} // verus!
