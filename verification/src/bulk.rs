//! Bulk calls: a large payload stays with the caller, which sends a ticket by
//! which the target fetches it.

use crate::evidence::{frame_with_nonce, leading_u64, read_leading_u64, with_leading_u64};
use crate::kv::outcome_for;
use crate::log::utf8_text;
use crate::mesh::{emitted, MeshHandle};
use crate::node_id::NodeId;
use crate::text::{
    copy_bytes, dec_string, dec_text, hex16, hex_fixed, join2, join3, parse_hex_spec, parse_hex_u64, same_text,
    strip_prefix,
};
use crate::wire::{fresh_nonce, Dispatch, ScopeView, SignalScope};
use vstd::bytes::{spec_u16_from_le_bytes, spec_u16_to_le_bytes};
use vstd::prelude::*;
use vstd::string::StrSliceExecFns;
use vstd::utf8::{decode_utf8, encode_utf8, valid_utf8};

verus! {

/// The staged payloads, by nonce.
pub uninterp spec fn staged_payloads(m: papaya::HashMap<u64, Vec<u8>>) -> Map<u64, Seq<u8>>;

/// The model of the staged payloads.
pub type Staged = Map<u64, Seq<u8>>;

/// `papaya::HashMap::new`: a map without entries.
#[verifier::external_body]
fn staging_new() -> (m: papaya::HashMap<u64, Vec<u8>>)
    ensures
        staged_payloads(m) == Staged::empty(),
{
    papaya::HashMap::new()
}

/// `papaya::HashMapRef::get`: the payload of `nonce`, if there is one.
#[verifier::external_body]
fn staging_get(m: &papaya::HashMap<u64, Vec<u8>>, nonce: u64) -> (r: Option<Vec<u8>>)
    ensures
        r is Some <==> staged_payloads(*m).contains_key(nonce),
        r matches Some(v) ==> v@ == staged_payloads(*m)[nonce],
{
    m.pin().get(&nonce).cloned()
}

/// `papaya::HashMapRef::insert`: `nonce` maps to `payload` afterwards; no
/// other key changes.
#[verifier::external_body]
fn staging_insert(m: &mut papaya::HashMap<u64, Vec<u8>>, nonce: u64, payload: Vec<u8>)
    ensures
        staged_payloads(*final(m)) == staged_payloads(*old(m)).insert(nonce, payload@),
{
    m.pin().insert(nonce, payload);
}

/// `papaya::HashMapRef::remove`: `nonce` has no entry afterwards; no other
/// key changes.
#[verifier::external_body]
fn staging_remove(m: &mut papaya::HashMap<u64, Vec<u8>>, nonce: u64)
    ensures
        staged_payloads(*final(m)) == staged_payloads(*old(m)).remove(nonce),
{
    m.pin().remove(&nonce);
}

/// Payloads that wait to be fetched, and the port they are served on.
pub struct BulkTransport {
    pub staging: papaya::HashMap<u64, Vec<u8>>,
    pub http_port: u16,
}

/// Why a bulk call failed.
#[derive(Debug, Clone, Copy, PartialEq, Eq, Structural)]
pub enum BulkError {
    /// The target did not answer in time.
    Timeout,
    /// There is no port to serve the payload on.
    NoHttpPort,
}

impl BulkError {
    /// The error in words.
    pub fn message(&self) -> (s: String)
        ensures
            s@ == (match self {
                BulkError::Timeout => "bulk_call timed out — no reply from target"@,
                BulkError::NoHttpPort => "bulk_call requires an http_port in GossipConfig"@,
            }),
    {
        match self {
            BulkError::Timeout => "bulk_call timed out — no reply from target".to_owned(),
            BulkError::NoHttpPort => "bulk_call requires an http_port in GossipConfig".to_owned(),
        }
    }
}

/// The bytes of a ticket: the nonce, the port and the kind of the call.
pub open spec fn ticket_bytes(nonce: u64, port: u16, kind: Seq<char>) -> Seq<u8> {
    with_leading_u64(nonce, spec_u16_to_le_bytes(port) + encode_utf8(kind))
}

/// The nonce, port and kind that a ticket holds, `None` if it is too short or
/// its kind is no text.
pub open spec fn ticket_in(v: Seq<u8>) -> Option<(u64, u16, Seq<char>)> {
    if v.len() < 10 || !valid_utf8(v.skip(10)) {
        None
    } else {
        Some(
            (
                leading_u64(v)->0,
                spec_u16_from_le_bytes(v.subrange(8, 10)),
                decode_utf8(v.skip(10)),
            ),
        )
    }
}

/// A staged call: its nonce, and the ticket to send.
pub struct StagedCall {
    pub nonce: u64,
    pub ticket: Vec<u8>,
}

impl BulkTransport {
    /// The staged payloads, by nonce.
    pub open spec fn staged(&self) -> Staged {
        staged_payloads(self.staging)
    }

    /// Nothing staged.
    pub fn new(http_port: u16) -> (b: BulkTransport)
        ensures
            b.staged() == Staged::empty(),
            b.http_port == http_port,
    {
        BulkTransport { staging: staging_new(), http_port }
    }

    /// The payload staged under `nonce`.
    pub fn get(&self, nonce: u64) -> (r: Option<Vec<u8>>)
        ensures
            r is Some <==> self.staged().contains_key(nonce),
            r matches Some(v) ==> v@ == self.staged()[nonce],
    {
        staging_get(&self.staging, nonce)
    }

    /// The port that payloads are served on, zero for none.
    pub fn http_port(&self) -> (p: u16)
        ensures
            p == self.http_port,
    {
        self.http_port
    }

    /// Sets the port that payloads are served on.
    pub fn set_http_port(&mut self, port: u16)
        ensures
            final(self).http_port == port,
            final(self).staging == old(self).staging,
    {
        self.http_port = port;
    }

    /// Begins a bulk call: stages the payload under a fresh nonce and makes
    /// the ticket. Fails where there is no port to serve it on.
    pub fn begin_call(&mut self, kind: &str, payload: Vec<u8>) -> (r: Result<StagedCall, BulkError>)
        ensures
            final(self).http_port == old(self).http_port,
            match r {
                Err(e) => e == BulkError::NoHttpPort && old(self).http_port == 0 && *final(self) == *old(self),
                Ok(c) => old(self).http_port != 0 && c.nonce >= 1 && final(self).staged() == old(
                    self,
                ).staged().insert(c.nonce, payload@) && c.ticket@ == ticket_bytes(
                    c.nonce,
                    old(self).http_port,
                    kind@,
                ),
            },
    {
        if self.http_port == 0 {
            return Err(BulkError::NoHttpPort);
        }
        let nonce: u64 = fresh_nonce();
        staging_insert(&mut self.staging, nonce, payload);
        Ok(StagedCall { nonce, ticket: make_ticket(nonce, self.http_port, kind) })
    }

    /// Ends a bulk call: the payload is no longer staged, and a reply that
    /// did not come is a timeout.
    pub fn end_call(&mut self, nonce: u64, reply: Option<Vec<u8>>) -> (r: Result<Vec<u8>, BulkError>)
        ensures
            final(self).staged() == old(self).staged().remove(nonce),
            final(self).http_port == old(self).http_port,
            match reply {
                Some(v) => r is Ok && r->Ok_0 == v,
                None => r == Err::<Vec<u8>, BulkError>(BulkError::Timeout),
            },
    {
        staging_remove(&mut self.staging, nonce);
        match reply {
            Some(v) => Ok(v),
            None => Err(BulkError::Timeout),
        }
    }

    /// What a request for the payload `corr_id` gets.
    pub fn serve(&self, corr_id: &str) -> (r: StagedReply)
        ensures
            match correlation_nonce(corr_id@) {
                None => r is BadRequest,
                Some(nonce) => if self.staged().contains_key(nonce) {
                    r matches StagedReply::Payload { bytes } && bytes@ == self.staged()[nonce]
                } else {
                    r is NotFound
                },
            },
    {
        match parse_correlation(corr_id) {
            None => StagedReply::BadRequest,
            Some(nonce) => match self.get(nonce) {
                Some(bytes) => StagedReply::Payload { bytes },
                None => StagedReply::NotFound,
            },
        }
    }
}

/// The answer to a request for a staged payload.
pub enum StagedReply {
    Payload { bytes: Vec<u8> },
    NotFound,
    BadRequest,
}

/// `s` without any leading `0x`.
pub open spec fn without_0x(s: Seq<char>) -> Seq<char>
    decreases s.len(),
{
    if s.len() >= 2 && s[0] == '0' && s[1] == 'x' {
        without_0x(s.skip(2))
    } else {
        s
    }
}

/// The nonce that a correlation id denotes.
pub open spec fn correlation_nonce(s: Seq<char>) -> Option<u64> {
    parse_hex_spec(without_0x(s))
}

/// Reads the nonce in a correlation id.
pub fn parse_correlation(s: &str) -> (r: Option<u64>)
    ensures
        r == correlation_nonce(s@),
{
    proof {
        reveal_strlit("0x");
    }
    let mut rest = s.to_owned();
    let ghost total = s@.len();
    let mut fuel: usize = crate::text::chars_of(s).len();
    loop
        invariant
            fuel == rest@.len(),
            without_0x(s@) == without_0x(rest@),
            "0x"@.len() == 2,
            "0x"@[0] == '0',
            "0x"@[1] == 'x',
        decreases fuel,
    {
        match strip_prefix(rest.as_str(), "0x") {
            Some(t) => {
                proof {
                    assert(rest@.take(2)[0] == '0' && rest@.take(2)[1] == 'x');
                    assert(t@ =~= rest@.skip(2));
                }
                fuel = fuel - 2;
                rest = t;
            },
            None => {
                proof {
                    if rest@.len() >= 2 && rest@[0] == '0' && rest@[1] == 'x' {
                        assert(rest@.take(2) =~= "0x"@);
                    }
                }
                return parse_hex_u64(rest.as_str());
            },
        }
    }
}

fn make_ticket(nonce: u64, port: u16, kind: &str) -> (t: Vec<u8>)
    ensures
        t@ == ticket_bytes(nonce, port, kind@),
{
    let mut rest = vstd::bytes::u16_to_le_bytes(port);
    let ghost head = rest@;
    let kind_bytes = kind.as_bytes_vec();
    let mut i: usize = 0;
    assert(head + kind_bytes@.take(0) =~= head);
    while i < kind_bytes.len()
        invariant
            i <= kind_bytes.len(),
            rest@ == head + kind_bytes@.take(i as int),
        decreases kind_bytes.len() - i,
    {
        rest.push(kind_bytes[i]);
        assert((head + kind_bytes@.take(i as int)).push(kind_bytes@[i as int]) =~= head + kind_bytes@.take(
            i + 1,
        ));
        i += 1;
    }
    assert(kind_bytes@.take(i as int) =~= kind_bytes@);
    frame_with_nonce(nonce, &rest)
}

/// A ticket as its target reads it.
pub struct BulkTicket {
    pub nonce: u64,
    pub http_port: u16,
    pub kind: String,
}

/// Reads a ticket.
pub fn parse_ticket(v: &Vec<u8>) -> (r: Option<BulkTicket>)
    ensures
        r is Some <==> ticket_in(v@) is Some,
        r matches Some(t) ==> ticket_in(v@) == Some((t.nonce, t.http_port, t.kind@)),
{
    if v.len() < 10 {
        return None;
    }
    let nonce: u64 = match read_leading_u64(v) {
        Some(n) => n,
        None => {
            return None;
        },
    };
    let mut port_bytes: Vec<u8> = Vec::new();
    port_bytes.push(v[8]);
    port_bytes.push(v[9]);
    assert(port_bytes@ =~= v@.subrange(8, 10));
    let http_port: u16 = vstd::bytes::u16_from_le_bytes(port_bytes.as_slice());
    let mut kind_bytes: Vec<u8> = Vec::new();
    let mut i: usize = 10;
    while i < v.len()
        invariant
            10 <= i <= v.len(),
            kind_bytes@ == v@.subrange(10, i as int),
        decreases v.len() - i,
    {
        kind_bytes.push(v[i]);
        assert(v@.subrange(10, i + 1) =~= v@.subrange(10, i as int).push(v@[i as int]));
        i += 1;
    }
    assert(kind_bytes@ =~= v@.skip(10));
    match utf8_text(kind_bytes) {
        None => None,
        Some(kind) => Some(BulkTicket { nonce, http_port, kind }),
    }
}

/// The kind of the signals that carry a ticket.
pub const INVOKE_BULK: &'static str = "invoke.bulk";

/// The kind of the signals that carry the reply to a bulk call.
pub const BULK_RESULT: &'static str = "bulk.result";

/// The ticket of a call of `kind`; other signals are left to others.
pub fn bulk_ticket_for(payload: &Vec<u8>, kind: &str) -> (r: Option<BulkTicket>)
    ensures
        r is Some <==> ticket_in(payload@) is Some && (ticket_in(payload@)->0).2 == kind@,
        r matches Some(t) ==> ticket_in(payload@) == Some((t.nonce, t.http_port, t.kind@)),
{
    match parse_ticket(payload) {
        Some(t) => if same_text(t.kind.as_str(), kind) {
            Some(t)
        } else {
            None
        },
        None => None,
    }
}

impl MeshHandle {
    /// Sends the ticket of a bulk call to its target.
    pub fn send_ticket(&mut self, target: &NodeId, call: &StagedCall, not_shed: bool, now_ms: u64) -> (queued: bool)
        requires
            old(self).wf(),
        ensures
            emitted(
                *old(self),
                *final(self),
                INVOKE_BULK@,
                ScopeView::Individual(target@),
                call.ticket@,
                not_shed,
                now_ms,
            ),
            queued == (outcome_for(old(self).kv, INVOKE_BULK@) == Dispatch::Queued),
    {
        let ticket = copy_bytes(&call.ticket);
        self.emit(INVOKE_BULK, SignalScope::Individual(target.copy()), ticket, not_shed, now_ms)
    }

    /// Sends the result of a bulk call to the node that made it.
    pub fn bulk_reply(
        &mut self,
        to: &NodeId,
        ticket: &BulkTicket,
        result: &Vec<u8>,
        not_shed: bool,
        now_ms: u64,
    ) -> (queued: bool)
        requires
            old(self).wf(),
        ensures
            emitted(
                *old(self),
                *final(self),
                BULK_RESULT@,
                ScopeView::Individual(to@),
                with_leading_u64(ticket.nonce, result@),
                not_shed,
                now_ms,
            ),
            queued == (outcome_for(old(self).kv, BULK_RESULT@) == Dispatch::Queued),
    {
        let payload = frame_with_nonce(ticket.nonce, result);
        self.emit(BULK_RESULT, SignalScope::Individual(to.copy()), payload, not_shed, now_ms)
    }
}

/// Where the payload of a ticket from `host` is fetched.
pub fn fetch_url(host: &str, ticket: &BulkTicket) -> (s: String)
    ensures
        s@ == "http://"@ + host@ + ":"@ + dec_text(ticket.http_port as nat) + "/bulk/"@ + hex_fixed(
            ticket.nonce as int,
            16,
        ),
{
    let head = join3("http://", host, ":");
    let mid = join3(head.as_str(), dec_string(ticket.http_port as u64).as_str(), "/bulk/");
    join2(mid.as_str(), hex16(ticket.nonce).as_str())
}

/// A target reads from a ticket what the caller put into it.
pub proof fn law_ticket_round_trip(nonce: u64, port: u16, kind: Seq<char>)
    ensures
        ticket_in(ticket_bytes(nonce, port, kind)) == Some((nonce, port, kind)),
{
    let rest = spec_u16_to_le_bytes(port) + encode_utf8(kind);
    let v = ticket_bytes(nonce, port, kind);
    crate::evidence::law_frame_round_trip(nonce, rest);
    vstd::bytes::lemma_auto_spec_u16_to_from_le_bytes();
    vstd::bytes::lemma_auto_spec_u64_to_from_le_bytes();
    assert(spec_u16_to_le_bytes(port).len() == 2);
    assert(v.skip(8) == rest);
    assert(v.subrange(8, 10) =~= v.skip(8).take(2));
    assert(v.subrange(8, 10) =~= spec_u16_to_le_bytes(port));
    assert(v.skip(10) =~= v.skip(8).skip(2));
    assert(v.skip(10) =~= encode_utf8(kind));
    vstd::utf8::encode_utf8_valid_utf8(kind);
    vstd::utf8::encode_utf8_decode_utf8(kind);
}

/// The sixteen digits in a fetch address denote the nonce they were made
/// from.
pub proof fn law_fetch_address_denotes_nonce(nonce: u64)
    ensures
        correlation_nonce(hex_fixed(nonce as int, 16)) == Some(nonce),
{
    let s = hex_fixed(nonce as int, 16);
    crate::text::lemma_hex16_round_trip(nonce);
    crate::text::lemma_hex_digits(nonce as int, 16);
    assert(s[1] != 'x') by {
        assert(crate::text::hex_value(s[1]) is Some);
    }
    assert(without_0x(s) == s);
}

/// The mark of a hexadecimal number in front of a correlation is passed over.
pub proof fn law_hexadecimal_mark_is_passed_over(s: Seq<char>)
    ensures
        correlation_nonce("0x"@ + s) == correlation_nonce(s),
        !(s.len() >= 2 && s[0] == '0' && s[1] == 'x') ==> correlation_nonce(s) == parse_hex_spec(s),
{
    reveal_strlit("0x");
    assert(("0x"@ + s).skip(2) =~= s);
    assert(("0x"@ + s)[0] == '0' && ("0x"@ + s)[1] == 'x');
}

} // verus!
