//! What a resolver does with a query: forward it, or answer it locally.

use crate::base64url::{base64url, base64url_error, decode_base64url};
use crate::blocklist::Blocklist;
use crate::dns::{
    decode_message, dns_decode, dns_encode, encode_message, label_bytes, name_ok, name_text,
    questions_ok, shown_name, wire_header, DnsMessage, DnsQuestion, MessageView,
};
use crate::order::texts;
use crate::text::joined;
use vstd::prelude::*;

verus! {

/// DNS message media type from RFC 8484.
pub const DNS_MESSAGE_CONTENT_TYPE: &'static str = "application/dns-message";

/// Default upstream used when `UPSTREAM_DOH` is not configured.
pub const DEFAULT_UPSTREAM_DOH: &'static str = "https://cloudflare-dns.com/dns-query";

/// The response code of a name that does not exist.
pub const NXDOMAIN: u16 = 3;

/// Result of applying local policy to a `DoH` query.
#[derive(Debug, Clone, PartialEq, Eq)]
pub enum ResolveDecision {
    /// The query can be forwarded to an upstream resolver.
    Forward {
        /// Original DNS wire-format query.
        query: Vec<u8>,
    },
    /// The query matched a blocklist rule and should be answered locally.
    Block {
        /// DNS wire-format response.
        response: Vec<u8>,
    },
}

/// Error type for DNS parsing and policy handling.
#[derive(Debug, Clone, PartialEq, Eq)]
pub enum ResolveError {
    /// The DNS message could not be decoded.
    Decode {
        /// Decoder error detail.
        source: String,
    },
    /// The DNS message could not be encoded.
    Encode {
        /// Encoder error detail.
        source: String,
    },
    /// The HTTP GET `dns` parameter is not valid unpadded base64url.
    InvalidGetQuery {
        /// Decoder error detail.
        source: String,
    },
}

impl ResolveError {
    /// What the error says.
    pub open spec fn text(&self) -> Seq<char> {
        match self {
            ResolveError::Decode { source } => "failed to decode DNS message: "@ + source@,
            ResolveError::Encode { source } => "failed to encode DNS message: "@ + source@,
            ResolveError::InvalidGetQuery { source } => "failed to decode DoH GET query: "@
                + source@,
        }
    }

    /// What the error says.
    #[must_use]
    pub fn message(&self) -> (r: String)
        ensures
            r@ == self.text(),
    {
        match self {
            ResolveError::Decode { source } => joined(
                "failed to decode DNS message: ",
                source.as_str(),
            ),
            ResolveError::Encode { source } => joined(
                "failed to encode DNS message: ",
                source.as_str(),
            ),
            ResolveError::InvalidGetQuery { source } => joined(
                "failed to decode DoH GET query: ",
                source.as_str(),
            ),
        }
    }
}

/// The texts of the names that a message asks for.
pub open spec fn asked_names(m: MessageView) -> Seq<Seq<char>> {
    Seq::new(m.questions.len(), |i: int| shown_name(m.questions[i].labels))
}

/// Whether one of `names` is blocked.
pub open spec fn any_blocked(blocklist: &Blocklist, names: Seq<Seq<char>>) -> bool {
    exists|i: int| 0 <= i < names.len() && blocklist.blocks(#[trigger] names[i])
}

/// The answer to a blocked query: its questions, and that the name does not
/// exist.
pub open spec fn nxdomain_answer(m: MessageView) -> MessageView {
    MessageView {
        id: m.id,
        is_response: true,
        op_code: m.op_code,
        recursion_desired: m.recursion_desired,
        recursion_available: true,
        response_code: NXDOMAIN,
        questions: m.questions,
    }
}

/// What comes of answering a blocked query locally.
pub open spec fn blocks_with(m: MessageView, r: Result<ResolveDecision, ResolveError>) -> bool {
    match r {
        Ok(ResolveDecision::Block { response }) => {
            &&& dns_encode(nxdomain_answer(m)) == Ok::<Seq<u8>, Seq<char>>(response@)
            &&& dns_decode(response@) == Ok::<MessageView, Seq<char>>(nxdomain_answer(m))
            &&& response@.len() >= 12
            &&& response@.take(12) == wire_header(nxdomain_answer(m))
        },
        Err(ResolveError::Encode { source }) => {
            &&& dns_encode(nxdomain_answer(m)) == Err::<Seq<u8>, Seq<char>>(source@)
            &&& 12 + 259 * m.questions.len() > 65535
        },
        _ => false,
    }
}

/// What comes of passing a query on.
pub open spec fn forwards(query: Seq<u8>, r: Result<ResolveDecision, ResolveError>) -> bool {
    r matches Ok(ResolveDecision::Forward { query: q }) && q@ == query
}

/// A copy of a list of labels.
fn copy_labels(labels: &Vec<Vec<u8>>) -> (r: Vec<Vec<u8>>)
    ensures
        label_bytes(r@) == label_bytes(labels@),
{
    let mut out: Vec<Vec<u8>> = Vec::new();
    let mut k: usize = 0;
    while k < labels.len()
        invariant
            k <= labels@.len(),
            out@.len() == k,
            forall|i: int| 0 <= i < k ==> (#[trigger] out@[i])@ == labels@[i]@,
        decreases labels@.len() - k,
    {
        let mut label: Vec<u8> = Vec::new();
        label.extend_from_slice(labels[k].as_slice());
        proof {
            assert(label@ =~= labels@[k as int]@);
        }
        out.push(label);
        k = k + 1;
    }
    proof {
        assert(label_bytes(out@) =~= label_bytes(labels@));
    }
    out
}

/// The answer to a blocked query: its questions, and that the name does not
/// exist.
#[must_use]
pub fn nxdomain_response(query: &DnsMessage) -> (r: DnsMessage)
    ensures
        r@ == nxdomain_answer(query@),
{
    let mut questions: Vec<DnsQuestion> = Vec::new();
    let mut k: usize = 0;
    while k < query.questions.len()
        invariant
            k <= query.questions@.len(),
            questions@.len() == k,
            forall|i: int| 0 <= i < k ==> (#[trigger] questions@[i])@ == query.questions@[i]@,
        decreases query.questions@.len() - k,
    {
        questions.push(
            DnsQuestion {
                labels: copy_labels(&query.questions[k].labels),
                query_type: query.questions[k].query_type,
                query_class: query.questions[k].query_class,
            },
        );
        k = k + 1;
    }
    let r: DnsMessage = DnsMessage {
        id: query.id,
        is_response: true,
        op_code: query.op_code,
        recursion_desired: query.recursion_desired,
        recursion_available: true,
        response_code: NXDOMAIN,
        questions,
    };
    proof {
        assert(r@.questions =~= query@.questions);
    }
    r
}

/// The wire format of the answer to a blocked query.
///
/// # Errors
///
/// Returns `ResolveError::Encode` if the answer cannot be encoded.
pub fn blocked_response(query: &DnsMessage) -> (r: Result<Vec<u8>, ResolveError>)
    ensures
        match r {
            Ok(bytes) => {
                &&& dns_encode(nxdomain_answer(query@)) == Ok::<Seq<u8>, Seq<char>>(bytes@)
                &&& questions_ok(query@) && query.op_code < 16 ==> {
                    &&& dns_decode(bytes@) == Ok::<MessageView, Seq<char>>(nxdomain_answer(query@))
                    &&& bytes@.len() >= 12
                    &&& bytes@.take(12) == wire_header(nxdomain_answer(query@))
                }
            },
            Err(error) => {
                &&& error matches ResolveError::Encode { source }
                &&& dns_encode(nxdomain_answer(query@)) == Err::<Seq<u8>, Seq<char>>(source@)
                &&& !(questions_ok(query@) && 12 + 259 * query.questions@.len() <= 65535)
            },
        },
{
    let answer: DnsMessage = nxdomain_response(query);
    proof {
        assert(answer@.questions.len() == answer.questions@.len());
        if questions_ok(query@) {
            assert forall|i: int| 0 <= i < answer@.questions.len() implies name_ok(
                (#[trigger] answer@.questions[i]).labels,
            ) by {
                assert(name_ok(query@.questions[i].labels));
            }
        }
    }
    match encode_message(&answer) {
        Ok(bytes) => Ok(bytes),
        Err(source) => Err(ResolveError::Encode { source }),
    }
}

/// Whether one of `names` is blocked.
#[must_use]
pub fn is_any_blocked(names: &Vec<String>, blocklist: &Blocklist) -> (r: bool)
    ensures
        r == any_blocked(blocklist, texts(names@)),
{
    let mut k: usize = 0;
    while k < names.len()
        invariant
            k <= names@.len(),
            forall|i: int| 0 <= i < k ==> !blocklist.blocks(#[trigger] texts(names@)[i]),
        decreases names@.len() - k,
    {
        if blocklist.matches(names[k].as_str()) {
            proof {
                assert(blocklist.blocks(texts(names@)[k as int]));
            }
            return true;
        }
        k = k + 1;
    }
    false
}

/// The texts of the names that a message asks for.
#[must_use]
pub fn question_names(message: &DnsMessage) -> (r: Vec<String>)
    requires
        questions_ok(message@),
    ensures
        texts(r@) == asked_names(message@),
        r@.len() == message.questions@.len(),
        forall|i: int|
            0 <= i < r@.len() ==> (#[trigger] r@[i])@ == shown_name(
                label_bytes(message.questions@[i].labels@),
            ),
{
    let mut names: Vec<String> = Vec::new();
    let mut k: usize = 0;
    while k < message.questions.len()
        invariant
            k <= message.questions@.len(),
            questions_ok(message@),
            names@.len() == k,
            forall|i: int| 0 <= i < k ==> (#[trigger] names@[i])@ == asked_names(message@)[i],
        decreases message.questions@.len() - k,
    {
        proof {
            assert(name_ok(message@.questions[k as int].labels));
        }
        names.push(name_text(&message.questions[k].labels));
        k = k + 1;
    }
    proof {
        assert(texts(names@) =~= asked_names(message@));
    }
    names
}

/// Applies blocklist policy to a decoded query. `query` is its wire format.
///
/// # Errors
///
/// Returns `ResolveError::Encode` if an NXDOMAIN response cannot be encoded.
pub fn decide(query: &[u8], message: &DnsMessage, blocklist: &Blocklist) -> (r: Result<
    ResolveDecision,
    ResolveError,
>)
    requires
        questions_ok(message@),
        message.op_code < 16,
    ensures
        if any_blocked(blocklist, asked_names(message@)) {
            blocks_with(message@, r)
        } else {
            forwards(query@, r)
        },
{
    let names: Vec<String> = question_names(message);
    if is_any_blocked(&names, blocklist) {
        match blocked_response(message) {
            Ok(response) => Ok(ResolveDecision::Block { response }),
            Err(error) => Err(error),
        }
    } else {
        let mut copy: Vec<u8> = Vec::new();
        copy.extend_from_slice(query);
        proof {
            assert(copy@ =~= query@);
        }
        Ok(ResolveDecision::Forward { query: copy })
    }
}

/// Applies blocklist policy to a DNS wire-format query.
///
/// Forwarding is intentionally left to the platform entrypoint so the core can stay portable
/// across Cloudflare Workers and future serverless targets.
///
/// A local response starts with the identifier of the query, and says NXDOMAIN.
///
/// # Errors
///
/// Returns `ResolveError` if the DNS message cannot be decoded or an NXDOMAIN response cannot be
/// encoded.
pub fn resolve_query(query: &[u8], blocklist: &Blocklist) -> (r: Result<
    ResolveDecision,
    ResolveError,
>)
    ensures
        match dns_decode(query@) {
            Ok(m) => if any_blocked(blocklist, asked_names(m)) {
                blocks_with(m, r)
            } else {
                forwards(query@, r)
            },
            Err(e) => r matches Err(ResolveError::Decode { source }) && source@ == e,
        },
        dns_decode(query@) matches Ok(m) ==> forall|i: int|
            0 <= i < m.questions.len() && blocklist.blocks(
                shown_name((#[trigger] m.questions[i]).labels),
            ) ==> !(r matches Ok(ResolveDecision::Forward { query: _ })),
        r matches Ok(ResolveDecision::Block { response }) ==> {
            &&& response@.take(2) == query@.take(2)
            &&& response@[2] >= 128
            &&& response@[3] == 128 + NXDOMAIN
        },
{
    match decode_message(query) {
        Ok(message) => {
            let r: Result<ResolveDecision, ResolveError> = decide(query, &message, blocklist);
            proof {
                each_question_can_block_a_query(blocklist, message@);
                if r is Ok && r->Ok_0 is Block {
                    let response = r->Ok_0->response;
                    let header = wire_header(nxdomain_answer(message@));
                    assert forall|i: int| 0 <= i < 12 implies response@[i] == header[i] by {
                        assert(response@.take(12)[i] == header[i]);
                    }
                    assert(response@.take(2) =~= query@.take(2));
                }
            }
            r
        },
        Err(source) => Err(ResolveError::Decode { source }),
    }
}

/// Decodes an RFC 8484 GET `dns` query parameter.
///
/// # Errors
///
/// Returns `ResolveError::InvalidGetQuery` if the value is not valid unpadded base64url.
pub fn decode_get_query(encoded_query: &str) -> (r: Result<Vec<u8>, ResolveError>)
    ensures
        match r {
            Ok(query) => base64url(query@) == encoded_query@,
            Err(error) => {
                &&& forall|b: Seq<u8>| #[trigger]
                    base64url(b) != encoded_query@
                &&& error matches ResolveError::InvalidGetQuery { source }
                &&& source@ == base64url_error(encoded_query@)
            },
        },
{
    match decode_base64url(encoded_query) {
        Ok(query) => Ok(query),
        Err(source) => Err(ResolveError::InvalidGetQuery { source }),
    }
}

/// Whether a query is blocked is a question of the names that it asks for: each question
/// counts, whatever record type and class it has, and nothing else does.
pub proof fn each_question_can_block_a_query(blocklist: &Blocklist, m: MessageView)
    ensures
        any_blocked(blocklist, asked_names(m)) <==> exists|i: int|
            0 <= i < m.questions.len() && blocklist.blocks(
                shown_name((#[trigger] m.questions[i]).labels),
            ),
        asked_names(m).len() == m.questions.len(),
        forall|i: int|
            0 <= i < m.questions.len() ==> #[trigger] asked_names(m)[i] == shown_name(
                m.questions[i].labels,
            ),
{
    if any_blocked(blocklist, asked_names(m)) {
        let i = choose|i: int|
            0 <= i < asked_names(m).len() && blocklist.blocks(#[trigger] asked_names(m)[i]);
        assert(blocklist.blocks(shown_name(m.questions[i].labels)));
    }
    assert forall|i: int|
        0 <= i < m.questions.len() && blocklist.blocks(
            shown_name((#[trigger] m.questions[i]).labels),
        ) implies any_blocked(blocklist, asked_names(m)) by {
        assert(blocklist.blocks(asked_names(m)[i]));
    }
}

/// A list of names is blocked if one of them is.
pub proof fn one_blocked_name_is_enough(blocklist: &Blocklist, names: Seq<Seq<char>>)
    ensures
        any_blocked(blocklist, names) <==> exists|i: int|
            0 <= i < names.len() && blocklist.blocks(#[trigger] names[i]),
{
}

/// Two messages whose questions ask for the same names are both blocked or both not.
pub proof fn record_types_play_no_part(blocklist: &Blocklist, m: MessageView, other: MessageView)
    requires
        m.questions.len() == other.questions.len(),
        forall|i: int|
            0 <= i < m.questions.len() ==> (#[trigger] m.questions[i]).labels
                == other.questions[i].labels,
    ensures
        any_blocked(blocklist, asked_names(m)) == any_blocked(blocklist, asked_names(other)),
{
    assert(asked_names(m) =~= asked_names(other));
}

/// A blocked query is never forwarded. It is answered with its identifier, kind, wish for
/// recursion and questions, as a response that offers recursion and says that the name
/// does not exist, and only an answer that cannot be encoded is an error.
pub proof fn blocked_queries_are_answered(
    m: MessageView,
    r: Result<ResolveDecision, ResolveError>,
)
    requires
        blocks_with(m, r),
    ensures
        !(r matches Ok(ResolveDecision::Forward { query: _ })),
        r matches Err(e) ==> e is Encode && 12 + 259 * m.questions.len() > 65535 && dns_encode(
            nxdomain_answer(m),
        ) == Err::<Seq<u8>, Seq<char>>(e->Encode_source@),
        r matches Ok(ResolveDecision::Block { response }) ==> {
            &&& dns_encode(nxdomain_answer(m)) == Ok::<Seq<u8>, Seq<char>>(response@)
            &&& dns_decode(response@) matches Ok(a)
            &&& a.id == m.id
            &&& a.is_response
            &&& a.op_code == m.op_code
            &&& a.recursion_desired == m.recursion_desired
            &&& a.recursion_available
            &&& a.response_code == 3
            &&& a.questions == m.questions
        },
{
}

/// The answer to a blocked query has its identifier, kind, wish for recursion and
/// questions, and is a response that offers recursion and says that the name does not
/// exist.
pub proof fn answers_keep_what_was_asked(m: MessageView)
    ensures
        nxdomain_answer(m).id == m.id,
        nxdomain_answer(m).is_response,
        nxdomain_answer(m).op_code == m.op_code,
        nxdomain_answer(m).recursion_desired == m.recursion_desired,
        nxdomain_answer(m).recursion_available,
        nxdomain_answer(m).response_code == 3,
        nxdomain_answer(m).questions == m.questions,
{
}

/// A query that is passed on is passed on as it is.
pub proof fn forwarded_queries_are_unchanged(
    query: Seq<u8>,
    r: Result<ResolveDecision, ResolveError>,
)
    ensures
        forwards(query, r) <==> (r matches Ok(ResolveDecision::Forward { query: q }) && q@ == query),
{
}

/// What an error says is what failed and then its detail.
pub proof fn errors_say_what_failed(e: ResolveError)
    ensures
        e matches ResolveError::Decode { source } ==> e.text() == "failed to decode DNS message: "@
            + source@,
        e matches ResolveError::Encode { source } ==> e.text() == "failed to encode DNS message: "@
            + source@,
        e matches ResolveError::InvalidGetQuery { source } ==> e.text()
            == "failed to decode DoH GET query: "@ + source@,
{
}

/// The media type of RFC 8484, the upstream that is used by default, and the code of RFC
/// 1035 for a name that does not exist.
pub proof fn protocol_constants()
    ensures
        DNS_MESSAGE_CONTENT_TYPE@ == "application/dns-message"@,
        DEFAULT_UPSTREAM_DOH@ == "https://cloudflare-dns.com/dns-query"@,
        NXDOMAIN == 3,
{
}

} // verus!
