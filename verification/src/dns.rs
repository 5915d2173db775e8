//! DNS messages as plain values, and their wire format.

use hickory_proto::op::{Message, MessageType, OpCode, Query};
use hickory_proto::rr::Name;
use vstd::prelude::*;

verus! {

/// One question of a DNS message.
#[derive(Debug, Clone, PartialEq, Eq)]
pub struct DnsQuestion {
    /// The labels of the name, from left to right; none for the root.
    pub labels: Vec<Vec<u8>>,
    /// The record type asked for.
    pub query_type: u16,
    /// The class asked for.
    pub query_class: u16,
}

/// The parts of a DNS message that policy reads and writes.
#[derive(Debug, Clone, PartialEq, Eq)]
pub struct DnsMessage {
    /// Message identifier, chosen by the client.
    pub id: u16,
    /// Whether the message is a response.
    pub is_response: bool,
    /// Kind of query.
    pub op_code: u8,
    /// Whether the client asks for recursion.
    pub recursion_desired: bool,
    /// Whether the server offers recursion.
    pub recursion_available: bool,
    /// Outcome of the query.
    pub response_code: u16,
    /// The questions.
    pub questions: Vec<DnsQuestion>,
}

/// A question, over sequences.
pub struct QuestionView {
    /// The labels of the name.
    pub labels: Seq<Seq<u8>>,
    /// The record type asked for.
    pub query_type: u16,
    /// The class asked for.
    pub query_class: u16,
}

/// A message, over sequences.
pub struct MessageView {
    /// Message identifier.
    pub id: u16,
    /// Whether the message is a response.
    pub is_response: bool,
    /// Kind of query.
    pub op_code: u8,
    /// Whether the client asks for recursion.
    pub recursion_desired: bool,
    /// Whether the server offers recursion.
    pub recursion_available: bool,
    /// Outcome of the query.
    pub response_code: u16,
    /// The questions.
    pub questions: Seq<QuestionView>,
}

/// The bytes of a list of labels.
pub open spec fn label_bytes(labels: Seq<Vec<u8>>) -> Seq<Seq<u8>> {
    Seq::new(labels.len(), |i: int| labels[i]@)
}

impl View for DnsQuestion {
    type V = QuestionView;

    open spec fn view(&self) -> QuestionView {
        QuestionView {
            labels: label_bytes(self.labels@),
            query_type: self.query_type,
            query_class: self.query_class,
        }
    }
}

impl View for DnsMessage {
    type V = MessageView;

    open spec fn view(&self) -> MessageView {
        MessageView {
            id: self.id,
            is_response: self.is_response,
            op_code: self.op_code,
            recursion_desired: self.recursion_desired,
            recursion_available: self.recursion_available,
            response_code: self.response_code,
            questions: Seq::new(self.questions@.len(), |i: int| self.questions@[i]@),
        }
    }
}

/// How many bytes the labels of a name take on the wire, each with its length,
/// and without the root label that ends the name.
pub open spec fn wire_length(labels: Seq<Seq<u8>>) -> int
    decreases labels.len(),
{
    if labels.len() == 0 {
        0
    } else {
        wire_length(labels.drop_last()) + labels.last().len() + 1
    }
}

/// The labels of a DNS name: 1 to 63 bytes each, 254 bytes in all with their
/// lengths.
pub open spec fn name_ok(labels: Seq<Seq<u8>>) -> bool {
    &&& forall|i: int| 0 <= i < labels.len() ==> 1 <= (#[trigger] labels[i]).len() <= 63
    &&& wire_length(labels) <= 254
}

/// A message with names, a kind of query and an outcome that the wire format has
/// room for.
pub open spec fn message_ok(m: MessageView) -> bool {
    &&& m.op_code < 16
    &&& m.response_code < 16
    &&& questions_ok(m)
}

/// A message whose questions all ask for a DNS name.
pub open spec fn questions_ok(m: MessageView) -> bool {
    forall|i: int| 0 <= i < m.questions.len() ==> name_ok((#[trigger] m.questions[i]).labels)
}

/// `value` if the flag is set.
pub open spec fn flag(set: bool, value: int) -> int {
    if set {
        value
    } else {
        0
    }
}

/// The header of a message that has questions only, on the wire.
pub open spec fn wire_header(m: MessageView) -> Seq<u8> {
    let count = m.questions.len() as int;
    seq![
        (m.id as int / 256) as u8,
        (m.id as int % 256) as u8,
        (flag(m.is_response, 128) + 8 * m.op_code + flag(m.recursion_desired, 1)) as u8,
        (flag(m.recursion_available, 128) + m.response_code) as u8,
        (count / 256) as u8,
        (count % 256) as u8,
        0,
        0,
        0,
        0,
        0,
        0,
    ]
}

/// `m` has what the header at the start of `bytes` says of its identifier, kind,
/// flags and number of questions.
pub open spec fn header_read(bytes: Seq<u8>, m: MessageView) -> bool {
    &&& bytes.len() >= 12
    &&& m.id == 256 * bytes[0] + bytes[1]
    &&& m.is_response == (bytes[2] >= 128)
    &&& m.op_code == bytes[2] as int / 8 % 16
    &&& m.recursion_desired == (bytes[2] as int % 2 == 1)
    &&& m.recursion_available == (bytes[3] >= 128)
    &&& m.questions.len() == 256 * bytes[4] + bytes[5]
}

/// What `hickory_proto` reads in a wire-format message, or its error message.
pub uninterp spec fn dns_decode(bytes: Seq<u8>) -> Result<MessageView, Seq<char>>;

/// `hickory_proto::op::Message::from_vec`: the message that the bytes hold, or an
/// error, named `dns_decode`, which depends on the bytes alone. What is read has
/// the header that the bytes start with, and DNS names.
#[verifier::external_body]
pub(crate) fn decode_message(bytes: &[u8]) -> (r: Result<DnsMessage, String>)
    ensures
        match r {
            Ok(m) => {
                &&& dns_decode(bytes@) == Ok::<MessageView, Seq<char>>(m@)
                &&& header_read(bytes@, m@)
                &&& questions_ok(m@)
            },
            Err(message) => dns_decode(bytes@) == Err::<MessageView, Seq<char>>(message@),
        },
{
    let message = Message::from_vec(bytes).map_err(|error| error.to_string())?;
    let questions = message.queries.iter().map(|query| DnsQuestion {
        labels: query.name().iter().map(|label| label.to_vec()).collect(),
        query_type: query.query_type().into(),
        query_class: query.query_class().into(),
    });
    Ok(DnsMessage {
        id: message.metadata.id,
        is_response: matches!(message.metadata.message_type, MessageType::Response),
        op_code: message.metadata.op_code.into(),
        recursion_desired: message.metadata.recursion_desired,
        recursion_available: message.metadata.recursion_available,
        response_code: message.metadata.response_code.into(),
        questions: questions.collect(),
    })
}

/// The wire format that `hickory_proto` gives a message, or its error message.
pub uninterp spec fn dns_encode(m: MessageView) -> Result<Seq<u8>, Seq<char>>;

/// `hickory_proto::op::Message::to_vec`, on a message with the given parts, all
/// other flags clear and all other sections empty: its wire format, or an error,
/// named `dns_encode`, which depends on the parts alone. A message that the format
/// has room for starts with its header and is read back as it was written. It is
/// written if its questions, 259 bytes each at most, and the header fit into 65535
/// bytes; when a longer one is written is not stated.
#[verifier::external_body]
pub(crate) fn encode_message(m: &DnsMessage) -> (r: Result<Vec<u8>, String>)
    ensures
        match r {
            Ok(bytes) => {
                &&& dns_encode(m@) == Ok::<Seq<u8>, Seq<char>>(bytes@)
                &&& message_ok(m@) ==> {
                    &&& dns_decode(bytes@) == Ok::<MessageView, Seq<char>>(m@)
                    &&& bytes@.len() >= 12
                    &&& bytes@.take(12) == wire_header(m@)
                }
            },
            Err(message) => {
                &&& dns_encode(m@) == Err::<Seq<u8>, Seq<char>>(message@)
                &&& !(questions_ok(m@) && 12 + 259 * m.questions@.len() <= 65535)
            },
        },
{
    let kind = if m.is_response { MessageType::Response } else { MessageType::Query };
    let mut message = Message::new(m.id, kind, OpCode::from_u8(m.op_code));
    message.metadata.recursion_desired = m.recursion_desired;
    message.metadata.recursion_available = m.recursion_available;
    message.metadata.response_code = m.response_code.into();
    for question in &m.questions {
        let labels = question.labels.iter().map(|label| label.as_slice());
        let name = Name::from_labels(labels).map_err(|error| error.to_string())?;
        let mut query = Query::query(name, question.query_type.into());
        query.set_query_class(question.query_class.into());
        message.add_query(query);
    }
    message.to_vec().map_err(|error| error.to_string())
}

/// A byte that stands for itself in the text of a name: a letter, a digit, an
/// underscore, or a hyphen that is not the first byte of its label.
pub open spec fn plain_byte(b: u8, first: bool) -> bool {
    ||| 0x30 <= b <= 0x39
    ||| 0x41 <= b <= 0x5a
    ||| 0x61 <= b <= 0x7a
    ||| b == 0x5f
    ||| b == 0x2d && !first
}

/// A label that stands for itself in the text of a name: plain bytes, without
/// the `xn--` prefix of Punycode.
pub open spec fn plain_label(l: Seq<u8>) -> bool {
    &&& forall|i: int| 0 <= i < l.len() ==> plain_byte(#[trigger] l[i], i == 0)
    &&& !(l.len() >= 4 && l.take(4) == seq![0x78u8, 0x6e, 0x2d, 0x2d])
}

/// Every label of a name stands for itself in its text.
pub open spec fn plain_name(labels: Seq<Seq<u8>>) -> bool {
    forall|i: int| 0 <= i < labels.len() ==> plain_label(#[trigger] labels[i])
}

/// Each label, as characters, followed by a dot.
pub open spec fn dotted(labels: Seq<Seq<u8>>) -> Seq<char>
    decreases labels.len(),
{
    if labels.len() == 0 {
        Seq::empty()
    } else {
        dotted(labels.drop_last()) + Seq::new(
            labels.last().len(),
            |i: int| labels.last()[i] as char,
        ).push('.')
    }
}

/// The text that `hickory_proto` gives a name.
pub uninterp spec fn dns_name_text(labels: Seq<Seq<u8>>) -> Seq<char>;

/// `hickory_proto::rr::Name::to_utf8`, on the fully qualified name with the given
/// labels: its text, named `dns_name_text`, which depends on the labels alone.
/// Labels that stand for themselves each come with a dot behind them; the root is
/// a single dot. How Punycode and other bytes are shown is not stated.
#[verifier::external_body]
pub(crate) fn name_text(labels: &Vec<Vec<u8>>) -> (r: String)
    requires
        name_ok(label_bytes(labels@)),
    ensures
        r@ == dns_name_text(label_bytes(labels@)),
        labels@.len() == 0 ==> r@ == seq!['.'],
        labels@.len() > 0 && plain_name(label_bytes(labels@)) ==> r@ == dotted(
            label_bytes(labels@),
        ),
{
    let name = Name::from_labels(labels.iter().map(|label| label.as_slice()));
    name.expect("the labels make up a name").to_utf8()
}

/// The text of a name. The root is a dot, and a name whose labels stand for
/// themselves is these, each with a dot behind it; the text of other names goes by
/// `dns_name_text`.
pub open spec fn shown_name(labels: Seq<Seq<u8>>) -> Seq<char> {
    if labels.len() == 0 {
        seq!['.']
    } else if plain_name(labels) {
        dotted(labels)
    } else {
        dns_name_text(labels)
    }
}

/// A message is seen with its fields as they are.
pub proof fn messages_are_seen_as_they_are(m: DnsMessage)
    ensures
        m@.id == m.id,
        m@.is_response == m.is_response,
        m@.op_code == m.op_code,
        m@.recursion_desired == m.recursion_desired,
        m@.recursion_available == m.recursion_available,
        m@.response_code == m.response_code,
        m@.questions.len() == m.questions@.len(),
        forall|i: int|
            0 <= i < m.questions@.len() ==> {
                let q = m.questions@[i];
                &&& (#[trigger] m@.questions[i]).query_type == q.query_type
                &&& m@.questions[i].query_class == q.query_class
                &&& m@.questions[i].labels == label_bytes(q.labels@)
            },
{
}

/// A question is seen with its fields as they are.
pub proof fn questions_are_seen_as_they_are(q: DnsQuestion)
    ensures
        q@.query_type == q.query_type,
        q@.query_class == q.query_class,
        q@.labels.len() == q.labels@.len(),
        forall|i: int| 0 <= i < q.labels@.len() ==> #[trigger] q@.labels[i] == q.labels@[i]@,
{
}

/// The bytes of a list of labels are those of its labels, in their order.
pub proof fn labels_have_their_bytes(labels: Seq<Vec<u8>>)
    ensures
        label_bytes(labels).len() == labels.len(),
        forall|i: int| 0 <= i < labels.len() ==> #[trigger] label_bytes(labels)[i] == labels[i]@,
{
}

/// A name may have labels of 1 to 63 bytes, and 254 bytes in all with a length for each;
/// a message may ask for such names.
pub proof fn names_have_limited_lengths(
    labels: Seq<Seq<u8>>,
    label: Seq<u8>,
    m: MessageView,
)
    ensures
        wire_length(Seq::empty()) == 0,
        wire_length(labels.push(label)) == wire_length(labels) + 1 + label.len(),
        name_ok(labels) <==> wire_length(labels) <= 254 && forall|i: int|
            0 <= i < labels.len() ==> 1 <= (#[trigger] labels[i]).len() <= 63,
        questions_ok(m) <==> forall|i: int|
            0 <= i < m.questions.len() ==> name_ok((#[trigger] m.questions[i]).labels),
        message_ok(m) <==> m.op_code < 16 && m.response_code < 16 && questions_ok(m),
{
    assert(labels.push(label).drop_last() =~= labels);
}

/// The header of a message holds its identifier, flags, kind, outcome and number of
/// questions, and is otherwise clear; reading it gives them back.
pub proof fn headers_hold_the_fields_of_a_message(m: MessageView)
    requires
        m.op_code < 16,
        m.response_code < 16,
        m.questions.len() < 65536,
    ensures
        ({
            let h = wire_header(m);
            &&& h.len() == 12
            &&& 256 * h[0] + h[1] == m.id
            &&& h[2] >= 128 <==> m.is_response
            &&& h[2] as int / 8 % 16 == m.op_code
            &&& h[2] as int % 8 == (if m.recursion_desired {
                1int
            } else {
                0
            })
            &&& h[3] >= 128 <==> m.recursion_available
            &&& h[3] as int % 128 == m.response_code
            &&& 256 * h[4] + h[5] == m.questions.len()
            &&& forall|i: int| 6 <= i < 12 ==> #[trigger] h[i] == 0
            &&& header_read(h, m)
        }),
{
}

/// A message that was read has the identifier, kind, flags and number of questions that
/// the first bytes say.
pub proof fn messages_have_what_their_header_says(bytes: Seq<u8>, m: MessageView)
    requires
        header_read(bytes, m),
    ensures
        bytes.len() >= 12,
        m.id == 256 * bytes[0] + bytes[1],
        m.is_response <==> bytes[2] >= 128,
        m.op_code == bytes[2] as int / 8 % 16,
        m.recursion_desired <==> bytes[2] as int % 2 == 1,
        m.recursion_available <==> bytes[3] >= 128,
        m.questions.len() == 256 * bytes[4] + bytes[5],
{
}

/// A further label adds its bytes, as characters, and a dot.
pub proof fn labels_are_shown_with_a_dot_behind_each(labels: Seq<Seq<u8>>, label: Seq<u8>)
    ensures
        dotted(Seq::empty()) == Seq::<char>::empty(),
        ({
            let (s, t) = (dotted(labels.push(label)), dotted(labels));
            &&& s.len() == t.len() + label.len() + 1
            &&& s.take(t.len() as int) == t
            &&& forall|i: int|
                0 <= i < label.len() ==> s[t.len() + i] as u32 == #[trigger] label[i] as u32
            &&& s.last() == '.'
        }),
{
    assert(labels.push(label).drop_last() =~= labels);
    assert(dotted(labels.push(label)).take(dotted(labels).len() as int) =~= dotted(labels));
}

/// The root is shown as a dot. Names of letters, digits, underscores and inner hyphens are
/// shown label by label, unless one begins with `xn--`; other names as `hickory_proto`
/// shows them.
pub proof fn names_are_shown_by_their_labels(labels: Seq<Seq<u8>>)
    ensures
        labels.len() == 0 ==> shown_name(labels) == seq!['.'],
        labels.len() > 0 && (forall|i: int, j: int|
            0 <= i < labels.len() && 0 <= j < labels[i].len() ==> {
                let b = #[trigger] labels[i][j];
                ||| 97 <= b <= 122 || 65 <= b <= 90 || 48 <= b <= 57 || b == 95
                ||| b == 45 && j > 0
            }) && (forall|i: int|
            0 <= i < labels.len() ==> !((#[trigger] labels[i]).len() >= 4 && labels[i][0] == 120
                && labels[i][1] == 110 && labels[i][2] == 45 && labels[i][3] == 45)) ==> shown_name(
            labels,
        ) == dotted(labels),
        forall|i: int, j: int|
            0 <= i < labels.len() && 0 <= j < labels[i].len() && !({
                let b = #[trigger] labels[i][j];
                ||| 97 <= b <= 122 || 65 <= b <= 90 || 48 <= b <= 57 || b == 95
                ||| b == 45 && j > 0
            }) ==> shown_name(labels) == dns_name_text(labels),
        forall|i: int|
            0 <= i < labels.len() && (#[trigger] labels[i]).len() >= 4 && labels[i][0] == 120
                && labels[i][1] == 110 && labels[i][2] == 45 && labels[i][3] == 45 ==> shown_name(
                labels,
            ) == dns_name_text(labels),
{
    if (forall|i: int, j: int|
        0 <= i < labels.len() && 0 <= j < labels[i].len() ==> {
            let b = #[trigger] labels[i][j];
            ||| 97 <= b <= 122 || 65 <= b <= 90 || 48 <= b <= 57 || b == 95
            ||| b == 45 && j > 0
        }) && (forall|i: int|
        0 <= i < labels.len() ==> !((#[trigger] labels[i]).len() >= 4 && labels[i][0] == 120
            && labels[i][1] == 110 && labels[i][2] == 45 && labels[i][3] == 45)) {
        assert forall|i: int| 0 <= i < labels.len() implies plain_label(#[trigger] labels[i]) by {
            let l = labels[i];
            assert forall|j: int| 0 <= j < l.len() implies plain_byte(#[trigger] l[j], j == 0) by {
                assert(labels[i][j] == l[j]);
            }
            if l.len() >= 4 && l.take(4) == seq![0x78u8, 0x6e, 0x2d, 0x2d] {
                let w = l.take(4);
                assert(w[0] == 120 && w[1] == 110 && w[2] == 45 && w[3] == 45);
            }
        }
    }
    assert forall|i: int, j: int|
        0 <= i < labels.len() && 0 <= j < labels[i].len() && !({
            let b = #[trigger] labels[i][j];
            ||| 97 <= b <= 122 || 65 <= b <= 90 || 48 <= b <= 57 || b == 95
            ||| b == 45 && j > 0
        }) implies shown_name(labels) == dns_name_text(labels) by {
        assert(!plain_byte(labels[i][j], j == 0));
        assert(!plain_label(labels[i]));
    }
    assert forall|i: int|
        0 <= i < labels.len() && (#[trigger] labels[i]).len() >= 4 && labels[i][0] == 120
            && labels[i][1] == 110 && labels[i][2] == 45 && labels[i][3] == 45 implies shown_name(
        labels,
    ) == dns_name_text(labels) by {
        assert(labels[i].take(4) =~= seq![0x78u8, 0x6e, 0x2d, 0x2d]);
        assert(!plain_label(labels[i]));
    }
}

} // verus!
