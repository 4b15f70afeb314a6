//! DNS messages: the header, the question and resource-record sections,
//! and their wire form.

use crate::label::{label_views, QueryToken};
use crate::name::{
    parse_name, encode_name, labels_fit, name_wire, parse_label_stream, valid_name, MalformedName,
};
use crate::wire::{
    be16_at, be16_bytes, be32_at, be32_bytes, get_u16, get_u32, put_u16_be, put_u32_be, put_u8,
};
use vstd::prelude::*;
use vstd::slice::{slice_subrange, slice_to_vec};

verus! {

/// The length of a message header on the wire.
pub const HEADER_LEN: usize = 12;

/// The least value of the flags field of a response: its top bit, QR.
pub const QR_RESPONSE: u16 = 0x8000;

/// The most entries a section can declare in its 16-bit count.
pub const MAX_SECTION_LEN: usize = 0xffff;

/// The address a datagram came from or goes to.
#[derive(Clone, Copy, Debug, PartialEq, Eq, Structural)]
#[allow(inconsistent_fields)]
pub enum Endpoint {
    /// An IPv4 address, as one number, and a port.
    V4 { ip: u32, port: u16 },
    /// An IPv6 address, as one number, and a port.
    V6 { ip: u128, port: u16 },
}

/// Why a message could not be decoded: the first violation met.
#[derive(Clone, Copy, Debug, PartialEq, Eq, Structural)]
pub enum MalformedMessage {
    /// The buffer is shorter than a header.
    ShortHeader,
    /// A section declares a record that does not fit in the buffer.
    SectionOverrun,
    /// A name in the message is malformed.
    Name(MalformedName),
    /// A record's data runs past the end of the buffer.
    RdataOverrun,
}

/// Whether a message asks or answers.
#[derive(Clone, Copy, Debug, PartialEq, Eq, Structural)]
pub enum QueryType {
    Query,
    Response,
}

/// The fixed header of a message.
#[derive(Clone, Copy, Debug, PartialEq, Eq, Structural)]
pub struct QueryHeader {
    pub identification: u16,
    pub flags: u16,
    pub question_count: u16,
    pub answer_count: u16,
    pub authority_records_count: u16,
    pub additional_records_count: u16,
}

/// The wire form of a header: its six fields, each big-endian.
pub open spec fn header_wire(h: QueryHeader) -> Seq<u8> {
    be16_bytes(h.identification) + be16_bytes(h.flags) + be16_bytes(h.question_count)
        + be16_bytes(h.answer_count) + be16_bytes(h.authority_records_count) + be16_bytes(
        h.additional_records_count,
    )
}

/// The header at the front of `buf`.
pub open spec fn parse_header(buf: Seq<u8>) -> Result<QueryHeader, MalformedMessage> {
    if buf.len() < HEADER_LEN {
        Err(MalformedMessage::ShortHeader)
    } else {
        Ok(
            QueryHeader {
                identification: be16_at(buf, 0),
                flags: be16_at(buf, 2),
                question_count: be16_at(buf, 4),
                answer_count: be16_at(buf, 6),
                authority_records_count: be16_at(buf, 8),
                additional_records_count: be16_at(buf, 10),
            },
        )
    }
}

impl Default for QueryHeader {
    fn default() -> (h: QueryHeader)
        ensures
            h == (QueryHeader {
                identification: 0,
                flags: 0,
                question_count: 0,
                answer_count: 0,
                authority_records_count: 0,
                additional_records_count: 0,
            }),
    {
        QueryHeader {
            identification: 0,
            flags: 0,
            question_count: 0,
            answer_count: 0,
            authority_records_count: 0,
            additional_records_count: 0,
        }
    }
}

impl QueryHeader {
    /// Appends the header to `buf` in wire form.
    pub fn write(&self, buf: &mut Vec<u8>)
        ensures
            final(buf)@ == old(buf)@ + header_wire(*self),
    {
        put_u16_be(buf, self.identification);
        put_u16_be(buf, self.flags);
        put_u16_be(buf, self.question_count);
        put_u16_be(buf, self.answer_count);
        put_u16_be(buf, self.authority_records_count);
        put_u16_be(buf, self.additional_records_count);
    }

    /// Whether the header is that of a query or of a response: the top
    /// bit of its flags.
    pub fn query_type(&self) -> (t: QueryType)
        ensures
            t == if self.flags >= QR_RESPONSE {
                QueryType::Response
            } else {
                QueryType::Query
            },
    {
        if self.flags >= QR_RESPONSE {
            QueryType::Response
        } else {
            QueryType::Query
        }
    }
}

/// Reads the header at the front of `buf`.
pub fn decode_header(buf: &[u8]) -> (r: Result<QueryHeader, MalformedMessage>)
    ensures
        r == parse_header(buf@),
{
    if buf.len() < HEADER_LEN {
        return Err(MalformedMessage::ShortHeader);
    }
    Ok(
        QueryHeader {
            identification: get_u16(buf, 0),
            flags: get_u16(buf, 2),
            question_count: get_u16(buf, 4),
            answer_count: get_u16(buf, 6),
            authority_records_count: get_u16(buf, 8),
            additional_records_count: get_u16(buf, 10),
        },
    )
}

/// A question, as mathematics sees it.
pub struct Question {
    pub name: Seq<Seq<u8>>,
    pub type_: u16,
    pub class: u16,
}

/// A resource record, as mathematics sees it.
pub struct Record {
    pub name: Seq<Seq<u8>>,
    pub type_: u16,
    pub class: u16,
    pub ttl: u32,
    pub rd_length: u16,
    pub r_data: Seq<u8>,
}

/// A message, as mathematics sees it.
pub struct Message {
    pub header: QueryHeader,
    pub questions: Seq<Question>,
    pub answers: Seq<Record>,
    pub authorities: Seq<Record>,
    pub additional: Seq<Record>,
    pub requester: Endpoint,
}

/// The wire form of a question.
pub open spec fn question_wire(q: Question) -> Seq<u8> {
    name_wire(q.name) + be16_bytes(q.type_) + be16_bytes(q.class)
}

/// The wire form of a resource record.
pub open spec fn record_wire(r: Record) -> Seq<u8> {
    name_wire(r.name) + be16_bytes(r.type_) + be16_bytes(r.class) + be32_bytes(r.ttl)
        + be16_bytes(r.rd_length) + r.r_data
}

/// The wire form of a run of questions.
pub open spec fn questions_wire(qs: Seq<Question>) -> Seq<u8>
    decreases qs.len(),
{
    if qs.len() == 0 {
        Seq::empty()
    } else {
        question_wire(qs[0]) + questions_wire(qs.skip(1))
    }
}

/// The wire form of a run of resource records.
pub open spec fn records_wire(rs: Seq<Record>) -> Seq<u8>
    decreases rs.len(),
{
    if rs.len() == 0 {
        Seq::empty()
    } else {
        record_wire(rs[0]) + records_wire(rs.skip(1))
    }
}

impl Message {
    /// The header that goes on the wire: the message's identification and
    /// flags, and the counts of what its sections hold.
    pub open spec fn counted_header(self) -> QueryHeader {
        QueryHeader {
            identification: self.header.identification,
            flags: self.header.flags,
            question_count: self.questions.len() as u16,
            answer_count: self.answers.len() as u16,
            authority_records_count: self.authorities.len() as u16,
            additional_records_count: self.additional.len() as u16,
        }
    }

    /// The message with [`Message::counted_header`] for its header.
    pub open spec fn counted(self) -> Message {
        Message { header: self.counted_header(), ..self }
    }

    /// Whether the message is one of the data model: no section longer
    /// than its count can say, and every question and record valid.
    pub open spec fn valid(self) -> bool {
        &&& self.questions.len() <= MAX_SECTION_LEN
        &&& self.answers.len() <= MAX_SECTION_LEN
        &&& self.authorities.len() <= MAX_SECTION_LEN
        &&& self.additional.len() <= MAX_SECTION_LEN
        &&& forall|i: int| 0 <= i < self.questions.len() ==> valid_question(#[trigger] self.questions[i])
        &&& forall|i: int| 0 <= i < self.answers.len() ==> valid_record(#[trigger] self.answers[i])
        &&& forall|i: int|
            0 <= i < self.authorities.len() ==> valid_record(#[trigger] self.authorities[i])
        &&& forall|i: int|
            0 <= i < self.additional.len() ==> valid_record(#[trigger] self.additional[i])
    }

    /// Whether the message can be put on the wire: each section's count
    /// fits in 16 bits and each label's length in its length octet.
    pub open spec fn encodable(self) -> bool {
        &&& self.questions.len() <= MAX_SECTION_LEN
        &&& self.answers.len() <= MAX_SECTION_LEN
        &&& self.authorities.len() <= MAX_SECTION_LEN
        &&& self.additional.len() <= MAX_SECTION_LEN
        &&& forall|i: int|
            0 <= i < self.questions.len() ==> labels_fit((#[trigger] self.questions[i]).name)
        &&& forall|i: int| 0 <= i < self.answers.len() ==> labels_fit((#[trigger] self.answers[i]).name)
        &&& forall|i: int|
            0 <= i < self.authorities.len() ==> labels_fit((#[trigger] self.authorities[i]).name)
        &&& forall|i: int|
            0 <= i < self.additional.len() ==> labels_fit((#[trigger] self.additional[i]).name)
    }
}

/// Whether a question is one of the data model: its name is valid.
pub open spec fn valid_question(q: Question) -> bool {
    valid_name(q.name)
}

/// Whether a record is one of the data model: its name is valid and its
/// data is as long as its length field says.
pub open spec fn valid_record(r: Record) -> bool {
    &&& valid_name(r.name)
    &&& r.rd_length == r.r_data.len()
}

/// The wire form of a message: the counted header, then the four
/// sections in order.
pub open spec fn message_wire(m: Message) -> Seq<u8> {
    header_wire(m.counted_header()) + questions_wire(m.questions) + records_wire(m.answers)
        + records_wire(m.authorities) + records_wire(m.additional)
}

/// The question that stands at `pos`, with the offset after it.
pub open spec fn parse_question(buf: Seq<u8>, pos: int) -> Result<(Question, int), MalformedMessage> {
    if pos >= buf.len() {
        Err(MalformedMessage::SectionOverrun)
    } else {
        match parse_name(buf, pos) {
            Err(e) => Err(MalformedMessage::Name(e)),
            Ok((name, next)) => if next + 4 > buf.len() {
                Err(MalformedMessage::SectionOverrun)
            } else {
                Ok(
                    (
                        Question { name, type_: be16_at(buf, next), class: be16_at(buf, next + 2) },
                        next + 4,
                    ),
                )
            },
        }
    }
}

/// The resource record that stands at `pos`, with the offset after it.
pub open spec fn parse_record(buf: Seq<u8>, pos: int) -> Result<(Record, int), MalformedMessage> {
    if pos >= buf.len() {
        Err(MalformedMessage::SectionOverrun)
    } else {
        match parse_name(buf, pos) {
            Err(e) => Err(MalformedMessage::Name(e)),
            Ok((name, next)) => if next + 10 > buf.len() {
                Err(MalformedMessage::SectionOverrun)
            } else if next + 10 + be16_at(buf, next + 8) > buf.len() {
                Err(MalformedMessage::RdataOverrun)
            } else {
                Ok(
                    (
                        Record {
                            name,
                            type_: be16_at(buf, next),
                            class: be16_at(buf, next + 2),
                            ttl: be32_at(buf, next + 4),
                            rd_length: be16_at(buf, next + 8),
                            r_data: buf.subrange(next + 10, next + 10 + be16_at(buf, next + 8)),
                        },
                        next + 10 + be16_at(buf, next + 8),
                    ),
                )
            },
        }
    }
}

/// `items` put in front of a parsed rest.
pub open spec fn with_front<T>(items: Seq<T>, rest: Result<(Seq<T>, int), MalformedMessage>) -> Result<
    (Seq<T>, int),
    MalformedMessage,
> {
    match rest {
        Ok((more, next)) => Ok((items + more, next)),
        Err(e) => Err(e),
    }
}

/// The `count` questions that stand from `pos` on, with the offset after
/// the last.
pub open spec fn parse_questions(buf: Seq<u8>, pos: int, count: nat) -> Result<
    (Seq<Question>, int),
    MalformedMessage,
>
    decreases count,
{
    if count == 0 {
        Ok((Seq::empty(), pos))
    } else {
        match parse_question(buf, pos) {
            Err(e) => Err(e),
            Ok((q, next)) => with_front(seq![q], parse_questions(buf, next, (count - 1) as nat)),
        }
    }
}

/// The `count` resource records that stand from `pos` on, with the offset
/// after the last.
pub open spec fn parse_records(buf: Seq<u8>, pos: int, count: nat) -> Result<
    (Seq<Record>, int),
    MalformedMessage,
>
    decreases count,
{
    if count == 0 {
        Ok((Seq::empty(), pos))
    } else {
        match parse_record(buf, pos) {
            Err(e) => Err(e),
            Ok((r, next)) => with_front(seq![r], parse_records(buf, next, (count - 1) as nat)),
        }
    }
}

/// The message that `buf` holds: the header, then as many questions and
/// records as the header declares. Octets after the last record are not
/// read.
pub open spec fn parse_message(buf: Seq<u8>, requester: Endpoint) -> Result<Message, MalformedMessage> {
    match parse_header(buf) {
        Err(e) => Err(e),
        Ok(header) => match parse_questions(buf, HEADER_LEN as int, header.question_count as nat) {
            Err(e) => Err(e),
            Ok((questions, answers_at)) => match parse_records(buf, answers_at, header.answer_count as nat) {
                Err(e) => Err(e),
                Ok((answers, authorities_at)) => match parse_records(
                    buf,
                    authorities_at,
                    header.authority_records_count as nat,
                ) {
                    Err(e) => Err(e),
                    Ok((authorities, additional_at)) => match parse_records(
                        buf,
                        additional_at,
                        header.additional_records_count as nat,
                    ) {
                        Err(e) => Err(e),
                        Ok((additional, _)) => Ok(
                            Message {
                                header,
                                questions,
                                answers,
                                authorities,
                                additional,
                                requester,
                            },
                        ),
                    },
                },
            },
        },
    }
}

/// One entry of the question section.
#[derive(Debug)]
pub struct QueryQuestion {
    pub name: Vec<QueryToken>,
    pub type_: u16,
    pub class: u16,
}

impl View for QueryQuestion {
    type V = Question;

    open spec fn view(&self) -> Question {
        Question { name: label_views(self.name@), type_: self.type_, class: self.class }
    }
}

/// The views of a run of questions.
pub open spec fn question_views(qs: Seq<QueryQuestion>) -> Seq<Question> {
    qs.map_values(|q: QueryQuestion| q@)
}

impl Default for QueryQuestion {
    fn default() -> (q: QueryQuestion)
        ensures
            q@ == (Question { name: Seq::empty(), type_: 0, class: 0 }),
    {
        let q = QueryQuestion { name: Vec::new(), type_: 0, class: 0 };
        assert(q@.name =~= Seq::empty());
        q
    }
}

/// A copy of `name`, label by label.
pub fn clone_name(name: &Vec<QueryToken>) -> (copy: Vec<QueryToken>)
    ensures
        label_views(copy@) == label_views(name@),
{
    let mut copy: Vec<QueryToken> = Vec::new();
    let mut i: usize = 0;
    while i < name.len()
        invariant
            i <= name.len(),
            copy@.len() == i,
            forall|k: int| 0 <= k < i ==> (#[trigger] copy@[k])@ == name@[k]@,
        decreases name.len() - i,
    {
        copy.push(name[i].clone());
        i += 1;
    }
    copy
}

impl Clone for QueryQuestion {
    fn clone(&self) -> (copy: QueryQuestion)
        ensures
            copy@ == self@,
    {
        QueryQuestion { name: clone_name(&self.name), type_: self.type_, class: self.class }
    }
}

impl QueryQuestion {
    /// Appends the question to `buf` in wire form.
    pub fn write(&self, buf: &mut Vec<u8>)
        requires
            labels_fit(self@.name),
        ensures
            final(buf)@ == old(buf)@ + question_wire(self@),
    {
        encode_name(&self.name, buf);
        put_u16_be(buf, self.type_);
        put_u16_be(buf, self.class);
    }
}

/// One resource record of the answer, authority or additional section.
#[derive(Debug)]
pub struct QueryAnswer {
    pub name: Vec<QueryToken>,
    pub type_: u16,
    pub class: u16,
    pub ttl: u32,
    pub rd_length: u16,
    pub r_data: Vec<u8>,
}

impl View for QueryAnswer {
    type V = Record;

    open spec fn view(&self) -> Record {
        Record {
            name: label_views(self.name@),
            type_: self.type_,
            class: self.class,
            ttl: self.ttl,
            rd_length: self.rd_length,
            r_data: self.r_data@,
        }
    }
}

/// The views of a run of resource records.
pub open spec fn record_views(rs: Seq<QueryAnswer>) -> Seq<Record> {
    rs.map_values(|r: QueryAnswer| r@)
}

impl Default for QueryAnswer {
    fn default() -> (r: QueryAnswer)
        ensures
            r@ == (Record {
                name: Seq::empty(),
                type_: 0,
                class: 0,
                ttl: 0,
                rd_length: 0,
                r_data: Seq::empty(),
            }),
    {
        let r = QueryAnswer {
            name: Vec::new(),
            type_: 0,
            class: 0,
            ttl: 0,
            rd_length: 0,
            r_data: Vec::new(),
        };
        assert(r@.name =~= Seq::empty());
        r
    }
}

impl QueryAnswer {
    /// Appends the record to `buf` in wire form.
    pub fn write(&self, buf: &mut Vec<u8>)
        requires
            labels_fit(self@.name),
        ensures
            final(buf)@ == old(buf)@ + record_wire(self@),
    {
        encode_name(&self.name, buf);
        put_u16_be(buf, self.type_);
        put_u16_be(buf, self.class);
        put_u32_be(buf, self.ttl);
        put_u16_be(buf, self.rd_length);
        let ghost before = buf@;
        let mut i: usize = 0;
        while i < self.r_data.len()
            invariant
                i <= self.r_data.len(),
                buf@ == before + self.r_data@.take(i as int),
            decreases self.r_data.len() - i,
        {
            put_u8(buf, self.r_data[i]);
            i += 1;
        }
    }
}

/// A whole message, with the address of whoever sent it.
#[derive(Debug)]
pub struct Query {
    pub header: QueryHeader,
    pub questions: Vec<QueryQuestion>,
    pub answers: Vec<QueryAnswer>,
    pub authorities: Vec<QueryAnswer>,
    pub additional: Vec<QueryAnswer>,
    pub requester: Endpoint,
}

impl View for Query {
    type V = Message;

    open spec fn view(&self) -> Message {
        Message {
            header: self.header,
            questions: question_views(self.questions@),
            answers: record_views(self.answers@),
            authorities: record_views(self.authorities@),
            additional: record_views(self.additional@),
            requester: self.requester,
        }
    }
}

/// The message with nothing in it, from `requester`.
pub open spec fn empty_message(requester: Endpoint) -> Message {
    Message {
        header: QueryHeader {
            identification: 0,
            flags: 0,
            question_count: 0,
            answer_count: 0,
            authority_records_count: 0,
            additional_records_count: 0,
        },
        questions: Seq::empty(),
        answers: Seq::empty(),
        authorities: Seq::empty(),
        additional: Seq::empty(),
        requester,
    }
}

/// The requester of a message that was made here: port 8080 on the
/// loopback address.
pub open spec fn local_requester() -> Endpoint {
    Endpoint::V4 { ip: 0x7f00_0001, port: 8080 }
}

impl Default for Query {
    fn default() -> (q: Query)
        ensures
            q@ == empty_message(local_requester()),
    {
        Query::new(Endpoint::V4 { ip: 0x7f00_0001, port: 8080 })
    }
}

impl Query {
    /// The message with nothing in it, from `src`.
    pub fn new(src: Endpoint) -> (q: Query)
        ensures
            q@ == empty_message(src),
    {
        let q = Query {
            header: QueryHeader::default(),
            questions: Vec::new(),
            answers: Vec::new(),
            authorities: Vec::new(),
            additional: Vec::new(),
            requester: src,
        };
        assert(q@.questions =~= Seq::empty());
        assert(q@.answers =~= Seq::empty());
        q
    }

    /// Appends the message to `buf` in wire form. The counts in the
    /// header that is written are those of the sections as they are, not
    /// those that `self.header` holds.
    pub fn write(&self, buf: &mut Vec<u8>)
        requires
            self@.encodable(),
        ensures
            final(buf)@ == old(buf)@ + message_wire(self@),
    {
        let header = QueryHeader {
            identification: self.header.identification,
            flags: self.header.flags,
            question_count: self.questions.len() as u16,
            answer_count: self.answers.len() as u16,
            authority_records_count: self.authorities.len() as u16,
            additional_records_count: self.additional.len() as u16,
        };
        header.write(buf);
        let ghost questions = self@.questions;
        let ghost front = buf@;
        assert(questions.skip(0) == questions);
        let mut i: usize = 0;
        while i < self.questions.len()
            invariant
                i <= self.questions.len(),
                questions == question_views(self.questions@),
                forall|k: int| 0 <= k < questions.len() ==> labels_fit((#[trigger] questions[k]).name),
                buf@ + questions_wire(questions.skip(i as int)) == front + questions_wire(questions),
            decreases self.questions.len() - i,
        {
            proof {
                assert(questions.skip(i as int).skip(1) == questions.skip(i + 1));
            }
            self.questions[i].write(buf);
            i += 1;
        }
        write_records(&self.answers, buf);
        write_records(&self.authorities, buf);
        write_records(&self.additional, buf);
    }
}

/// The wire form of `message`: its header, with the counts of what its
/// sections hold, then the sections in order, no name compressed.
pub fn encode_message(message: &Query) -> (bytes: Vec<u8>)
    requires
        message@.encodable(),
    ensures
        bytes@ == message_wire(message@),
{
    let mut bytes: Vec<u8> = Vec::new();
    message.write(&mut bytes);
    bytes
}

/// Appends the wire form of each record of `records` to `buf`, in order.
fn write_records(records: &Vec<QueryAnswer>, buf: &mut Vec<u8>)
    requires
        forall|k: int|
            0 <= k < records@.len() ==> labels_fit((#[trigger] record_views(records@)[k]).name),
    ensures
        final(buf)@ == old(buf)@ + records_wire(record_views(records@)),
{
    let ghost all = record_views(records@);
    assert(all.skip(0) == all);
    let mut i: usize = 0;
    while i < records.len()
        invariant
            i <= records.len(),
            all == record_views(records@),
            forall|k: int| 0 <= k < all.len() ==> labels_fit((#[trigger] all[k]).name),
            buf@ + records_wire(all.skip(i as int)) == old(buf)@ + records_wire(all),
        decreases records.len() - i,
    {
        proof {
            assert(all.skip(i as int).skip(1) == all.skip(i + 1));
        }
        records[i].write(buf);
        i += 1;
    }
}

/// Decodes the question that stands at `pos`.
fn decode_question(buf: &[u8], pos: usize) -> (r: Result<(QueryQuestion, usize), MalformedMessage>)
    ensures
        match r {
            Ok((q, next)) => parse_question(buf@, pos as int) == Ok::<_, MalformedMessage>(
                (q@, next as int),
            ) && next <= buf.len(),
            Err(e) => parse_question(buf@, pos as int) == Err::<(Question, int), _>(e),
        },
{
    if pos >= buf.len() {
        return Err(MalformedMessage::SectionOverrun);
    }
    match parse_label_stream(buf, pos) {
        Err(e) => Err(MalformedMessage::Name(e)),
        Ok((name, next)) => {
            if buf.len() - next < 4 {
                return Err(MalformedMessage::SectionOverrun);
            }
            let type_ = get_u16(buf, next);
            let class = get_u16(buf, next + 2);
            Ok((QueryQuestion { name, type_, class }, next + 4))
        },
    }
}

/// Decodes the resource record that stands at `pos`.
fn decode_record(buf: &[u8], pos: usize) -> (r: Result<(QueryAnswer, usize), MalformedMessage>)
    ensures
        match r {
            Ok((rec, next)) => parse_record(buf@, pos as int) == Ok::<_, MalformedMessage>(
                (rec@, next as int),
            ) && next <= buf.len(),
            Err(e) => parse_record(buf@, pos as int) == Err::<(Record, int), _>(e),
        },
{
    if pos >= buf.len() {
        return Err(MalformedMessage::SectionOverrun);
    }
    match parse_label_stream(buf, pos) {
        Err(e) => Err(MalformedMessage::Name(e)),
        Ok((name, next)) => {
            if buf.len() - next < 10 {
                return Err(MalformedMessage::SectionOverrun);
            }
            let type_ = get_u16(buf, next);
            let class = get_u16(buf, next + 2);
            let ttl = get_u32(buf, next + 4);
            let rd_length = get_u16(buf, next + 8);
            let data_at = next + 10;
            if buf.len() - data_at < rd_length as usize {
                return Err(MalformedMessage::RdataOverrun);
            }
            let end = data_at + rd_length as usize;
            let r_data = slice_to_vec(slice_subrange(buf, data_at, end));
            Ok((QueryAnswer { name, type_, class, ttl, rd_length, r_data }, end))
        },
    }
}

/// Decodes the `count` questions that stand from `start` on.
fn decode_questions(buf: &[u8], start: usize, count: u16) -> (r: Result<
    (Vec<QueryQuestion>, usize),
    MalformedMessage,
>)
    requires
        start <= buf.len(),
    ensures
        match r {
            Ok((qs, next)) => parse_questions(buf@, start as int, count as nat) == Ok::<
                _,
                MalformedMessage,
            >((question_views(qs@), next as int)) && next <= buf.len(),
            Err(e) => parse_questions(buf@, start as int, count as nat) == Err::<
                (Seq<Question>, int),
                _,
            >(e),
        },
{
    let mut out: Vec<QueryQuestion> = Vec::new();
    let mut pos: usize = start;
    let mut done: u16 = 0;
    while done < count
        invariant
            done <= count,
            pos <= buf.len(),
            parse_questions(buf@, start as int, count as nat) == with_front(
                question_views(out@),
                parse_questions(buf@, pos as int, (count - done) as nat),
            ),
        decreases count - done,
    {
        match decode_question(buf, pos) {
            Err(e) => {
                return Err(e);
            },
            Ok((q, next)) => {
                proof {
                    let rest = parse_questions(buf@, next as int, (count - done - 1) as nat);
                    assert(question_views(out@.push(q)) == question_views(out@) + seq![q@]);
                    if let Ok((more, _)) = rest {
                        assert(question_views(out@) + (seq![q@] + more) == (question_views(out@)
                            + seq![q@]) + more);
                    }
                }
                out.push(q);
                pos = next;
                done += 1;
            },
        }
    }
    Ok((out, pos))
}

/// Decodes the `count` resource records that stand from `start` on.
fn decode_records(buf: &[u8], start: usize, count: u16) -> (r: Result<
    (Vec<QueryAnswer>, usize),
    MalformedMessage,
>)
    requires
        start <= buf.len(),
    ensures
        match r {
            Ok((rs, next)) => parse_records(buf@, start as int, count as nat) == Ok::<
                _,
                MalformedMessage,
            >((record_views(rs@), next as int)) && next <= buf.len(),
            Err(e) => parse_records(buf@, start as int, count as nat) == Err::<
                (Seq<Record>, int),
                _,
            >(e),
        },
{
    let mut out: Vec<QueryAnswer> = Vec::new();
    let mut pos: usize = start;
    let mut done: u16 = 0;
    while done < count
        invariant
            done <= count,
            pos <= buf.len(),
            parse_records(buf@, start as int, count as nat) == with_front(
                record_views(out@),
                parse_records(buf@, pos as int, (count - done) as nat),
            ),
        decreases count - done,
    {
        match decode_record(buf, pos) {
            Err(e) => {
                return Err(e);
            },
            Ok((rec, next)) => {
                proof {
                    let rest = parse_records(buf@, next as int, (count - done - 1) as nat);
                    assert(record_views(out@.push(rec)) == record_views(out@) + seq![rec@]);
                    if let Ok((more, _)) = rest {
                        assert(record_views(out@) + (seq![rec@] + more) == (record_views(out@)
                            + seq![rec@]) + more);
                    }
                }
                out.push(rec);
                pos = next;
                done += 1;
            },
        }
    }
    Ok((out, pos))
}

/// Decodes the message that `buffer` holds and notes `requester` as its
/// sender. Every read is checked against the length of the buffer; the
/// first violation met is the error.
pub fn decode_message(buffer: &[u8], requester: Endpoint) -> (r: Result<Query, MalformedMessage>)
    ensures
        match r {
            Ok(m) => parse_message(buffer@, requester) == Ok::<_, MalformedMessage>(m@),
            Err(e) => parse_message(buffer@, requester) == Err::<Message, _>(e),
        },
{
    let header = match decode_header(buffer) {
        Ok(header) => header,
        Err(e) => {
            return Err(e);
        },
    };
    let (questions, answers_at) = match decode_questions(buffer, HEADER_LEN, header.question_count) {
        Ok(found) => found,
        Err(e) => {
            return Err(e);
        },
    };
    let (answers, authorities_at) = match decode_records(buffer, answers_at, header.answer_count) {
        Ok(found) => found,
        Err(e) => {
            return Err(e);
        },
    };
    let (authorities, additional_at) = match decode_records(buffer, authorities_at, header.authority_records_count) {
        Ok(found) => found,
        Err(e) => {
            return Err(e);
        },
    };
    let (additional, _) = match decode_records(buffer, additional_at, header.additional_records_count) {
        Ok(found) => found,
        Err(e) => {
            return Err(e);
        },
    };
    Ok(Query { header, questions, answers, authorities, additional, requester })
}

} // verus!
