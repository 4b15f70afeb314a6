//! What is written can be read back: decoding the wire form of a valid
//! message gives the message again.

use crate::label::{label_wire, MAX_LABEL_LEN};
use crate::message::{
    header_wire, message_wire, parse_header, parse_message, parse_question, parse_questions,
    parse_record, parse_records, question_wire, questions_wire, record_wire, records_wire,
    valid_question, valid_record, MalformedMessage, Message, Question, QueryHeader, Record,
    HEADER_LEN,
};
use crate::name::{
    item_at, labels_from, name_end, name_wire, MalformedName, NameItem, MAX_NAME_LEN,
};
use crate::wire::{be16_at, be16_bytes, be32_at, be32_bytes};
use vstd::prelude::*;

verus! {

/// Whether `part` stands in `buf` at `pos`.
pub open spec fn holds_at(buf: Seq<u8>, pos: int, part: Seq<u8>) -> bool {
    &&& 0 <= pos
    &&& pos + part.len() <= buf.len()
    &&& buf.subrange(pos, pos + part.len()) == part
}

/// Where `a + b` stands, `a` stands, and `b` right after it.
pub proof fn lemma_holds_at_split(buf: Seq<u8>, pos: int, a: Seq<u8>, b: Seq<u8>)
    requires
        holds_at(buf, pos, a + b),
    ensures
        holds_at(buf, pos, a),
        holds_at(buf, pos + a.len(), b),
{
    let whole = buf.subrange(pos, pos + (a + b).len());
    assert(buf.subrange(pos, pos + a.len()) =~= whole.subrange(0, a.len() as int));
    assert((a + b).subrange(0, a.len() as int) =~= a);
    assert(buf.subrange(pos + a.len(), pos + a.len() + b.len()) =~= whole.subrange(
        a.len() as int,
        (a + b).len() as int,
    ));
    assert((a + b).subrange(a.len() as int, (a + b).len() as int) =~= b);
}

/// A 16-bit number is read back from its two octets.
pub proof fn lemma_be16_round_trip(buf: Seq<u8>, pos: int, n: u16)
    requires
        holds_at(buf, pos, be16_bytes(n)),
    ensures
        be16_at(buf, pos) == n,
{
    let part = buf.subrange(pos, pos + 2);
    assert(buf[pos] == part[0] && buf[pos + 1] == part[1]);
}

/// A 32-bit number is read back from its four octets.
pub proof fn lemma_be32_round_trip(buf: Seq<u8>, pos: int, n: u32)
    requires
        holds_at(buf, pos, be32_bytes(n)),
    ensures
        be32_at(buf, pos) == n,
{
    lemma_holds_at_split(buf, pos, be16_bytes((n / 65536) as u16), be16_bytes((n % 65536) as u16));
    lemma_be16_round_trip(buf, pos, (n / 65536) as u16);
    lemma_be16_round_trip(buf, pos + 2, (n % 65536) as u16);
}

/// A valid name is read back from its wire form: decoding where the wire
/// form stands gives the labels, and ends right after it.
pub proof fn lemma_name_round_trip(buf: Seq<u8>, pos: int, name: Seq<Seq<u8>>, floor: int, used: int)
    requires
        holds_at(buf, pos, name_wire(name)),
        forall|i: int| 0 <= i < name.len() ==> 1 <= (#[trigger] name[i]).len() <= MAX_LABEL_LEN,
        0 <= used,
        used + name_wire(name).len() <= MAX_NAME_LEN,
    ensures
        labels_from(buf, pos, floor, used) == Ok::<_, MalformedName>(name),
        name_end(buf, pos) == pos + name_wire(name).len(),
    decreases name.len(),
{
    let wire = name_wire(name);
    let part = buf.subrange(pos, pos + wire.len());
    if name.len() == 0 {
        assert(buf[pos] == part[0]);
        assert(name =~= Seq::empty());
    } else {
        let first = name[0];
        let rest = name.skip(1);
        lemma_holds_at_split(buf, pos, label_wire(first), name_wire(rest));
        lemma_holds_at_split(buf, pos, seq![first.len() as u8], first);
        assert(buf[pos] == buf.subrange(pos, pos + 1)[0]);
        assert(buf[pos] == first.len());
        assert(item_at(buf, pos) == Ok::<_, MalformedName>(NameItem::Label(first)));
        assert(name_wire(rest).len() >= 1);
        assert forall|i: int| 0 <= i < rest.len() implies 1 <= (#[trigger] rest[i]).len()
            <= MAX_LABEL_LEN by {
            assert(rest[i] == name[i + 1]);
        }
        lemma_name_round_trip(buf, pos + 1 + first.len(), rest, floor, used + first.len() + 1);
        assert(seq![first] + rest =~= name);
    }
}

/// A valid question is read back from its wire form.
pub proof fn lemma_question_round_trip(buf: Seq<u8>, pos: int, q: Question)
    requires
        holds_at(buf, pos, question_wire(q)),
        valid_question(q),
    ensures
        parse_question(buf, pos) == Ok::<_, MalformedMessage>((q, pos + question_wire(q).len())),
{
    let name = name_wire(q.name);
    lemma_holds_at_split(buf, pos, name + be16_bytes(q.type_), be16_bytes(q.class));
    lemma_holds_at_split(buf, pos, name, be16_bytes(q.type_));
    lemma_name_round_trip(buf, pos, q.name, pos, 0);
    lemma_be16_round_trip(buf, pos + name.len(), q.type_);
    lemma_be16_round_trip(buf, pos + name.len() + 2, q.class);
}

/// A valid record is read back from its wire form.
pub proof fn lemma_record_round_trip(buf: Seq<u8>, pos: int, r: Record)
    requires
        holds_at(buf, pos, record_wire(r)),
        valid_record(r),
    ensures
        parse_record(buf, pos) == Ok::<_, MalformedMessage>((r, pos + record_wire(r).len())),
{
    let name = name_wire(r.name);
    let a = name + be16_bytes(r.type_);
    let b = a + be16_bytes(r.class);
    let c = b + be32_bytes(r.ttl);
    let d = c + be16_bytes(r.rd_length);
    lemma_holds_at_split(buf, pos, d, r.r_data);
    lemma_holds_at_split(buf, pos, c, be16_bytes(r.rd_length));
    lemma_holds_at_split(buf, pos, b, be32_bytes(r.ttl));
    lemma_holds_at_split(buf, pos, a, be16_bytes(r.class));
    lemma_holds_at_split(buf, pos, name, be16_bytes(r.type_));
    lemma_name_round_trip(buf, pos, r.name, pos, 0);
    let at = pos + name.len();
    lemma_be16_round_trip(buf, at, r.type_);
    lemma_be16_round_trip(buf, at + 2, r.class);
    lemma_be32_round_trip(buf, at + 4, r.ttl);
    lemma_be16_round_trip(buf, at + 8, r.rd_length);
}

/// A run of valid questions is read back from its wire form.
pub proof fn lemma_questions_round_trip(buf: Seq<u8>, pos: int, qs: Seq<Question>)
    requires
        holds_at(buf, pos, questions_wire(qs)),
        forall|i: int| 0 <= i < qs.len() ==> valid_question(#[trigger] qs[i]),
    ensures
        parse_questions(buf, pos, qs.len()) == Ok::<_, MalformedMessage>(
            (qs, pos + questions_wire(qs).len()),
        ),
    decreases qs.len(),
{
    if qs.len() == 0 {
        assert(qs =~= Seq::empty());
    } else {
        let rest = qs.skip(1);
        lemma_holds_at_split(buf, pos, question_wire(qs[0]), questions_wire(rest));
        lemma_question_round_trip(buf, pos, qs[0]);
        assert forall|i: int| 0 <= i < rest.len() implies valid_question(#[trigger] rest[i]) by {
            assert(rest[i] == qs[i + 1]);
        }
        lemma_questions_round_trip(buf, pos + question_wire(qs[0]).len(), rest);
        assert(seq![qs[0]] + rest =~= qs);
    }
}

/// A run of valid records is read back from its wire form.
pub proof fn lemma_records_round_trip(buf: Seq<u8>, pos: int, rs: Seq<Record>)
    requires
        holds_at(buf, pos, records_wire(rs)),
        forall|i: int| 0 <= i < rs.len() ==> valid_record(#[trigger] rs[i]),
    ensures
        parse_records(buf, pos, rs.len()) == Ok::<_, MalformedMessage>(
            (rs, pos + records_wire(rs).len()),
        ),
    decreases rs.len(),
{
    if rs.len() == 0 {
        assert(rs =~= Seq::empty());
    } else {
        let rest = rs.skip(1);
        lemma_holds_at_split(buf, pos, record_wire(rs[0]), records_wire(rest));
        lemma_record_round_trip(buf, pos, rs[0]);
        assert forall|i: int| 0 <= i < rest.len() implies valid_record(#[trigger] rest[i]) by {
            assert(rest[i] == rs[i + 1]);
        }
        lemma_records_round_trip(buf, pos + record_wire(rs[0]).len(), rest);
        assert(seq![rs[0]] + rest =~= rs);
    }
}

/// A header is read back from its wire form.
pub proof fn lemma_header_round_trip(buf: Seq<u8>, h: QueryHeader)
    requires
        holds_at(buf, 0, header_wire(h)),
    ensures
        parse_header(buf) == Ok::<_, MalformedMessage>(h),
{
    let a = be16_bytes(h.identification);
    let b = a + be16_bytes(h.flags);
    let c = b + be16_bytes(h.question_count);
    let d = c + be16_bytes(h.answer_count);
    let e = d + be16_bytes(h.authority_records_count);
    lemma_holds_at_split(buf, 0, e, be16_bytes(h.additional_records_count));
    lemma_holds_at_split(buf, 0, d, be16_bytes(h.authority_records_count));
    lemma_holds_at_split(buf, 0, c, be16_bytes(h.answer_count));
    lemma_holds_at_split(buf, 0, b, be16_bytes(h.question_count));
    lemma_holds_at_split(buf, 0, a, be16_bytes(h.flags));
    lemma_be16_round_trip(buf, 0, h.identification);
    lemma_be16_round_trip(buf, 2, h.flags);
    lemma_be16_round_trip(buf, 4, h.question_count);
    lemma_be16_round_trip(buf, 6, h.answer_count);
    lemma_be16_round_trip(buf, 8, h.authority_records_count);
    lemma_be16_round_trip(buf, 10, h.additional_records_count);
}

/// Where five parts are joined, each stands right after the one before.
proof fn lemma_five_parts(h: Seq<u8>, q: Seq<u8>, a: Seq<u8>, n: Seq<u8>, r: Seq<u8>)
    ensures
        holds_at(h + q + a + n + r, 0, h),
        holds_at(h + q + a + n + r, h.len() as int, q),
        holds_at(h + q + a + n + r, (h + q).len() as int, a),
        holds_at(h + q + a + n + r, (h + q + a).len() as int, n),
        holds_at(h + q + a + n + r, (h + q + a + n).len() as int, r),
{
    let buf = h + q + a + n + r;
    assert(buf.subrange(0, buf.len() as int) =~= buf);
    lemma_holds_at_split(buf, 0, h + q + a + n, r);
    lemma_holds_at_split(buf, 0, h + q + a, n);
    lemma_holds_at_split(buf, 0, h + q, a);
    lemma_holds_at_split(buf, 0, h, q);
}

/// The offsets at which the four sections of `m` start in its wire form,
/// and the offset at which it ends.
pub open spec fn section_offsets(m: Message) -> (int, int, int, int, int) {
    let questions_at = HEADER_LEN as int;
    let answers_at = questions_at + questions_wire(m.questions).len();
    let authorities_at = answers_at + records_wire(m.answers).len();
    let additional_at = authorities_at + records_wire(m.authorities).len();
    let end_at = additional_at + records_wire(m.additional).len();
    (questions_at, answers_at, authorities_at, additional_at, end_at)
}

/// In the wire form of a message the header stands first and each section
/// at its offset.
proof fn lemma_sections_stand(m: Message)
    ensures
        holds_at(message_wire(m), 0, header_wire(m.counted_header())),
        holds_at(message_wire(m), section_offsets(m).0, questions_wire(m.questions)),
        holds_at(message_wire(m), section_offsets(m).1, records_wire(m.answers)),
        holds_at(message_wire(m), section_offsets(m).2, records_wire(m.authorities)),
        holds_at(message_wire(m), section_offsets(m).3, records_wire(m.additional)),
{
    let h = header_wire(m.counted_header());
    assert(h.len() == HEADER_LEN);
    lemma_five_parts(
        h,
        questions_wire(m.questions),
        records_wire(m.answers),
        records_wire(m.authorities),
        records_wire(m.additional),
    );
}

/// A message is decoded where its header and its four sections are.
proof fn lemma_assemble(buf: Seq<u8>, m: Message, answers_at: int, authorities_at: int, additional_at: int, end_at: int)
    requires
        parse_header(buf) == Ok::<_, MalformedMessage>(m.header),
        parse_questions(buf, HEADER_LEN as int, m.header.question_count as nat) == Ok::<
            _,
            MalformedMessage,
        >((m.questions, answers_at)),
        parse_records(buf, answers_at, m.header.answer_count as nat) == Ok::<_, MalformedMessage>(
            (m.answers, authorities_at),
        ),
        parse_records(buf, authorities_at, m.header.authority_records_count as nat) == Ok::<
            _,
            MalformedMessage,
        >((m.authorities, additional_at)),
        parse_records(buf, additional_at, m.header.additional_records_count as nat) == Ok::<
            _,
            MalformedMessage,
        >((m.additional, end_at)),
    ensures
        parse_message(buf, m.requester) == Ok::<_, MalformedMessage>(m),
{
}

/// Decoding the wire form of a valid message gives the message back,
/// with the header's counts set to the lengths of its sections. Where
/// the counts already were those lengths, it gives the message itself.
pub proof fn lemma_message_round_trip(m: Message)
    requires
        m.valid(),
    ensures
        parse_message(message_wire(m), m.requester) == Ok::<_, MalformedMessage>(m.counted()),
        m.header == m.counted_header() ==> parse_message(message_wire(m), m.requester) == Ok::<
            _,
            MalformedMessage,
        >(m),
{
    let buf = message_wire(m);
    let (questions_at, answers_at, authorities_at, additional_at, end_at) = section_offsets(m);
    lemma_sections_stand(m);
    lemma_header_round_trip(buf, m.counted_header());
    lemma_questions_round_trip(buf, questions_at, m.questions);
    lemma_records_round_trip(buf, answers_at, m.answers);
    lemma_records_round_trip(buf, authorities_at, m.authorities);
    lemma_records_round_trip(buf, additional_at, m.additional);
    lemma_assemble(buf, m.counted(), answers_at, authorities_at, additional_at, end_at);
}

} // verus!
