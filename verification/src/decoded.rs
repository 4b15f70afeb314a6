//! What decoding gives: a name, a record or a message that was decoded
//! is one of the data model, so it can be encoded again.

use crate::label::MAX_LABEL_LEN;
use crate::message::{
    parse_header, parse_message, parse_question, parse_questions, parse_record, parse_records,
    valid_question, valid_record, Endpoint, HEADER_LEN,
};
use crate::name::{
    parse_name, item_at, labels_from, name_end, name_wire, valid_name, NameItem, MAX_NAME_LEN,
};
use vstd::prelude::*;

verus! {

/// The labels that were decoded are none of them empty or longer than 63
/// octets, and with what was taken before them they stay within the
/// length of a name.
pub proof fn lemma_labels_bounded(buf: Seq<u8>, pos: int, floor: int, used: int)
    requires
        labels_from(buf, pos, floor, used) is Ok,
        0 <= used < MAX_NAME_LEN,
    ensures
        forall|i: int|
            0 <= i < labels_from(buf, pos, floor, used)->Ok_0.len() ==> 1 <= (
            #[trigger] labels_from(buf, pos, floor, used)->Ok_0[i]).len() <= MAX_LABEL_LEN,
        used + name_wire(labels_from(buf, pos, floor, used)->Ok_0).len() <= MAX_NAME_LEN,
    decreases floor, buf.len() - pos,
{
    let labels = labels_from(buf, pos, floor, used)->Ok_0;
    match item_at(buf, pos) {
        Err(_) => {},
        Ok(NameItem::End) => {},
        Ok(NameItem::Pointer(target)) => {
            lemma_labels_bounded(buf, target, target, used);
        },
        Ok(NameItem::Label(text)) => {
            let at = pos + 1 + text.len();
            lemma_labels_bounded(buf, at, floor, used + text.len() + 1);
            let rest = labels_from(buf, at, floor, used + text.len() + 1)->Ok_0;
            assert(labels == seq![text] + rest);
            assert(labels.skip(1) == rest);
            assert(labels[0] == text);
            assert forall|i: int| 0 <= i < labels.len() implies 1 <= (#[trigger] labels[i]).len()
                <= MAX_LABEL_LEN by {
                if i > 0 {
                    assert(labels[i] == rest[i - 1]);
                }
            }
        },
    }
}

/// A name ends no earlier than it starts.
pub proof fn lemma_name_end_after_start(buf: Seq<u8>, pos: int)
    ensures
        name_end(buf, pos) >= pos,
    decreases buf.len() - pos,
{
    if let Ok(NameItem::Label(text)) = item_at(buf, pos) {
        lemma_name_end_after_start(buf, pos + 1 + text.len());
    }
}

/// A name that was decoded is valid.
pub proof fn lemma_decoded_name_valid(buf: Seq<u8>, start: int)
    requires
        parse_name(buf, start) is Ok,
    ensures
        valid_name(parse_name(buf, start)->Ok_0.0),
{
    lemma_labels_bounded(buf, start, start, 0);
}

/// A question that was decoded is valid.
pub proof fn lemma_parsed_question_valid(buf: Seq<u8>, pos: int)
    requires
        parse_question(buf, pos) is Ok,
    ensures
        valid_question(parse_question(buf, pos)->Ok_0.0),
{
    lemma_decoded_name_valid(buf, pos);
}

/// A record that was decoded is valid.
pub proof fn lemma_parsed_record_valid(buf: Seq<u8>, pos: int)
    requires
        parse_record(buf, pos) is Ok,
    ensures
        valid_record(parse_record(buf, pos)->Ok_0.0),
{
    lemma_decoded_name_valid(buf, pos);
    lemma_name_end_after_start(buf, pos);
}

/// As many questions are decoded as were asked for, each of them valid.
pub proof fn lemma_parsed_questions_valid(buf: Seq<u8>, pos: int, count: nat)
    requires
        parse_questions(buf, pos, count) is Ok,
    ensures
        parse_questions(buf, pos, count)->Ok_0.0.len() == count,
        forall|i: int|
            0 <= i < count ==> valid_question(#[trigger] parse_questions(buf, pos, count)->Ok_0.0[i]),
    decreases count,
{
    if count > 0 {
        let all = parse_questions(buf, pos, count)->Ok_0.0;
        let (first, next) = parse_question(buf, pos)->Ok_0;
        lemma_parsed_question_valid(buf, pos);
        lemma_parsed_questions_valid(buf, next, (count - 1) as nat);
        let rest = parse_questions(buf, next, (count - 1) as nat)->Ok_0.0;
        assert(all == seq![first] + rest);
        assert forall|i: int| 0 <= i < count implies valid_question(#[trigger] all[i]) by {
            if i > 0 {
                assert(all[i] == rest[i - 1]);
            }
        }
    }
}

/// As many records are decoded as were asked for, each of them valid.
pub proof fn lemma_parsed_records_valid(buf: Seq<u8>, pos: int, count: nat)
    requires
        parse_records(buf, pos, count) is Ok,
    ensures
        parse_records(buf, pos, count)->Ok_0.0.len() == count,
        forall|i: int|
            0 <= i < count ==> valid_record(#[trigger] parse_records(buf, pos, count)->Ok_0.0[i]),
    decreases count,
{
    if count > 0 {
        let all = parse_records(buf, pos, count)->Ok_0.0;
        let (first, next) = parse_record(buf, pos)->Ok_0;
        lemma_parsed_record_valid(buf, pos);
        lemma_parsed_records_valid(buf, next, (count - 1) as nat);
        let rest = parse_records(buf, next, (count - 1) as nat)->Ok_0.0;
        assert(all == seq![first] + rest);
        assert forall|i: int| 0 <= i < count implies valid_record(#[trigger] all[i]) by {
            if i > 0 {
                assert(all[i] == rest[i - 1]);
            }
        }
    }
}

/// A message that was decoded is valid, and each count in its header is
/// the length of its section.
pub proof fn lemma_parsed_message_valid(buf: Seq<u8>, requester: Endpoint)
    requires
        parse_message(buf, requester) is Ok,
    ensures
        parse_message(buf, requester)->Ok_0.valid(),
        parse_message(buf, requester)->Ok_0.header == parse_message(
            buf,
            requester,
        )->Ok_0.counted_header(),
{
    let header = parse_header(buf)->Ok_0;
    let questions_at = HEADER_LEN as int;
    lemma_parsed_questions_valid(buf, questions_at, header.question_count as nat);
    let answers_at = parse_questions(buf, questions_at, header.question_count as nat)->Ok_0.1;
    lemma_parsed_records_valid(buf, answers_at, header.answer_count as nat);
    let authorities_at = parse_records(buf, answers_at, header.answer_count as nat)->Ok_0.1;
    lemma_parsed_records_valid(buf, authorities_at, header.authority_records_count as nat);
    let additional_at = parse_records(buf, authorities_at, header.authority_records_count as nat)->Ok_0.1;
    lemma_parsed_records_valid(buf, additional_at, header.additional_records_count as nat);
}

} // verus!
