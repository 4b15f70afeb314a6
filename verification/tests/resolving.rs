use stub_resolver::label::QueryToken;
use stub_resolver::message::{decode_message, Endpoint, MalformedMessage, QueryType};
use stub_resolver::name::MalformedName;
use stub_resolver::resolver::{Event, Outcome, ResolveError, Resolver};

const CLIENT: Endpoint = Endpoint::V4 { ip: 0xc0a8_0017, port: 53124 };
const OTHER: Endpoint = Endpoint::V4 { ip: 0xc0a8_0018, port: 40001 };
const UPSTREAM: Endpoint = Endpoint::V4 { ip: 0xc629_0004, port: 53 };

fn labels(parts: &[&str]) -> Vec<QueryToken> {
    parts.iter().map(|l| QueryToken::new(l)).collect()
}

fn texts(name: &[QueryToken]) -> Vec<String> {
    name.iter().map(|l| String::from_utf8(l.data.clone()).unwrap()).collect()
}

fn wire_name(parts: &[&str]) -> Vec<u8> {
    let mut out = Vec::new();
    for part in parts {
        out.push(part.len() as u8);
        out.extend_from_slice(part.as_bytes());
    }
    out.push(0);
    out
}

fn header(id: u16, flags: u16, counts: [u16; 4]) -> Vec<u8> {
    let mut out = Vec::new();
    for field in [id, flags, counts[0], counts[1], counts[2], counts[3]] {
        out.push((field >> 8) as u8);
        out.push((field & 0xff) as u8);
    }
    out
}

fn query(id: u16, name: &[&str]) -> Vec<u8> {
    let mut out = header(id, 0x0100, [1, 0, 0, 0]);
    out.extend_from_slice(&wire_name(name));
    out.extend_from_slice(&[0, 1, 0, 1]);
    out
}

fn reply_with_answer(id: u16, name: &[&str], rdata: &[u8]) -> Vec<u8> {
    let mut out = header(id, 0x8180, [1, 1, 0, 0]);
    out.extend_from_slice(&wire_name(name));
    out.extend_from_slice(&[0, 1, 0, 1]);
    out.extend_from_slice(&[0xc0, 12, 0, 1, 0, 1, 0, 0, 14, 16, 0, rdata.len() as u8]);
    out.extend_from_slice(rdata);
    out
}

fn reply_without_answer(id: u16, name: &[&str]) -> Vec<u8> {
    let mut out = header(id, 0x8183, [1, 0, 0, 0]);
    out.extend_from_slice(&wire_name(name));
    out.extend_from_slice(&[0, 1, 0, 1]);
    out
}

fn datagram(bytes: &[u8], source: Endpoint) -> Event {
    Event::Datagram { bytes: bytes.to_vec(), source }
}

fn sent(outcome: &Outcome) -> (&Vec<u8>, Endpoint) {
    let datagram = outcome.send.as_ref().expect("something to send");
    (&datagram.bytes, datagram.to)
}

#[test]
fn new_resolver_waits_for_a_query_with_an_empty_cache() {
    let resolver = Resolver::new(UPSTREAM);
    assert!(!resolver.awaits_reply());
    assert_eq!(resolver.upstream(), UPSTREAM);
    assert!(resolver.cache().label().data.is_empty());
    assert_eq!(resolver.cache().payload(), &None);
    assert_eq!(resolver.cache().child_count(), 0);
}

#[test]
fn cached_name_is_answered_from_the_cache() {
    let mut resolver = Resolver::new(UPSTREAM);
    assert!(resolver.remember(&labels(&["example", "com"]), &vec![93, 184, 216, 34]));
    let outcome = resolver.step(datagram(&query(0x1234, &["example", "com"]), CLIENT));
    assert_eq!(outcome.error, None);
    assert!(!resolver.awaits_reply());
    let (bytes, to) = sent(&outcome);
    assert_eq!(to, CLIENT);
    let response = decode_message(bytes, to).unwrap();
    assert_eq!(response.header.identification, 0x1234);
    assert_eq!(response.header.flags, 0x8080);
    assert_eq!(response.header.query_type(), QueryType::Response);
    assert_eq!(response.header.flags & 0x0080, 0x0080);
    assert_eq!(response.header.question_count, 1);
    assert_eq!(response.header.answer_count, 1);
    assert_eq!(response.header.authority_records_count, 0);
    assert_eq!(response.header.additional_records_count, 0);
    assert_eq!(texts(&response.questions[0].name), vec!["example", "com"]);
    assert_eq!((response.questions[0].type_, response.questions[0].class), (1, 1));
    assert_eq!(response.answers.len(), 1);
    assert_eq!(texts(&response.answers[0].name), vec!["example", "com"]);
    assert_eq!((response.answers[0].type_, response.answers[0].class), (1, 1));
    assert_eq!(response.answers[0].ttl, 100);
    assert_eq!(response.answers[0].rd_length, 4);
    assert_eq!(response.answers[0].r_data, vec![93, 184, 216, 34]);
}

#[test]
fn answer_from_the_cache_has_these_octets() {
    let mut resolver = Resolver::new(UPSTREAM);
    assert!(resolver.remember(&labels(&["a", "b"]), &vec![1, 2, 3, 4]));
    let outcome = resolver.step(datagram(&query(0xabcd, &["a", "b"]), CLIENT));
    let mut expected = header(0xabcd, 0x8080, [1, 1, 0, 0]);
    expected.extend_from_slice(b"\x01a\x01b\x00\x00\x01\x00\x01");
    expected.extend_from_slice(b"\x01a\x01b\x00\x00\x01\x00\x01\x00\x00\x00\x64\x00\x04\x01\x02\x03\x04");
    assert_eq!(sent(&outcome).0, &expected);
}

#[test]
fn answer_echoes_the_type_and_class_that_were_asked() {
    let mut resolver = Resolver::new(UPSTREAM);
    assert!(resolver.remember(&labels(&["example", "com"]), &vec![1]));
    let mut asked = header(5, 0, [1, 0, 0, 0]);
    asked.extend_from_slice(&wire_name(&["example", "com"]));
    asked.extend_from_slice(&[0, 28, 0, 3]);
    let outcome = resolver.step(datagram(&asked, CLIENT));
    let response = decode_message(sent(&outcome).0, CLIENT).unwrap();
    assert_eq!((response.questions[0].type_, response.questions[0].class), (28, 3));
    assert_eq!((response.answers[0].type_, response.answers[0].class), (28, 3));
}

#[test]
fn cached_name_is_answered_whatever_its_case() {
    let mut resolver = Resolver::new(UPSTREAM);
    assert!(resolver.remember(&labels(&["Example", "COM"]), &vec![10, 0, 0, 1]));
    let outcome = resolver.step(datagram(&query(9, &["eXample", "com"]), CLIENT));
    let response = decode_message(sent(&outcome).0, CLIENT).unwrap();
    assert_eq!(texts(&response.questions[0].name), vec!["eXample", "com"]);
    assert_eq!(texts(&response.answers[0].name), vec!["eXample", "com"]);
    assert_eq!(response.answers[0].r_data, vec![10, 0, 0, 1]);
    assert!(!resolver.awaits_reply());
}

#[test]
fn only_the_first_question_is_resolved() {
    let mut resolver = Resolver::new(UPSTREAM);
    assert!(resolver.remember(&labels(&["example", "com"]), &vec![1, 1, 1, 1]));
    let mut asked = header(77, 0, [2, 0, 0, 0]);
    asked.extend_from_slice(&wire_name(&["example", "com"]));
    asked.extend_from_slice(&[0, 1, 0, 1]);
    asked.extend_from_slice(&wire_name(&["other", "net"]));
    asked.extend_from_slice(&[0, 1, 0, 1]);
    let outcome = resolver.step(datagram(&asked, CLIENT));
    let response = decode_message(sent(&outcome).0, CLIENT).unwrap();
    assert_eq!(response.questions.len(), 1);
    assert_eq!(texts(&response.questions[0].name), vec!["example", "com"]);
    assert_eq!(response.answers.len(), 1);
}

#[test]
fn unknown_name_is_forwarded_then_cached_and_relayed() {
    let mut resolver = Resolver::new(UPSTREAM);
    let asked = query(0x4242, &["test", "invalid"]);
    let outcome = resolver.step(datagram(&asked, CLIENT));
    assert_eq!(outcome.error, None);
    assert_eq!(sent(&outcome), (&asked, UPSTREAM));
    assert!(resolver.awaits_reply());
    assert_eq!(resolver.cache().child_count(), 0);

    let reply = reply_with_answer(0x4242, &["test", "invalid"], &[203, 0, 113, 7]);
    let outcome = resolver.step(datagram(&reply, UPSTREAM));
    assert_eq!(outcome.error, None);
    assert_eq!(sent(&outcome), (&reply, CLIENT));
    assert!(!resolver.awaits_reply());
    assert_eq!(resolver.cache().child_count(), 1);

    let outcome = resolver.step(datagram(&query(0x4243, &["test", "invalid"]), OTHER));
    assert!(!resolver.awaits_reply());
    let (bytes, to) = sent(&outcome);
    assert_eq!(to, OTHER);
    let response = decode_message(bytes, to).unwrap();
    assert_eq!(response.header.identification, 0x4243);
    assert_eq!(response.answers[0].r_data, vec![203, 0, 113, 7]);
}

#[test]
fn reply_without_answer_is_relayed_and_not_cached() {
    let mut resolver = Resolver::new(UPSTREAM);
    let asked = query(3, &["nothing", "invalid"]);
    resolver.step(datagram(&asked, CLIENT));
    let reply = reply_without_answer(3, &["nothing", "invalid"]);
    let outcome = resolver.step(datagram(&reply, UPSTREAM));
    assert_eq!(outcome.error, None);
    assert_eq!(sent(&outcome), (&reply, CLIENT));
    assert!(!resolver.awaits_reply());
    assert_eq!(resolver.cache().child_count(), 0);
    assert_eq!(resolver.cache().payload(), &None);

    let outcome = resolver.step(datagram(&asked, CLIENT));
    assert_eq!(sent(&outcome), (&asked, UPSTREAM));
    assert!(resolver.awaits_reply());
}

#[test]
fn only_the_first_answer_is_cached() {
    let mut resolver = Resolver::new(UPSTREAM);
    resolver.step(datagram(&query(8, &["alias", "test"]), CLIENT));
    let mut reply = header(8, 0x8180, [1, 2, 0, 0]);
    reply.extend_from_slice(&wire_name(&["alias", "test"]));
    reply.extend_from_slice(&[0, 1, 0, 1]);
    reply.extend_from_slice(&[0xc0, 12, 0, 5, 0, 1, 0, 0, 0, 9, 0, 2, 0xc0, 18]);
    reply.extend_from_slice(&wire_name(&["real", "test"]));
    reply.extend_from_slice(&[0, 1, 0, 1, 0, 0, 0, 9, 0, 4, 1, 2, 3, 4]);
    let outcome = resolver.step(datagram(&reply, UPSTREAM));
    assert_eq!(sent(&outcome), (&reply, CLIENT));
    let outcome = resolver.step(datagram(&query(9, &["alias", "test"]), CLIENT));
    let response = decode_message(sent(&outcome).0, CLIENT).unwrap();
    assert_eq!(response.answers[0].r_data, vec![0xc0, 18]);
    let asked = query(10, &["real", "test"]);
    let outcome = resolver.step(datagram(&asked, CLIENT));
    assert_eq!(sent(&outcome), (&asked, UPSTREAM));
}

#[test]
fn answer_is_cached_under_the_name_of_the_answer() {
    let mut resolver = Resolver::new(UPSTREAM);
    resolver.step(datagram(&query(1, &["asked", "test"]), CLIENT));
    let mut reply = header(1, 0x8180, [1, 1, 0, 0]);
    reply.extend_from_slice(&wire_name(&["asked", "test"]));
    reply.extend_from_slice(&[0, 1, 0, 1]);
    reply.extend_from_slice(&wire_name(&["answered", "test"]));
    reply.extend_from_slice(&[0, 1, 0, 1, 0, 0, 0, 9, 0, 1, 42]);
    resolver.step(datagram(&reply, UPSTREAM));
    let outcome = resolver.step(datagram(&query(2, &["answered", "test"]), CLIENT));
    let response = decode_message(sent(&outcome).0, CLIENT).unwrap();
    assert_eq!(response.answers[0].r_data, vec![42]);
    let asked = query(3, &["asked", "test"]);
    let outcome = resolver.step(datagram(&asked, CLIENT));
    assert_eq!(sent(&outcome), (&asked, UPSTREAM));
}

#[test]
fn datagram_from_elsewhere_is_discarded_while_waiting() {
    let mut resolver = Resolver::new(UPSTREAM);
    resolver.step(datagram(&query(0x10, &["test", "invalid"]), CLIENT));
    let forged = reply_with_answer(0x10, &["test", "invalid"], &[6, 6, 6, 6]);
    let outcome = resolver.step(datagram(&forged, OTHER));
    assert!(outcome.send.is_none());
    assert_eq!(outcome.error, Some(ResolveError::UpstreamMismatch));
    assert!(resolver.awaits_reply());
    assert_eq!(resolver.cache().child_count(), 0);
    let same_ip_other_port = Endpoint::V4 { ip: 0xc629_0004, port: 54 };
    let outcome = resolver.step(datagram(&forged, same_ip_other_port));
    assert_eq!(outcome.error, Some(ResolveError::UpstreamMismatch));
    assert!(resolver.awaits_reply());
}

#[test]
fn reply_with_another_identification_is_discarded() {
    let mut resolver = Resolver::new(UPSTREAM);
    resolver.step(datagram(&query(0x10, &["test", "invalid"]), CLIENT));
    let stale = reply_with_answer(0x11, &["test", "invalid"], &[6, 6, 6, 6]);
    let outcome = resolver.step(datagram(&stale, UPSTREAM));
    assert!(outcome.send.is_none());
    assert_eq!(outcome.error, Some(ResolveError::UpstreamMismatch));
    assert!(resolver.awaits_reply());
    assert_eq!(resolver.cache().child_count(), 0);

    let reply = reply_with_answer(0x10, &["test", "invalid"], &[1, 2, 3, 4]);
    let outcome = resolver.step(datagram(&reply, UPSTREAM));
    assert_eq!(sent(&outcome), (&reply, CLIENT));
    assert!(!resolver.awaits_reply());
}

#[test]
fn datagram_without_a_header_is_discarded_while_waiting() {
    let mut resolver = Resolver::new(UPSTREAM);
    resolver.step(datagram(&query(0x10, &["test", "invalid"]), CLIENT));
    let outcome = resolver.step(datagram(&[0x00, 0x10, 0x81], UPSTREAM));
    assert!(outcome.send.is_none());
    assert_eq!(outcome.error, Some(ResolveError::UpstreamMismatch));
    assert!(resolver.awaits_reply());
}

#[test]
fn query_that_comes_while_waiting_is_discarded() {
    let mut resolver = Resolver::new(UPSTREAM);
    resolver.step(datagram(&query(0x10, &["test", "invalid"]), CLIENT));
    let outcome = resolver.step(datagram(&query(0x20, &["other", "invalid"]), OTHER));
    assert!(outcome.send.is_none());
    assert_eq!(outcome.error, Some(ResolveError::UpstreamMismatch));
    assert!(resolver.awaits_reply());
}

#[test]
fn malformed_reply_becomes_a_server_failure() {
    let mut resolver = Resolver::new(UPSTREAM);
    resolver.step(datagram(&query(0x0bad, &["test", "invalid"]), CLIENT));
    let mut broken = header(0x0bad, 0x8180, [1, 1, 0, 0]);
    broken.extend_from_slice(&wire_name(&["test", "invalid"]));
    broken.extend_from_slice(&[0, 1, 0, 1, 0xc0, 0xff]);
    let outcome = resolver.step(datagram(&broken, UPSTREAM));
    assert_eq!(
        outcome.error,
        Some(ResolveError::Malformed(MalformedMessage::Name(MalformedName::BadPointer)))
    );
    assert!(!resolver.awaits_reply());
    assert_eq!(resolver.cache().child_count(), 0);
    let (bytes, to) = sent(&outcome);
    assert_eq!(to, CLIENT);
    let mut expected = header(0x0bad, 0x8082, [1, 0, 0, 0]);
    expected.extend_from_slice(&wire_name(&["test", "invalid"]));
    expected.extend_from_slice(&[0, 1, 0, 1]);
    assert_eq!(bytes, &expected);
}

#[test]
fn end_of_the_wait_becomes_a_server_failure() {
    let mut resolver = Resolver::new(UPSTREAM);
    resolver.step(datagram(&query(0x7777, &["slow", "invalid"]), CLIENT));
    let outcome = resolver.step(Event::Timeout);
    assert_eq!(outcome.error, Some(ResolveError::UpstreamTimeout));
    assert!(!resolver.awaits_reply());
    let (bytes, to) = sent(&outcome);
    assert_eq!(to, CLIENT);
    let failure = decode_message(bytes, to).unwrap();
    assert_eq!(failure.header.identification, 0x7777);
    assert_eq!(failure.header.flags, 0x8082);
    assert_eq!(failure.header.flags & 0x000f, 2);
    assert_eq!(failure.header.question_count, 1);
    assert_eq!(failure.header.answer_count, 0);
    assert_eq!(texts(&failure.questions[0].name), vec!["slow", "invalid"]);
    assert!(failure.answers.is_empty());
    assert_eq!(resolver.cache().child_count(), 0);
}

#[test]
fn timeout_without_a_wait_does_nothing() {
    let mut resolver = Resolver::new(UPSTREAM);
    let outcome = resolver.step(Event::Timeout);
    assert!(outcome.send.is_none());
    assert_eq!(outcome.error, None);
    assert!(!resolver.awaits_reply());
}

#[test]
fn malformed_query_is_dropped_and_reported() {
    let mut resolver = Resolver::new(UPSTREAM);
    let outcome = resolver.step(datagram(&[1, 2, 3], CLIENT));
    assert!(outcome.send.is_none());
    assert_eq!(outcome.error, Some(ResolveError::Malformed(MalformedMessage::ShortHeader)));
    assert!(!resolver.awaits_reply());

    let mut cut = header(1, 0, [1, 0, 0, 0]);
    cut.extend_from_slice(b"\x07exam");
    let outcome = resolver.step(datagram(&cut, CLIENT));
    assert!(outcome.send.is_none());
    assert_eq!(
        outcome.error,
        Some(ResolveError::Malformed(MalformedMessage::Name(MalformedName::LabelOverrun)))
    );
    assert!(!resolver.awaits_reply());

    let asked = query(2, &["still", "serving"]);
    let outcome = resolver.step(datagram(&asked, CLIENT));
    assert_eq!(sent(&outcome), (&asked, UPSTREAM));
}

#[test]
fn query_without_a_question_is_dropped() {
    let mut resolver = Resolver::new(UPSTREAM);
    let outcome = resolver.step(datagram(&header(1, 0, [0, 0, 0, 0]), CLIENT));
    assert!(outcome.send.is_none());
    assert_eq!(outcome.error, None);
    assert!(!resolver.awaits_reply());
}

#[test]
fn query_for_the_root_is_forwarded() {
    let mut resolver = Resolver::new(UPSTREAM);
    let asked = query(1, &[]);
    let outcome = resolver.step(datagram(&asked, CLIENT));
    assert_eq!(sent(&outcome), (&asked, UPSTREAM));
    assert!(resolver.awaits_reply());
}

#[test]
fn compressed_query_is_forwarded_as_it_came() {
    let mut resolver = Resolver::new(UPSTREAM);
    let mut asked = header(1, 0, [2, 0, 0, 0]);
    asked.extend_from_slice(&wire_name(&["test", "invalid"]));
    asked.extend_from_slice(&[0, 1, 0, 1, 0xc0, 12, 0, 28, 0, 1, 0xde, 0xad]);
    let outcome = resolver.step(datagram(&asked, CLIENT));
    assert_eq!(sent(&outcome), (&asked, UPSTREAM));
}

#[test]
fn name_known_only_in_part_is_forwarded() {
    let mut resolver = Resolver::new(UPSTREAM);
    assert!(resolver.remember(&labels(&["www", "example", "com"]), &vec![1, 1, 1, 1]));
    let asked = query(1, &["example", "com"]);
    let outcome = resolver.step(datagram(&asked, CLIENT));
    assert_eq!(sent(&outcome), (&asked, UPSTREAM));
    assert!(resolver.awaits_reply());
}

#[test]
fn remember_refuses_data_longer_than_a_record_can_hold() {
    let mut resolver = Resolver::new(UPSTREAM);
    assert!(!resolver.remember(&labels(&["big", "test"]), &vec![0u8; 65536]));
    assert_eq!(resolver.cache().child_count(), 0);
    assert!(resolver.remember(&labels(&["big", "test"]), &vec![7u8; 65535]));
    assert_eq!(resolver.cache().child_count(), 1);
    let outcome = resolver.step(datagram(&query(1, &["big", "test"]), CLIENT));
    let response = decode_message(sent(&outcome).0, CLIENT).unwrap();
    assert_eq!(response.answers[0].rd_length, 65535);
    assert_eq!(response.answers[0].r_data, vec![7u8; 65535]);
}

#[test]
fn reply_from_an_ipv6_source_is_not_the_upstream() {
    let mut resolver = Resolver::new(UPSTREAM);
    resolver.step(datagram(&query(0x10, &["test", "invalid"]), CLIENT));
    let reply = reply_with_answer(0x10, &["test", "invalid"], &[1, 2, 3, 4]);
    let outcome = resolver.step(datagram(&reply, Endpoint::V6 { ip: 0xc629_0004, port: 53 }));
    assert_eq!(outcome.error, Some(ResolveError::UpstreamMismatch));
    assert!(resolver.awaits_reply());
}
