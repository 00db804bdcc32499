use dns_codec::resolver::{
    forward_query, local_answers, make_answer, query_header, reply_header, reply_to, start, Step,
};
use dns_codec::{DnsAnswer, DnsHeader, DnsMessage, DnsQuestion};

fn request_header(opcode: u8, questions: u16) -> DnsHeader {
    DnsHeader {
        id: 0xbeef,
        response: false,
        recursion_desired: true,
        truncated_message: true,
        authoritative_answer: true,
        opcode,
        rescode: 7,
        checking_disabled: true,
        authed_data: true,
        z: true,
        recursion_available: true,
        questions,
        answers: 5,
        authoritative_entries: 6,
        resource_entries: 7,
    }
}

fn question(name: &str) -> DnsQuestion {
    DnsQuestion { qname: name.to_string(), qtype: 1, qclass: 1 }
}

fn fixed(name: &str) -> DnsAnswer {
    DnsAnswer {
        name: name.to_string(),
        qtype: 1,
        qclass: 1,
        ttl: 60,
        rdlength: 4,
        rdata: vec![8, 8, 8, 8],
    }
}

fn upstream_answer(name: &str, last: u8) -> DnsAnswer {
    DnsAnswer {
        name: name.to_string(),
        qtype: 1,
        qclass: 1,
        ttl: 300,
        rdlength: 4,
        rdata: vec![10, 0, 0, last],
    }
}

fn request(names: &[&str]) -> DnsMessage {
    DnsMessage {
        header: request_header(0, names.len() as u16),
        questions: names.iter().map(|n| question(n)).collect(),
        answers: vec![],
    }
}

fn expected_reply_header(questions: u16, answers: u16, opcode: u8, rescode: u8) -> DnsHeader {
    DnsHeader {
        id: 0xbeef,
        response: true,
        recursion_desired: true,
        truncated_message: false,
        authoritative_answer: false,
        opcode,
        rescode,
        checking_disabled: false,
        authed_data: false,
        z: false,
        recursion_available: false,
        questions,
        answers,
        authoritative_entries: 0,
        resource_entries: 0,
    }
}

/// Plays the upstream server: answers every query with `answer_for`, and
/// keeps what it was sent.
fn run_with_stub(
    request: DnsMessage,
    answer_for: impl Fn(&DnsMessage) -> Vec<DnsAnswer>,
) -> (Vec<DnsMessage>, DnsMessage) {
    let mut seen = Vec::new();
    let mut step = start(request, true);
    loop {
        match step {
            Step::Forward { query, resolver } => {
                let answers = answer_for(&query);
                let wire = query.to_bytes();
                assert_eq!(DnsMessage::from_bytes(&wire), query);
                let upstream = DnsMessage {
                    header: DnsHeader {
                        response: true,
                        answers: answers.len() as u16,
                        ..query.header
                    },
                    questions: query.questions.clone(),
                    answers,
                };
                seen.push(query);
                let upstream = DnsMessage::from_bytes(&upstream.to_bytes());
                assert!(resolver.has_room_for(&upstream));
                step = resolver.resume(upstream);
            }
            Step::Reply(reply) => return (seen, reply),
        }
    }
}

#[test]
fn make_answer_is_the_fixed_record() {
    assert_eq!(make_answer("example.com"), fixed("example.com"));
    assert_eq!(make_answer(""), fixed(""));
}

#[test]
fn local_mode_answers_each_question_by_name() {
    let incoming = request(&["one.example", "two.example"]);
    let reply = match start(incoming.clone(), false) {
        Step::Reply(reply) => reply,
        Step::Forward { .. } => panic!("nothing goes upstream without an upstream server"),
    };
    assert_eq!(reply.answers, vec![fixed("one.example"), fixed("two.example")]);
    assert_eq!(reply.questions, incoming.questions);
    assert_eq!(reply.header, expected_reply_header(2, 2, 0, 0));
}

#[test]
fn local_mode_reply_goes_over_the_wire() {
    let incoming = request(&["one.example", "two.example"]);
    let reply = match start(incoming, false) {
        Step::Reply(reply) => reply,
        Step::Forward { .. } => panic!("nothing goes upstream without an upstream server"),
    };
    let decoded = DnsMessage::from_bytes(&reply.to_bytes());
    assert_eq!(decoded, reply);
    assert_eq!(decoded.answers.len(), 2);
}

#[test]
fn local_mode_without_questions() {
    let incoming = request(&[]);
    assert_eq!(local_answers(&incoming), vec![]);
    match start(incoming, false) {
        Step::Reply(reply) => {
            assert!(reply.answers.is_empty());
            assert_eq!(reply.header, expected_reply_header(0, 0, 0, 0));
        }
        Step::Forward { .. } => panic!("nothing goes upstream without an upstream server"),
    }
}

#[test]
fn local_mode_follows_the_count_in_the_header() {
    let mut incoming = request(&["one.example", "two.example"]);
    incoming.header.questions = 1;
    assert_eq!(local_answers(&incoming), vec![fixed("one.example")]);
    incoming.header.questions = 4;
    assert_eq!(
        local_answers(&incoming),
        vec![
            fixed("one.example"),
            fixed("two.example"),
            fixed("one.example"),
            fixed("one.example")
        ]
    );
    let mut empty = request(&[]);
    empty.header.questions = 2;
    assert_eq!(
        local_answers(&empty),
        vec![fixed("codecrafters.io"), fixed("codecrafters.io")]
    );
}

#[test]
fn forwarding_mode_sends_one_query_per_question() {
    let incoming = request(&["one.example", "two.example"]);
    let (seen, reply) = run_with_stub(incoming.clone(), |_| vec![upstream_answer("stub", 1)]);
    assert_eq!(seen.len(), 2);
    for (query, asked) in seen.iter().zip(&incoming.questions) {
        assert_eq!(query.questions, vec![asked.clone()]);
        assert!(query.answers.is_empty());
        assert_eq!(
            query.header,
            DnsHeader {
                id: 0xbeef,
                response: false,
                recursion_desired: true,
                truncated_message: false,
                authoritative_answer: false,
                opcode: 0,
                rescode: 0,
                checking_disabled: false,
                authed_data: false,
                z: false,
                recursion_available: false,
                questions: 1,
                answers: 0,
                authoritative_entries: 0,
                resource_entries: 0,
            }
        );
    }
    assert_eq!(reply.answers, vec![upstream_answer("stub", 1), upstream_answer("stub", 1)]);
    assert_eq!(reply.questions, incoming.questions);
    assert_eq!(reply.header, expected_reply_header(2, 2, 0, 0));
}

#[test]
fn forwarding_mode_keeps_the_order_of_the_answers() {
    let incoming = request(&["a.example", "b.example", "c.example"]);
    let (seen, reply) = run_with_stub(incoming, |query| {
        let name = query.questions[0].qname.clone();
        match name.as_str() {
            "a.example" => vec![upstream_answer(&name, 1), upstream_answer(&name, 2)],
            "b.example" => vec![],
            _ => vec![upstream_answer(&name, 3)],
        }
    });
    assert_eq!(seen.len(), 3);
    assert_eq!(
        reply.answers,
        vec![
            upstream_answer("a.example", 1),
            upstream_answer("a.example", 2),
            upstream_answer("c.example", 3)
        ]
    );
    assert_eq!(reply.header.answers, 3);
    assert_eq!(reply.header.questions, 3);
}

#[test]
fn forwarding_mode_without_questions_replies_at_once() {
    let (seen, reply) = run_with_stub(request(&[]), |_| vec![upstream_answer("stub", 1)]);
    assert!(seen.is_empty());
    assert!(reply.answers.is_empty());
    assert_eq!(reply.header, expected_reply_header(0, 0, 0, 0));
}

#[test]
fn forwarding_mode_goes_by_the_questions_held() {
    let mut incoming = request(&["a.example"]);
    incoming.header.questions = 3;
    let (seen, reply) = run_with_stub(incoming, |_| vec![upstream_answer("stub", 1)]);
    assert_eq!(seen.len(), 1);
    assert_eq!(reply.header.questions, 3);
    assert_eq!(reply.header.answers, 1);
}

#[test]
fn forward_query_holds_the_question_asked_for() {
    let incoming = request(&["a.example", "b.example"]);
    let query = forward_query(&incoming, 1);
    assert_eq!(query.questions, vec![question("b.example")]);
    assert_eq!(query.header, query_header(&incoming.header));
    assert!(query.answers.is_empty());
}

#[test]
fn query_header_keeps_opcode_and_recursion_desired() {
    let query = query_header(&request_header(5, 9));
    assert_eq!(query.opcode, 5);
    assert!(query.recursion_desired);
    assert!(!query.response);
    assert_eq!(query.id, 0xbeef);
    assert_eq!((query.questions, query.answers), (1, 0));
    let plain = query_header(&DnsHeader { recursion_desired: false, ..request_header(0, 1) });
    assert!(!plain.recursion_desired);
}

#[test]
fn rescode_follows_the_opcode() {
    assert_eq!(reply_header(&request_header(0, 1), 1).rescode, 0);
    for opcode in 1u8..=15 {
        assert_eq!(reply_header(&request_header(opcode, 1), 1).rescode, 4);
    }
    assert_eq!(reply_header(&request_header(200, 1), 1).rescode, 4);
}

#[test]
fn rescode_policy_holds_in_both_modes() {
    for opcode in [0u8, 1, 2, 15] {
        let expected = if opcode == 0 { 0 } else { 4 };
        let mut incoming = request(&["a.example"]);
        incoming.header.opcode = opcode;
        match start(incoming.clone(), false) {
            Step::Reply(reply) => {
                assert_eq!(reply.header, expected_reply_header(1, 1, opcode, expected))
            }
            Step::Forward { .. } => panic!("nothing goes upstream without an upstream server"),
        }
        let (seen, reply) = run_with_stub(incoming, |_| vec![]);
        assert_eq!(seen[0].header.opcode, opcode);
        assert_eq!(reply.header, expected_reply_header(1, 0, opcode, expected));
    }
}

#[test]
fn reply_header_exact() {
    assert_eq!(
        reply_header(&request_header(2, 3), 9),
        expected_reply_header(3, 9, 2, 4)
    );
}

#[test]
fn reply_to_counts_the_answers() {
    let incoming = request(&["a.example"]);
    let answers = vec![fixed("x"), fixed("y"), fixed("z")];
    let reply = reply_to(incoming.clone(), answers.clone());
    assert_eq!(reply.header, expected_reply_header(1, 3, 0, 0));
    assert_eq!(reply.questions, incoming.questions);
    assert_eq!(reply.answers, answers);
}

#[test]
fn resolver_has_room_up_to_the_count_limit() {
    let incoming = request(&["a.example", "b.example"]);
    let resolver = match start(incoming, true) {
        Step::Forward { resolver, .. } => resolver,
        Step::Reply(_) => panic!("a question is waiting"),
    };
    let big = DnsMessage {
        header: request_header(0, 0),
        questions: vec![],
        answers: vec![fixed("a"); 65535],
    };
    assert!(resolver.has_room_for(&big));
    let resolver = match resolver.resume(big) {
        Step::Forward { resolver, .. } => resolver,
        Step::Reply(_) => panic!("a question is waiting"),
    };
    let one = DnsMessage {
        header: request_header(0, 0),
        questions: vec![],
        answers: vec![fixed("b")],
    };
    assert!(!resolver.has_room_for(&one));
    let none = DnsMessage { header: request_header(0, 0), questions: vec![], answers: vec![] };
    assert!(resolver.has_room_for(&none));
    match resolver.resume(none) {
        Step::Reply(reply) => assert_eq!(reply.header.answers, 65535),
        Step::Forward { .. } => panic!("both questions were answered"),
    }
}
