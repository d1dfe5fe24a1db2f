use updns::DnsError;
use updns::buffer::BytePacketBuffer;
use updns::config::Config;
use updns::ip::{IpAddress, IpV4};
use updns::packet::{DnsPacket, DnsQuestion, DnsRecord, QueryType};
use updns::resolver::{Resolution, get_answer, resolve};
use updns::state::SharedState;
use updns::watch::{FileStamp, WatchState};

/// A query datagram for one name, by hand.
fn query_bytes(id: u16, name: &str, qtype_num: u16) -> Vec<u8> {
    let mut out = Vec::new();
    out.push((id / 256) as u8);
    out.push((id % 256) as u8);
    out.push(0x01); // recursion desired
    out.push(0x00);
    out.push(0);
    out.push(1); // one question
    out.extend_from_slice(&[0, 0, 0, 0, 0, 0]);
    for label in name.split('.') {
        out.push(label.len() as u8);
        out.extend_from_slice(label.as_bytes());
    }
    out.push(0);
    out.push((qtype_num / 256) as u8);
    out.push((qtype_num % 256) as u8);
    out.push(0);
    out.push(1); // class IN
    out
}

fn hosts_from(lines: &[&str]) -> Config {
    let mut config = Config::new();
    let mut n = 1;
    for line in lines {
        config.apply_line(n, line);
        n += 1;
    }
    config
}

fn parse_reply(bytes: &[u8]) -> DnsPacket {
    let mut buffer = BytePacketBuffer::from_slice(bytes);
    DnsPacket::from_buffer(&mut buffer).unwrap()
}

#[test]
fn local_a_answer() {
    // an A query for a configured name is answered locally
    let config = hosts_from(&["example.com 10.0.0.1"]);
    let query = query_bytes(0x1234, "example.com", 1);
    match resolve(&config.hosts, &query) {
        Resolution::Reply(bytes) => {
            let reply = parse_reply(&bytes);
            assert_eq!(reply.header.id, 0x1234);
            assert!(reply.header.response);
            assert_eq!(reply.header.answers, 1);
            assert_eq!(reply.questions.len(), 1);
            assert_eq!(reply.questions[0].name, "example.com");
            assert_eq!(reply.answers.len(), 1);
            match &reply.answers[0] {
                DnsRecord::A { domain, addr, ttl } => {
                    assert_eq!(domain, "example.com");
                    assert_eq!(*addr, IpV4 { o0: 10, o1: 0, o2: 0, o3: 1 });
                    assert_eq!(*ttl, 3600);
                },
                other => panic!("not an A record: {:?}", other),
            }
        },
        other => panic!("expected a reply, got {:?}", other),
    }
}

#[test]
fn family_mismatch_forwards() {
    // an AAAA query for a v4-only name goes upstream
    let config = hosts_from(&["example.com 10.0.0.1"]);
    let query = query_bytes(7, "example.com", 28);
    assert!(matches!(resolve(&config.hosts, &query), Resolution::Forward));
}

#[test]
fn wildcard_resolves_single_label() {
    let config = hosts_from(&["*.example.com 10.0.0.2"]);
    let query = query_bytes(1, "foo.example.com", 1);
    assert!(matches!(resolve(&config.hosts, &query), Resolution::Reply(_)));
    let query = query_bytes(2, "foo.bar.example.com", 1);
    assert!(matches!(resolve(&config.hosts, &query), Resolution::Forward));
}

#[test]
fn regex_rule_resolves() {
    let config = hosts_from(&["~^api\\.test$ 10.0.0.3"]);
    let query = query_bytes(1, "api.test", 1);
    assert!(matches!(resolve(&config.hosts, &query), Resolution::Reply(_)));
    let query = query_bytes(2, "xapi.test", 1);
    assert!(matches!(resolve(&config.hosts, &query), Resolution::Forward));
}

#[test]
fn no_question_forwards() {
    let config = hosts_from(&["example.com 10.0.0.1"]);
    // a header alone, no questions
    let query = vec![0, 9, 0, 0, 0, 0, 0, 0, 0, 0, 0, 0];
    assert!(matches!(resolve(&config.hosts, &query), Resolution::Forward));
}

#[test]
fn self_pointer_is_rejected() {
    // the question name is a pointer to itself at offset 12
    let mut query = vec![0, 1, 0, 0, 0, 1, 0, 0, 0, 0, 0, 0];
    query.extend_from_slice(&[0xC0, 0x0C, 0, 1, 0, 1]);
    let config = hosts_from(&["example.com 10.0.0.1"]);
    match resolve(&config.hosts, &query) {
        Resolution::FailDecode(e) => assert_eq!(e, DnsError::LimitsExceeded),
        other => panic!("expected a decode failure, got {:?}", other),
    }
}

#[test]
fn short_datagram_parses_against_padding() {
    // the receive buffer is zero padded, so a short datagram reads as a
    // packet without questions and goes upstream
    let config = hosts_from(&[]);
    let query = vec![0, 1, 2];
    assert!(matches!(resolve(&config.hosts, &query), Resolution::Forward));
    // a datagram whose counts demand more records than the buffer holds
    // is a decode failure
    let mut overfull = vec![0, 1, 0, 0, 0, 0, 0, 60, 0, 0, 0, 0];
    overfull.resize(512, 0);
    match resolve(&config.hosts, &overfull) {
        Resolution::FailDecode(e) => assert_eq!(e, DnsError::EndOfBuffer),
        other => panic!("expected a decode failure, got {:?}", other),
    }
}

#[test]
fn packet_roundtrip_concrete() {
    let mut packet = DnsPacket {
        header: updns::packet::DnsHeader {
            id: 42,
            recursion_desired: true,
            truncated: false,
            authoritative: false,
            opcode: 0,
            response: false,
            rescode: updns::packet::ResultCode::NOERROR,
            checking_disabled: false,
            authed_data: false,
            z: false,
            recursion_available: false,
            questions: 0,
            answers: 0,
            authoritative_entries: 0,
            resource_entries: 0,
        },
        questions: vec![DnsQuestion { name: String::from("example.com"), qtype: QueryType::A }],
        answers: vec![
            DnsRecord::A {
                domain: String::from("example.com"),
                addr: IpV4 { o0: 10, o1: 0, o2: 0, o3: 1 },
                ttl: 3600,
            },
        ],
        authorities: vec![],
        resources: vec![],
    };
    let mut buffer = BytePacketBuffer::new();
    packet.write(&mut buffer).unwrap();
    let len = buffer.pos();
    let bytes = buffer.get_range(0, len).unwrap();
    let decoded = parse_reply(&bytes);
    assert_eq!(decoded.header.questions, 1);
    assert_eq!(decoded.header.answers, 1);
    assert_eq!(decoded.questions[0].name, "example.com");
    match &decoded.answers[0] {
        DnsRecord::A { domain, addr, ttl } => {
            assert_eq!(domain, "example.com");
            assert_eq!(*addr, IpV4 { o0: 10, o1: 0, o2: 0, o3: 1 });
            assert_eq!(*ttl, 3600);
        },
        other => panic!("not an A record: {:?}", other),
    }
}

#[test]
fn unknown_record_is_not_emitted() {
    let mut packet = parse_reply(&query_bytes(5, "a.b", 1));
    packet.answers.push(DnsRecord::Unknown {
        domain: String::from("a.b"),
        qtype: 99,
        data_len: 0,
        ttl: 0,
    });
    let before = {
        let mut buffer = BytePacketBuffer::new();
        let mut p = parse_reply(&query_bytes(5, "a.b", 1));
        p.write(&mut buffer).unwrap();
        buffer.pos()
    };
    let mut buffer = BytePacketBuffer::new();
    packet.write(&mut buffer).unwrap();
    // the unknown answer contributed no bytes, only a count
    assert_eq!(buffer.pos(), before);
}

#[test]
fn names_are_lowercased_on_read() {
    // label bytes arrive in upper case; the decoder lowercases them, so
    // the lookup matches a lower-case rule
    let config = hosts_from(&["example.com 10.0.0.1"]);
    let query = query_bytes(3, "EXAMPLE.COM", 1);
    match resolve(&config.hosts, &query) {
        Resolution::Reply(bytes) => {
            let reply = parse_reply(&bytes);
            assert_eq!(reply.questions[0].name, "example.com");
        },
        other => panic!("expected a reply, got {:?}", other),
    }
}

#[test]
fn get_answer_families() {
    let config = hosts_from(&["four.example 10.0.0.1", "six.example ::1"]);
    assert!(get_answer(&config.hosts, "four.example", QueryType::A).is_some());
    assert!(get_answer(&config.hosts, "four.example", QueryType::AAAA).is_none());
    assert!(get_answer(&config.hosts, "six.example", QueryType::AAAA).is_some());
    assert!(get_answer(&config.hosts, "six.example", QueryType::A).is_none());
    assert!(get_answer(&config.hosts, "absent.example", QueryType::A).is_none());
}

#[test]
fn reload_swaps_answers() {
    // the watcher fires on a changed stamp; the reparsed table answers next
    let mut state = SharedState::new();
    let old = hosts_from(&["old.example 10.0.0.1"]);
    state.update_config(old.proxy, old.hosts, old.timeout);
    assert!(get_answer(&state.hosts, "new.example", QueryType::A).is_none());

    let mut watch = WatchState::new(FileStamp::Time { secs: 1, nanos: 0 });
    assert!(!watch.observe(FileStamp::Time { secs: 1, nanos: 0 }));
    assert!(watch.observe(FileStamp::Time { secs: 2, nanos: 0 }));

    let fresh = hosts_from(&["new.example 10.0.0.9"]);
    state.update_config(fresh.proxy, fresh.hosts, fresh.timeout);
    match get_answer(&state.hosts, "new.example", QueryType::A) {
        Some(DnsRecord::A { addr, .. }) => {
            assert_eq!(addr, IpV4 { o0: 10, o1: 0, o2: 0, o3: 9 });
        },
        other => panic!("expected a local answer, got {:?}", other),
    }
    assert_eq!(state.timeout, 2000);
    assert_eq!(state.proxy.len(), 2); // the default upstreams
}

#[test]
fn watch_failure_stamps() {
    let mut watch = WatchState::new(FileStamp::Failure {
        kind: String::from("NotFound"),
        code: Some(2),
    });
    // the same failure again is no change
    assert!(!watch.observe(FileStamp::Failure { kind: String::from("NotFound"), code: Some(2) }));
    // a different code is a change
    assert!(watch.observe(FileStamp::Failure { kind: String::from("NotFound"), code: Some(13) }));
    // success after failure is a change
    assert!(watch.observe(FileStamp::Time { secs: 5, nanos: 1 }));
    // the same time again is not
    assert!(!watch.observe(FileStamp::Time { secs: 5, nanos: 1 }));
}

#[test]
fn overlong_label_fails_to_write() {
    let mut packet = parse_reply(&query_bytes(5, "a.b", 1));
    packet.questions[0].name = "x".repeat(64);
    let mut buffer = BytePacketBuffer::new();
    assert_eq!(packet.write(&mut buffer), Err(DnsError::LabelTooLong));

    let mut packet = parse_reply(&query_bytes(6, "a.b", 1));
    packet.questions[0].name = "x".repeat(600);
    let mut buffer = BytePacketBuffer::new();
    assert_eq!(packet.write(&mut buffer), Err(DnsError::EndOfBuffer));
}

#[test]
fn needs_newline_rule() {
    assert!(updns::cli::needs_newline(""));
    assert!(updns::cli::needs_newline("a.com 1.1.1.1"));
    assert!(!updns::cli::needs_newline("a.com 1.1.1.1\n"));
}
