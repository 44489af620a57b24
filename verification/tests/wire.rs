use weirdns::message::{DnsData, DnsQuestion, Name, Packet, CLASS_IN, RECURSION_DESIRED, RESPONSE, TYPE_A, TYPE_AAAA};
use weirdns::wire::DnsError;

fn wire_name(text: &str) -> simple_dns::Name<'static> {
    simple_dns::Name::new(text).unwrap().into_owned()
}

fn record(owner: &str, rdata: simple_dns::rdata::RData<'static>) -> simple_dns::ResourceRecord<'static> {
    simple_dns::ResourceRecord::new(wire_name(owner), simple_dns::CLASS::IN, 300, rdata)
}

#[test]
fn message_is_read_and_written_again() {
    let mut packet = simple_dns::Packet::new_reply(0x1234);
    packet.set_flags(simple_dns::PacketFlag::RECURSION_DESIRED | simple_dns::PacketFlag::AUTHENTIC_DATA);
    *packet.rcode_mut() = simple_dns::RCODE::NameError;
    packet.questions.push(simple_dns::Question::new(
        wire_name("Www.example.com"),
        simple_dns::QTYPE::ANY,
        simple_dns::QCLASS::ANY,
        true,
    ));
    packet.answers.push(record("www.example.com", simple_dns::rdata::RData::A(simple_dns::rdata::A { address: 0xc000_0201 })));
    packet.answers.push(
        record("www.example.com", simple_dns::rdata::RData::AAAA(simple_dns::rdata::AAAA { address: 7 }))
            .with_cache_flush(true),
    );
    packet.answers.push(record(
        "www.example.com",
        simple_dns::rdata::RData::CNAME(simple_dns::rdata::CNAME(wire_name("x.example.com"))),
    ));
    packet.name_servers.push(record(
        "example.com",
        simple_dns::rdata::RData::NS(simple_dns::rdata::NS(wire_name("ns.example.com"))),
    ));
    packet.additional_records.push(record("ns.example.com", simple_dns::rdata::RData::Empty(simple_dns::TYPE::A)));
    *packet.opt_mut() = Some(simple_dns::rdata::OPT { opt_codes: vec![], udp_packet_size: 1232, version: 0 });
    let bytes = packet.build_bytes_vec_compressed().unwrap();

    let read = Packet::parse(&bytes).unwrap();
    assert_eq!(read.header.id, 0x1234);
    assert_eq!(read.header.opcode, 0);
    assert_eq!(read.header.rcode, 3);
    assert_eq!(read.header.flags, 0x8000 | 0x0100 | 0x0020);
    assert!(read.has_flags(RESPONSE | RECURSION_DESIRED));
    assert!(!read.has_flags(0x0400));
    assert_eq!(read.questions.len(), 1);
    assert_eq!(read.questions[0].qname.text(), "Www.example.com");
    assert_eq!(read.questions[0].qtype, 255);
    assert_eq!(read.questions[0].qclass, 255);
    assert!(read.questions[0].unicast_response);
    assert_eq!(read.answers.len(), 3);
    assert!(matches!(read.answers[0].rdata, DnsData::A(0xc000_0201)));
    assert_eq!(read.answers[0].rdata.type_code(), TYPE_A);
    assert_eq!(read.answers[0].ttl, 300);
    assert_eq!(read.answers[0].class, CLASS_IN);
    assert!(matches!(read.answers[1].rdata, DnsData::AAAA(7)));
    assert_eq!(read.answers[1].rdata.type_code(), TYPE_AAAA);
    assert!(read.answers[1].cache_flush);
    match &read.answers[2].rdata {
        DnsData::CNAME(target) => assert_eq!(target.text(), "x.example.com"),
        other => panic!("{other:?}"),
    }
    assert!(matches!(&read.name_servers[0].rdata, DnsData::Other(other) if other.type_code() == 2));
    assert_eq!(read.additional_records.len(), 1);
    assert!(matches!(&read.additional_records[0].rdata, DnsData::Other(other) if other.type_code() == 1));
    assert!(read.header.opt.is_some());

    assert_eq!(read.build_bytes_vec_compressed().unwrap(), bytes);
}

#[test]
fn octets_that_are_no_message_are_refused() {
    assert!(matches!(Packet::parse(&[]), Err(DnsError::Wire(_))));
    assert!(matches!(Packet::parse(&[0; 11]), Err(DnsError::Wire(_))));
    let empty = Packet::parse(&[0; 12]).unwrap();
    assert_eq!(empty.header.id, 0);
    // A question of a type that is not known.
    let unknown = [0, 1, 1, 0, 0, 1, 0, 0, 0, 0, 0, 0, 0, 0, 19, 0, 1];
    assert!(matches!(Packet::parse(&unknown), Err(DnsError::Wire(_))));
    let known = [0, 1, 1, 0, 0, 1, 0, 0, 0, 0, 0, 0, 0, 0, 16, 0, 1];
    assert_eq!(Packet::parse(&known).unwrap().questions[0].qtype, 16);
}

#[test]
fn unknown_numbers_are_not_written() {
    let question = |qtype: u16, qclass: u16| {
        let mut packet = Packet::new_query(1);
        packet.questions.push(DnsQuestion { qname: Name::root(), qtype, qclass, unicast_response: false });
        packet.build_bytes_vec_compressed()
    };
    assert!(question(28, 1).is_ok());
    assert!(question(255, 255).is_ok());
    for qtype in [0, 19, 24, 27, 30, 34, 38, 42, 44, 50, 62, 66, 110, 250, 256, 258] {
        assert!(matches!(question(qtype, 1), Err(DnsError::Wire(_))), "{qtype}");
    }
    for qtype in [1, 18, 20, 23, 28, 29, 33, 35, 37, 41, 43, 45, 49, 63, 65, 108, 109, 251, 257] {
        assert!(question(qtype, 1).is_ok(), "{qtype}");
    }
    for qclass in [0, 5, 253, 256] {
        assert!(matches!(question(1, qclass), Err(DnsError::Wire(_))), "{qclass}");
    }
    assert!(question(1, 254).is_ok());
}

#[test]
fn flags_are_set_one_by_one() {
    let mut packet = Packet::new_reply(5);
    packet.set_flags(RECURSION_DESIRED);
    let bytes = packet.build_bytes_vec_compressed().unwrap();
    assert_eq!(bytes, vec![0, 5, 0x81, 0, 0, 0, 0, 0, 0, 0, 0, 0]);
}

#[test]
fn names_are_read_and_written_as_text() {
    let plain = Name::new("a.b..c.").unwrap();
    assert_eq!(plain.len(), 3);
    assert_eq!(plain.label(2), b"c");
    assert_eq!(plain.text(), "a.b.c");
    let escaped = Name::new(r"a\.b.c").unwrap();
    assert_eq!(escaped.len(), 2);
    assert_eq!(escaped.label(0), b"a.b");
    assert_eq!(escaped.text(), r"a\.b.c");
    assert_eq!(Name::new("").unwrap().len(), 0);
    assert_eq!(Name::root().text(), "");
    assert!(matches!(Name::new(&"x".repeat(64)), Err(DnsError::Wire(_))));
    assert!(Name::new(&"x".repeat(63)).is_ok());
    assert!(Name::new(&["x".repeat(63), "x".repeat(63), "x".repeat(63), "x".repeat(61)].join(".")).is_ok());
    assert!(Name::new(&["x".repeat(63), "x".repeat(63), "x".repeat(63), "x".repeat(62)].join(".")).is_err());
    assert!(Name::new("bad\\").is_err());
    let high = Name::from_labels(vec![vec![0xff, b'x']]).unwrap();
    assert_eq!(high.text(), "\u{fffd}x");
    assert!(Name::from_labels(vec![vec![]]).is_none());
    assert!(Name::from_labels(vec![vec![1; 64]]).is_none());
    assert_eq!(high.clone().label(0), &[0xff, b'x']);
}
