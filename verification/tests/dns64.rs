use weirdns::config::Rule;
use weirdns::dns64::{
    build_query, first_query_name, handle_dns64, handle_dns64_rdns, ipv4_ptr_name, parse_ip6_arpa_name, reply_like,
    synthesize_aaaa, Step,
};
use weirdns::message::{DnsData, DnsRecord, Name, Packet};
use weirdns::wire::DnsError;

const PREFIX: u128 = 0x0064_ff9b_0000_0000_0000_0000_ffff_ffff;

fn rule(prefix: Option<u128>, force: bool) -> Rule {
    Rule { domains: vec![], upstream: None, dns64_prefix: prefix, dns64_force_synth: force, strip_a: false }
}

fn wire_name(text: &str) -> simple_dns::Name<'static> {
    simple_dns::Name::new(text).unwrap().into_owned()
}

fn question(qname: &str, qtype: simple_dns::TYPE) -> simple_dns::Question<'static> {
    simple_dns::Question::new(
        wire_name(qname),
        simple_dns::QTYPE::TYPE(qtype),
        simple_dns::QCLASS::CLASS(simple_dns::CLASS::IN),
        false,
    )
}

fn query_bytes(id: u16, qname: &str, qtype: simple_dns::TYPE) -> Vec<u8> {
    let mut query = simple_dns::Packet::new_query(id);
    query.set_flags(simple_dns::PacketFlag::RECURSION_DESIRED);
    query.questions.push(question(qname, qtype));
    query.build_bytes_vec_compressed().unwrap()
}

fn query(id: u16, qname: &str, qtype: simple_dns::TYPE) -> Packet {
    Packet::parse(&query_bytes(id, qname, qtype)).unwrap()
}

fn record(owner: &str, rdata: simple_dns::rdata::RData<'static>) -> simple_dns::ResourceRecord<'static> {
    simple_dns::ResourceRecord::new(wire_name(owner), simple_dns::CLASS::IN, 60, rdata)
}

fn a(address: u32) -> simple_dns::rdata::RData<'static> {
    simple_dns::rdata::RData::A(simple_dns::rdata::A { address })
}

fn aaaa(address: u128) -> simple_dns::rdata::RData<'static> {
    simple_dns::rdata::RData::AAAA(simple_dns::rdata::AAAA { address })
}

fn cname(target: &str) -> simple_dns::rdata::RData<'static> {
    simple_dns::rdata::RData::CNAME(simple_dns::rdata::CNAME(wire_name(target)))
}

fn reply_bytes(answers: Vec<simple_dns::ResourceRecord<'static>>) -> Vec<u8> {
    let mut reply = simple_dns::Packet::new_reply(99);
    reply.answers = answers;
    reply.build_bytes_vec_compressed().unwrap()
}

fn asked(step: Step) -> (Vec<u8>, Name, weirdns::dns64::Pending) {
    match step {
        Step::Ask { query, qname, pending } => (query, qname, pending),
        Step::Reply(_) => panic!("replied"),
    }
}

fn replied(step: Step) -> Vec<u8> {
    match step {
        Step::Reply(bytes) => bytes,
        Step::Ask { .. } => panic!("asked"),
    }
}

#[test]
fn forced_synthesis_asks_for_ipv4_only() {
    let step = handle_dns64(query(7, "w.example.com", simple_dns::TYPE::AAAA), &rule(Some(PREFIX), true)).unwrap();
    let (bytes, qname, pending) = asked(step);
    assert_eq!(bytes, query_bytes(7, "w.example.com", simple_dns::TYPE::A));
    assert_eq!(qname.text(), "w.example.com");

    let reply = reply_bytes(vec![
        record("w.example.com", cname("x.example.com")),
        record("x.example.com", a(0xc000_0201)),
        record("x.example.com", simple_dns::rdata::RData::Empty(simple_dns::TYPE::A)),
    ]);
    let out = replied(pending.resume(reply).unwrap());
    let packet = simple_dns::Packet::parse(&out).unwrap();
    assert_eq!(packet.id(), 7);
    assert!(packet.has_flags(simple_dns::PacketFlag::RESPONSE | simple_dns::PacketFlag::RECURSION_AVAILABLE));
    assert!(!packet.has_flags(simple_dns::PacketFlag::RECURSION_DESIRED));
    assert_eq!(packet.rcode(), simple_dns::RCODE::NoError);
    assert_eq!(packet.questions.len(), 1);
    assert_eq!(packet.answers.len(), 1);
    assert_eq!(packet.answers[0].name.to_string(), "w.example.com");
    assert_eq!(packet.answers[0].ttl, 60);
    assert_eq!(packet.answers[0].rdata, aaaa(0x0064_ff9b_0000_0000_0000_0000_c000_0201));
}

#[test]
fn real_ipv6_addresses_are_passed_on() {
    let bytes = query_bytes(7, "w.example.com", simple_dns::TYPE::AAAA);
    let step = handle_dns64(Packet::parse(&bytes).unwrap(), &rule(Some(PREFIX), false)).unwrap();
    let (sent, _, pending) = asked(step);
    assert_eq!(sent, bytes);
    let reply = reply_bytes(vec![record("w.example.com", aaaa(1))]);
    assert_eq!(replied(pending.resume(reply.clone()).unwrap()), reply);
}

#[test]
fn aliases_are_followed_and_kept() {
    let step = handle_dns64(query(7, "w.example.com", simple_dns::TYPE::AAAA), &rule(Some(PREFIX), false)).unwrap();
    let (_, _, pending) = asked(step);
    let (sent, _, pending) = asked(pending.resume(reply_bytes(vec![])).unwrap());
    assert_eq!(sent, query_bytes(7, "w.example.com", simple_dns::TYPE::A));
    let (sent, qname, pending) =
        asked(pending.resume(reply_bytes(vec![record("w.example.com", cname("x.example.com"))])).unwrap());
    assert_eq!(sent, query_bytes(7, "x.example.com", simple_dns::TYPE::A));
    assert_eq!(qname.text(), "x.example.com");
    let out = replied(pending.resume(reply_bytes(vec![record("x.example.com", a(5))])).unwrap());
    let packet = simple_dns::Packet::parse(&out).unwrap();
    assert_eq!(packet.answers.len(), 2);
    assert_eq!(packet.answers[0].rdata, cname("x.example.com"));
    assert_eq!(packet.answers[1].name.to_string(), "x.example.com");
    assert_eq!(packet.answers[1].rdata, aaaa(0x0064_ff9b_0000_0000_0000_0000_0000_0005));
}

#[test]
fn aliases_are_followed_no_further_than_eleven_questions() {
    let mut step = handle_dns64(query(7, "n0.x", simple_dns::TYPE::AAAA), &rule(Some(PREFIX), false)).unwrap();
    let mut questions = 0;
    let out = loop {
        match step {
            Step::Reply(bytes) => break bytes,
            Step::Ask { pending, .. } => {
                let answers = if questions == 0 {
                    vec![]
                } else {
                    vec![record(&format!("n{}.x", questions - 1), cname(&format!("n{questions}.x")))]
                };
                questions += 1;
                step = pending.resume(reply_bytes(answers)).unwrap();
            }
        }
    };
    assert_eq!(questions, 12);
    assert_eq!(simple_dns::Packet::parse(&out).unwrap().answers.len(), 11);
}

#[test]
fn reply_without_addresses_and_aliases_ends_the_search() {
    let step = handle_dns64(query(7, "w.x", simple_dns::TYPE::AAAA), &rule(Some(PREFIX), true)).unwrap();
    let (_, _, pending) = asked(step);
    let out = replied(pending.resume(reply_bytes(vec![])).unwrap());
    assert!(simple_dns::Packet::parse(&out).unwrap().answers.is_empty());

    // The first record of the type of an alias is empty: there is nothing to follow.
    let step = handle_dns64(query(7, "w.x", simple_dns::TYPE::AAAA), &rule(Some(PREFIX), true)).unwrap();
    let (_, _, pending) = asked(step);
    let answers =
        vec![record("w.x", simple_dns::rdata::RData::Empty(simple_dns::TYPE::CNAME)), record("w.x", cname("y.x"))];
    replied(pending.resume(reply_bytes(answers)).unwrap());
}

#[test]
fn failures_are_told_apart() {
    assert!(matches!(
        handle_dns64(query(7, "w.x", simple_dns::TYPE::AAAA), &rule(None, false)),
        Err(DnsError::Dns64Disabled)
    ));
    assert!(matches!(
        handle_dns64_rdns(query(7, "w.x", simple_dns::TYPE::PTR), &rule(None, false)),
        Err(DnsError::Dns64Disabled)
    ));
    let step = handle_dns64(query(7, "w.x", simple_dns::TYPE::AAAA), &rule(Some(PREFIX), false)).unwrap();
    let (_, _, pending) = asked(step);
    assert!(matches!(pending.resume(vec![1, 2, 3]), Err(DnsError::Wire(_))));
}

fn arpa(address: u128) -> String {
    let digits: Vec<String> = (0..32).map(|i| format!("{:x}", (address >> (4 * i)) & 15)).collect();
    format!("{}.ip6.arpa", digits.join("."))
}

#[test]
fn reverse_query_is_answered_for_the_ipv6_address() {
    let qname = arpa(0x0064_ff9b_0000_0000_0000_0000_c000_0201);
    let step = handle_dns64_rdns(query(8, &qname, simple_dns::TYPE::PTR), &rule(Some(PREFIX), false)).unwrap();
    let (sent, asked_name, pending) = asked(step);
    assert_eq!(sent, query_bytes(8, "1.2.0.192.in-addr.arpa", simple_dns::TYPE::PTR));
    assert_eq!(asked_name.text(), "1.2.0.192.in-addr.arpa");

    let mut reply = simple_dns::Packet::new_reply(99);
    reply.set_flags(simple_dns::PacketFlag::RECURSION_AVAILABLE | simple_dns::PacketFlag::AUTHENTIC_DATA);
    *reply.rcode_mut() = simple_dns::RCODE::Refused;
    let ptr = simple_dns::rdata::RData::PTR(simple_dns::rdata::PTR(wire_name("host.example.com")));
    reply.answers.push(record("1.2.0.192.in-addr.arpa", ptr.clone()));
    reply.name_servers.push(record("2.0.192.in-addr.arpa", a(1)));
    reply.additional_records.push(record("ns.example.com", a(2)));
    let out = replied(pending.resume(reply.build_bytes_vec_compressed().unwrap()).unwrap());
    let packet = simple_dns::Packet::parse(&out).unwrap();
    assert_eq!(packet.id(), 8);
    assert_eq!(packet.rcode(), simple_dns::RCODE::Refused);
    assert!(packet.has_flags(
        simple_dns::PacketFlag::RESPONSE
            | simple_dns::PacketFlag::RECURSION_AVAILABLE
            | simple_dns::PacketFlag::AUTHENTIC_DATA
    ));
    assert!(!packet.has_flags(simple_dns::PacketFlag::RECURSION_DESIRED));
    assert_eq!(packet.questions[0].qname.to_string(), qname);
    assert_eq!(packet.answers[0].name.to_string(), qname);
    assert_eq!(packet.answers[0].rdata, ptr);
    assert_eq!(packet.name_servers[0].name.to_string(), qname);
    assert_eq!(packet.additional_records[0].name.to_string(), qname);
}

#[test]
fn reverse_query_outside_of_the_prefix_is_passed_on() {
    for qname in [arpa(0x0064_ff9b_0000_0000_0000_0001_c000_0201), "4.3.2.1.in-addr.arpa".to_string()] {
        let bytes = query_bytes(8, &qname, simple_dns::TYPE::PTR);
        let step = handle_dns64_rdns(Packet::parse(&bytes).unwrap(), &rule(Some(PREFIX), false)).unwrap();
        let (sent, _, pending) = asked(step);
        assert_eq!(sent, bytes);
        assert_eq!(replied(pending.resume(vec![9, 9]).unwrap()), vec![9, 9]);
    }
}

#[test]
fn reverse_names_are_read_and_written() {
    assert_eq!(ipv4_ptr_name(0x0102_03ff).text(), "255.3.2.1.in-addr.arpa");
    assert_eq!(ipv4_ptr_name(0).text(), "0.0.0.0.in-addr.arpa");
    assert_eq!(ipv4_ptr_name(0x6409_0a64).text(), "100.10.9.100.in-addr.arpa");

    let address = 0x2001_0db8_1234_5678_9abc_def0_1357_9bdf;
    let text = arpa(address);
    assert_eq!(parse_ip6_arpa_name(&Name::new(&text).unwrap()), Some(address));
    let upper = text.to_uppercase().replace("IP6.ARPA", "ip6.arpa");
    assert_eq!(parse_ip6_arpa_name(&Name::new(&upper).unwrap()), Some(address));
    assert_eq!(parse_ip6_arpa_name(&Name::new(&text.to_uppercase()).unwrap()), None);
    assert_eq!(parse_ip6_arpa_name(&Name::new(&format!("1.{text}")).unwrap()), None);
    assert_eq!(parse_ip6_arpa_name(&Name::new(&text[2..]).unwrap()), None);
    assert_eq!(parse_ip6_arpa_name(&Name::new(&text.replacen('f', "g", 1)).unwrap()), None);
    assert_eq!(parse_ip6_arpa_name(&Name::new(&text.replacen('f', "ff", 1)).unwrap()), None);
    assert_eq!(parse_ip6_arpa_name(&Name::new(&text.replacen('f', r"\.", 1)).unwrap()), None);
    assert_eq!(parse_ip6_arpa_name(&Name::root()), None);
}

#[test]
fn one_address_is_put_under_the_prefix() {
    let owner = Name::new("o.x").unwrap();
    let source = DnsRecord {
        name: Name::new("s.x").unwrap(),
        class: 3,
        ttl: 17,
        cache_flush: true,
        rdata: DnsData::A(0x0a00_0001),
    };
    let made = synthesize_aaaa(u128::MAX, &owner, &source).unwrap();
    assert_eq!(made.name.text(), "o.x");
    assert_eq!((made.class, made.ttl, made.cache_flush), (3, 17, false));
    assert!(matches!(made.rdata, DnsData::AAAA(0xffff_ffff_ffff_ffff_ffff_ffff_0a00_0001)));
    let other = DnsRecord { rdata: DnsData::AAAA(1), ..source };
    assert!(synthesize_aaaa(u128::MAX, &owner, &other).is_none());
}

#[test]
fn queries_and_replies_are_made() {
    let made = build_query(3, Name::new("a.b").unwrap(), 1);
    assert_eq!(made.build_bytes_vec_compressed().unwrap(), query_bytes(3, "a.b", simple_dns::TYPE::A));
    assert_eq!(first_query_name(&made).text(), "a.b");
    assert_eq!(first_query_name(&Packet::new_query(3)).len(), 0);

    let mut source = Packet::new_query(4);
    source.header.opcode = 4;
    source.header.rcode = 5;
    source.set_flags(0x07b0);
    let like = reply_like(&source, 6);
    assert_eq!((like.header.id, like.header.opcode, like.header.rcode), (6, 4, 5));
    assert_eq!(like.header.flags, 0x87b0);
    assert_eq!(reply_like(&Packet::new_query(4), 6).header.flags, 0x8000);
}
