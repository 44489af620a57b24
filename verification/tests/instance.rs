use weirdns::addr::{IpAddr, SocketAddr};
use weirdns::config::{Config, Rule};
use weirdns::instance::{apply_strip_a, parse_query_bytes, rules_usable, Instance, Pending, Step};
use weirdns::message::Name;
use weirdns::wire::DnsError;

fn make_config(rules: Vec<Rule>) -> Config {
    Config { listen: vec![], default_upstream: vec![], rules, log: false }
}

fn make_rule(domains: &[&str]) -> Rule {
    Rule {
        domains: domains.iter().map(|d| d.to_string()).collect(),
        upstream: None,
        dns64_prefix: None,
        dns64_force_synth: false,
        strip_a: false,
    }
}

fn name(s: &str) -> Name {
    Name::new(s.trim_end_matches('.')).unwrap()
}

fn server(last: u32) -> SocketAddr {
    SocketAddr::new(IpAddr::V4(0x7f00_0000 + last), 53)
}

fn query_bytes(id: u16, qname: &str, qtype: simple_dns::TYPE) -> Vec<u8> {
    let mut query = simple_dns::Packet::new_query(id);
    query.set_flags(simple_dns::PacketFlag::RECURSION_DESIRED);
    query.questions.push(simple_dns::Question::new(
        simple_dns::Name::new(qname).unwrap().into_owned(),
        simple_dns::QTYPE::TYPE(qtype),
        simple_dns::QCLASS::CLASS(simple_dns::CLASS::IN),
        false,
    ));
    query.build_bytes_vec_compressed().unwrap()
}

fn record(owner: &str, rdata: simple_dns::rdata::RData<'static>) -> simple_dns::ResourceRecord<'static> {
    simple_dns::ResourceRecord::new(simple_dns::Name::new(owner).unwrap().into_owned(), simple_dns::CLASS::IN, 60, rdata)
}

fn a(address: u32) -> simple_dns::rdata::RData<'static> {
    simple_dns::rdata::RData::A(simple_dns::rdata::A { address })
}

fn cname(target: &str) -> simple_dns::rdata::RData<'static> {
    simple_dns::rdata::RData::CNAME(simple_dns::rdata::CNAME(simple_dns::Name::new(target).unwrap().into_owned()))
}

fn reply_bytes(id: u16, answers: Vec<simple_dns::ResourceRecord<'static>>) -> Vec<u8> {
    let mut reply = simple_dns::Packet::new_reply(id);
    reply.answers = answers;
    reply.build_bytes_vec_compressed().unwrap()
}

#[test]
fn integration_exact_match() {
    let rules = vec![make_rule(&["example.com"]), make_rule(&["other.com"])];
    let instance = Instance::new(make_config(rules));
    assert!(instance.select_rule(&name("example.com")).is_some());
    assert!(instance.select_rule(&name("sub.example.com")).is_some());
    assert!(instance.select_rule(&name("other.com")).is_some());
    assert!(instance.select_rule(&name("unmatched.com")).is_none());
}

#[test]
fn integration_glob_single_wildcard_label() {
    let rules = vec![make_rule(&["*.example.com"])];
    let instance = Instance::new(make_config(rules));
    assert!(instance.select_rule(&name("foo.example.com")).is_some());
    assert!(instance.select_rule(&name("bar.example.com")).is_some());
    assert!(instance.select_rule(&name("sub.foo.example.com")).is_some());
    assert!(instance.select_rule(&name("foo.other.com")).is_none());
}

#[test]
fn integration_glob_within_label() {
    let rules = vec![make_rule(&["chatgpt-async-webps-prod-*-*.webpubsub.azure.com"])];
    let instance = Instance::new(make_config(rules));
    assert!(instance.select_rule(&name("chatgpt-async-webps-prod-someid-123.webpubsub.azure.com")).is_some());
    assert!(instance.select_rule(&name("chatgpt-async-webps-prod-abc-42.webpubsub.azure.com")).is_some());
    assert!(instance.select_rule(&name("other-prod-someid-123.webpubsub.azure.com")).is_none());
    assert!(instance.select_rule(&name("x.chatgpt-async-webps-prod-someid-123.webpubsub.azure.com")).is_some());
}

#[test]
fn integration_exact_priority_over_glob() {
    let rules = vec![make_rule(&["*.example.com"]), make_rule(&["exact.example.com"])];
    let instance = Instance::new(make_config(rules));
    let r = instance.select_rule(&name("exact.example.com")).unwrap();
    assert_eq!(r.domains.join(","), "exact.example.com");
}

#[test]
fn integration_question_mark() {
    let rules = vec![make_rule(&["app-?.example.com"])];
    let instance = Instance::new(make_config(rules));
    assert!(instance.select_rule(&name("app-1.example.com")).is_some());
    assert!(instance.select_rule(&name("app-x.example.com")).is_some());
    assert!(instance.select_rule(&name("app-12.example.com")).is_none());
}

#[test]
fn integration_glob_at_root_match_any() {
    let rules = vec![make_rule(&["*"])];
    let instance = Instance::new(make_config(rules));
    assert!(instance.select_rule(&name("example.com")).is_some());
    assert!(instance.select_rule(&name("foo.bar.example.com")).is_some());
    assert!(instance.select_rule(&name("com")).is_some());
}

#[test]
fn longest_domain_counts_alone() {
    let rules = vec![make_rule(&["*.com"]), make_rule(&["b?.example.com"]), make_rule(&["a.example.com"])];
    let instance = Instance::new(make_config(rules));
    assert_eq!(instance.select_index(&name("x.a.example.com")), Some(2));
    assert_eq!(instance.select_index(&name("b1.example.com")), Some(1));
    // `example.com` is the longest domain, and its only pattern does not match.
    assert_eq!(instance.select_index(&name("c1.example.com")), None);
    assert_eq!(instance.select_index(&name("other.com")), Some(0));
    assert_eq!(instance.select_index(&name("com")), None);
}

#[test]
fn last_rule_for_a_domain_and_first_pattern_count() {
    let rules = vec![
        make_rule(&["example.com", "*.org"]),
        make_rule(&["Example.com.", "a*.org"]),
        make_rule(&["*.bad domain"]),
    ];
    let instance = Instance::new(make_config(rules));
    assert_eq!(instance.select_index(&name("www.example.com")), Some(1));
    assert_eq!(instance.select_index(&name("abc.org")), Some(0));
    assert_eq!(instance.select_index(&name("bad domain")), None);
}

#[test]
fn letter_case_does_not_count() {
    let instance = Instance::new(make_config(vec![make_rule(&["eXample.com"])]));
    assert_eq!(instance.select_index(&name("WWW.EXAMPLE.COM")), Some(0));
    assert_eq!(instance.select_index(&name("www.example.com")), Some(0));
}

#[test]
fn names_that_are_no_domains_have_no_rule() {
    let instance = Instance::new(make_config(vec![make_rule(&["."]), make_rule(&["example.com"])]));
    assert_eq!(instance.select_index(&Name::root()), Some(0));
    assert_eq!(instance.select_index(&name("anything.else")), Some(0));
    let dotted = Name::from_labels(vec![b"a.b".to_vec(), b"example".to_vec(), b"com".to_vec()]).unwrap();
    assert_eq!(instance.select_index(&dotted), None);
    let high = Name::from_labels(vec![vec![0xff], b"example".to_vec(), b"com".to_vec()]).unwrap();
    assert_eq!(instance.select_index(&high), None);
    let space = Name::from_labels(vec![b"a b".to_vec(), b"example".to_vec(), b"com".to_vec()]).unwrap();
    assert_eq!(instance.select_index(&space), None);
}

#[test]
fn unusable_rules_are_found() {
    assert!(rules_usable(&vec![make_rule(&["example.com", "*.example.com", "*.bad domain"])]));
    assert!(rules_usable(&vec![]));
    assert!(!rules_usable(&vec![make_rule(&["bad domain"])]));
    assert!(!rules_usable(&vec![make_rule(&["a..b"])]));
    // A search takes the octet with a length of 65 for the letter `a`.
    let long = "q".repeat(65);
    let longer = format!("a{long}");
    assert!(rules_usable(&vec![make_rule(&[&long])]));
    assert!(!rules_usable(&vec![make_rule(&[&long, &longer])]));
}

#[test]
fn many_domains_are_told_apart() {
    let domains: Vec<String> = (0..200).map(|i| format!("h{i}.d{}.example.com", i % 7)).collect();
    let listed: Vec<&str> = domains.iter().map(|d| d.as_str()).collect();
    let rules: Vec<Rule> = listed.iter().map(|d| make_rule(&[d])).collect();
    assert!(rules_usable(&rules));
    let instance = Instance::new(make_config(rules));
    for (i, domain) in listed.iter().enumerate() {
        assert_eq!(instance.select_index(&name(domain)), Some(i));
        assert_eq!(instance.select_index(&name(&format!("www.{domain}"))), Some(i));
    }
    assert_eq!(instance.select_index(&name("d1.example.com")), None);
}

#[test]
fn queries_without_a_rule_go_to_the_default_servers() {
    let mut rule = make_rule(&["example.com"]);
    rule.upstream = Some(vec![server(2), server(3)]);
    let mut config = make_config(vec![rule, make_rule(&["example.org"])]);
    config.default_upstream = vec![server(1)];
    let instance = Instance::new(config);
    assert_eq!(instance.config().default_upstream, vec![server(1)]);

    let query = parse_query_bytes(&query_bytes(7, "www.example.com", simple_dns::TYPE::A)).unwrap();
    let handling = instance.handle_query(query);
    assert_eq!(handling.addresses, &[server(2), server(3)]);
    assert_eq!(handling.qtype, 1);
    assert_eq!(handling.qname.text(), "www.example.com");
    assert_eq!(handling.rule.unwrap().domains, vec!["example.com"]);

    let query = parse_query_bytes(&query_bytes(7, "www.example.org", simple_dns::TYPE::MX)).unwrap();
    let handling = instance.handle_query(query);
    assert_eq!(handling.addresses, &[server(1)]);
    assert!(handling.rule.is_some());

    let bytes = query_bytes(7, "www.example.net", simple_dns::TYPE::A);
    let handling = instance.handle_query(parse_query_bytes(&bytes).unwrap());
    assert_eq!(handling.addresses, &[server(1)]);
    assert!(handling.rule.is_none());
    match handling.step.unwrap() {
        Step::Ask { query, qname, pending } => {
            assert_eq!(query, bytes);
            assert_eq!(qname.text(), "www.example.net");
            match pending.resume(vec![1, 2, 3]).unwrap() {
                Step::Reply(reply) => assert_eq!(reply, vec![1, 2, 3]),
                other => panic!("{other:?}"),
            }
        }
        other => panic!("{other:?}"),
    }
}

#[test]
fn query_without_a_question_is_for_the_root() {
    let instance = Instance::new(make_config(vec![]));
    let bytes = simple_dns::Packet::new_query(9).build_bytes_vec_compressed().unwrap();
    let handling = instance.handle_query(parse_query_bytes(&bytes).unwrap());
    assert_eq!(handling.qtype, 1);
    assert_eq!(handling.qname.len(), 0);
    assert!(matches!(parse_query_bytes(&bytes[..5]), Err(DnsError::Wire(_))));
}

#[test]
fn addresses_are_stripped() {
    let answers = vec![record("w.x", cname("x")), record("x", a(1)), record("x", a(2))];
    let reply = reply_bytes(3, answers);

    let kept = apply_strip_a(7, 5, &reply).unwrap();
    let packet = simple_dns::Packet::parse(&kept).unwrap();
    assert_eq!(packet.id(), 7);
    assert_eq!(packet.answers.len(), 1);
    assert!(packet.has_flags(simple_dns::PacketFlag::RESPONSE));
    assert_eq!(u16::from(packet.answers[0].rdata.type_code()), 5);

    let none = apply_strip_a(7, 1, &reply).unwrap();
    assert_eq!(simple_dns::Packet::parse(&none).unwrap().answers.len(), 0);
    assert!(matches!(apply_strip_a(7, 1, &[0, 1]), Err(DnsError::Wire(_))));
}

#[test]
fn rule_strips_addresses() {
    let mut rule = make_rule(&["example.com"]);
    rule.strip_a = true;
    let instance = Instance::new(make_config(vec![rule]));
    let bytes = query_bytes(21, "example.com", simple_dns::TYPE::A);
    let handling = instance.handle_query(parse_query_bytes(&bytes).unwrap());
    match handling.step.unwrap() {
        Step::Ask { pending, .. } => {
            assert!(matches!(pending, Pending::StripA { id: 21, qtype: 1 }));
            match pending.resume(reply_bytes(4, vec![record("example.com", a(5))])).unwrap() {
                Step::Reply(reply) => {
                    let packet = simple_dns::Packet::parse(&reply).unwrap();
                    assert_eq!(packet.id(), 21);
                    assert!(packet.answers.is_empty());
                }
                other => panic!("{other:?}"),
            }
        }
        other => panic!("{other:?}"),
    }
}

#[test]
fn rule_with_a_prefix_synthesizes() {
    let mut rule = make_rule(&["example.com", "arpa"]);
    rule.dns64_prefix = Some(0x0064_ff9b_0000_0000_0000_0000_0000_0000);
    rule.dns64_force_synth = true;
    rule.strip_a = true;
    let instance = Instance::new(make_config(vec![rule]));

    let bytes = query_bytes(5, "example.com", simple_dns::TYPE::AAAA);
    match instance.handle_query(parse_query_bytes(&bytes).unwrap()).step.unwrap() {
        Step::Ask { query, pending, .. } => {
            assert_eq!(query, query_bytes(5, "example.com", simple_dns::TYPE::A));
            assert!(matches!(pending, Pending::Dns64(_)));
        }
        other => panic!("{other:?}"),
    }

    let bytes = query_bytes(5, "1.2.3.4.in-addr.arpa", simple_dns::TYPE::PTR);
    match instance.handle_query(parse_query_bytes(&bytes).unwrap()).step.unwrap() {
        Step::Ask { query, pending, .. } => {
            assert_eq!(query, bytes);
            assert!(matches!(pending, Pending::Dns64(_)));
        }
        other => panic!("{other:?}"),
    }

    let bytes = query_bytes(5, "example.com", simple_dns::TYPE::TXT);
    match instance.handle_query(parse_query_bytes(&bytes).unwrap()).step.unwrap() {
        Step::Ask { query, pending, .. } => {
            assert_eq!(query, bytes);
            assert!(matches!(pending, Pending::StripA { id: 5, qtype: 16 }));
        }
        other => panic!("{other:?}"),
    }
}
