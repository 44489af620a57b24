use weirdns::domain::{fqdn_labels, Domain};
use weirdns::glob::{
    contains_glob, glob_match, label_matches, parse_domain_pattern, parse_label, GlobValue, LabelPattern, RuleValue,
};

fn glob_matches(pattern: &str, query: &str) -> bool {
    let (suffix, prefix) = parse_domain_pattern(pattern).expect("parse pattern");
    let query_fqdn = Domain::from_ascii_str(query).expect("parse query");
    let gv = GlobValue { prefix, rule: 0 };
    gv.matches(&query_fqdn, &suffix)
}

#[test]
fn exact_no_glob() {
    assert!(contains_glob("example.com") == false);
    assert!(contains_glob("*.example.com"));
    assert!(contains_glob("prefix-*-suffix.example.com"));
}

#[test]
fn literal_labels_only_suffix_is_full_domain() {
    let (suffix, prefix) = parse_domain_pattern("*-a.*-b.example.com").unwrap();
    assert_eq!(suffix.as_bytes(), Domain::from_ascii_str("example.com").unwrap().as_bytes());
    assert_eq!(prefix.len(), 2);
    assert!(matches!(&prefix[0], LabelPattern::Glob(_)));
    assert!(matches!(&prefix[1], LabelPattern::Glob(_)));
}

#[test]
fn any_label_wildcard() {
    let (suffix, prefix) = parse_domain_pattern("*.example.com").unwrap();
    assert_eq!(suffix.as_bytes(), Domain::from_ascii_str("example.com").unwrap().as_bytes());
    assert_eq!(prefix.len(), 1);
    assert!(matches!(&prefix[0], LabelPattern::AnyLabel));
}

#[test]
fn pattern_all_glob_is_root_suffix() {
    let (suffix, prefix) = parse_domain_pattern("*-a.*-b").unwrap();
    assert_eq!(suffix.as_bytes(), Domain::root().as_bytes());
    assert_eq!(prefix.len(), 2);
}

#[test]
fn single_char_question_mark() {
    let (_suffix, prefix) = parse_domain_pattern("app-?.example.com").unwrap();
    assert_eq!(prefix.len(), 1);
    assert!(matches!(&prefix[0], LabelPattern::Glob(_)));
    let pat_bytes: &[u8] = match &prefix[0] {
        LabelPattern::Glob(b) => b.as_ref(),
        _ => panic!(),
    };
    assert_eq!(pat_bytes, b"app-?");
}

#[test]
fn match_exact_literal_subdomain() {
    assert!(glob_matches("example.com", "example.com"));
    assert!(glob_matches("example.com", "sub.example.com"));
}

#[test]
fn match_single_wildcard_label() {
    assert!(glob_matches("*.example.com", "foo.example.com"));
    assert!(glob_matches("*.example.com", "bar.example.com"));
    assert!(glob_matches("*.example.com", "sub.foo.example.com"));
}

#[test]
fn reject_wildcard_too_few_labels() {
    assert!(!glob_matches("*.*.example.com", "foo.example.com"));
}

#[test]
fn match_two_wildcard_labels() {
    assert!(glob_matches("*.*.example.com", "foo.bar.example.com"));
    assert!(glob_matches("*.*.example.com", "a.b.c.example.com"));
}

#[test]
fn match_with_literal_labels_mixed() {
    assert!(glob_matches("prefix-*-suffix.example.com", "prefix-123-suffix.example.com"));
    assert!(glob_matches("prefix-*-suffix.example.com", "prefix-hello-suffix.example.com"));
    assert!(!glob_matches("prefix-*-suffix.example.com", "other-123-suffix.example.com"));
    assert!(glob_matches("prefix-*-suffix.example.com", "prefix-abc-def-suffix.example.com"));
}

#[test]
fn match_question_mark() {
    assert!(glob_matches("app-?.example.com", "app-1.example.com"));
    assert!(glob_matches("app-?.example.com", "app-x.example.com"));
    assert!(!glob_matches("app-?.example.com", "app-12.example.com"));
    assert!(!glob_matches("app-?.example.com", "app-.example.com"));
}

#[test]
fn match_user_example() {
    assert!(glob_matches(
        "chatgpt-async-webps-prod-*-*.webpubsub.azure.com",
        "chatgpt-async-webps-prod-someid-123.webpubsub.azure.com"
    ));
    assert!(!glob_matches(
        "chatgpt-async-webps-prod-*-*.webpubsub.azure.com",
        "other-prefix-someid-123.webpubsub.azure.com"
    ));
}

#[test]
fn mixed_literal_and_wildcard() {
    assert!(glob_matches("a.*.c.example.com", "a.foo.c.example.com"));
    assert!(glob_matches("a.*.c.example.com", "a.bar.c.example.com"));
    assert!(glob_matches("a.*.c.example.com", "x.a.foo.c.example.com"));
    assert!(!glob_matches("a.*.c.example.com", "x.y.z.example.com"));
}

#[test]
fn glob_match_unit() {
    assert!(glob_match(b"*-*", b"someid-123"));
    assert!(glob_match(b"prefix-*-suffix", b"prefix-hello-suffix"));
    assert!(!glob_match(b"prefix-*-suffix", b"other-hello-suffix"));
    assert!(glob_match(b"*-a", b"foo-a"));
    assert!(!glob_match(b"*-a", b"foo-b"));
    assert!(glob_match(b"?at", b"cat"));
    assert!(!glob_match(b"?at", b"at"));
    assert!(glob_match(b"*", b""));
    assert!(glob_match(b"*", b"anything"));
    assert!(glob_match(b"a*b", b"ab"));
    assert!(glob_match(b"a*b", b"axxxxb"));
    assert!(!glob_match(b"a*b", b"ac"));
    assert!(glob_match(b"a?b", b"axb"));
    assert!(!glob_match(b"a?b", b"ab"));
    assert!(!glob_match(b"a?b", b"axxb"));
}

#[test]
fn case_insensitive() {
    assert!(glob_matches("Foo*.example.COM", "foo123.example.com"));
    assert!(glob_matches("a.?b.Example.Com", "a.cB.example.com"));
}

#[test]
fn root_suffix_wildcard() {
    assert!(glob_matches("*", "foo.com"));
    assert!(glob_matches("*", "example.com"));
    assert!(glob_matches("*", "com"));
}

#[test]
fn longest_label_is_matched() {
    let label = [b'a'; 63];
    assert!(glob_match(b"*", &label));
    assert!(glob_match(b"a*a", &label));
    assert!(!glob_match(b"*b", &label));
    assert!(!glob_match(b"", b"a"));
    assert!(glob_match(b"", b""));
}

#[test]
fn labels_become_patterns() {
    assert!(matches!(parse_label("*"), LabelPattern::AnyLabel));
    assert!(matches!(parse_label("**"), LabelPattern::Glob(g) if g == b"**"));
    assert!(matches!(parse_label("WWW"), LabelPattern::Literal(l) if l == b"www"));
    assert!(label_matches(&parse_label("WWW"), b"www"));
    assert!(!label_matches(&parse_label("WWW"), b"ww"));
    assert!(label_matches(&parse_label("*"), b""));
}

#[test]
fn pattern_under_no_domain_is_refused() {
    assert!(parse_domain_pattern("*.exa mple.com").is_none());
    assert!(parse_domain_pattern("*..com").is_none());
    let (suffix, prefix) = parse_domain_pattern("*.Example.com.").unwrap();
    assert_eq!(suffix.as_bytes(), b"\x07example\x03com\x00");
    assert_eq!(prefix.len(), 1);
}

#[test]
fn domains_are_read_in_lower_case() {
    let domain = Domain::from_ascii_str("WWW.Example.com.").unwrap();
    assert_eq!(domain.as_bytes(), b"\x03www\x07example\x03com\x00");
    assert_eq!(domain.depth(), 3);
    assert_eq!(fqdn_labels(&domain), vec![&b"www"[..], &b"example"[..], &b"com"[..]]);
    assert_eq!(Domain::from_ascii_str("").unwrap().as_bytes(), b"\x00");
    assert_eq!(Domain::from_ascii_str(".").unwrap().depth(), 0);
    assert!(Domain::from_ascii_str("a..b").is_none());
    assert!(Domain::from_ascii_str("..").is_none());
    assert!(Domain::from_ascii_str("a b").is_none());
    assert!(Domain::from_ascii_str("a_b.c#d.e-f").is_some());
    assert!(Domain::from_ascii_str(&"a".repeat(255)).is_some());
    assert!(Domain::from_ascii_str(&"a".repeat(256)).is_none());
}

#[test]
fn nothing_is_said_of_a_domain_by_default() {
    let value = RuleValue::default();
    assert!(value.exact.is_none());
    assert!(value.globs.is_empty());
}
