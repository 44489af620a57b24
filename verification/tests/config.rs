use std::collections::BTreeMap;
use std::path::{Component, Path, PathBuf};

use weirdns::addr::{IpAddr, SocketAddr};
use weirdns::config::{
    parse_addr, parse_addrs, AddrText, Cli, Config, ConfigBody, ConfigError, OneOrMany, ParsedConfigFile, ParsedRule,
    Rule, RuleSource,
};
use weirdns::files::{expand_glob, matching_files, resolve_include_paths, Expansion, FilePath, Found};
use weirdns::loader::{read_config, Progress};

fn file_path(path: &Path) -> FilePath {
    let parts = path
        .components()
        .map(|part| match part {
            Component::Prefix(prefix) => [&[0], prefix.as_os_str().as_encoded_bytes()].concat(),
            Component::RootDir => vec![1],
            Component::CurDir => vec![2],
            Component::ParentDir => vec![3],
            Component::Normal(name) => [&[4], name.as_encoded_bytes()].concat(),
        })
        .collect();
    FilePath { octets: path.as_os_str().as_encoded_bytes().to_vec(), parts }
}

fn text_of(path: &FilePath) -> String {
    String::from_utf8(path.octets.clone()).unwrap()
}

/// An IPv4 address with or without a port.
fn address(text: &str) -> AddrText {
    let (ip, port) = match text.split_once(':') {
        Some((ip, port)) => (ip, port.parse::<u16>().ok()),
        None => (text, None),
    };
    let octets: Vec<u32> = ip.split('.').filter_map(|part| part.parse::<u8>().ok()).map(u32::from).collect();
    let ip = if octets.len() == 4 {
        Some(IpAddr::V4(octets[0] << 24 | octets[1] << 16 | octets[2] << 8 | octets[3]))
    } else {
        None
    };
    match (ip, port) {
        (Some(ip), Some(port)) => {
            AddrText { text: text.to_string(), socket: Some(SocketAddr::new(ip, port)), ip: None }
        }
        (ip, _) => AddrText { text: text.to_string(), socket: None, ip },
    }
}

fn socket(text: &str) -> SocketAddr {
    parse_addrs(&vec![address(text)]).unwrap()[0]
}

fn one_or_many(value: &toml::Value) -> Vec<String> {
    let values = match value {
        toml::Value::Array(values) => OneOrMany::Many(values.iter().map(|v| v.as_str().unwrap().to_string()).collect()),
        other => OneOrMany::One(other.as_str().unwrap().to_string()),
    };
    values.into_vec()
}

fn addresses(value: &toml::Value) -> Result<Vec<SocketAddr>, String> {
    parse_addrs(&one_or_many(value).iter().map(|text| address(text)).collect())
}

fn parsed_rule(value: &toml::Value) -> Result<ParsedRule, String> {
    let table = value.as_table().ok_or("not a table")?;
    let mut rule = ParsedRule {
        file: None,
        domains: None,
        upstream: None,
        dns64_prefix: None,
        dns64_force_synth: false,
        strip_a: false,
    };
    for (key, value) in table {
        match key.as_str() {
            "include" => rule.file = Some(file_path(Path::new(value.as_str().unwrap()))),
            "domains" => rule.domains = Some(one_or_many(value)),
            "upstream" => rule.upstream = Some(addresses(value)?),
            "strip_a" => rule.strip_a = value.as_bool().unwrap(),
            other => return Err(format!("unknown field {other}")),
        }
    }
    Ok(rule)
}

fn parsed_config(text: &str) -> Result<ParsedConfigFile, String> {
    let table: toml::Table = text.parse().map_err(|_| "bad toml".to_string())?;
    let mut parsed = ParsedConfigFile {
        body: ConfigBody { listen: None, default_upstream: None, log: false },
        rules: vec![],
        instances: vec![],
    };
    for (key, value) in &table {
        match key.as_str() {
            "listen" => parsed.body.listen = Some(addresses(value)?),
            "default_upstream" => parsed.body.default_upstream = Some(addresses(value)?),
            "log" => parsed.body.log = value.as_bool().unwrap(),
            "rule" => {
                for rule in value.as_array().unwrap() {
                    parsed.rules.push(parsed_rule(rule)?);
                }
            }
            "instance" => {
                for instance in value.as_array().unwrap() {
                    let named = instance.get("include").unwrap().as_str().unwrap();
                    parsed.instances.push(file_path(Path::new(named)));
                }
            }
            other => return Err(format!("unknown field {other}")),
        }
    }
    Ok(parsed)
}

fn rule_file(text: &str) -> Result<Vec<Rule>, String> {
    let table: toml::Table = text.parse().map_err(|_| "bad toml".to_string())?;
    let mut rules = vec![];
    for (key, value) in &table {
        if key != "rule" {
            return Err(format!("unknown field {key}"));
        }
        for rule in value.as_array().unwrap() {
            if rule.get("include").is_some() {
                return Err("unknown field".to_string());
            }
            match RuleSource::try_from(parsed_rule(rule)?) {
                Ok(RuleSource::Inline(rule)) => rules.push(rule),
                other => return Err(format!("{other:?}")),
            }
        }
    }
    Ok(rules)
}

/// A file system in memory.
struct Files(BTreeMap<PathBuf, &'static str>);

impl Files {
    fn new(files: &[(&str, &'static str)]) -> Files {
        Files(files.iter().map(|(path, text)| (Path::new("/root").join(path), *text)).collect())
    }

    fn text(&self, path: &FilePath) -> Result<&'static str, String> {
        self.0.get(Path::new(&text_of(path))).copied().ok_or(format!("cannot open {}", text_of(path)))
    }

    fn find(&self, source: &FilePath, named: &FilePath) -> Result<Vec<FilePath>, String> {
        let absolute = Path::new(&text_of(named)).is_absolute();
        let joined = Path::new(&text_of(source)).parent().unwrap_or(Path::new(".")).join(text_of(named));
        let text = if absolute { text_of(named) } else { joined.to_str().unwrap().to_string() };
        match resolve_include_paths(named.clone(), absolute, file_path(&joined), Some(&text), b'/') {
            Err(error) => Err(error.message().to_string()),
            Ok(Expansion::One(path)) => Ok(vec![path]),
            Ok(Expansion::Search { prefix, suffix, in_prefix }) => {
                let dir = if in_prefix {
                    PathBuf::from(&prefix)
                } else {
                    Path::new(&prefix).parent().map(Path::to_path_buf).unwrap_or(PathBuf::from("."))
                };
                let inside: Vec<Found> = self
                    .0
                    .keys()
                    .rev()
                    .filter(|path| path.parent() == Some(&dir))
                    .map(|path| Found { path: file_path(path), text: path.to_str().map(str::to_string) })
                    .collect();
                let listing = if inside.is_empty() { None } else { Some(inside) };
                Ok(matching_files(listing, &prefix, &suffix))
            }
        }
    }

    fn read(&self, verbose: bool) -> Result<Vec<Config>, String> {
        let mut progress = read_config(&Cli { config: file_path(Path::new("/root/main.toml")), verbose });
        loop {
            progress = match progress {
                Progress::ReadConfig { path, loader } => {
                    let parsed = parsed_config(self.text(&path)?)
                        .map_err(|error| format!("parse error in {}: {error}", text_of(&path)))?;
                    let loaded = parsed.into_loaded().map_err(|error| error.message().to_string())?;
                    loader.config_read(path, loaded)
                }
                Progress::FindConfigs { source, named, loader } => loader.configs_found(self.find(&source, &named)?),
                Progress::FindRules { source, named, collecting } => {
                    collecting.rules_found(self.find(&source, &named)?)
                }
                Progress::ReadRules { path, collecting } => {
                    let rules = rule_file(self.text(&path)?)
                        .map_err(|error| format!("parse error in {}: {error}", text_of(&path)))?;
                    collecting.rules_read(rules)
                }
                Progress::Done(configs) => return Ok(configs),
                Progress::Fail(error) => return Err(error.message().to_string()),
            };
        }
    }
}

fn domains(config: &Config) -> Vec<&str> {
    config.rules.iter().map(|rule| rule.domains[0].as_str()).collect()
}

#[test]
fn resolves_instance_includes_relative_to_parent_config() {
    let files = Files::new(&[
        (
            "main.toml",
            "listen = \"127.0.0.1:5300\"\ndefault_upstream = \"1.1.1.1\"\n\n[[instance]]\ninclude = \"instances/child.toml\"\n",
        ),
        ("instances/child.toml", "listen = \"127.0.0.1:5301\"\ndefault_upstream = \"1.0.0.1\"\n"),
    ]);
    let configs = files.read(false).unwrap();
    assert_eq!(configs.len(), 2);
    assert_eq!(configs[0].listen[0], socket("127.0.0.1:5300"));
    assert_eq!(configs[1].listen[0], socket("127.0.0.1:5301"));
}

#[test]
fn deserializes_single_upstream_value() {
    let parsed = parsed_config(
        "listen = \"127.0.0.1\"\ndefault_upstream = \"1.1.1.1\"\n\n[[rule]]\ndomains = \"example.com\"\nupstream = \"8.8.8.8\"\n",
    )
    .unwrap();
    let loaded = parsed.into_loaded().unwrap().config.unwrap();
    assert_eq!(loaded.config.listen[0], socket("127.0.0.1:53"));
    assert_eq!(loaded.config.default_upstream[0], socket("1.1.1.1:53"));
    match &loaded.rules[0] {
        RuleSource::Inline(rule) => assert_eq!(rule.upstream.as_ref().unwrap()[0], socket("8.8.8.8:53")),
        other => panic!("{other:?}"),
    }
}

#[test]
fn expands_rule_include_file_with_multiple_rules() {
    let files = Files::new(&[
        (
            "main.toml",
            "listen = \"127.0.0.1:5300\"\ndefault_upstream = \"1.1.1.1\"\n\n[[rule]]\ndomains = \"local.example\"\n\n[[rule]]\ninclude = \"rules.toml\"\n",
        ),
        ("rules.toml", "[[rule]]\ndomains = \"example.com\"\n\n[[rule]]\ndomains = \"example.org\"\n"),
    ]);
    let configs = files.read(false).unwrap();
    assert_eq!(domains(&configs[0]), vec!["local.example", "example.com", "example.org"]);
}

#[test]
fn resolves_rule_includes_relative_to_parent_config() {
    let files = Files::new(&[
        (
            "main.toml",
            "listen = \"127.0.0.1:5300\"\ndefault_upstream = \"1.1.1.1\"\n\n[[rule]]\ninclude = \"rules/child.toml\"\n",
        ),
        ("rules/child.toml", "[[rule]]\ndomains = \"example.com\"\n"),
    ]);
    let configs = files.read(false).unwrap();
    assert_eq!(configs[0].rules[0].domains[0], "example.com");
}

#[test]
fn preserves_inline_rule_include_order() {
    let files = Files::new(&[
        (
            "main.toml",
            "listen = \"127.0.0.1:5300\"\ndefault_upstream = \"1.1.1.1\"\n\n[[rule]]\ndomains = \"before.example\"\n\n[[rule]]\ninclude = \"include.toml\"\n\n[[rule]]\ndomains = \"after.example\"\n",
        ),
        ("include.toml", "[[rule]]\ndomains = \"middle.example\"\n"),
    ]);
    let configs = files.read(false).unwrap();
    assert_eq!(domains(&configs[0]), vec!["before.example", "middle.example", "after.example"]);
}

#[test]
fn rejects_mixed_rule_include_and_inline_fields() {
    let result = parsed_config(
        "listen = \"127.0.0.1:5300\"\ndefault_upstream = \"1.1.1.1\"\n\n[[rule]]\ninclude = \"rules.toml\"\ndomains = \"example.com\"\n",
    )
    .unwrap()
    .into_loaded();

    let err = match result {
        Ok(_) => panic!("expected mixed rule include to fail"),
        Err(err) => err,
    };

    assert!(err.message().contains("rule include cannot be combined"));
}

#[test]
fn rejects_non_rule_content_in_rule_include_file() {
    let files = Files::new(&[
        (
            "main.toml",
            "listen = \"127.0.0.1:5300\"\ndefault_upstream = \"1.1.1.1\"\n\n[[rule]]\ninclude = \"include.toml\"\n",
        ),
        ("include.toml", "listen = \"127.0.0.1:5301\"\n"),
    ]);
    let err = match files.read(false) {
        Ok(_) => panic!("expected invalid rule include file to fail"),
        Err(err) => err,
    };
    assert!(err.to_string().contains("parse error in"));
}

#[test]
fn rejects_nested_rule_includes_in_rule_files() {
    let files = Files::new(&[
        (
            "main.toml",
            "listen = \"127.0.0.1:5300\"\ndefault_upstream = \"1.1.1.1\"\n\n[[rule]]\ninclude = \"a.toml\"\n",
        ),
        ("a.toml", "[[rule]]\ninclude = \"b.toml\"\n"),
        ("b.toml", "[[rule]]\ninclude = \"a.toml\"\n"),
    ]);
    let err = match files.read(false) {
        Ok(_) => panic!("expected nested rule include to fail"),
        Err(err) => err,
    };
    assert!(err.to_string().contains("parse error in"));
}

#[test]
fn expands_instance_include_glob_in_lexicographic_order() {
    let files = Files::new(&[
        ("main.toml", "[[instance]]\ninclude = \"instances/*.toml\"\n"),
        ("instances/b.toml", "listen = \"127.0.0.1:5302\"\ndefault_upstream = \"1.0.0.2\"\n"),
        ("instances/a.toml", "listen = \"127.0.0.1:5301\"\ndefault_upstream = \"1.0.0.1\"\n"),
    ]);
    let configs = files.read(false).unwrap();
    assert_eq!(configs.len(), 2);
    assert_eq!(configs[0].listen[0], socket("127.0.0.1:5301"));
    assert_eq!(configs[1].listen[0], socket("127.0.0.1:5302"));
}

#[test]
fn expands_rule_include_glob_in_lexicographic_order() {
    let files = Files::new(&[
        (
            "main.toml",
            "listen = \"127.0.0.1:5300\"\ndefault_upstream = \"1.1.1.1\"\n\n[[rule]]\ninclude = \"rules/*.toml\"\n",
        ),
        ("rules/20.toml", "[[rule]]\ndomains = \"b.example\"\n"),
        ("rules/10.toml", "[[rule]]\ndomains = \"a.example\"\n"),
    ]);
    let configs = files.read(false).unwrap();
    assert_eq!(domains(&configs[0]), vec!["a.example", "b.example"]);
}

#[test]
fn ignores_unmatched_include_globs() {
    let files = Files::new(&[(
        "main.toml",
        "listen = \"127.0.0.1:5300\"\ndefault_upstream = \"1.1.1.1\"\n\n[[rule]]\ninclude = \"rules/*.toml\"\n\n[[instance]]\ninclude = \"instances/*.toml\"\n",
    )]);
    let configs = files.read(false).unwrap();
    assert_eq!(configs.len(), 1);
    assert!(configs[0].rules.is_empty());
}

#[test]
fn rejects_include_patterns_with_multiple_stars() {
    let files = Files::new(&[(
        "main.toml",
        "listen = \"127.0.0.1:5300\"\ndefault_upstream = \"1.1.1.1\"\n\n[[rule]]\ninclude = \"rules/*/*.toml\"\n",
    )]);
    let err = match files.read(false) {
        Ok(_) => panic!("expected multi-star include to fail"),
        Err(err) => err,
    };
    assert!(err.to_string().contains("at most one '*'"));
}

#[test]
fn configurations_are_read_once_and_depth_first() {
    let files = Files::new(&[
        ("main.toml", "[[instance]]\ninclude = \"a.toml\"\n\n[[instance]]\ninclude = \"./c.toml\"\n\n[[instance]]\ninclude = \"main.toml\"\n"),
        ("a.toml", "listen = \"0.0.0.1\"\ndefault_upstream = \"1.1.1.1\"\n\n[[instance]]\ninclude = \"b.toml\"\n"),
        ("b.toml", "listen = \"0.0.0.2\"\ndefault_upstream = \"1.1.1.1\"\n\n[[instance]]\ninclude = \"c.toml\"\n"),
        ("c.toml", "listen = \"0.0.0.3\"\ndefault_upstream = \"1.1.1.1\"\nlog = true\n"),
    ]);
    let configs = files.read(false).unwrap();
    let listen: Vec<SocketAddr> = configs.iter().map(|config| config.listen[0]).collect();
    assert_eq!(listen, vec![socket("0.0.0.1:53"), socket("0.0.0.2:53"), socket("0.0.0.3:53")]);
    assert_eq!(configs.iter().map(|config| config.log).collect::<Vec<_>>(), vec![false, false, true]);
    assert!(files.read(true).unwrap().iter().all(|config| config.log));
}

#[test]
fn incomplete_configurations_are_refused() {
    let error = |text: &str| parsed_config(text).unwrap().into_loaded().unwrap_err();
    assert!(matches!(error("default_upstream = \"1.1.1.1\"\n"), ConfigError::MissingListen));
    assert!(matches!(error("log = true\n"), ConfigError::MissingListen));
    assert!(matches!(error("listen = \"1.1.1.1\"\n"), ConfigError::MissingDefaultUpstream));
    let no_domains = error("listen = \"1.1.1.1\"\ndefault_upstream = \"1.1.1.1\"\n[[rule]]\nstrip_a = true\n");
    assert!(matches!(no_domains, ConfigError::MissingDomains));
    assert_eq!(no_domains.message(), "rule is missing domains");
    let empty = parsed_config("").unwrap().into_loaded().unwrap();
    assert!(empty.config.is_none());
    assert!(empty.instances.is_empty());
}

#[test]
fn addresses_are_read_with_and_without_a_port() {
    let ip = IpAddr::V6(1);
    assert_eq!(parse_addr("::1", None, Some(ip)), Ok(SocketAddr::new(ip, 53)));
    let with_port = SocketAddr { ip, port: 99, flowinfo: 0, scope_id: 3 };
    assert_eq!(parse_addr("[::1%3]:99", Some(with_port), None), Ok(with_port));
    assert_eq!(parse_addr("nonsense", None, None), Err("expected IP or socket address, got: nonsense".to_string()));
    let texts = vec![address("1.2.3.4"), address("x"), address("y")];
    assert_eq!(parse_addrs(&texts), Err("expected IP or socket address, got: x".to_string()));
    assert_eq!(parse_addrs(&vec![]), Ok(vec![]));
}

#[test]
fn paths_are_compared_part_by_part() {
    let a = file_path(Path::new("/x/./y//z"));
    let b = file_path(Path::new("/x/y/z"));
    assert!(a.same(&b));
    assert!(!a.same(&file_path(Path::new("/x/y"))));
    assert!(!a.same(&file_path(Path::new("x/y/z"))));
    assert_eq!(a.clone().octets, b"/x/./y//z");
}

#[test]
fn star_is_expanded_in_its_directory() {
    let path = |text: &str| file_path(Path::new(text));
    assert!(matches!(expand_glob(path("/a/b"), Some("/a/b"), b'/'), Ok(Expansion::One(p)) if p.octets == b"/a/b"));
    match expand_glob(path("/a/*.toml"), Some("/a/*.toml"), b'/').unwrap() {
        Expansion::Search { prefix, suffix, in_prefix } => {
            assert_eq!((prefix.as_str(), suffix.as_str(), in_prefix), ("/a/", ".toml", true));
        }
        other => panic!("{other:?}"),
    }
    match expand_glob(path("/a/x*"), Some("/a/x*"), b'/').unwrap() {
        Expansion::Search { prefix, suffix, in_prefix } => {
            assert_eq!((prefix.as_str(), suffix.as_str(), in_prefix), ("/a/x", "", false));
        }
        other => panic!("{other:?}"),
    }
    let odd = FilePath { octets: b"\xff*".to_vec(), parts: vec![] };
    assert!(matches!(expand_glob(odd, None, b'/'), Err(ConfigError::NotText(_))));
    assert!(matches!(expand_glob(path("**"), Some("**"), b'/'), Err(ConfigError::TooManyStars(_))));
}

#[test]
fn only_fitting_files_are_taken() {
    let found = |text: &str| Found { path: file_path(Path::new(text)), text: Some(text.to_string()) };
    let mut files = vec![found("d/b.toml"), found("d/a.txt"), found("d/a.toml"), found("d/.toml")];
    files.push(Found { path: FilePath { octets: b"d/\xff.toml".to_vec(), parts: vec![] }, text: None });
    let taken: Vec<String> = matching_files(Some(files), "d/", ".toml").iter().map(text_of).collect();
    assert_eq!(taken, vec!["d/.toml", "d/a.toml", "d/b.toml"]);
    assert!(matching_files(None, "d/", ".toml").is_empty());
}

#[test]
fn file_of_rules_that_leads_to_itself_is_refused() {
    let cli = Cli { config: file_path(Path::new("/root/main.toml")), verbose: false };
    let loaded = parsed_config("listen = \"1.1.1.1\"\ndefault_upstream = \"1.1.1.1\"\n[[rule]]\ninclude = \"a.toml\"\n")
        .unwrap()
        .into_loaded()
        .unwrap();
    let Progress::ReadConfig { path, loader } = read_config(&cli) else { panic!("reads the configuration first") };
    let Progress::FindRules { named, collecting, .. } = loader.config_read(path, loaded) else { panic!("finds rules") };
    let Progress::ReadRules { path, collecting } = collecting.rules_found(vec![named]) else { panic!("reads rules") };
    assert_eq!(text_of(&path), "a.toml");
    let again = collecting.rules_found(vec![path]);
    assert!(matches!(again, Progress::Fail(ConfigError::RuleCycle(path)) if path.octets == b"a.toml"));
}
