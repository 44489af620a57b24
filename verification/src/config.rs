//! What the forwarder is told to do.

use vstd::prelude::*;
use vstd::string::*;
use crate::addr::{IpAddr, SocketAddr};
use crate::files::FilePath;

verus! {

/// What holds for some domains.
#[derive(Debug)]
pub struct Rule {
    /// The domains, or patterns of domains.
    pub domains: Vec<String>,
    /// The servers to ask, where they are others than the default ones.
    pub upstream: Option<Vec<SocketAddr>>,
    /// The prefix of synthesized addresses, as the number that its octets write. Its low 32 bits
    /// do not count.
    pub dns64_prefix: Option<u128>,
    /// Whether to synthesize even where there are real IPv6 addresses.
    pub dns64_force_synth: bool,
    /// Whether to leave IPv4 addresses out of answers.
    pub strip_a: bool,
}

/// One instance of the forwarder.
#[derive(Debug)]
pub struct Config {
    pub listen: Vec<SocketAddr>,
    pub default_upstream: Vec<SocketAddr>,
    pub rules: Vec<Rule>,
    /// Whether to log every request.
    pub log: bool,
}

/// What is wrong with a configuration.
#[derive(Debug)]
pub enum ConfigError {
    /// It says nowhere where to listen.
    MissingListen,
    /// It names no default servers.
    MissingDefaultUpstream,
    /// A rule names no domains.
    MissingDomains,
    /// A rule names a file of rules, and holds something else.
    MixedRule,
    /// The path of a file to read holds more than one `*`.
    TooManyStars(FilePath),
    /// The path of files to read is no text.
    NotText(FilePath),
    /// A file of rules leads to itself.
    RuleCycle(FilePath),
}

impl ConfigError {
    /// What is wrong, in words.
    pub open spec fn words(self) -> Seq<char> {
        match self {
            ConfigError::MissingListen => "missing listen"@,
            ConfigError::MissingDefaultUpstream => "missing default_upstream"@,
            ConfigError::MissingDomains => "rule is missing domains"@,
            ConfigError::MixedRule => "rule include cannot be combined with other rule fields"@,
            ConfigError::TooManyStars(_) => "include pattern must contain at most one '*'"@,
            ConfigError::NotText(_) => "include path is not valid UTF-8"@,
            ConfigError::RuleCycle(_) => "rule include cycle detected"@,
        }
    }

    /// What is wrong, in words.
    pub fn message(&self) -> (r: &'static str)
        ensures
            r@ == self.words(),
    {
        match self {
            ConfigError::MissingListen => "missing listen",
            ConfigError::MissingDefaultUpstream => "missing default_upstream",
            ConfigError::MissingDomains => "rule is missing domains",
            ConfigError::MixedRule => "rule include cannot be combined with other rule fields",
            ConfigError::TooManyStars(_) => "include pattern must contain at most one '*'",
            ConfigError::NotText(_) => "include path is not valid UTF-8",
            ConfigError::RuleCycle(_) => "rule include cycle detected",
        }
    }
}

/// Port of a server that is given without one.
pub const DNS_PORT: u16 = 53;

/// The address that text writes, given what it is as an address with a port and as one without.
pub fn parse_addr(text: &str, socket: Option<SocketAddr>, ip: Option<IpAddr>) -> (r: Result<SocketAddr, String>)
    ensures
        match (socket, ip) {
            (Some(addr), _) => r == Ok::<SocketAddr, String>(addr),
            (None, Some(ip)) => r == Ok::<SocketAddr, String>(SocketAddr::spec_new(ip, DNS_PORT)),
            (None, None) => r matches Err(error) && error@ == "expected IP or socket address, got: "@ + text@,
        },
{
    if let Some(addr) = socket {
        return Ok(addr);
    }
    match ip {
        Some(ip) => Ok(SocketAddr::new(ip, DNS_PORT)),
        None => {
            let mut error: String = String::from_str("expected IP or socket address, got: ");
            error.append(text);
            Err(error)
        },
    }
}

/// Text that should write an address, with what it is as an address with a port and without.
#[derive(Debug)]
pub struct AddrText {
    pub text: String,
    pub socket: Option<SocketAddr>,
    pub ip: Option<IpAddr>,
}

impl AddrText {
    /// The address, where there is one.
    pub open spec fn addr(self) -> Option<SocketAddr> {
        match (self.socket, self.ip) {
            (Some(addr), _) => Some(addr),
            (None, Some(ip)) => Some(SocketAddr::spec_new(ip, DNS_PORT)),
            (None, None) => None,
        }
    }
}

/// The addresses that some text writes, or what is wrong with the first that writes none.
pub fn parse_addrs(texts: &Vec<AddrText>) -> (r: Result<Vec<SocketAddr>, String>)
    ensures
        r is Ok <==> forall|i: int| 0 <= i < texts@.len() ==> (#[trigger] texts@[i]).addr() is Some,
        r matches Ok(addrs) ==> addrs@ == Seq::new(texts@.len(), |i: int| texts@[i].addr()->0),
        r matches Err(error) ==> exists|i: int|
            0 <= i < texts@.len() && (#[trigger] texts@[i]).addr() is None && error@
                == "expected IP or socket address, got: "@ + texts@[i].text@ && forall|j: int|
                0 <= j < i ==> (#[trigger] texts@[j]).addr() is Some,
{
    let mut addrs: Vec<SocketAddr> = Vec::new();
    let mut i: usize = 0;
    while i < texts.len()
        invariant
            0 <= i <= texts@.len(),
            forall|j: int| 0 <= j < i ==> (#[trigger] texts@[j]).addr() is Some,
            addrs@ == Seq::new(i as nat, |j: int| texts@[j].addr()->0),
        decreases texts@.len() - i,
    {
        let text: &AddrText = &texts[i];
        match parse_addr(text.text.as_str(), text.socket, text.ip) {
            Ok(addr) => addrs.push(addr),
            Err(error) => {
                assert(texts@[i as int].addr() is None);
                return Err(error);
            },
        }
        i = i + 1;
        assert(addrs@ =~= Seq::new(i as nat, |j: int| texts@[j].addr()->0));
    }
    Ok(addrs)
}

/// A value, or a list of values.
#[derive(Debug)]
pub enum OneOrMany<T> {
    One(T),
    Many(Vec<T>),
}

impl<T> OneOrMany<T> {
    /// The values.
    pub fn into_vec(self) -> (r: Vec<T>)
        ensures
            r@ == match self {
                OneOrMany::One(value) => seq![value],
                OneOrMany::Many(values) => values@,
            },
    {
        match self {
            OneOrMany::One(value) => {
                let mut values: Vec<T> = Vec::new();
                values.push(value);
                values
            },
            OneOrMany::Many(values) => values,
        }
    }
}

/// What the program is called with.
#[derive(Debug)]
pub struct Cli {
    /// The path of the configuration.
    pub config: FilePath,
    /// Whether to log every request.
    pub verbose: bool,
}

/// What a configuration says of an instance, but for its rules.
#[derive(Debug)]
pub struct ConfigBody {
    pub listen: Option<Vec<SocketAddr>>,
    pub default_upstream: Option<Vec<SocketAddr>>,
    pub log: bool,
}

impl ConfigBody {
    /// Whether it says anything.
    pub open spec fn says_anything(self) -> bool {
        self.listen is Some || self.default_upstream is Some || self.log
    }

    /// Whether it says anything.
    pub fn has_values(&self) -> (r: bool)
        ensures
            r == self.says_anything(),
    {
        self.listen.is_some() || self.default_upstream.is_some() || self.log
    }

    /// The instance, without rules.
    pub fn into_config(self) -> (r: Result<Config, ConfigError>)
        ensures
            match (self.listen, self.default_upstream) {
                (Some(listen), Some(default_upstream)) => r matches Ok(config) && config.listen == listen
                    && config.default_upstream == default_upstream && config.rules@.len() == 0 && config.log
                    == self.log,
                (None, _) => r == Err::<Config, ConfigError>(ConfigError::MissingListen),
                (Some(_), None) => r == Err::<Config, ConfigError>(ConfigError::MissingDefaultUpstream),
            },
    {
        let listen: Vec<SocketAddr> = match self.listen {
            Some(listen) => listen,
            None => return Err(ConfigError::MissingListen),
        };
        let default_upstream: Vec<SocketAddr> = match self.default_upstream {
            Some(default_upstream) => default_upstream,
            None => return Err(ConfigError::MissingDefaultUpstream),
        };
        Ok(Config { listen, default_upstream, rules: Vec::new(), log: self.log })
    }
}

/// A rule as a configuration holds it: one of its own, or a file with rules.
#[derive(Debug)]
pub struct ParsedRule {
    pub file: Option<FilePath>,
    pub domains: Option<Vec<String>>,
    pub upstream: Option<Vec<SocketAddr>>,
    pub dns64_prefix: Option<u128>,
    pub dns64_force_synth: bool,
    pub strip_a: bool,
}

/// Where rules come from.
#[derive(Debug)]
pub enum RuleSource {
    /// This rule.
    Inline(Rule),
    /// The files that this path stands for.
    File(FilePath),
}

impl ParsedRule {
    /// Whether it holds anything but a file with rules.
    pub open spec fn holds_rule(self) -> bool {
        self.domains is Some || self.upstream is Some || self.dns64_prefix is Some || self.dns64_force_synth
            || self.strip_a
    }

    /// Where the rules come from: not from both, and not from nowhere.
    pub open spec fn source(self) -> Result<RuleSource, ConfigError> {
        match (self.file, self.domains) {
            (Some(file), _) => if self.holds_rule() {
                Err(ConfigError::MixedRule)
            } else {
                Ok(RuleSource::File(file))
            },
            (None, Some(domains)) => Ok(
                RuleSource::Inline(
                    Rule {
                        domains,
                        upstream: self.upstream,
                        dns64_prefix: self.dns64_prefix,
                        dns64_force_synth: self.dns64_force_synth,
                        strip_a: self.strip_a,
                    },
                ),
            ),
            (None, None) => Err(ConfigError::MissingDomains),
        }
    }
}

impl RuleSource {
    /// Where the rules of an entry come from.
    pub fn try_from(value: ParsedRule) -> (r: Result<RuleSource, ConfigError>)
        ensures
            r == value.source(),
            value.file is None && value.domains is Some ==> {
                &&& r matches Ok(RuleSource::Inline(rule))
                &&& value.domains == Some(rule.domains)
                &&& rule.upstream == value.upstream
                &&& rule.dns64_prefix == value.dns64_prefix
                &&& rule.dns64_force_synth == value.dns64_force_synth
                &&& rule.strip_a == value.strip_a
            },
    {
        let ParsedRule { file, domains, upstream, dns64_prefix, dns64_force_synth, strip_a } = value;
        if let Some(file) = file {
            if domains.is_some() || upstream.is_some() || dns64_prefix.is_some() || dns64_force_synth || strip_a {
                return Err(ConfigError::MixedRule);
            }
            return Ok(RuleSource::File(file));
        }
        match domains {
            Some(domains) => Ok(
                RuleSource::Inline(Rule { domains, upstream, dns64_prefix, dns64_force_synth, strip_a }),
            ),
            None => Err(ConfigError::MissingDomains),
        }
    }
}

/// A configuration file as it was parsed.
#[derive(Debug)]
pub struct ParsedConfigFile {
    pub body: ConfigBody,
    pub rules: Vec<ParsedRule>,
    /// The files with further instances.
    pub instances: Vec<FilePath>,
}

/// An instance whose rules are still to be collected.
#[derive(Debug)]
pub struct LoadedConfig {
    pub config: Config,
    pub rules: Vec<RuleSource>,
}

/// What a configuration file holds.
#[derive(Debug)]
pub struct LoadedConfigFile {
    pub config: Option<LoadedConfig>,
    pub instances: Vec<FilePath>,
}

/// What is wrong with the first rule that has something wrong.
pub open spec fn first_error(rules: Seq<ParsedRule>) -> Option<ConfigError>
    decreases rules.len(),
{
    if rules.len() == 0 {
        None
    } else {
        match rules[0].source() {
            Err(error) => Some(error),
            Ok(_) => first_error(rules.drop_first()),
        }
    }
}

/// Where the rules come from, one by one.
pub open spec fn sources(rules: Seq<ParsedRule>) -> Seq<RuleSource> {
    Seq::new(rules.len(), |i: int| rules[i].source()->Ok_0)
}

impl ParsedConfigFile {
    /// Whether the file holds an instance of its own.
    pub open spec fn has_instance(self) -> bool {
        self.body.says_anything() || self.rules@.len() > 0
    }

    /// What the file holds: an instance of its own, unless it says nothing of one, and files with
    /// further ones.
    pub fn into_loaded(self) -> (r: Result<LoadedConfigFile, ConfigError>)
        ensures
            r matches Ok(loaded) ==> {
                &&& loaded.instances == self.instances
                &&& loaded.config is Some <==> self.has_instance()
                &&& loaded.config matches Some(own) ==> {
                    &&& self.body.listen == Some(own.config.listen)
                    &&& self.body.default_upstream == Some(own.config.default_upstream)
                    &&& own.config.rules@.len() == 0
                    &&& own.config.log == self.body.log
                    &&& first_error(self.rules@) is None
                    &&& own.rules@ == sources(self.rules@)
                }
            },
            r is Err <==> self.has_instance() && (self.body.listen is None || self.body.default_upstream is None
                || first_error(self.rules@) is Some),
            r matches Err(error) ==> if self.body.listen is None {
                error is MissingListen
            } else if self.body.default_upstream is None {
                error is MissingDefaultUpstream
            } else {
                first_error(self.rules@) == Some(error)
            },
    {
        let ParsedConfigFile { body, rules, instances } = self;
        if !body.has_values() && rules.len() == 0 {
            return Ok(LoadedConfigFile { config: None, instances });
        }
        let config: Config = match body.into_config() {
            Ok(config) => config,
            Err(error) => return Err(error),
        };
        let ghost all = rules@;
        let mut out: Vec<RuleSource> = Vec::new();
        assert(all.skip(0) =~= all);
        for rule in it: rules
            invariant
                all == it.seq(),
                out@.len() == it.index(),
                first_error(all) == first_error(all.skip(it.index() as int)),
                forall|j: int| 0 <= j < out@.len() ==> all[j].source() == Ok::<RuleSource, ConfigError>(#[trigger] out@[j]),
                self.has_instance(),
                self.body.listen is Some,
                self.body.default_upstream is Some,
                self.rules@ == all,
        {
            let ghost i = it.index() as int;
            proof {
                assert(rule == all[i]);
                assert(all.skip(i)[0] == all[i]);
                assert(all.skip(i).drop_first() =~= all.skip(i + 1));
            }
            match RuleSource::try_from(rule) {
                Ok(source) => out.push(source),
                Err(error) => return Err(error),
            }
        }
        assert(out@ =~= sources(all));
        Ok(LoadedConfigFile { config: Some(LoadedConfig { config, rules: out }), instances })
    }
}

/// An entry without a file and with domains is a rule with each setting of the entry.
pub proof fn law_inline_rule_has_every_setting(entry: ParsedRule, domains: Vec<String>)
    requires
        entry.file is None,
        entry.domains == Some(domains),
    ensures
        entry.source() matches Ok(RuleSource::Inline(rule)) && {
            &&& rule.domains == domains
            &&& rule.upstream == entry.upstream
            &&& rule.dns64_prefix == entry.dns64_prefix
            &&& rule.dns64_force_synth == entry.dns64_force_synth
            &&& rule.strip_a == entry.strip_a
        },
{
}

/// An entry with a file stands for that file, and must hold nothing else: one more setting, and it
/// is refused.
pub proof fn law_file_entry_holds_nothing_else(entry: ParsedRule, file: FilePath)
    requires
        entry.file == Some(file),
    ensures
        entry.domains is None && entry.upstream is None && entry.dns64_prefix is None && !entry.dns64_force_synth
            && !entry.strip_a ==> entry.source() == Ok::<RuleSource, ConfigError>(RuleSource::File(file)),
        entry.domains is Some || entry.upstream is Some || entry.dns64_prefix is Some || entry.dns64_force_synth
            || entry.strip_a ==> entry.source() == Err::<RuleSource, ConfigError>(ConfigError::MixedRule),
{
}

/// An entry with neither a file nor domains is refused, whatever else it holds.
pub proof fn law_rule_needs_domains(entry: ParsedRule)
    requires
        entry.file is None,
        entry.domains is None,
    ensures
        entry.source() == Err::<RuleSource, ConfigError>(ConfigError::MissingDomains),
{
}

/// What is reported of some entries is what is wrong with the first that has something wrong.
pub proof fn law_first_wrong_entry_is_reported(rules: Seq<ParsedRule>, error: ConfigError)
    ensures
        first_error(rules) == Some(error) <==> exists|i: int|
            0 <= i < rules.len() && (#[trigger] rules[i]).source() == Err::<RuleSource, ConfigError>(error) && forall|j: int|
                0 <= j < i ==> (#[trigger] rules[j]).source() is Ok,
    decreases rules.len(),
{
    if rules.len() > 0 {
        let rest = rules.drop_first();
        law_first_wrong_entry_is_reported(rest, error);
        if first_error(rules) == Some(error) && rules[0].source() is Ok {
            let i = choose|i: int|
                0 <= i < rest.len() && (#[trigger] rest[i]).source() == Err::<RuleSource, ConfigError>(error)
                    && forall|j: int| 0 <= j < i ==> (#[trigger] rest[j]).source() is Ok;
            assert(rules[i + 1] == rest[i]);
            assert forall|j: int| 0 <= j < i + 1 implies (#[trigger] rules[j]).source() is Ok by {
                if j > 0 {
                    assert(rest[j - 1] == rules[j]);
                }
            }
        }
        if exists|i: int|
            0 <= i < rules.len() && (#[trigger] rules[i]).source() == Err::<RuleSource, ConfigError>(error) && forall|j: int|
                0 <= j < i ==> (#[trigger] rules[j]).source() is Ok {
            let i = choose|i: int|
                0 <= i < rules.len() && (#[trigger] rules[i]).source() == Err::<RuleSource, ConfigError>(error)
                    && forall|j: int| 0 <= j < i ==> (#[trigger] rules[j]).source() is Ok;
            if i > 0 {
                assert(rules[0].source() is Ok);
                assert(rest[i - 1] == rules[i]);
                assert forall|j: int| 0 <= j < i - 1 implies (#[trigger] rest[j]).source() is Ok by {
                    assert(rules[j + 1] == rest[j]);
                }
            }
        }
    }
}

/// Every entry stands for rules of its own, in the order of the entries.
pub proof fn law_entries_keep_their_order(rules: Seq<ParsedRule>, i: int)
    requires
        0 <= i < rules.len(),
        rules[i].source() is Ok,
    ensures
        sources(rules).len() == rules.len(),
        rules[i].source() == Ok::<RuleSource, ConfigError>(sources(rules)[i]),
{
}

/// A configuration file holds no instance of its own exactly where it says nowhere where to listen,
/// names no default servers, does not ask for a log, and holds no rules.
pub proof fn law_silent_files_hold_no_instance(file: ParsedConfigFile)
    ensures
        !file.has_instance() <==> file.body.listen is None && file.body.default_upstream is None && !file.body.log
            && file.rules@.len() == 0,
        !file.body.says_anything() <==> file.body.listen is None && file.body.default_upstream is None
            && !file.body.log,
{
}

/// An address with a port is taken as it is, and one without gets port 53. There is none where
/// text writes neither.
pub proof fn law_addresses_have_a_port(text: AddrText, addr: SocketAddr, ip: IpAddr)
    ensures
        text.socket == Some(addr) ==> text.addr() == Some(addr),
        text.socket is None && text.ip == Some(ip) ==> {
            &&& text.addr() matches Some(own)
            &&& own.ip == ip
            &&& own.port == 53
            &&& own.flowinfo == 0
            &&& own.scope_id == 0
        },
        text.socket is None && text.ip is None ==> text.addr() is None,
{
}

/// Each mistake is told in words of its own.
pub proof fn law_mistakes_are_told(path: FilePath)
    ensures
        ConfigError::MissingListen.words() == "missing listen"@,
        ConfigError::MissingDefaultUpstream.words() == "missing default_upstream"@,
        ConfigError::MissingDomains.words() == "rule is missing domains"@,
        ConfigError::MixedRule.words() == "rule include cannot be combined with other rule fields"@,
        ConfigError::TooManyStars(path).words() == "include pattern must contain at most one '*'"@,
        ConfigError::NotText(path).words() == "include path is not valid UTF-8"@,
        ConfigError::RuleCycle(path).words() == "rule include cycle detected"@,
{
}

} // verus!
