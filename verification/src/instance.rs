//! One instance of the forwarder: which rule holds for a query, and what is done about it.

use vstd::prelude::*;
use vstd::string::*;
use vstd::utf8::*;
use crate::addr::SocketAddr;
use crate::config::{Config, Rule};
use crate::dns64;
use crate::dns64::{first_query_name, handle_dns64, handle_dns64_rdns};
use crate::domain;
use crate::domain::Domain;
use crate::glob;
use crate::glob::{contains_glob, parse_domain_pattern, GlobValue, RuleValue};
use crate::message;
use crate::message::{DnsQuestion, DnsRecord, Name, Packet, TYPE_A, TYPE_AAAA, TYPE_PTR};
use crate::text;
use crate::trie;
use crate::trie::{can_tell_apart, SuffixTrie, MAX_INDEX};
use crate::wire;
use crate::wire::DnsError;

verus! {

/// What one domain of a rule says, by the domain that it is looked up under.
pub enum Entry {
    /// The rule holds for this domain and all under it.
    Exact { key: Seq<u8>, rule: int },
    /// The rule holds for what matches the patterns under this domain.
    Glob { key: Seq<u8>, patterns: Seq<glob::Pattern>, rule: int },
    /// A pattern that lies under no domain name.
    Skipped,
}

/// What a domain, or a pattern of domains, of a rule says.
pub open spec fn entry_of(domain: Seq<u8>, rule: int) -> Entry {
    if glob::has_wildcard(domain) {
        match glob::domain_pattern(domain) {
            Some((suffix, patterns)) => Entry::Glob { key: domain::wire_of(suffix), patterns, rule },
            None => Entry::Skipped,
        }
    } else {
        Entry::Exact { key: domain::wire_of(domain::domain_labels(domain)->0), rule }
    }
}

/// The octets of the domains of a rule.
pub open spec fn domains_of(rule: Rule) -> Seq<Seq<u8>> {
    Seq::new(rule.domains@.len(), |i: int| encode_utf8(rule.domains@[i]@))
}

/// The octets of the domains of each rule.
pub open spec fn all_domains(rules: Seq<Rule>) -> Seq<Seq<Seq<u8>>> {
    Seq::new(rules.len(), |i: int| domains_of(rules[i]))
}

/// What the first `n` domains of a rule say.
pub open spec fn rule_entries(domains: Seq<Seq<u8>>, rule: int, n: int) -> Seq<Entry> {
    Seq::new(n as nat, |i: int| entry_of(domains[i], rule))
}

/// What the domains of all rules say, in their order.
pub open spec fn entries(rules: Seq<Seq<Seq<u8>>>) -> Seq<Entry>
    decreases rules.len(),
{
    if rules.len() == 0 {
        Seq::empty()
    } else {
        entries(rules.drop_last()) + rule_entries(rules.last(), rules.len() - 1, rules.last().len() as int)
    }
}

pub open spec fn has_key(entry: Entry, key: Seq<u8>) -> bool {
    match entry {
        Entry::Exact { key: k, .. } => k == key,
        Entry::Glob { key: k, .. } => k == key,
        Entry::Skipped => false,
    }
}

/// Whether something is looked up under this domain: always so for the root.
pub open spec fn is_key(entries: Seq<Entry>, key: Seq<u8>) -> bool {
    key == seq![0u8] || exists|i: int| 0 <= i < entries.len() && has_key(#[trigger] entries[i], key)
}

/// The domains that something is looked up under.
pub open spec fn keys(entries: Seq<Entry>) -> Set<Seq<u8>> {
    Set::new(|key: Seq<u8>| is_key(entries, key))
}

/// The rule that holds for this domain and all under it: the last that names it.
pub open spec fn exact_at(entries: Seq<Entry>, key: Seq<u8>) -> Option<int>
    decreases entries.len(),
{
    if entries.len() == 0 {
        None
    } else {
        match entries.last() {
            Entry::Exact { key: k, rule } if k == key => Some(rule),
            _ => exact_at(entries.drop_last(), key),
        }
    }
}

/// A pattern under a domain, with its rule.
#[verifier::ext_equal]
pub struct GlobModel {
    pub patterns: Seq<glob::Pattern>,
    pub rule: int,
}

/// The patterns under this domain, in their order.
pub open spec fn globs_at(entries: Seq<Entry>, key: Seq<u8>) -> Seq<GlobModel>
    decreases entries.len(),
{
    if entries.len() == 0 {
        Seq::empty()
    } else {
        let init = globs_at(entries.drop_last(), key);
        match entries.last() {
            Entry::Glob { key: k, patterns, rule } if k == key => init.push(GlobModel { patterns, rule }),
            _ => init,
        }
    }
}

/// Whether rules can be made a table of: what is no pattern is a domain name, a search can tell
/// any two domains apart, and the table is large enough.
pub open spec fn usable(rules: Seq<Seq<Seq<u8>>>) -> bool {
    &&& named_domains(rules)
    &&& trie::searchable(keys(entries(rules)))
    &&& entries(rules).len() + 1 < MAX_INDEX
    &&& forall|key: Seq<u8>| #[trigger] is_key(entries(rules), key) ==> key.len() < MAX_INDEX
}

/// The labels of the domain that a name in a message is, in lower case: `None` where some octet
/// cannot stand in a domain of a rule.
pub open spec fn name_domain(labels: Seq<Seq<u8>>) -> Option<Seq<Seq<u8>>> {
    if forall|i: int, j: int|
        0 <= i < labels.len() && 0 <= j < labels[i].len() ==> domain::domain_octet(#[trigger] labels[i][j]) {
        Some(text::lower_labels(labels))
    } else {
        None
    }
}

/// Whether this is the longest domain with something under it that a wire form ends in.
pub open spec fn is_longest(entries: Seq<Entry>, wire: Seq<u8>, key: Seq<u8>) -> bool {
    &&& is_key(entries, key)
    &&& trie::ends_in(wire, key)
    &&& forall|other: Seq<u8>| #[trigger] is_key(entries, other) && trie::ends_in(wire, other) ==> other.len() <= key.len()
}

/// The longest domain with something under it that a wire form ends in.
pub open spec fn longest_key(entries: Seq<Entry>, wire: Seq<u8>) -> Seq<u8> {
    choose|key: Seq<u8>| is_longest(entries, wire, key)
}

/// The rule of the first pattern that the labels match.
pub open spec fn first_match(globs: Seq<GlobModel>, labels: Seq<Seq<u8>>, depth: int) -> Option<int>
    decreases globs.len(),
{
    if globs.len() == 0 {
        None
    } else if glob::prefix_matches(globs[0].patterns, labels, depth) {
        Some(globs[0].rule)
    } else {
        first_match(globs.drop_first(), labels, depth)
    }
}

/// The rule that holds for a name. Only what is looked up under the longest domain that the name
/// lies in counts: the rule for that domain, or else the first pattern that matches.
pub open spec fn selected(rules: Seq<Seq<Seq<u8>>>, name: Seq<Seq<u8>>) -> Option<int> {
    match name_domain(name) {
        None => None,
        Some(labels) => {
            let all = entries(rules);
            let key = longest_key(all, domain::wire_of(labels));
            match exact_at(all, key) {
                Some(rule) => Some(rule),
                None => first_match(globs_at(all, key), labels, domain::labels_of(key).len() as int),
            }
        },
    }
}

pub(crate) proof fn lemma_longest_unique(entries: Seq<Entry>, wire: Seq<u8>, a: Seq<u8>, b: Seq<u8>)
    requires
        is_longest(entries, wire, a),
        is_longest(entries, wire, b),
    ensures
        a == b,
{
}

pub(crate) proof fn lemma_no_entry(entries: Seq<Entry>, key: Seq<u8>)
    requires
        forall|i: int| 0 <= i < entries.len() ==> !has_key(#[trigger] entries[i], key),
    ensures
        exact_at(entries, key) is None,
        globs_at(entries, key) == Seq::<GlobModel>::empty(),
    decreases entries.len(),
{
    if entries.len() > 0 {
        assert(!has_key(entries[entries.len() - 1], key));
        assert forall|i: int| 0 <= i < entries.drop_last().len() implies !has_key(
            #[trigger] entries.drop_last()[i],
            key,
        ) by {
            assert(!has_key(entries[i], key));
        }
        lemma_no_entry(entries.drop_last(), key);
    }
}

/// The models of the patterns under a domain.
pub open spec fn globs_of(globs: Seq<GlobValue>) -> Seq<GlobModel> {
    Seq::new(
        globs.len(),
        |i: int| GlobModel { patterns: glob::patterns_of(globs[i].prefix@), rule: globs[i].rule as int },
    )
}

/// Whether `value` holds what is looked up under a domain.
pub open spec fn value_at(value: RuleValue, entries: Seq<Entry>, key: Seq<u8>) -> bool {
    &&& match value.exact {
        Some(rule) => exact_at(entries, key) == Some(rule as int),
        None => exact_at(entries, key) is None,
    }
    &&& globs_of(value.globs@) == globs_at(entries, key)
}

/// What the rules say, by domain.
struct Table {
    trie: SuffixTrie,
    values: Vec<RuleValue>,
}

impl Table {
    /// Whether the table holds what the entries say.
    spec fn holds(self, entries: Seq<Entry>) -> bool {
        let slots = self.trie.slots();
        &&& forall|key: Seq<u8>| #[trigger] slots.contains_key(key) <==> is_key(entries, key)
        &&& forall|key: Seq<u8>| #[trigger]
            slots.contains_key(key) ==> slots[key] < self.values@.len() && value_at(
                self.values@[slots[key] as int],
                entries,
                key,
            )
        &&& forall|a: Seq<u8>, b: Seq<u8>| #[trigger]
            slots.contains_key(a) && #[trigger] slots.contains_key(b) && slots[a] == slots[b] ==> a == b
    }

    fn new() -> (r: Table)
        ensures
            r.holds(Seq::empty()),
            r.trie.slots().dom().finite(),
            r.trie.slots().dom().len() == 1,
    {
        let mut values: Vec<RuleValue> = Vec::new();
        values.push(RuleValue::default());
        let r = Table { trie: SuffixTrie::with_key_root(0), values };
        proof {
            let slots = r.trie.slots();
            assert(slots.dom() =~= set![seq![0u8]]);
            assert(globs_of(r.values@[0].globs@) =~= Seq::<GlobModel>::empty());
        }
        r
    }

    /// The slot of a domain, which is put in where it is new.
    fn slot_for(&mut self, key: Domain, Ghost(before): Ghost<Seq<Entry>>, Ghost(entry): Ghost<Entry>) -> (slot: usize)
        requires
            old(self).holds(before),
            has_key(entry, key@),
            trie::searchable(keys(before.push(entry))),
            old(self).trie.slots().dom().finite(),
            old(self).trie.slots().dom().len() < MAX_INDEX,
            key@.len() < MAX_INDEX,
        ensures
            slot < final(self).values@.len(),
            final(self).trie.slots().contains_key(key@),
            final(self).trie.slots()[key@] == slot,
            value_at(final(self).values@[slot as int], before, key@),
            forall|k: Seq<u8>| #[trigger]
                final(self).trie.slots().contains_key(k) <==> is_key(before.push(entry), k),
            forall|k: Seq<u8>| #[trigger]
                final(self).trie.slots().contains_key(k) ==> final(self).trie.slots()[k] < final(self).values@.len()
                    && value_at(final(self).values@[final(self).trie.slots()[k] as int], before, k),
            forall|a: Seq<u8>, b: Seq<u8>| #[trigger]
                final(self).trie.slots().contains_key(a) && #[trigger] final(self).trie.slots().contains_key(b)
                    && final(self).trie.slots()[a] == final(self).trie.slots()[b] ==> a == b,
            final(self).trie.slots().dom().finite(),
            final(self).trie.slots().dom().len() <= old(self).trie.slots().dom().len() + 1,
    {
        let ghost slots = self.trie.slots();
        let ghost longer = before.push(entry);
        let ghost values = self.values@;
        proof {
            assert forall|k: Seq<u8>| is_key(longer, k) <==> is_key(before, k) || k == key@ by {
                if is_key(before, k) && k != seq![0u8] {
                    let i = choose|i: int| 0 <= i < before.len() && has_key(#[trigger] before[i], k);
                    assert(has_key(longer[i], k));
                }
                if is_key(longer, k) && k != seq![0u8] {
                    let i = choose|i: int| 0 <= i < longer.len() && has_key(#[trigger] longer[i], k);
                    if i < before.len() {
                        assert(has_key(before[i], k));
                    }
                }
                if k == key@ {
                    assert(has_key(longer[before.len() as int], k));
                }
            }
            let more = slots.dom().insert(key@);
            assert forall|a: Seq<u8>, b: Seq<u8>| more.contains(a) && more.contains(b) implies #[trigger] trie::told_apart(
                a,
                b,
            ) by {
                assert(slots.contains_key(a) <==> slots.dom().contains(a));
                assert(slots.contains_key(b) <==> slots.dom().contains(b));
                assert(keys(longer).contains(a) && keys(longer).contains(b));
            }
            assert forall|a: Seq<u8>, b: Seq<u8>|
                slots.dom().contains(a) && slots.dom().contains(b) implies #[trigger] trie::told_apart(a, b) by {
                assert(more.contains(a) && more.contains(b));
            }
        }
        match self.trie.get(&key) {
            Some(slot) => slot,
            None => {
                let slot: usize = self.values.len();
                let ghost wire = key@;
                self.values.push(RuleValue::default());
                self.trie.insert(key, slot);
                proof {
                    assert(!is_key(before, wire));
                    assert forall|i: int| 0 <= i < before.len() implies !has_key(#[trigger] before[i], wire) by {
                        if has_key(before[i], wire) {
                            assert(is_key(before, wire));
                        }
                    }
                    lemma_no_entry(before, wire);
                    assert(globs_of(self.values@[slot as int].globs@) =~= Seq::<GlobModel>::empty());
                    assert(self.trie.slots() == slots.insert(wire, slot));
                    assert(self.trie.slots().dom() =~= slots.dom().insert(wire));
                    assert forall|k: Seq<u8>| #[trigger] self.trie.slots().contains_key(k) implies self.trie.slots()[k]
                        < self.values@.len() && value_at(
                        self.values@[self.trie.slots()[k] as int],
                        before,
                        k,
                    ) by {
                        if k != wire {
                            assert(slots.contains_key(k));
                            assert(self.values@[slots[k] as int] == values[slots[k] as int]);
                        }
                    }
                    assert forall|a: Seq<u8>, b: Seq<u8>| #[trigger]
                        self.trie.slots().contains_key(a) && #[trigger] self.trie.slots().contains_key(b)
                            && self.trie.slots()[a] == self.trie.slots()[b] implies a == b by {
                        if a != wire {
                            assert(slots.contains_key(a));
                        }
                        if b != wire {
                            assert(slots.contains_key(b));
                        }
                    }
                }
                slot
            },
        }
    }

    /// Puts in that a rule holds for a domain and all under it.
    fn add_exact(&mut self, key: Domain, rule: usize, Ghost(before): Ghost<Seq<Entry>>)
        requires
            old(self).holds(before),
            trie::searchable(keys(before.push(Entry::Exact { key: key@, rule: rule as int }))),
            old(self).trie.slots().dom().finite(),
            old(self).trie.slots().dom().len() < MAX_INDEX,
            key@.len() < MAX_INDEX,
        ensures
            final(self).holds(before.push(Entry::Exact { key: key@, rule: rule as int })),
            final(self).trie.slots().dom().finite(),
            final(self).trie.slots().dom().len() <= old(self).trie.slots().dom().len() + 1,
    {
        let ghost wire = key@;
        let ghost entry = Entry::Exact { key: wire, rule: rule as int };
        let ghost longer = before.push(entry);
        let slot: usize = self.slot_for(key, Ghost(before), Ghost(entry));
        let ghost values = self.values@;
        self.values[slot].exact = Some(rule);
        proof {
            let slots = self.trie.slots();
            assert(longer.drop_last() =~= before);
            assert(self.values@[slot as int].globs == values[slot as int].globs);
            assert forall|k: Seq<u8>| #[trigger] slots.contains_key(k) implies slots[k] < self.values@.len() && value_at(
                self.values@[slots[k] as int],
                longer,
                k,
            ) by {
                if k != wire {
                    assert(slots[k] != slot);
                    assert(self.values@[slots[k] as int] == values[slots[k] as int]);
                }
            }
        }
    }

    /// Puts in that a rule holds for what matches patterns under a domain.
    fn add_glob(&mut self, key: Domain, glob: GlobValue, Ghost(before): Ghost<Seq<Entry>>)
        requires
            old(self).holds(before),
            trie::searchable(
                keys(
                    before.push(
                        Entry::Glob {
                            key: key@,
                            patterns: glob::patterns_of(glob.prefix@),
                            rule: glob.rule as int,
                        },
                    ),
                ),
            ),
            old(self).trie.slots().dom().finite(),
            old(self).trie.slots().dom().len() < MAX_INDEX,
            key@.len() < MAX_INDEX,
        ensures
            final(self).holds(
                before.push(
                    Entry::Glob { key: key@, patterns: glob::patterns_of(glob.prefix@), rule: glob.rule as int },
                ),
            ),
            final(self).trie.slots().dom().finite(),
            final(self).trie.slots().dom().len() <= old(self).trie.slots().dom().len() + 1,
    {
        let ghost wire = key@;
        let ghost model = GlobModel { patterns: glob::patterns_of(glob.prefix@), rule: glob.rule as int };
        let ghost entry = Entry::Glob { key: wire, patterns: model.patterns, rule: model.rule };
        let ghost longer = before.push(entry);
        let slot: usize = self.slot_for(key, Ghost(before), Ghost(entry));
        let ghost values = self.values@;
        self.values[slot].globs.push(glob);
        proof {
            let slots = self.trie.slots();
            assert(longer.drop_last() =~= before);
            assert(self.values@[slot as int].exact == values[slot as int].exact);
            assert(globs_of(self.values@[slot as int].globs@) =~= globs_of(values[slot as int].globs@).push(model));
            assert forall|k: Seq<u8>| #[trigger] slots.contains_key(k) implies slots[k] < self.values@.len() && value_at(
                self.values@[slots[k] as int],
                longer,
                k,
            ) by {
                if k != wire {
                    assert(slots[k] != slot);
                    assert(self.values@[slots[k] as int] == values[slots[k] as int]);
                }
            }
        }
    }
}

/// What fewer rules say comes first in what all say.
pub(crate) proof fn lemma_entries_prefix(rules: Seq<Seq<Seq<u8>>>, n: int)
    requires
        0 <= n <= rules.len(),
    ensures
        entries(rules.take(n)).len() <= entries(rules).len(),
        entries(rules.take(n)) == entries(rules).take(entries(rules.take(n)).len() as int),
    decreases rules.len(),
{
    if n == rules.len() {
        assert(rules.take(n) =~= rules);
        assert(entries(rules) =~= entries(rules).take(entries(rules).len() as int));
    } else {
        let init = rules.drop_last();
        lemma_entries_prefix(init, n);
        assert(init.take(n) =~= rules.take(n));
        let len = entries(rules.take(n)).len() as int;
        assert(entries(init).take(len) =~= entries(rules).take(len));
    }
}

/// Every rule that the entries speak of is one of them.
proof fn lemma_entry_rules(rules: Seq<Seq<Seq<u8>>>, i: int)
    requires
        0 <= i < entries(rules).len(),
    ensures
        match entries(rules)[i] {
            Entry::Exact { rule, .. } => 0 <= rule < rules.len(),
            Entry::Glob { rule, .. } => 0 <= rule < rules.len(),
            Entry::Skipped => true,
        },
    decreases rules.len(),
{
    let init = entries(rules.drop_last());
    if i < init.len() {
        lemma_entry_rules(rules.drop_last(), i);
    } else {
        assert(entries(rules)[i] == entry_of(rules.last()[i - init.len()], rules.len() - 1));
    }
}

/// What the entries say up to the `j`th domain of the `i`th rule.
spec fn entries_to(rules: Seq<Seq<Seq<u8>>>, i: int, j: int) -> Seq<Entry> {
    entries(rules.take(i)) + rule_entries(rules[i], i, j)
}

/// What usable rules say up to some domain can be put in a table.
proof fn lemma_part_fits(rules: Seq<Seq<Seq<u8>>>, i: int, j: int)
    requires
        usable(rules),
        0 <= i < rules.len(),
        0 <= j <= rules[i].len(),
    ensures
        entries_to(rules, i, j).len() <= entries(rules).len(),
        trie::searchable(keys(entries_to(rules, i, j))),
        forall|key: Seq<u8>| #[trigger] is_key(entries_to(rules, i, j), key) ==> key.len() < MAX_INDEX,
        j == rules[i].len() ==> entries_to(rules, i, j) == entries(rules.take(i + 1)),
{
    let part = entries_to(rules, i, j);
    let upto = rules.take(i + 1);
    let all = entries(rules);
    lemma_entries_prefix(rules, i + 1);
    assert(upto.drop_last() =~= rules.take(i));
    assert(part =~= entries(upto).take(part.len() as int));
    assert(part =~= all.take(part.len() as int));
    assert forall|key: Seq<u8>| #[trigger] is_key(part, key) implies is_key(all, key) by {
        if key != seq![0u8] {
            let n = choose|n: int| 0 <= n < part.len() && has_key(#[trigger] part[n], key);
            assert(has_key(all[n], key));
        }
    }
    assert forall|a: Seq<u8>, b: Seq<u8>| keys(part).contains(a) && keys(part).contains(b) implies #[trigger] trie::told_apart(
        a,
        b,
    ) by {
        assert(is_key(part, a) && is_key(part, b));
        assert(keys(all).contains(a) && keys(all).contains(b));
    }
    if j == rules[i].len() {
        assert(part =~= entries(upto));
    }
}

/// An instance of the forwarder.
pub struct Instance {
    config: Config,
    table: Table,
}

impl Instance {
    /// What the instance was made from.
    pub closed spec fn settings(self) -> Config {
        self.config
    }

    #[verifier::type_invariant]
    closed spec fn well_formed(self) -> bool {
        let rules = all_domains(self.config.rules@);
        &&& usable(rules)
        &&& self.table.holds(entries(rules))
    }

    /// Makes an instance.
    pub fn new(config: Config) -> (r: Instance)
        requires
            usable(all_domains(config.rules@)),
        ensures
            r.settings() == config,
    {
        let ghost rules = all_domains(config.rules@);
        let mut table: Table = Table::new();
        let mut i: usize = 0;
        assert(entries(rules.take(0)) =~= Seq::<Entry>::empty());
        while i < config.rules.len()
            invariant
                rules == all_domains(config.rules@),
                usable(rules),
                0 <= i <= rules.len(),
                table.holds(entries(rules.take(i as int))),
                table.trie.slots().dom().finite(),
                table.trie.slots().dom().len() <= entries(rules.take(i as int)).len() + 1,
            decreases rules.len() - i,
        {
            let rule: &Rule = &config.rules[i];
            assert(rules[i as int] == domains_of(*rule));
            let mut j: usize = 0;
            assert(entries_to(rules, i as int, 0) =~= entries(rules.take(i as int)));
            while j < rule.domains.len()
                invariant
                    usable(rules),
                    0 <= i < rules.len(),
                    rules[i as int] == domains_of(*rule),
                    0 <= j <= rule.domains@.len(),
                    table.holds(entries_to(rules, i as int, j as int)),
                    table.trie.slots().dom().finite(),
                    table.trie.slots().dom().len() <= entries_to(rules, i as int, j as int).len() + 1,
                decreases rule.domains@.len() - j,
            {
                let domain: &str = rule.domains[j].as_str();
                let ghost before = entries_to(rules, i as int, j as int);
                let ghost next = entries_to(rules, i as int, j + 1);
                let ghost entry = entry_of(rules[i as int][j as int], i as int);
                proof {
                    assert(domain.spec_bytes() == rules[i as int][j as int]);
                    lemma_part_fits(rules, i as int, j + 1);
                    assert(next =~= before.push(entry));
                    assert(next.last() == entry);
                }
                if contains_glob(domain) {
                    match parse_domain_pattern(domain) {
                        Some((suffix, prefix)) => {
                            assert(has_key(next[before.len() as int], suffix@));
                            assert(is_key(next, suffix@));
                            table.add_glob(suffix, GlobValue { prefix, rule: i }, Ghost(before));
                        },
                        None => {
                            proof {
                                lemma_skipped(before, next);
                            }
                        },
                    }
                } else {
                    let fqdn: Domain = Domain::from_ascii_str(domain).unwrap();
                    assert(has_key(next[before.len() as int], fqdn@));
                    assert(is_key(next, fqdn@));
                    table.add_exact(fqdn, i, Ghost(before));
                }
                j = j + 1;
            }
            proof {
                lemma_part_fits(rules, i as int, j as int);
            }
            i = i + 1;
        }
        assert(rules.take(i as int) =~= rules);
        Instance { config, table }
    }
}

/// A skipped entry changes nothing.
proof fn lemma_skipped(before: Seq<Entry>, next: Seq<Entry>)
    requires
        next == before.push(Entry::Skipped),
    ensures
        forall|key: Seq<u8>| #[trigger] is_key(next, key) <==> is_key(before, key),
        forall|key: Seq<u8>| #[trigger] exact_at(next, key) == exact_at(before, key),
        forall|key: Seq<u8>| #[trigger] globs_at(next, key) == globs_at(before, key),
{
    assert(next.drop_last() =~= before);
    assert forall|key: Seq<u8>| #[trigger] is_key(next, key) <==> is_key(before, key) by {
        if is_key(before, key) && key != seq![0u8] {
            let i = choose|i: int| 0 <= i < before.len() && has_key(#[trigger] before[i], key);
            assert(has_key(next[i], key));
        }
        if is_key(next, key) && key != seq![0u8] {
            let i = choose|i: int| 0 <= i < next.len() && has_key(#[trigger] next[i], key);
            assert(has_key(before[i], key));
        }
    }
}

/// The text of a name is a domain of a rule where its octets can stand in one.
proof fn lemma_name_text(labels: Seq<Seq<u8>>, text: Seq<u8>)
    requires
        message::message_labels(labels),
        wire::plain_labels(labels) ==> text == text::join_dots(labels),
        !wire::plain_labels(labels) ==> exists|i: int|
            0 <= i < text.len() && (text[i] == wire::BACKSLASH || #[trigger] text[i] >= 0x80),
    ensures
        domain::domain_labels(text) == name_domain(labels),
{
    let bare = text::strip_dot(text);
    let parts = text::split_dots(bare);
    if wire::plain_labels(labels) {
        if labels.len() == 0 {
            assert(name_domain(labels)->0 =~= Seq::<Seq<u8>>::empty());
        } else {
            assert forall|i: int| 0 <= i < labels.len() implies !(#[trigger] labels[i]).contains(text::DOT) by {
                if labels[i].contains(text::DOT) {
                    let j = choose|j: int| 0 <= j < labels[i].len() && labels[i][j] == text::DOT;
                    assert(labels[i][j] != text::DOT);
                }
            }
            text::lemma_split_join(labels);
            let last = labels.last();
            assert(1 <= labels[labels.len() - 1].len());
            assert(text.len() >= last.len());
            assert(text.last() == last.last());
            assert(labels[labels.len() - 1][last.len() - 1] != text::DOT);
            assert(bare == text);
            assert(parts == labels);
            if name_domain(labels) is Some {
                assert forall|i: int| 0 <= i < parts.len() implies domain::written_label(#[trigger] parts[i]) by {
                    assert(1 <= labels[i].len() <= 63);
                    assert forall|j: int| 0 <= j < labels[i].len() implies domain::domain_octet(
                        #[trigger] labels[i][j],
                    ) by {}
                }
            } else {
                let (i, j) = choose|i: int, j: int|
                    0 <= i < labels.len() && 0 <= j < labels[i].len() && !domain::domain_octet(#[trigger] labels[i][j]);
                assert(!domain::written_label(parts[i]));
            }
        }
    } else {
        let i = choose|i: int| 0 <= i < text.len() && (text[i] == wire::BACKSLASH || #[trigger] text[i] >= 0x80);
        assert(bare[i] == text[i]);
        text::lemma_join_split(bare);
        text::lemma_joined_octet(parts, i);
        let p = choose|p: int| 0 <= p < parts.len() && (#[trigger] parts[p]).contains(bare[i]);
        let j = choose|j: int| 0 <= j < parts[p].len() && parts[p][j] == bare[i];
        assert(!domain::domain_octet(parts[p][j]));
        assert(!domain::written_label(parts[p]));
        let (a, b) = choose|a: int, b: int|
            0 <= a < labels.len() && 0 <= b < labels[a].len() && !((#[trigger] labels[a][b]) < 0x80 && labels[a][b]
                != text::DOT && labels[a][b] != wire::BACKSLASH);
        assert(!domain::domain_octet(labels[a][b]));
    }
}

pub(crate) proof fn lemma_exact_rule(entries: Seq<Entry>, key: Seq<u8>) -> (i: int)
    requires
        exact_at(entries, key) is Some,
    ensures
        0 <= i < entries.len(),
        entries[i] == (Entry::Exact { key, rule: exact_at(entries, key)->0 }),
    decreases entries.len(),
{
    match entries.last() {
        Entry::Exact { key: k, .. } if k == key => entries.len() - 1,
        _ => lemma_exact_rule(entries.drop_last(), key),
    }
}

pub(crate) proof fn lemma_glob_rule(entries: Seq<Entry>, key: Seq<u8>, n: int) -> (i: int)
    requires
        0 <= n < globs_at(entries, key).len(),
    ensures
        0 <= i < entries.len(),
        entries[i] == (Entry::Glob {
            key,
            patterns: globs_at(entries, key)[n].patterns,
            rule: globs_at(entries, key)[n].rule,
        }),
    decreases entries.len(),
{
    let init = globs_at(entries.drop_last(), key);
    if n < init.len() {
        lemma_glob_rule(entries.drop_last(), key, n)
    } else {
        entries.len() - 1
    }
}

impl Instance {
    /// The place of the rule that holds for a name.
    pub fn select_index(&self, qname: &Name) -> (r: Option<usize>)
        ensures
            match r {
                Some(rule) => selected(all_domains(self.settings().rules@), qname@) == Some(rule as int)
                    && rule < self.settings().rules@.len(),
                None => selected(all_domains(self.settings().rules@), qname@) is None,
            },
    {
        proof {
            use_type_invariant(self);
        }
        let ghost rules = all_domains(self.config.rules@);
        let ghost all = entries(rules);
        let ghost slots = self.table.trie.slots();
        let text: String = qname.text();
        // With the count of labels comes that each has 1 to 63 octets.
        let _count: usize = qname.len();
        proof {
            lemma_name_text(qname@, encode_utf8(text@));
        }
        let fqdn: Domain = match Domain::from_ascii_str(text.as_str()) {
            Some(fqdn) => fqdn,
            None => return None,
        };
        let ghost labels = fqdn.labels();
        proof {
            assert(labels == name_domain(qname@)->0);
            assert(slots.contains_key(seq![0u8])) by {
                assert(is_key(all, seq![0u8]));
            }
            assert forall|a: Seq<u8>, b: Seq<u8>|
                slots.dom().contains(a) && slots.dom().contains(b) implies #[trigger] trie::told_apart(a, b) by {
                assert(slots.contains_key(a) && slots.contains_key(b));
                assert(keys(all).contains(a) && keys(all).contains(b));
            }
        }
        let (suffix, slot) = self.table.trie.lookup_key_value(&fqdn);
        let ghost key = suffix@;
        proof {
            assert forall|other: Seq<u8>| #[trigger]
                is_key(all, other) && trie::ends_in(fqdn@, other) implies other.len() <= key.len() by {
                assert(slots.contains_key(other));
            }
            assert(is_longest(all, fqdn@, key));
            lemma_longest_unique(all, fqdn@, key, longest_key(all, fqdn@));
        }
        let value: &RuleValue = &self.table.values[slot];
        assert(value_at(*value, all, key));
        if let Some(rule) = value.exact {
            proof {
                let i = lemma_exact_rule(all, key);
                lemma_entry_rules(rules, i);
            }
            return Some(rule);
        }
        let ghost globs = globs_at(all, key);
        let mut i: usize = 0;
        assert(globs.skip(0) =~= globs);
        while i < value.globs.len()
            invariant
                0 <= i <= value.globs@.len(),
                globs_of(value.globs@) == globs,
                globs == globs_at(all, key),
                all == entries(rules),
                rules.len() == self.config.rules@.len(),
                rules == all_domains(self.settings().rules@),
                self.settings() == self.config,
                labels == fqdn.labels(),
                key == suffix@,
                forall|n: int| 0 <= n < labels.len() ==> (#[trigger] labels[n]).len() <= glob::MAX_LABEL,
                first_match(globs, labels, suffix.labels().len() as int) == first_match(
                    globs.skip(i as int),
                    labels,
                    suffix.labels().len() as int,
                ),
                selected(rules, qname@) == first_match(globs, labels, suffix.labels().len() as int),
            decreases value.globs@.len() - i,
        {
            let glob: &GlobValue = &value.globs[i];
            assert(globs.skip(i as int)[0] == globs_of(value.globs@)[i as int]);
            assert(globs.skip(i as int).drop_first() =~= globs.skip(i + 1));
            if glob.matches(&fqdn, &suffix) {
                proof {
                    let n = lemma_glob_rule(all, key, i as int);
                    lemma_entry_rules(rules, n);
                }
                return Some(glob.rule);
            }
            i = i + 1;
        }
        None
    }

    /// The rule that holds for a name.
    pub fn select_rule(&self, qname: &Name) -> (r: Option<&Rule>)
        ensures
            match selected(all_domains(self.settings().rules@), qname@) {
                Some(rule) => 0 <= rule < self.settings().rules@.len() && r == Some(&self.settings().rules@[rule]),
                None => r is None,
            },
    {
        match self.select_index(qname) {
            Some(rule) => Some(&self.config.rules[rule]),
            None => None,
        }
    }
}

/// What is known while an upstream server is asked, as plain values.
#[verifier::ext_equal]
pub enum PendingModel {
    Plain,
    StripA { id: u16, qtype: u16 },
    Dns64(dns64::PendingModel),
}

/// What is known while an upstream server is asked.
#[derive(Debug)]
pub enum Pending {
    /// The reply is passed on.
    Plain,
    /// The reply is passed on without IPv4 addresses.
    StripA { id: u16, qtype: u16 },
    /// The reply is used for synthesized addresses.
    Dns64(dns64::Pending),
}

impl View for Pending {
    type V = PendingModel;

    open spec fn view(&self) -> PendingModel {
        match self {
            Pending::Plain => PendingModel::Plain,
            Pending::StripA { id, qtype } => PendingModel::StripA { id: *id, qtype: *qtype },
            Pending::Dns64(pending) => PendingModel::Dns64(pending@),
        }
    }
}

/// What comes next in answering a query, as plain values.
#[verifier::ext_equal]
pub enum StepModel {
    Ask { query: Seq<u8>, qname: Seq<Seq<u8>>, pending: PendingModel },
    Reply(Seq<u8>),
    Fail,
}

/// What comes next in answering a query.
#[derive(Debug)]
pub enum Step {
    /// Ask an upstream server this, for this name, and go on with its reply.
    Ask { query: Vec<u8>, qname: Name, pending: Pending },
    /// Answer with this.
    Reply(Vec<u8>),
}

impl View for Step {
    type V = StepModel;

    open spec fn view(&self) -> StepModel {
        match self {
            Step::Ask { query, qname, pending } => StepModel::Ask {
                query: query@,
                qname: qname@,
                pending: pending@,
            },
            Step::Reply(reply) => StepModel::Reply(reply@),
        }
    }
}

/// A step of synthesis as one of answering the query.
pub open spec fn of_dns64(step: dns64::StepModel) -> StepModel {
    match step {
        dns64::StepModel::Ask { query, qname, pending } => StepModel::Ask {
            query,
            qname,
            pending: PendingModel::Dns64(pending),
        },
        dns64::StepModel::Reply(bytes) => StepModel::Reply(bytes),
        dns64::StepModel::Fail => StepModel::Fail,
    }
}

/// The record type and the name that a query asks for: those of its first question, or an address
/// of the root.
pub open spec fn asked_type(query: message::PacketModel) -> u16 {
    if query.questions.len() > 0 {
        query.questions[0].qtype
    } else {
        TYPE_A
    }
}

/// The first step in answering a query, given the rule that holds for it.
pub open spec fn resolve_start(
    query: message::PacketModel,
    qname: Seq<Seq<u8>>,
    qtype: u16,
    rule: Option<Rule>,
) -> StepModel {
    match rule {
        Some(rule) if rule.dns64_prefix is Some && qtype == TYPE_AAAA => of_dns64(
            dns64::dns64_start(rule.dns64_prefix, rule.dns64_force_synth, query),
        ),
        Some(rule) if rule.dns64_prefix is Some && qtype == TYPE_PTR => of_dns64(
            dns64::rdns_start(rule.dns64_prefix, query),
        ),
        _ => match wire::written(query) {
            None => StepModel::Fail,
            Some(bytes) => StepModel::Ask {
                query: bytes,
                qname,
                pending: match rule {
                    Some(rule) if rule.strip_a => PendingModel::StripA { id: query.header.id, qtype },
                    _ => PendingModel::Plain,
                },
            },
        },
    }
}

/// The records that hold no IPv4 address: none at all, where one was asked for.
pub open spec fn without_a(records: Seq<message::RecordModel>, qtype: u16) -> Seq<message::RecordModel> {
    if qtype == TYPE_A {
        Seq::empty()
    } else {
        records.filter(|record: message::RecordModel| record.rdata.type_code() != TYPE_A)
    }
}

/// A reply without the IPv4 addresses in its answers, with this id.
pub open spec fn stripped(resp: message::PacketModel, id: u16, qtype: u16) -> message::PacketModel {
    message::PacketModel {
        header: message::Header { id, ..resp.header },
        answers: without_a(resp.answers, qtype),
        ..resp
    }
}

/// The step after a reply of an upstream server.
pub open spec fn after(pending: PendingModel, bytes: Seq<u8>) -> StepModel {
    match pending {
        PendingModel::Plain => StepModel::Reply(bytes),
        PendingModel::StripA { id, qtype } => match wire::parsed_message(bytes) {
            None => StepModel::Fail,
            Some(resp) => match wire::written(stripped(resp, id, qtype)) {
                None => StepModel::Fail,
                Some(bytes) => StepModel::Reply(bytes),
            },
        },
        PendingModel::Dns64(pending) => of_dns64(dns64::after(pending, bytes)),
    }
}

/// The record type that a question asks for.
pub fn question_type(question: &DnsQuestion) -> (r: u16)
    ensures
        r == question.qtype,
{
    question.qtype
}

/// Parses a query.
pub fn parse_query_bytes(buf: &[u8]) -> (r: Result<Packet, DnsError>)
    ensures
        r is Ok <==> wire::parsed_message(buf@) is Some,
        r matches Ok(query) ==> wire::parsed_message(buf@) == Some(query@) && wire::countable(query@)
            && query.header.id == wire::number_at(buf@, 0),
        r matches Err(error) ==> error is Wire,
{
    Packet::parse(buf)
}

fn step_of_dns64(step: Result<dns64::Step, DnsError>) -> (r: Result<Step, DnsError>)
    ensures
        r is Ok <==> step is Ok,
        r matches Ok(s) ==> s@ == of_dns64((step->Ok_0)@),
        r matches Err(error) ==> step == Err::<dns64::Step, DnsError>(error),
{
    match step {
        Ok(dns64::Step::Ask { query, qname, pending }) => Ok(
            Step::Ask { query, qname, pending: Pending::Dns64(pending) },
        ),
        Ok(dns64::Step::Reply(bytes)) => Ok(Step::Reply(bytes)),
        Err(error) => Err(error),
    }
}

/// The rule as a value, where there is one.
pub open spec fn rule_of(rule: Option<&Rule>) -> Option<Rule> {
    match rule {
        Some(rule) => Some(*rule),
        None => None,
    }
}

/// Starts to answer a query, given the rule that holds for it.
pub fn resolve_query(query: Packet, qname: Name, qtype: u16, rule: Option<&Rule>) -> (r: Result<Step, DnsError>)
    requires
        wire::countable(query@),
    ensures
        r is Err <==> resolve_start(query@, qname@, qtype, rule_of(rule)) is Fail,
        r matches Ok(step) ==> step@ == resolve_start(query@, qname@, qtype, rule_of(rule)),
        r matches Err(error) ==> error is Wire,
{
    match rule {
        Some(rule) if rule.dns64_prefix.is_some() && qtype == TYPE_AAAA => step_of_dns64(handle_dns64(query, rule)),
        Some(rule) if rule.dns64_prefix.is_some() && qtype == TYPE_PTR => step_of_dns64(handle_dns64_rdns(query, rule)),
        _ => {
            let query_bytes: Vec<u8> = match query.build_bytes_vec_compressed() {
                Ok(bytes) => bytes,
                Err(error) => return Err(error),
            };
            let pending: Pending = match rule {
                Some(rule) if rule.strip_a => Pending::StripA { id: query.header.id, qtype },
                _ => Pending::Plain,
            };
            Ok(Step::Ask { query: query_bytes, qname, pending })
        },
    }
}

/// Takes the IPv4 addresses out of the answers of a reply, and gives it the id of the query.
pub fn apply_strip_a(query_id: u16, qtype: u16, resp_bytes: &[u8]) -> (r: Result<Vec<u8>, DnsError>)
    ensures
        r is Err <==> after(PendingModel::StripA { id: query_id, qtype }, resp_bytes@) is Fail,
        r matches Ok(bytes) ==> after(PendingModel::StripA { id: query_id, qtype }, resp_bytes@) == StepModel::Reply(
            bytes@,
        ),
        r matches Ok(bytes) ==> bytes@.len() >= 12 && wire::number_at(bytes@, 0) == query_id,
        r matches Err(error) ==> error is Wire,
{
    let mut resp: Packet = match Packet::parse(resp_bytes) {
        Ok(resp) => resp,
        Err(error) => return Err(error),
    };
    let ghost model = resp@;
    resp.header.id = query_id;
    let mut answers: Vec<DnsRecord> = Vec::new();
    if qtype != TYPE_A {
        answers = keep_other_than_a(resp.answers);
    }
    resp.answers = answers;
    proof {
        assert(qtype == TYPE_A ==> message::records_of(answers@) =~= Seq::<message::RecordModel>::empty());
        assert(resp@ =~= stripped(model, query_id, qtype));
        assert(wire::countable(resp@));
    }
    resp.build_bytes_vec_compressed()
}

fn keep_other_than_a(records: Vec<DnsRecord>) -> (r: Vec<DnsRecord>)
    ensures
        message::records_of(r@) == message::records_of(records@).filter(
            |record: message::RecordModel| record.rdata.type_code() != TYPE_A,
        ),
{
    let ghost models = message::records_of(records@);
    let ghost pred = |record: message::RecordModel| record.rdata.type_code() != TYPE_A;
    let mut out: Vec<DnsRecord> = Vec::new();
    proof {
        reveal(Seq::filter);
        assert(models.take(0).filter(pred) =~= Seq::<message::RecordModel>::empty());
        assert(message::records_of(out@) =~= Seq::<message::RecordModel>::empty());
    }
    for record in it: records
        invariant
            models == message::records_of(it.seq()),
            pred == (|record: message::RecordModel| record.rdata.type_code() != TYPE_A),
            message::records_of(out@) == models.take(it.index() as int).filter(pred),
    {
        let ghost i = it.index() as int;
        let ghost done = message::records_of(out@);
        proof {
            reveal(Seq::filter);
            assert(models[i] == record@);
            assert(models.take(i + 1).drop_last() =~= models.take(i));
            assert(models.take(i + 1).last() == record@);
        }
        if record.rdata.type_code() != TYPE_A {
            out.push(record);
            assert(message::records_of(out@) =~= done.push(record@));
        }
    }
    assert(models.take(models.len() as int) =~= models);
    out
}

/// The id that an answer has, unless it is a reply that is passed on.
pub open spec fn own_id(pending: PendingModel) -> u16 {
    match pending {
        PendingModel::Plain => 0,
        PendingModel::StripA { id, .. } => id,
        PendingModel::Dns64(pending) => dns64::own_id(pending),
    }
}

impl Pending {
    /// Goes on with the reply of an upstream server.
    pub fn resume(self, reply: Vec<u8>) -> (r: Result<Step, DnsError>)
        ensures
            r is Err <==> after(self@, reply@) is Fail,
            r matches Ok(step) ==> step@ == after(self@, reply@),
            r matches Ok(Step::Reply(bytes)) ==> bytes@ == reply@ || bytes@.len() >= 12 && wire::number_at(bytes@, 0)
                == own_id(self@),
            r matches Err(error) ==> error is Wire,
    {
        match self {
            Pending::Plain => Ok(Step::Reply(reply)),
            Pending::StripA { id, qtype } => {
                match apply_strip_a(id, qtype, reply.as_slice()) {
                    Ok(bytes) => Ok(Step::Reply(bytes)),
                    Err(error) => Err(error),
                }
            },
            Pending::Dns64(pending) => step_of_dns64(pending.resume(reply)),
        }
    }
}

/// A query that is being answered.
#[derive(Debug)]
pub struct Handling<'a> {
    /// The record type that is asked for.
    pub qtype: u16,
    /// The name that is asked for.
    pub qname: Name,
    /// The rule that holds.
    pub rule: Option<&'a Rule>,
    /// The servers to ask.
    pub addresses: &'a [SocketAddr],
    /// What comes first.
    pub step: Result<Step, DnsError>,
}

/// The servers to ask, given the rule that holds.
pub open spec fn servers(config: Config, rule: Option<Rule>) -> Seq<SocketAddr> {
    match rule {
        Some(Rule { upstream: Some(addresses), .. }) => addresses@,
        _ => config.default_upstream@,
    }
}

/// The rule that an instance has for a name.
pub open spec fn rule_for(config: Config, name: Seq<Seq<u8>>) -> Option<Rule> {
    match selected(all_domains(config.rules@), name) {
        Some(rule) => Some(config.rules@[rule]),
        None => None,
    }
}

impl Instance {
    /// What the instance was made from.
    pub fn config(&self) -> (r: &Config)
        ensures
            *r == self.settings(),
    {
        &self.config
    }

    /// Starts to answer a query.
    pub fn handle_query(&self, query: Packet) -> (r: Handling<'_>)
        requires
            wire::countable(query@),
        ensures
            r.qtype == asked_type(query@),
            r.qname@ == dns64::first_name(query@.questions),
            rule_of(r.rule) == rule_for(self.settings(), r.qname@),
            r.addresses@ == servers(self.settings(), rule_of(r.rule)),
            r.step is Err <==> resolve_start(query@, r.qname@, r.qtype, rule_of(r.rule)) is Fail,
            r.step matches Ok(step) ==> step@ == resolve_start(query@, r.qname@, r.qtype, rule_of(r.rule)),
            r.step matches Err(error) ==> error is Wire,
    {
        let qtype: u16 = if query.questions.len() > 0 {
            question_type(&query.questions[0])
        } else {
            TYPE_A
        };
        let qname: Name = first_query_name(&query);
        let rule: Option<&Rule> = self.select_rule(&qname);
        let addresses: &[SocketAddr] = match rule {
            Some(Rule { upstream: Some(addresses), .. }) => addresses.as_slice(),
            _ => self.config.default_upstream.as_slice(),
        };
        let step: Result<Step, DnsError> = resolve_query(query, qname.clone(), qtype, rule);
        Handling { qtype, qname, rule, addresses, step }
    }
}

/// Whether every domain that is no pattern is a domain name.
pub open spec fn named_domains(rules: Seq<Seq<Seq<u8>>>) -> bool {
    forall|i: int, j: int|
        0 <= i < rules.len() && 0 <= j < rules[i].len() && !glob::has_wildcard(#[trigger] rules[i][j])
            ==> domain::domain_labels(rules[i][j]) is Some
}

/// Whether these are the domains that something is looked up under.
spec fn lists_keys(list: Seq<Domain>, entries: Seq<Entry>) -> bool {
    &&& forall|i: int| 0 <= i < list.len() ==> is_key(entries, (#[trigger] list[i])@)
    &&& forall|key: Seq<u8>| #[trigger] is_key(entries, key) ==> exists|i: int| 0 <= i < list.len() && list[i]@ == key
}

proof fn lemma_list_grows(list: Seq<Domain>, before: Seq<Entry>, entry: Entry, more: Domain)
    requires
        lists_keys(list, before),
        has_key(entry, more@),
    ensures
        lists_keys(list.push(more), before.push(entry)),
{
    let longer = list.push(more);
    let next = before.push(entry);
    assert forall|i: int| 0 <= i < longer.len() implies is_key(next, (#[trigger] longer[i])@) by {
        if i < list.len() {
            assert(is_key(before, list[i]@));
            if list[i]@ != seq![0u8] {
                let n = choose|n: int| 0 <= n < before.len() && has_key(#[trigger] before[n], list[i]@);
                assert(has_key(next[n], list[i]@));
            }
        } else {
            assert(has_key(next[before.len() as int], more@));
        }
    }
    assert forall|key: Seq<u8>| #[trigger] is_key(next, key) implies exists|i: int|
        0 <= i < longer.len() && longer[i]@ == key by {
        if key == more@ {
            assert(longer[list.len() as int]@ == key);
        } else {
            if key != seq![0u8] {
                let n = choose|n: int| 0 <= n < next.len() && has_key(#[trigger] next[n], key);
                assert(n < before.len());
                assert(has_key(before[n], key));
            }
            assert(is_key(before, key));
            let i = choose|i: int| 0 <= i < list.len() && list[i]@ == key;
            assert(longer[i]@ == key);
        }
    }
}

/// The domains that something is looked up under: `None` where a domain that is no pattern is no
/// domain name, or there are too many.
fn list_keys(rules: &Vec<Rule>) -> (r: Option<Vec<Domain>>)
    ensures
        r is Some <==> named_domains(all_domains(rules@)) && entries(all_domains(rules@)).len() + 1 < MAX_INDEX,
        r matches Some(list) ==> lists_keys(list@, entries(all_domains(rules@))),
{
    let ghost all = all_domains(rules@);
    let mut list: Vec<Domain> = Vec::new();
    list.push(Domain::root());
    let mut count: usize = 0;
    let mut i: usize = 0;
    proof {
        assert(entries(all.take(0)) =~= Seq::<Entry>::empty());
        assert(list@[0]@ == seq![0u8]);
    }
    while i < rules.len()
        invariant
            all == all_domains(rules@),
            0 <= i <= all.len(),
            named_domains(all.take(i as int)),
            count == entries(all.take(i as int)).len(),
            count + 1 < MAX_INDEX,
            lists_keys(list@, entries(all.take(i as int))),
        decreases all.len() - i,
    {
        let rule: &Rule = &rules[i];
        assert(all[i as int] == domains_of(*rule));
        let mut j: usize = 0;
        assert(entries_to(all, i as int, 0) =~= entries(all.take(i as int)));
        while j < rule.domains.len()
            invariant
                0 <= i < all.len(),
                all[i as int] == domains_of(*rule),
                0 <= j <= rule.domains@.len(),
                count == entries_to(all, i as int, j as int).len(),
                count + 1 < MAX_INDEX,
                lists_keys(list@, entries_to(all, i as int, j as int)),
                all == all_domains(rules@),
                forall|n: int|
                    0 <= n < j && !glob::has_wildcard(#[trigger] all[i as int][n]) ==> domain::domain_labels(
                        all[i as int][n],
                    ) is Some,
            decreases rule.domains@.len() - j,
        {
            let domain: &str = rule.domains[j].as_str();
            let ghost before = entries_to(all, i as int, j as int);
            let ghost next = entries_to(all, i as int, j + 1);
            let ghost entry = entry_of(all[i as int][j as int], i as int);
            proof {
                assert(domain.spec_bytes() == all[i as int][j as int]);
                assert(next =~= before.push(entry));
            }
            count = count + 1;
            if count + 1 >= MAX_INDEX {
                proof {
                    lemma_entries_prefix(all, i + 1);
                    assert(all.take(i + 1).drop_last() =~= all.take(i as int));
                }
                return None;
            }
            if contains_glob(domain) {
                match parse_domain_pattern(domain) {
                    Some((suffix, _prefix)) => {
                        proof {
                            lemma_list_grows(list@, before, entry, suffix);
                        }
                        list.push(suffix);
                    },
                    None => {
                        proof {
                            lemma_skipped(before, next);
                        }
                    },
                }
            } else {
                match Domain::from_ascii_str(domain) {
                    Some(fqdn) => {
                        proof {
                            lemma_list_grows(list@, before, entry, fqdn);
                        }
                        list.push(fqdn);
                    },
                    None => {
                        assert(!named_domains(all));
                        return None;
                    },
                }
            }
            j = j + 1;
        }
        proof {
            let upto = all.take(i + 1);
            assert(upto.drop_last() =~= all.take(i as int));
            assert(entries_to(all, i as int, j as int) =~= entries(upto));
            assert forall|m: int, n: int|
                0 <= m < upto.len() && 0 <= n < upto[m].len() && !glob::has_wildcard(
                    #[trigger] upto[m][n],
                ) implies domain::domain_labels(upto[m][n]) is Some by {
                if m < i {
                    assert(all.take(i as int)[m][n] == upto[m][n]);
                } else {
                    assert(all[i as int][n] == upto[m][n]);
                }
            }
        }
        i = i + 1;
    }
    assert(all.take(i as int) =~= all);
    Some(list)
}

/// Whether an instance can be made of these rules.
pub fn rules_usable(rules: &Vec<Rule>) -> (r: bool)
    ensures
        r == usable(all_domains(rules@)),
{
    let ghost all = all_domains(rules@);
    let ghost said = entries(all);
    let list: Vec<Domain> = match list_keys(rules) {
        Some(list) => list,
        None => return false,
    };
    let mut i: usize = 0;
    while i < list.len()
        invariant
            0 <= i <= list@.len(),
            all == all_domains(rules@),
            said == entries(all),
            lists_keys(list@, said),
            forall|m: int| 0 <= m < i ==> (#[trigger] list@[m])@.len() < MAX_INDEX,
            forall|m: int, n: int|
                0 <= m < i && 0 <= n < list@.len() ==> #[trigger] trie::told_apart(list@[m]@, list@[n]@),
        decreases list@.len() - i,
    {
        let key: &[u8] = list[i].as_bytes();
        if key.len() >= MAX_INDEX {
            assert(is_key(said, list@[i as int]@));
            return false;
        }
        let mut j: usize = 0;
        while j < list.len()
            invariant
                0 <= i < list@.len(),
                0 <= j <= list@.len(),
                key@ == list@[i as int]@,
                all == all_domains(rules@),
                said == entries(all),
                lists_keys(list@, said),
                forall|n: int| 0 <= n < j ==> trie::told_apart(key@, (#[trigger] list@[n])@),
            decreases list@.len() - j,
        {
            if !can_tell_apart(key, list[j].as_bytes()) {
                proof {
                    assert(is_key(said, list@[i as int]@));
                    assert(is_key(said, list@[j as int]@));
                    assert(keys(said).contains(key@) && keys(said).contains(list@[j as int]@));
                    assert(!trie::told_apart(key@, list@[j as int]@));
                }
                return false;
            }
            j = j + 1;
        }
        i = i + 1;
    }
    proof {
        assert forall|a: Seq<u8>, b: Seq<u8>| keys(said).contains(a) && keys(said).contains(b) implies #[trigger] trie::told_apart(
            a,
            b,
        ) by {
            assert(is_key(said, a) && is_key(said, b));
            let m = choose|m: int| 0 <= m < list@.len() && list@[m]@ == a;
            let n = choose|n: int| 0 <= n < list@.len() && list@[n]@ == b;
            assert(trie::told_apart(list@[m]@, list@[n]@));
        }
        assert forall|key: Seq<u8>| #[trigger] is_key(said, key) implies key.len() < MAX_INDEX by {
            let m = choose|m: int| 0 <= m < list@.len() && list@[m]@ == key;
            assert(list@[m]@.len() < MAX_INDEX);
        }
    }
    true
}

/// Taking IPv4 addresses out leaves none. A reply without any stays as it is, unless one was asked
/// for: then nothing is left.
pub proof fn law_stripped_answers_hold_no_a(records: Seq<message::RecordModel>, qtype: u16)
    ensures
        !dns64::has_type(without_a(records, qtype), TYPE_A),
        qtype == TYPE_A ==> without_a(records, qtype).len() == 0,
        qtype != TYPE_A && !dns64::has_type(records, TYPE_A) ==> without_a(records, qtype) == records,
    decreases records.len(),
{
    let pred = |record: message::RecordModel| record.rdata.type_code() != TYPE_A;
    reveal(Seq::filter);
    if records.len() > 0 && qtype != TYPE_A {
        let init = records.drop_last();
        law_stripped_answers_hold_no_a(init, qtype);
        let kept = without_a(init, qtype);
        assert(forall|i: int| 0 <= i < kept.len() ==> (#[trigger] kept[i]).rdata.type_code() != TYPE_A);
        assert forall|i: int| 0 <= i < without_a(records, qtype).len() implies (#[trigger] without_a(
            records,
            qtype,
        )[i]).rdata.type_code() != TYPE_A by {
            if i < kept.len() {
                assert(without_a(records, qtype)[i] == kept[i]);
            }
        }
        if !dns64::has_type(records, TYPE_A) {
            assert(records[records.len() - 1].rdata.type_code() != TYPE_A);
            assert forall|i: int| 0 <= i < init.len() implies (#[trigger] init[i]).rdata.type_code() != TYPE_A by {
                assert(records[i].rdata.type_code() != TYPE_A);
            }
            assert(records =~= init.push(records.last()));
        }
    }
}

/// A rule for the longest domain that a name lies in holds for it, whatever patterns there are.
pub proof fn law_exact_rule_beats_patterns(rules: Seq<Seq<Seq<u8>>>, name: Seq<Seq<u8>>)
    requires
        name_domain(name) matches Some(labels) && exact_at(
            entries(rules),
            longest_key(entries(rules), domain::wire_of(labels)),
        ) is Some,
    ensures
        selected(rules, name) == exact_at(
            entries(rules),
            longest_key(entries(rules), domain::wire_of(name_domain(name)->0)),
        ),
{
}

/// Letter case does not count in what a domain of a rule says.
pub proof fn law_rule_case_does_not_count(domain: Seq<u8>, rule: int)
    ensures
        entry_of(text::lower_all(domain), rule) == entry_of(domain, rule),
{
    glob::law_pattern_case_does_not_count(domain);
    domain::law_domain_case_does_not_count(domain);
}

/// Letter case does not count in which rule holds for a name.
pub proof fn law_letter_case_does_not_count(rules: Seq<Seq<Seq<u8>>>, a: Seq<Seq<u8>>, b: Seq<Seq<u8>>)
    requires
        a.len() == b.len(),
        forall|i: int| 0 <= i < a.len() ==> text::lower_all(#[trigger] a[i]) == text::lower_all(b[i]),
    ensures
        selected(rules, a) == selected(rules, b),
{
    assert forall|i: int| 0 <= i < a.len() implies a[i].len() == (#[trigger] b[i]).len() by {
        assert(text::lower_all(a[i]).len() == text::lower_all(b[i]).len());
    }
    assert forall|i: int, j: int| 0 <= i < a.len() && 0 <= j < a[i].len() implies (domain::domain_octet(
        #[trigger] a[i][j],
    ) <==> domain::domain_octet(b[i][j])) by {
        assert(text::lower_all(a[i])[j] == text::lower_all(b[i])[j]);
    }
    if name_domain(a) is Some {
        assert forall|i: int, j: int| 0 <= i < b.len() && 0 <= j < b[i].len() implies domain::domain_octet(
            #[trigger] b[i][j],
        ) by {
            assert(domain::domain_octet(a[i][j]));
        }
        assert(name_domain(a)->0 =~= name_domain(b)->0);
    } else {
        let (i, j) = choose|i: int, j: int|
            0 <= i < a.len() && 0 <= j < a[i].len() && !domain::domain_octet(#[trigger] a[i][j]);
        assert(!domain::domain_octet(b[i][j]));
    }
}

/// Whether everything is looked up under domains with labels of fewer than 35 octets.
pub open spec fn short_keys(entries: Seq<Entry>) -> bool {
    forall|key: Seq<u8>| #[trigger]
        is_key(entries, key) ==> key == domain::wire_of(domain::labels_of(key)) && trie::short_labels(
            domain::labels_of(key),
        )
}

/// A search can tell the domains of rules apart where their labels have fewer than 35 octets.
pub proof fn law_short_domains_are_searchable(rules: Seq<Seq<Seq<u8>>>)
    requires
        short_keys(entries(rules)),
    ensures
        trie::searchable(keys(entries(rules))),
{
    let all = entries(rules);
    assert forall|a: Seq<u8>, b: Seq<u8>| keys(all).contains(a) && keys(all).contains(b) implies #[trigger] trie::told_apart(
        a,
        b,
    ) by {
        assert(is_key(all, a) && is_key(all, b));
        trie::law_short_labels_are_told_apart(domain::labels_of(a), domain::labels_of(b));
    }
}

/// Whether a name of these labels lies in the domain of those: it ends in them.
pub open spec fn lies_in(labels: Seq<Seq<u8>>, domain: Seq<Seq<u8>>) -> bool {
    domain.len() <= labels.len() && labels.skip(labels.len() - domain.len()) == domain
}

/// Where labels have fewer than 35 octets, the domain that a rule is looked up under is, label by
/// label, the one with the most labels that the name lies in.
pub proof fn law_longest_domain_counts(rules: Seq<Seq<Seq<u8>>>, labels: Seq<Seq<u8>>, domain: Seq<Seq<u8>>)
    requires
        short_keys(entries(rules)),
        trie::short_labels(labels),
        trie::short_labels(domain),
        is_key(entries(rules), domain::wire_of(domain)),
        lies_in(labels, domain),
        forall|key: Seq<u8>| #[trigger]
            is_key(entries(rules), key) && lies_in(labels, domain::labels_of(key)) ==> domain::labels_of(key).len()
                <= domain.len(),
    ensures
        longest_key(entries(rules), domain::wire_of(labels)) == domain::wire_of(domain),
{
    let all = entries(rules);
    let wire = domain::wire_of(labels);
    let best = domain::wire_of(domain);
    trie::law_short_labels_end_by_label(labels, domain);
    assert forall|other: Seq<u8>| #[trigger] is_key(all, other) && trie::ends_in(wire, other) implies other.len()
        <= best.len() by {
        let shorter = domain::labels_of(other);
        trie::law_short_labels_end_by_label(labels, shorter);
        assert(lies_in(labels, shorter));
        assert(domain.skip(domain.len() - shorter.len()) =~= shorter);
        trie::law_short_labels_end_by_label(domain, shorter);
    }
    assert(is_longest(all, wire, best));
    lemma_longest_unique(all, wire, best, longest_key(all, wire));
}

/// The most upstream questions that answering takes from here on, with the one that is pending.
pub open spec fn questions_left(pending: PendingModel) -> int {
    match pending {
        PendingModel::Plain => 1,
        PendingModel::StripA { .. } => 1,
        PendingModel::Dns64(pending) => dns64::questions_left(pending),
    }
}

/// Answering a query takes at most 12 upstream questions, whatever is replied: that many are left
/// at most with the first, at least one is left whenever one is pending, and each reply leaves
/// fewer.
pub proof fn law_questions_run_out(
    query: message::PacketModel,
    qname: Seq<Seq<u8>>,
    qtype: u16,
    rule: Option<Rule>,
    pending: PendingModel,
    bytes: Seq<u8>,
)
    ensures
        resolve_start(query, qname, qtype, rule) matches StepModel::Ask { pending: first, .. } ==> 1 <= questions_left(
            first,
        ) <= 12,
        after(pending, bytes) matches StepModel::Ask { pending: next, .. } ==> 1 <= questions_left(next)
            < questions_left(pending),
{
    if let Some(rule) = rule {
        if let PendingModel::Dns64(inner) = pending {
            dns64::law_questions_run_out(rule.dns64_prefix, rule.dns64_force_synth, query, inner, bytes);
        } else {
            dns64::law_questions_run_out(
                rule.dns64_prefix,
                rule.dns64_force_synth,
                query,
                dns64::PendingModel::Verbatim,
                bytes,
            );
        }
    }
    if let PendingModel::Dns64(inner) = pending {
        dns64::law_questions_run_out(None, false, query, inner, bytes);
    }
}

/// Taking IPv4 addresses out of a reply changes nothing but its id, which becomes the one that it is
/// given, and its answers: the questions, the other records, the kind, the response code, the flags
/// and the extensions are those of the reply.
pub proof fn law_stripping_changes_id_and_answers_only(
    resp: message::PacketModel,
    id: u16,
    qtype: u16,
    bytes: Seq<u8>,
)
    ensures
        wire::parsed_message(bytes) == Some(resp) ==> after(PendingModel::StripA { id, qtype }, bytes)
            == match wire::written(stripped(resp, id, qtype)) {
            Some(reply) => StepModel::Reply(reply),
            None => StepModel::Fail,
        },
        wire::parsed_message(bytes) is None ==> after(PendingModel::StripA { id, qtype }, bytes) is Fail,
        stripped(resp, id, qtype).header.id == id,
        stripped(resp, id, qtype).header.opcode == resp.header.opcode,
        stripped(resp, id, qtype).header.rcode == resp.header.rcode,
        stripped(resp, id, qtype).header.flags == resp.header.flags,
        stripped(resp, id, qtype).header.opt == resp.header.opt,
        stripped(resp, id, qtype).questions == resp.questions,
        stripped(resp, id, qtype).answers == without_a(resp.answers, qtype),
        stripped(resp, id, qtype).name_servers == resp.name_servers,
        stripped(resp, id, qtype).additional_records == resp.additional_records,
{
}

/// Answers are kept or taken out one by one: where an IPv4 address was asked for, none is kept, and
/// else each that is not of that type, in its place.
pub proof fn law_answers_are_stripped_one_by_one(
    first: Seq<message::RecordModel>,
    more: Seq<message::RecordModel>,
    record: message::RecordModel,
    qtype: u16,
)
    ensures
        without_a(Seq::empty(), qtype).len() == 0,
        without_a(first + more, qtype) == without_a(first, qtype) + without_a(more, qtype),
        qtype == 1 ==> without_a(first, qtype).len() == 0,
        qtype != 1 && record.rdata.type_code() == 1 ==> without_a(seq![record], qtype).len() == 0,
        qtype != 1 && record.rdata.type_code() != 1 ==> without_a(seq![record], qtype) == seq![record],
    decreases more.len(),
{
    reveal(Seq::filter);
    let pred = |record: message::RecordModel| record.rdata.type_code() != TYPE_A;
    let none = Seq::<message::RecordModel>::empty();
    if more.len() == 0 {
        assert(first + more =~= first);
        assert(without_a(first, qtype) + without_a(more, qtype) =~= without_a(first, qtype));
    } else {
        law_answers_are_stripped_one_by_one(first, more.drop_last(), record, qtype);
        assert((first + more).drop_last() =~= first + more.drop_last());
        assert((first + more).last() == more.last());
        assert(without_a(first + more, qtype) =~= without_a(first, qtype) + without_a(more, qtype));
    }
    assert(seq![record].drop_last() =~= none);
    assert(seq![record].last() == record);
    assert(none.filter(pred) =~= none);
    assert(none.push(record) =~= seq![record]);
}

/// The type that is asked for is that of the first question, whatever follows it, and that of IPv4
/// addresses where there is none.
pub proof fn law_first_question_is_answered(query: message::PacketModel)
    ensures
        query.questions.len() > 0 ==> asked_type(query) == query.questions[0].qtype,
        query.questions.len() == 0 ==> asked_type(query) == 1,
{
}

/// Only a rule with a prefix changes what is asked, and only for IPv6 addresses and for the names of
/// addresses. Any other query is asked as it is, for the name that it asks for; the reply is stripped
/// where the rule says so, with the id of the query and the type that it asks for, and else passed
/// on.
pub proof fn law_other_queries_are_asked_as_they_are(
    query: message::PacketModel,
    qname: Seq<Seq<u8>>,
    qtype: u16,
    rule: Rule,
    reply: Seq<u8>,
)
    ensures
        resolve_start(query, qname, qtype, None) == match wire::written(query) {
            Some(bytes) => StepModel::Ask { query: bytes, qname, pending: PendingModel::Plain },
            None => StepModel::Fail,
        },
        rule.dns64_prefix is None || (qtype != 28 && qtype != 12) ==> resolve_start(query, qname, qtype, Some(rule))
            == match wire::written(query) {
            Some(bytes) => StepModel::Ask {
                query: bytes,
                qname,
                pending: if rule.strip_a {
                    PendingModel::StripA { id: query.header.id, qtype }
                } else {
                    PendingModel::Plain
                },
            },
            None => StepModel::Fail,
        },
        after(PendingModel::Plain, reply) == StepModel::Reply(reply),
{
}

/// With a prefix, a query for IPv6 addresses takes the steps of synthesis, and one for the name of
/// an address those of reverse queries, under the prefix of the rule. What is asked, answered or
/// failed on the way is so for the query.
pub proof fn law_rules_with_a_prefix_synthesize(
    query: message::PacketModel,
    qname: Seq<Seq<u8>>,
    rule: Rule,
    prefix: u128,
    pending: dns64::PendingModel,
    reply: Seq<u8>,
)
    requires
        rule.dns64_prefix == Some(prefix),
    ensures
        same_step(
            dns64::dns64_start(Some(prefix), rule.dns64_force_synth, query),
            resolve_start(query, qname, 28, Some(rule)),
        ),
        same_step(dns64::rdns_start(Some(prefix), query), resolve_start(query, qname, 12, Some(rule))),
        same_step(dns64::after(pending, reply), after(PendingModel::Dns64(pending), reply)),
{
}

/// Whether a step of synthesis and one of answering a query are the same.
pub open spec fn same_step(inner: dns64::StepModel, outer: StepModel) -> bool {
    match (inner, outer) {
        (
            dns64::StepModel::Ask { query, qname, pending },
            StepModel::Ask { query: asked, qname: name, pending: PendingModel::Dns64(kept) },
        ) => query == asked && qname == name && pending == kept,
        (dns64::StepModel::Reply(bytes), StepModel::Reply(reply)) => bytes == reply,
        (dns64::StepModel::Fail, StepModel::Fail) => true,
        _ => false,
    }
}

/// The servers of a rule are asked where it names any, and else those of the instance.
pub proof fn law_rule_names_the_servers(config: Config, rule: Rule)
    ensures
        servers(config, None) == config.default_upstream@,
        rule.upstream is None ==> servers(config, Some(rule)) == config.default_upstream@,
        rule.upstream matches Some(addresses) ==> servers(config, Some(rule)) == addresses@,
{
}

/// A name in a message is a domain of a rule where each of its octets is a letter, a digit, `-`, `_`
/// or `#`: its labels in lower case.
pub proof fn law_names_are_domains_in_lower_case(labels: Seq<Seq<u8>>)
    ensures
        name_domain(labels) is Some <==> forall|i: int, j: int|
            #![trigger labels[i][j]]
            0 <= i < labels.len() && 0 <= j < labels[i].len() ==> {
                ||| 97 <= labels[i][j] <= 122
                ||| 65 <= labels[i][j] <= 90
                ||| 48 <= labels[i][j] <= 57
                ||| labels[i][j] == 45
                ||| labels[i][j] == 95
                ||| labels[i][j] == 35
            },
        name_domain(labels) matches Some(lowered) ==> lowered == text::lower_labels(labels),
{
    if forall|i: int, j: int| #![trigger labels[i][j]] 0 <= i < labels.len() && 0 <= j < labels[i].len() ==> {
        ||| 97 <= labels[i][j] <= 122
        ||| 65 <= labels[i][j] <= 90
        ||| 48 <= labels[i][j] <= 57
        ||| labels[i][j] == 45
        ||| labels[i][j] == 95
        ||| labels[i][j] == 35
    } {
        assert forall|i: int, j: int| 0 <= i < labels.len() && 0 <= j < labels[i].len() implies domain::domain_octet(
            #[trigger] labels[i][j],
        ) by {}
    }
    if name_domain(labels) is Some {
        assert forall|i: int, j: int| #![trigger labels[i][j]] 0 <= i < labels.len() && 0 <= j < labels[i].len() implies {
            ||| 97 <= labels[i][j] <= 122
            ||| 65 <= labels[i][j] <= 90
            ||| 48 <= labels[i][j] <= 57
            ||| labels[i][j] == 45
            ||| labels[i][j] == 95
            ||| labels[i][j] == 35
        } by {
            assert(domain::domain_octet(labels[i][j]));
        }
    }
}

} // verus!
