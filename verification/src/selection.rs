//! Which rule holds for a name, told by the domains of the rules, label by label.

use vstd::prelude::*;
use vstd::utf8::*;
use crate::config;
use crate::domain;
use crate::glob;
use crate::instance;
use crate::text;
use crate::trie;

verus! {

/// The labels of the domain that a domain of a rule is looked up under: all of them, or for a
/// pattern those behind its last wildcard.
pub open spec fn anchor(domain: Seq<u8>) -> Option<Seq<Seq<u8>>> {
    if glob::has_wildcard(domain) {
        match glob::domain_pattern(domain) {
            Some((suffix, _)) => Some(suffix),
            None => None,
        }
    } else {
        domain::domain_labels(domain)
    }
}

/// Whether the wire form of a name of these labels ends in that of a domain of those.
pub open spec fn ends_in_domain(labels: Seq<Seq<u8>>, domain: Seq<Seq<u8>>) -> bool {
    trie::ends_in(domain::wire_of(labels), domain::wire_of(domain))
}

/// Whether a domain of a rule, were it the only one, would hold for a name.
pub open spec fn holds_alone(domain: Seq<u8>, name: Seq<Seq<u8>>) -> bool {
    instance::selected(seq![seq![domain]], name) == Some(0int)
}

/// Whether a name of these labels ends in the domain that a domain of a rule is looked up under, and
/// in no longer one that anything is looked up under.
pub open spec fn longest_anchor(rules: Seq<Seq<Seq<u8>>>, labels: Seq<Seq<u8>>, domain: Seq<u8>) -> bool {
    &&& anchor(domain) matches Some(own)
    &&& ends_in_domain(labels, own)
    &&& forall|i: int, j: int|
        0 <= i < rules.len() && 0 <= j < rules[i].len() ==> match anchor(#[trigger] rules[i][j]) {
            Some(other) => ends_in_domain(labels, other) ==> domain::wire_of(other).len() <= domain::wire_of(own).len(),
            None => true,
        }
}

/// Where what the `j`th domain of the `i`th rule says stands in what all say.
spec fn place(rules: Seq<Seq<Seq<u8>>>, i: int, j: int) -> int {
    instance::entries(rules.take(i)).len() + j
}

proof fn lemma_entry_at(rules: Seq<Seq<Seq<u8>>>, i: int, j: int)
    requires
        0 <= i < rules.len(),
        0 <= j < rules[i].len(),
    ensures
        0 <= place(rules, i, j) < instance::entries(rules).len(),
        instance::entries(rules)[place(rules, i, j)] == instance::entry_of(rules[i][j], i),
{
    let upto = rules.take(i + 1);
    instance::lemma_entries_prefix(rules, i + 1);
    assert(upto.drop_last() =~= rules.take(i));
    assert(upto.last() == rules[i]);
    assert(instance::entries(upto)[place(rules, i, j)] == instance::entry_of(rules[i][j], i));
}

proof fn lemma_place_of(rules: Seq<Seq<Seq<u8>>>, k: int) -> (at: (int, int))
    requires
        0 <= k < instance::entries(rules).len(),
    ensures
        0 <= at.0 < rules.len(),
        0 <= at.1 < rules[at.0].len(),
        k == place(rules, at.0, at.1),
        instance::entries(rules)[k] == instance::entry_of(rules[at.0][at.1], at.0),
    decreases rules.len(),
{
    let init = rules.drop_last();
    let before = instance::entries(init).len() as int;
    if k < before {
        let at = lemma_place_of(init, k);
        assert(init.take(at.0) =~= rules.take(at.0));
        at
    } else {
        assert(rules.take(rules.len() - 1) =~= init);
        (rules.len() - 1, k - before)
    }
}

proof fn lemma_places_in_order(rules: Seq<Seq<Seq<u8>>>, i: int, j: int, m: int, n: int)
    requires
        0 <= i < m < rules.len(),
        0 <= j < rules[i].len(),
        0 <= n,
    ensures
        place(rules, i, j) < place(rules, m, n),
{
    let upto = rules.take(m);
    instance::lemma_entries_prefix(upto, i + 1);
    assert(upto.take(i + 1) =~= rules.take(i + 1));
    assert(rules.take(i + 1).drop_last() =~= rules.take(i));
    assert(rules.take(i + 1).last() == rules[i]);
}

/// What is looked up under a domain is looked up under its wire form.
proof fn lemma_key_of(domain: Seq<u8>, rule: int, key: Seq<u8>)
    requires
        !glob::has_wildcard(domain) ==> domain::domain_labels(domain) is Some,
    ensures
        instance::has_key(instance::entry_of(domain, rule), key) <==> (anchor(domain) matches Some(labels) && key
            == domain::wire_of(labels)),
{
}

proof fn lemma_anchor_kept(domain: Seq<u8>)
    requires
        anchor(domain) is Some,
    ensures
        domain::kept_labels(anchor(domain)->0),
        domain::labels_of(domain::wire_of(anchor(domain)->0)) == anchor(domain)->0,
        domain::wire_of(anchor(domain)->0).len() > 0,
{
    if glob::has_wildcard(domain) {
        let labels = text::split_dots(text::strip_dot(domain));
        let n = glob::prefix_len(labels);
        domain::lemma_domain_labels_kept(text::join_dots(labels.skip(n)));
    } else {
        domain::lemma_domain_labels_kept(domain);
    }
    domain::lemma_labels_of_wire(anchor(domain)->0);
}

/// Every name ends in the root.
proof fn lemma_ends_in_root(labels: Seq<Seq<u8>>)
    ensures
        trie::ends_in(domain::wire_of(labels), seq![0u8]),
{
    trie::lemma_wire_tail(labels, labels.len() as int);
    assert(labels.skip(labels.len() as int) =~= Seq::<Seq<u8>>::empty());
    assert(domain::wire_of(Seq::<Seq<u8>>::empty()) == seq![0u8]);
}

/// The domain that a rule for a name is looked up under is the longest that the name ends in.
proof fn lemma_longest(rules: Seq<Seq<Seq<u8>>>, labels: Seq<Seq<u8>>, domain: Seq<u8>)
    requires
        instance::named_domains(rules),
        longest_anchor(rules, labels, domain),
        exists|i: int, j: int| 0 <= i < rules.len() && 0 <= j < rules[i].len() && #[trigger] rules[i][j] == domain,
    ensures
        instance::longest_key(instance::entries(rules), domain::wire_of(labels)) == domain::wire_of(
            anchor(domain)->0,
        ),
        domain::labels_of(domain::wire_of(anchor(domain)->0)) == anchor(domain)->0,
{
    let all = instance::entries(rules);
    let wire = domain::wire_of(labels);
    let own = anchor(domain)->0;
    let best = domain::wire_of(own);
    let (i, j) = choose|i: int, j: int|
        0 <= i < rules.len() && 0 <= j < rules[i].len() && #[trigger] rules[i][j] == domain;
    lemma_anchor_kept(domain);
    lemma_entry_at(rules, i, j);
    lemma_key_of(domain, i, best);
    assert(instance::has_key(all[place(rules, i, j)], best));
    assert(instance::is_key(all, best));
    assert forall|key: Seq<u8>| #[trigger] instance::is_key(all, key) && trie::ends_in(wire, key) implies key.len()
        <= best.len() by {
        if key != seq![0u8] {
            let k = choose|k: int| 0 <= k < all.len() && instance::has_key(#[trigger] all[k], key);
            let at = lemma_place_of(rules, k);
            lemma_key_of(rules[at.0][at.1], at.0, key);
        }
    }
    assert(instance::is_longest(all, wire, best));
    instance::lemma_longest_unique(all, wire, best, instance::longest_key(all, wire));
}

/// There is a longest domain that a wire form ends in.
proof fn lemma_longest_exists(entries: Seq<instance::Entry>, wire: Seq<u8>, key: Seq<u8>)
    requires
        instance::is_key(entries, key),
        trie::ends_in(wire, key),
    ensures
        instance::is_longest(entries, wire, instance::longest_key(entries, wire)),
    decreases wire.len() - key.len(),
{
    if !instance::is_longest(entries, wire, key) {
        let other = choose|other: Seq<u8>| #[trigger]
            instance::is_key(entries, other) && trie::ends_in(wire, other) && other.len() > key.len();
        lemma_longest_exists(entries, wire, other);
    }
}

proof fn lemma_exact_among(entries: Seq<instance::Entry>, key: Seq<u8>, k: int)
    requires
        0 <= k < entries.len(),
        entries[k] matches instance::Entry::Exact { key: own, .. } && own == key,
    ensures
        instance::exact_at(entries, key) is Some,
    decreases entries.len(),
{
    if k < entries.len() - 1 {
        lemma_exact_among(entries.drop_last(), key, k);
    }
}

proof fn lemma_no_exact(entries: Seq<instance::Entry>, key: Seq<u8>)
    requires
        forall|k: int|
            0 <= k < entries.len() ==> !((#[trigger] entries[k]) matches instance::Entry::Exact { key: own, .. } && own
                == key),
    ensures
        instance::exact_at(entries, key) is None,
    decreases entries.len(),
{
    if entries.len() > 0 {
        let init = entries.drop_last();
        assert(!(entries[entries.len() - 1] matches instance::Entry::Exact { key: own, .. } && own == key));
        assert forall|k: int| 0 <= k < init.len() implies !((#[trigger] init[k]) matches instance::Entry::Exact {
            key: own,
            ..
        } && own == key) by {
            assert(init[k] == entries[k]);
        }
        lemma_no_exact(init, key);
    }
}

proof fn lemma_last_exact(entries: Seq<instance::Entry>, key: Seq<u8>, k: int, rule: int)
    requires
        0 <= k < entries.len(),
        entries[k] == (instance::Entry::Exact { key, rule }),
        forall|n: int|
            k < n < entries.len() ==> !((#[trigger] entries[n]) matches instance::Entry::Exact { key: own, .. } && own
                == key),
    ensures
        instance::exact_at(entries, key) == Some(rule),
    decreases entries.len(),
{
    if k < entries.len() - 1 {
        let init = entries.drop_last();
        assert(!(entries[entries.len() - 1] matches instance::Entry::Exact { key: own, .. } && own == key));
        assert forall|n: int| k < n < init.len() implies !((#[trigger] init[n]) matches instance::Entry::Exact {
            key: own,
            ..
        } && own == key) by {
            assert(init[n] == entries[n]);
        }
        lemma_last_exact(init, key, k, rule);
    }
}

/// Whether an entry holds patterns under this domain that the labels match.
spec fn pattern_fits(entry: instance::Entry, key: Seq<u8>, labels: Seq<Seq<u8>>, depth: int) -> bool {
    entry matches instance::Entry::Glob { key: own, patterns, .. } && own == key && glob::prefix_matches(
        patterns,
        labels,
        depth,
    )
}

proof fn lemma_match_behind(
    globs: Seq<instance::GlobModel>,
    more: instance::GlobModel,
    labels: Seq<Seq<u8>>,
    depth: int,
)
    ensures
        instance::first_match(globs.push(more), labels, depth) == match instance::first_match(globs, labels, depth) {
            Some(rule) => Some(rule),
            None => if glob::prefix_matches(more.patterns, labels, depth) {
                Some(more.rule)
            } else {
                None
            },
        },
    decreases globs.len(),
{
    let longer = globs.push(more);
    if globs.len() == 0 {
        assert(longer.drop_first().len() == 0);
        assert(longer[0] == more);
        reveal_with_fuel(instance::first_match, 2);
    } else {
        assert(longer[0] == globs[0]);
        assert(longer.drop_first() =~= globs.drop_first().push(more));
        lemma_match_behind(globs.drop_first(), more, labels, depth);
    }
}

proof fn lemma_no_match(entries: Seq<instance::Entry>, key: Seq<u8>, labels: Seq<Seq<u8>>, depth: int)
    requires
        forall|k: int| 0 <= k < entries.len() ==> !pattern_fits(#[trigger] entries[k], key, labels, depth),
    ensures
        instance::first_match(instance::globs_at(entries, key), labels, depth) is None,
    decreases entries.len(),
{
    if entries.len() > 0 {
        let init = entries.drop_last();
        assert(!pattern_fits(entries[entries.len() - 1], key, labels, depth));
        assert forall|k: int| 0 <= k < init.len() implies !pattern_fits(#[trigger] init[k], key, labels, depth) by {
            assert(init[k] == entries[k]);
        }
        lemma_no_match(init, key, labels, depth);
        match entries.last() {
            instance::Entry::Glob { key: own, patterns, rule } if own == key => {
                lemma_match_behind(
                    instance::globs_at(init, key),
                    instance::GlobModel { patterns, rule },
                    labels,
                    depth,
                );
            },
            _ => {},
        }
    }
}

proof fn lemma_first_match(
    entries: Seq<instance::Entry>,
    key: Seq<u8>,
    labels: Seq<Seq<u8>>,
    depth: int,
    k: int,
)
    requires
        0 <= k < entries.len(),
        pattern_fits(entries[k], key, labels, depth),
        forall|n: int| 0 <= n < k ==> !pattern_fits(#[trigger] entries[n], key, labels, depth),
    ensures
        instance::first_match(instance::globs_at(entries, key), labels, depth) == Some(entries[k]->Glob_rule),
    decreases entries.len(),
{
    let init = entries.drop_last();
    if k < entries.len() - 1 {
        assert forall|n: int| 0 <= n < k implies !pattern_fits(#[trigger] init[n], key, labels, depth) by {
            assert(init[n] == entries[n]);
        }
        lemma_first_match(init, key, labels, depth, k);
    } else {
        assert forall|n: int| 0 <= n < init.len() implies !pattern_fits(#[trigger] init[n], key, labels, depth) by {
            assert(init[n] == entries[n]);
        }
        lemma_no_match(init, key, labels, depth);
    }
    match entries.last() {
        instance::Entry::Glob { key: own, patterns, rule } if own == key => {
            lemma_match_behind(instance::globs_at(init, key), instance::GlobModel { patterns, rule }, labels, depth);
        },
        _ => {},
    }
}

proof fn lemma_match_is_entry(entries: Seq<instance::Entry>, key: Seq<u8>, labels: Seq<Seq<u8>>, depth: int) -> (k: int)
    requires
        instance::first_match(instance::globs_at(entries, key), labels, depth) is Some,
    ensures
        0 <= k < entries.len(),
        pattern_fits(entries[k], key, labels, depth),
        instance::first_match(instance::globs_at(entries, key), labels, depth) == Some(entries[k]->Glob_rule),
{
    if forall|k: int| 0 <= k < entries.len() ==> !pattern_fits(#[trigger] entries[k], key, labels, depth) {
        lemma_no_match(entries, key, labels, depth);
    }
    let k = choose|k: int| 0 <= k < entries.len() && pattern_fits(#[trigger] entries[k], key, labels, depth);
    lemma_first_of(entries, key, labels, depth, k)
}

proof fn lemma_first_of(entries: Seq<instance::Entry>, key: Seq<u8>, labels: Seq<Seq<u8>>, depth: int, k: int) -> (first: int)
    requires
        0 <= k < entries.len(),
        pattern_fits(entries[k], key, labels, depth),
    ensures
        0 <= first <= k,
        pattern_fits(entries[first], key, labels, depth),
        instance::first_match(instance::globs_at(entries, key), labels, depth) == Some(entries[first]->Glob_rule),
    decreases k,
{
    if forall|n: int| 0 <= n < k ==> !pattern_fits(#[trigger] entries[n], key, labels, depth) {
        lemma_first_match(entries, key, labels, depth, k);
        k
    } else {
        let n = choose|n: int| 0 <= n < k && pattern_fits(#[trigger] entries[n], key, labels, depth);
        lemma_first_of(entries, key, labels, depth, n)
    }
}

/// By itself, a domain of a rule holds for exactly the names whose wire form ends in that of the
/// domain that it is looked up under, and for a pattern only where the labels left of that match.
pub proof fn law_domain_holds_by_itself(domain: Seq<u8>, name: Seq<Seq<u8>>, labels: Seq<Seq<u8>>)
    requires
        instance::name_domain(name) == Some(labels),
        !glob::has_wildcard(domain) ==> domain::domain_labels(domain) is Some,
    ensures
        holds_alone(domain, name) || instance::selected(seq![seq![domain]], name) is None,
        holds_alone(domain, name) <==> (anchor(domain) matches Some(own) && ends_in_domain(labels, own) && (
        glob::has_wildcard(domain) ==> glob::prefix_matches(
            (glob::domain_pattern(domain)->0).1,
            labels,
            own.len() as int,
        ))),
{
    let rules = seq![seq![domain]];
    let all = instance::entries(rules);
    let entry = instance::entry_of(domain, 0);
    let wire = domain::wire_of(labels);
    let root = seq![0u8];
    assert(rules.drop_last() =~= Seq::<Seq<Seq<u8>>>::empty());
    assert(instance::entries(rules.drop_last()) =~= Seq::<instance::Entry>::empty());
    assert(all =~= seq![entry]);
    assert(all.drop_last() =~= Seq::<instance::Entry>::empty());
    reveal_with_fuel(instance::exact_at, 2);
    reveal_with_fuel(instance::globs_at, 2);
    assert(instance::named_domains(rules)) by {
        assert forall|i: int, j: int| 0 <= i < rules.len() && 0 <= j < rules[i].len() && !glob::has_wildcard(
            #[trigger] rules[i][j],
        ) implies domain::domain_labels(rules[i][j]) is Some by {
            assert(rules[i][j] == domain);
        }
    }
    if anchor(domain) is Some && ends_in_domain(labels, anchor(domain)->0) {
        let own = anchor(domain)->0;
        assert(rules[0][0] == domain);
        assert(longest_anchor(rules, labels, domain));
        lemma_longest(rules, labels, domain);
        let key = domain::wire_of(own);
        if glob::has_wildcard(domain) {
            let patterns = (glob::domain_pattern(domain)->0).1;
            let globs = instance::globs_at(all, key);
            assert(globs =~= seq![instance::GlobModel { patterns, rule: 0 }]);
            assert(globs.drop_first().len() == 0);
            reveal_with_fuel(instance::first_match, 2);
        }
    } else {
        lemma_ends_in_root(labels);
        assert(instance::is_key(all, root));
        assert forall|other: Seq<u8>| #[trigger]
            instance::is_key(all, other) && trie::ends_in(wire, other) implies other.len() <= root.len() by {
            if other != root {
                let k = choose|k: int| 0 <= k < all.len() && instance::has_key(#[trigger] all[k], other);
                assert(all[k] == entry);
                lemma_key_of(domain, 0, other);
            }
        }
        assert(instance::is_longest(all, wire, root));
        instance::lemma_longest_unique(all, wire, root, instance::longest_key(all, wire));
        assert forall|k: int| 0 <= k < all.len() implies !instance::has_key(#[trigger] all[k], root) by {
            if instance::has_key(all[k], root) {
                lemma_key_of(domain, 0, root);
            }
        }
        instance::lemma_no_entry(all, root);
        assert(instance::first_match(
            Seq::<instance::GlobModel>::empty(),
            labels,
            domain::labels_of(root).len() as int,
        ) is None);
    }
}

/// A rule with one domain holds for exactly the names that end in as many labels, each matching
/// the label of the domain at its place, in lower case: a label without wildcards itself alone, and
/// one with wildcards what they stand for. Labels further left do not count.
pub proof fn law_domains_match_label_by_label(labels: Seq<Seq<u8>>, name: Seq<Seq<u8>>)
    requires
        labels.len() > 0,
        forall|i: int| 0 <= i < labels.len() ==> !(#[trigger] labels[i]).contains(46u8) && labels[i].len() > 0,
        instance::name_domain(name) is Some,
        trie::short_labels(instance::name_domain(name)->0),
        !glob::has_wildcard(text::join_dots(labels)) ==> domain::domain_labels(text::join_dots(labels)) is Some,
        anchor(text::join_dots(labels)) is Some,
        trie::short_labels(anchor(text::join_dots(labels))->0),
    ensures
        instance::selected(seq![seq![text::join_dots(labels)]], name) == if labels.len() <= name.len() && forall|i: int|
            0 <= i < labels.len() ==> glob::glob_matches(
                text::lower_all(#[trigger] labels[i]),
                text::lower_all(name[name.len() - labels.len() + i]),
            ) {
            Some(0int)
        } else {
            None
        },
{
    let domain = text::join_dots(labels);
    let low = instance::name_domain(name)->0;
    let gap = name.len() - labels.len();
    assert(low == text::lower_labels(name));
    law_domain_holds_by_itself(domain, name, low);
    let n = lemma_cut(labels);
    let own = anchor(domain)->0;
    trie::law_short_labels_end_by_label(low, own);
    let tail = labels.skip(n);
    assert(own == text::lower_labels(tail));
    assert forall|i: int| n <= i < labels.len() implies glob::glob_matches(
        text::lower_all(#[trigger] labels[i]),
        text::lower_all(name[gap + i]),
    ) == (text::lower_all(labels[i]) == text::lower_all(name[gap + i])) by {
        let l = text::lower_all(labels[i]);
        glob::law_pattern_case_does_not_count(labels[i]);
        assert(!glob::has_wildcard(labels[i]));
        glob::law_pattern_without_wildcards_matches_itself(l, text::lower_all(name[gap + i]));
    }
    let matched = labels.len() <= name.len() && forall|i: int|
        0 <= i < labels.len() ==> glob::glob_matches(
            text::lower_all(#[trigger] labels[i]),
            text::lower_all(name[name.len() - labels.len() + i]),
        );
    if glob::has_wildcard(domain) {
        let patterns = (glob::domain_pattern(domain)->0).1;
        let depth = own.len() as int;
        assert(n > 0);
        if matched {
            assert forall|i: int| 0 <= i < own.len() implies low.skip(low.len() - depth)[i] == own[i] by {
                assert(own[i] == text::lower_all(labels[n + i]));
                assert(low[gap + n + i] == text::lower_all(name[gap + n + i]));
            }
            assert(low.skip(low.len() - depth) =~= own);
            assert forall|i: int| 0 <= i < patterns.len() implies glob::pattern_matches(
                #[trigger] patterns[i],
                low[low.len() - depth - 1 - i],
            ) by {
                let at = n - 1 - i;
                glob::law_labels_match_as_patterns(labels[at], low[gap + at]);
                assert(low[gap + at] == text::lower_all(name[gap + at]));
            }
            assert(holds_alone(domain, name));
        }
        if holds_alone(domain, name) {
            assert(labels.len() <= name.len());
            assert forall|i: int| 0 <= i < labels.len() implies glob::glob_matches(
                text::lower_all(#[trigger] labels[i]),
                text::lower_all(name[gap + i]),
            ) by {
                assert(low[gap + i] == text::lower_all(name[gap + i]));
                if i < n {
                    assert(glob::pattern_matches(patterns[n - 1 - i], low[low.len() - depth - 1 - (n - 1 - i)]));
                    glob::law_labels_match_as_patterns(labels[i], low[gap + i]);
                } else {
                    assert(low.skip(low.len() - depth)[i - n] == own[i - n]);
                    assert(own[i - n] == text::lower_all(labels[i]));
                }
            }
        }
    } else {
        assert(n == 0);
        assert(tail =~= labels);
        if matched {
            assert forall|i: int| 0 <= i < own.len() implies low.skip(gap)[i] == own[i] by {
                assert(own[i] == text::lower_all(labels[i]));
                assert(low[gap + i] == text::lower_all(name[gap + i]));
            }
            assert(low.skip(gap) =~= own);
        }
        if holds_alone(domain, name) {
            assert forall|i: int| 0 <= i < labels.len() implies glob::glob_matches(
                text::lower_all(#[trigger] labels[i]),
                text::lower_all(name[gap + i]),
            ) by {
                assert(low.skip(gap)[i] == own[i]);
                assert(low[gap + i] == text::lower_all(name[gap + i]));
            }
        }
    }
}

/// Where a domain of a rule is cut: behind its last label with a wildcard.
proof fn lemma_cut(labels: Seq<Seq<u8>>) -> (n: int)
    requires
        labels.len() > 0,
        forall|i: int| 0 <= i < labels.len() ==> !(#[trigger] labels[i]).contains(46u8) && labels[i].len() > 0,
        anchor(text::join_dots(labels)) is Some,
    ensures
        0 <= n <= labels.len(),
        n > 0 <==> glob::has_wildcard(text::join_dots(labels)),
        forall|i: int| n <= i < labels.len() ==> !glob::has_wildcard(#[trigger] labels[i]),
        anchor(text::join_dots(labels)) == Some(text::lower_labels(labels.skip(n))),
        n > 0 ==> ({
            let patterns = (glob::domain_pattern(text::join_dots(labels))->0).1;
            patterns.len() == n && forall|i: int|
                0 <= i < n ==> #[trigger] patterns[i] == glob::pattern_of(labels[n - 1 - i])
        }),
{
    let n = lemma_last_wild(labels, labels.len() as int);
    let whole = text::join_dots(labels);
    if n > 0 {
        glob::law_pattern_is_cut_behind_the_last_wildcard(labels, n);
    } else {
        assert(labels.skip(0) =~= labels);
        domain::law_labels_make_a_domain(labels);
        assert(!glob::has_wildcard(whole)) by {
            if whole.contains(42u8) {
                let j = choose|j: int| 0 <= j < whole.len() && whole[j] == 42;
                text::lemma_joined_octet(labels, j);
                let p = choose|p: int| 0 <= p < labels.len() && (#[trigger] labels[p]).contains(whole[j]);
                assert(!glob::has_wildcard(labels[p]));
            }
            if whole.contains(63u8) {
                let j = choose|j: int| 0 <= j < whole.len() && whole[j] == 63;
                text::lemma_joined_octet(labels, j);
                let p = choose|p: int| 0 <= p < labels.len() && (#[trigger] labels[p]).contains(whole[j]);
                assert(!glob::has_wildcard(labels[p]));
            }
        }
    }
    n
}

proof fn lemma_last_wild(labels: Seq<Seq<u8>>, upto: int) -> (n: int)
    requires
        0 <= upto <= labels.len(),
        forall|i: int| upto <= i < labels.len() ==> !glob::has_wildcard(#[trigger] labels[i]),
    ensures
        0 <= n <= upto,
        n > 0 ==> glob::has_wildcard(labels[n - 1]),
        forall|i: int| n <= i < labels.len() ==> !glob::has_wildcard(#[trigger] labels[i]),
    decreases upto,
{
    if upto == 0 || glob::has_wildcard(labels[upto - 1]) {
        upto
    } else {
        lemma_last_wild(labels, upto - 1)
    }
}

/// The rule that holds for a name has a domain that would hold for it by itself, and that is looked
/// up under the longest domain that the name ends in.
pub proof fn law_selected_rule_matches(rules: Seq<Seq<Seq<u8>>>, name: Seq<Seq<u8>>, rule: int)
    requires
        instance::named_domains(rules),
        instance::name_domain(name) is Some,
        instance::selected(rules, name) == Some(rule),
    ensures
        0 <= rule < rules.len(),
        exists|j: int|
            0 <= j < rules[rule].len() && holds_alone(#[trigger] rules[rule][j], name) && longest_anchor(
                rules,
                instance::name_domain(name)->0,
                rules[rule][j],
            ),
{
    let labels = instance::name_domain(name)->0;
    let all = instance::entries(rules);
    let wire = domain::wire_of(labels);
    let key = instance::longest_key(all, wire);
    lemma_ends_in_root(labels);
    assert(instance::is_key(all, seq![0u8]));
    lemma_longest_exists(all, wire, seq![0u8]);
    let depth = domain::labels_of(key).len() as int;
    let k = if instance::exact_at(all, key) is Some {
        instance::lemma_exact_rule(all, key)
    } else {
        lemma_match_is_entry(all, key, labels, depth)
    };
    let at = lemma_place_of(rules, k);
    let domain = rules[at.0][at.1];
    lemma_key_of(domain, at.0, key);
    let own = anchor(domain)->0;
    lemma_anchor_kept(domain);
    assert(at.0 == rule);
    law_domain_holds_by_itself(domain, name, labels);
    assert(holds_alone(domain, name));
    assert forall|i: int, j: int| 0 <= i < rules.len() && 0 <= j < rules[i].len() implies match anchor(
        #[trigger] rules[i][j],
    ) {
        Some(other) => ends_in_domain(labels, other) ==> domain::wire_of(other).len() <= domain::wire_of(own).len(),
        None => true,
    } by {
        if let Some(other) = anchor(rules[i][j]) {
            if ends_in_domain(labels, other) {
                lemma_entry_at(rules, i, j);
                lemma_key_of(rules[i][j], i, domain::wire_of(other));
                assert(instance::has_key(all[place(rules, i, j)], domain::wire_of(other)));
                assert(instance::is_key(all, domain::wire_of(other)));
            }
        }
    }
}

/// Where some domain of a rule would hold for a name by itself, and is looked up under the longest
/// domain that the name lies in, some rule holds for the name.
pub proof fn law_longest_match_is_not_missed(rules: Seq<Seq<Seq<u8>>>, name: Seq<Seq<u8>>, i: int, j: int)
    requires
        instance::named_domains(rules),
        instance::name_domain(name) is Some,
        0 <= i < rules.len(),
        0 <= j < rules[i].len(),
        holds_alone(rules[i][j], name),
        longest_anchor(rules, instance::name_domain(name)->0, rules[i][j]),
    ensures
        instance::selected(rules, name) is Some,
{
    let labels = instance::name_domain(name)->0;
    let all = instance::entries(rules);
    let domain = rules[i][j];
    let own = anchor(domain)->0;
    let key = domain::wire_of(own);
    lemma_longest(rules, labels, domain);
    lemma_entry_at(rules, i, j);
    law_domain_holds_by_itself(domain, name, labels);
    if glob::has_wildcard(domain) {
        let _first = lemma_first_of(all, key, labels, own.len() as int, place(rules, i, j));
    } else {
        lemma_exact_among(all, key, place(rules, i, j));
    }
}

/// A rule that names the longest domain that a name ends in holds for it, whatever patterns there
/// are: of several such rules the last.
pub proof fn law_last_rule_for_the_domain_holds(rules: Seq<Seq<Seq<u8>>>, name: Seq<Seq<u8>>, i: int, j: int)
    requires
        instance::named_domains(rules),
        instance::name_domain(name) is Some,
        0 <= i < rules.len(),
        0 <= j < rules[i].len(),
        !glob::has_wildcard(rules[i][j]),
        longest_anchor(rules, instance::name_domain(name)->0, rules[i][j]),
        forall|m: int, n: int|
            0 <= m < rules.len() && 0 <= n < rules[m].len() && (i < m || i == m && j < n) && !glob::has_wildcard(
                #[trigger] rules[m][n],
            ) ==> anchor(rules[m][n]) != anchor(rules[i][j]),
    ensures
        instance::selected(rules, name) == Some(i),
{
    let labels = instance::name_domain(name)->0;
    let all = instance::entries(rules);
    let domain = rules[i][j];
    let own = anchor(domain)->0;
    let key = domain::wire_of(own);
    let k = place(rules, i, j);
    lemma_longest(rules, labels, domain);
    lemma_entry_at(rules, i, j);
    assert forall|n: int| k < n < all.len() implies !((#[trigger] all[n]) matches instance::Entry::Exact {
        key: other,
        ..
    } && other == key) by {
        let at = lemma_place_of(rules, n);
        if at.0 < i {
            lemma_places_in_order(rules, at.0, at.1, i, j);
        }
        let later = rules[at.0][at.1];
        if !glob::has_wildcard(later) && all[n] is Exact {
            lemma_key_of(later, at.0, key);
            if instance::has_key(all[n], key) {
                lemma_anchor_kept(later);
                lemma_anchor_kept(domain);
                assert(anchor(later) == anchor(domain));
            }
        }
    }
    lemma_last_exact(all, key, k, i);
}

/// Where no rule names the longest domain that a name ends in, the first pattern under it that would
/// hold for the name by itself decides.
pub proof fn law_first_matching_pattern_holds(rules: Seq<Seq<Seq<u8>>>, name: Seq<Seq<u8>>, i: int, j: int)
    requires
        instance::named_domains(rules),
        instance::name_domain(name) is Some,
        0 <= i < rules.len(),
        0 <= j < rules[i].len(),
        glob::has_wildcard(rules[i][j]),
        holds_alone(rules[i][j], name),
        longest_anchor(rules, instance::name_domain(name)->0, rules[i][j]),
        forall|m: int, n: int|
            0 <= m < rules.len() && 0 <= n < rules[m].len() && !glob::has_wildcard(#[trigger] rules[m][n]) ==> anchor(
                rules[m][n],
            ) != anchor(rules[i][j]),
        forall|m: int, n: int|
            0 <= m < rules.len() && 0 <= n < rules[m].len() && (m < i || m == i && n < j) && anchor(
                #[trigger] rules[m][n],
            ) == anchor(rules[i][j]) ==> !holds_alone(rules[m][n], name),
    ensures
        instance::selected(rules, name) == Some(i),
{
    let labels = instance::name_domain(name)->0;
    let all = instance::entries(rules);
    let domain = rules[i][j];
    let own = anchor(domain)->0;
    let key = domain::wire_of(own);
    let depth = own.len() as int;
    let k = place(rules, i, j);
    lemma_longest(rules, labels, domain);
    lemma_entry_at(rules, i, j);
    law_domain_holds_by_itself(domain, name, labels);
    assert forall|n: int| 0 <= n < all.len() implies !((#[trigger] all[n]) matches instance::Entry::Exact {
        key: other,
        ..
    } && other == key) by {
        let at = lemma_place_of(rules, n);
        let some = rules[at.0][at.1];
        lemma_key_of(some, at.0, key);
        if instance::has_key(all[n], key) {
            lemma_anchor_kept(some);
            lemma_anchor_kept(domain);
            assert(anchor(some) == anchor(domain));
        }
    }
    lemma_no_exact(all, key);
    assert forall|n: int| 0 <= n < k implies !pattern_fits(#[trigger] all[n], key, labels, depth) by {
        let at = lemma_place_of(rules, n);
        if at.0 > i {
            lemma_places_in_order(rules, i, j, at.0, at.1);
        }
        let some = rules[at.0][at.1];
        lemma_key_of(some, at.0, key);
        if pattern_fits(all[n], key, labels, depth) {
            lemma_anchor_kept(some);
            lemma_anchor_kept(domain);
            assert(anchor(some) == anchor(domain));
            law_domain_holds_by_itself(some, name, labels);
        }
    }
    lemma_first_match(all, key, labels, depth, k);
}

/// The domains of the rules are taken as they are written, in their order. No rule holds for a name
/// that cannot be the domain of one. The rule that an instance has for a name is the one at the place
/// that is chosen.
pub proof fn law_rule_of_an_instance_is_the_chosen_one(config: config::Config, name: Seq<Seq<u8>>, rule: int)
    ensures
        instance::all_domains(config.rules@).len() == config.rules@.len(),
        forall|i: int, j: int|
            #![trigger config.rules@[i].domains@[j]]
            0 <= i < config.rules@.len() && 0 <= j < config.rules@[i].domains@.len() ==> instance::all_domains(
                config.rules@,
            )[i].len() == config.rules@[i].domains@.len() && instance::all_domains(config.rules@)[i][j] == encode_utf8(
                config.rules@[i].domains@[j]@,
            ),
        instance::name_domain(name) is None ==> instance::selected(instance::all_domains(config.rules@), name) is None,
        instance::selected(instance::all_domains(config.rules@), name) == Some(rule) ==> instance::rule_for(config, name)
            == Some(config.rules@[rule]),
        instance::selected(instance::all_domains(config.rules@), name) is None ==> instance::rule_for(
            config,
            name,
        ) is None,
{
}

/// An instance can be made of any rules, few enough to be counted, whose domains have labels of
/// fewer than 35 octets: all that are no patterns must be domain names.
pub proof fn law_rules_with_short_labels_are_usable(rules: Seq<Seq<Seq<u8>>>)
    requires
        instance::named_domains(rules),
        forall|i: int, j: int|
            0 <= i < rules.len() && 0 <= j < rules[i].len() ==> match anchor(#[trigger] rules[i][j]) {
                Some(labels) => trie::short_labels(labels) && domain::wire_of(labels).len() < 0x7fff_ffff,
                None => true,
            },
        instance::entries(rules).len() < 0x7fff_fffe,
    ensures
        instance::usable(rules),
{
    let all = instance::entries(rules);
    assert forall|key: Seq<u8>| #[trigger] instance::is_key(all, key) implies key == domain::wire_of(
        domain::labels_of(key),
    ) && trie::short_labels(domain::labels_of(key)) && key.len() < 0x7fff_ffff by {
        if key == seq![0u8] {
            assert(domain::labels_of(key) =~= Seq::<Seq<u8>>::empty());
        } else {
            let k = choose|k: int| 0 <= k < all.len() && instance::has_key(#[trigger] all[k], key);
            let at = lemma_place_of(rules, k);
            lemma_key_of(rules[at.0][at.1], at.0, key);
            lemma_anchor_kept(rules[at.0][at.1]);
        }
    }
    instance::law_short_domains_are_searchable(rules);
}

} // verus!
