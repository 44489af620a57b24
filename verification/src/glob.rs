//! Wildcard patterns on the labels of a domain name.

use vstd::prelude::*;
use vstd::string::*;
use crate::domain;
use crate::domain::{fqdn_labels, Domain};
use crate::text;
use crate::text::{cut, has_octet, lower_octets, same_octets, split_labels, DOT};

verus! {

/// `*`: any run of octets within a label.
pub const STAR: u8 = 42;

/// `?`: any single octet of a label.
pub const ANY_ONE: u8 = 63;

/// Longest label of a domain name on the wire.
pub const MAX_LABEL: usize = 63;

/// Whether `pat` matches the whole of `input`: `*` stands for any run of octets, the empty one
/// too, `?` for one octet, and every other octet for itself.
pub open spec fn glob_matches(pat: Seq<u8>, input: Seq<u8>) -> bool
    decreases pat.len(),
{
    if pat.len() == 0 {
        input.len() == 0
    } else if pat.last() == STAR {
        exists|k: int|
            0 <= k <= input.len() && glob_matches(pat.drop_last(), #[trigger] input.take(k))
    } else {
        &&& input.len() > 0
        &&& pat.last() == ANY_ONE || pat.last() == input.last()
        &&& glob_matches(pat.drop_last(), input.drop_last())
    }
}

/// A trailing `*` matches the empty input where the rest of the pattern does.
proof fn lemma_star_empty(pat: Seq<u8>, input: Seq<u8>)
    requires
        pat.len() > 0,
        pat.last() == STAR,
        input.len() == 0,
    ensures
        glob_matches(pat, input) == glob_matches(pat.drop_last(), input),
{
    let rest = pat.drop_last();
    assert(input.take(0) =~= input);
    if glob_matches(rest, input) {
        assert(glob_matches(rest, input.take(0)));
    }
    if glob_matches(pat, input) {
        let k = choose|k: int| 0 <= k <= input.len() && glob_matches(rest, #[trigger] input.take(k));
        assert(k == 0);
    }
}

/// A trailing `*` takes one more octet, or none.
proof fn lemma_star_grows(pat: Seq<u8>, input: Seq<u8>)
    requires
        pat.len() > 0,
        pat.last() == STAR,
        input.len() > 0,
    ensures
        glob_matches(pat, input) == (glob_matches(pat.drop_last(), input) || glob_matches(
            pat,
            input.drop_last(),
        )),
{
    let rest = pat.drop_last();
    let prev = input.drop_last();
    assert(input.take(input.len() as int) =~= input);
    if glob_matches(rest, input) {
        assert(glob_matches(rest, input.take(input.len() as int)));
    }
    if glob_matches(pat, prev) {
        let k = choose|k: int| 0 <= k <= prev.len() && glob_matches(rest, #[trigger] prev.take(k));
        assert(prev.take(k) =~= input.take(k));
        assert(glob_matches(rest, input.take(k)));
    }
    if glob_matches(pat, input) {
        let k = choose|k: int| 0 <= k <= input.len() && glob_matches(rest, #[trigger] input.take(k));
        if k < input.len() {
            assert(prev.take(k) =~= input.take(k));
            assert(glob_matches(rest, prev.take(k)));
        }
    }
}

/// Matches one label against one pattern.
pub fn glob_match(pat: &[u8], input: &[u8]) -> (r: bool)
    requires
        input@.len() <= MAX_LABEL,
    ensures
        r == glob_matches(pat@, input@),
{
    let m: usize = input.len();
    // `dp[j]`: the part of the pattern read so far matches the first `j` octets.
    let mut dp: [bool; 64] = [false; 64];
    dp[0] = true;

    let mut i: usize = 0;
    assert(pat@.take(0) =~= Seq::<u8>::empty());
    while i < pat.len()
        invariant
            0 <= i <= pat@.len(),
            m == input@.len(),
            m <= MAX_LABEL,
            forall|j: int| 0 <= j <= m ==> #[trigger] dp@[j] == glob_matches(pat@.take(i as int), input@.take(j)),
        decreases pat@.len() - i,
    {
        let pc: u8 = pat[i];
        let ghost before = pat@.take(i as int);
        let ghost after = pat@.take(i + 1);
        assert(after.drop_last() =~= before);
        assert(after.last() == pc);
        let mut next: [bool; 64] = [false; 64];
        let mut j: usize = 1;
        if pc == STAR {
            next[0] = dp[0];
            proof {
                lemma_star_empty(after, input@.take(0));
            }
            while j <= m
                invariant
                    1 <= j <= m + 1,
                    m == input@.len(),
                    m <= MAX_LABEL,
                    pc == STAR,
                    after.len() > 0,
                    after.last() == pc,
                    after.drop_last() == before,
                    forall|k: int| 0 <= k <= m ==> #[trigger] dp@[k] == glob_matches(before, input@.take(k)),
                    forall|k: int| 0 <= k < j ==> #[trigger] next@[k] == glob_matches(after, input@.take(k)),
                decreases m + 1 - j,
            {
                next[j] = dp[j] || next[j - 1];
                proof {
                    assert(input@.take(j as int).drop_last() =~= input@.take(j - 1));
                    lemma_star_grows(after, input@.take(j as int));
                }
                j = j + 1;
            }
        } else {
            while j <= m
                invariant
                    1 <= j <= m + 1,
                    m == input@.len(),
                    m <= MAX_LABEL,
                    pc != STAR,
                    after.len() > 0,
                    after.last() == pc,
                    after.drop_last() == before,
                    forall|k: int| 0 <= k <= m ==> #[trigger] dp@[k] == glob_matches(before, input@.take(k)),
                    forall|k: int| 0 <= k < j ==> #[trigger] next@[k] == glob_matches(after, input@.take(k)),
                    forall|k: int| j <= k < 64 ==> !#[trigger] next@[k],
                decreases m + 1 - j,
            {
                assert(input@.take(j as int).drop_last() =~= input@.take(j - 1));
                if pc == ANY_ONE || pc == input[j - 1] {
                    next[j] = dp[j - 1];
                }
                j = j + 1;
            }
        }
        dp = next;
        i = i + 1;
    }
    assert(pat@.take(i as int) =~= pat@);
    assert(input@.take(m as int) =~= input@);
    dp[m]
}

/// What a pattern of one label asks for.
pub enum Pattern {
    /// These octets.
    Literal(Seq<u8>),
    /// Any label.
    AnyLabel,
    /// A label that the glob matches.
    Glob(Seq<u8>),
}

/// Whether a label is what `pattern` asks for.
pub open spec fn pattern_matches(pattern: Pattern, label: Seq<u8>) -> bool {
    match pattern {
        Pattern::Literal(octets) => octets == label,
        Pattern::AnyLabel => true,
        Pattern::Glob(glob) => glob_matches(glob, label),
    }
}

/// Whether `text` holds a wildcard.
pub open spec fn has_wildcard(text: Seq<u8>) -> bool {
    text.contains(STAR) || text.contains(ANY_ONE)
}

/// The pattern that one label of a domain pattern writes. A lone `*` is any label; letter case
/// does not count.
pub open spec fn pattern_of(label: Seq<u8>) -> Pattern {
    if label == seq![STAR] {
        Pattern::AnyLabel
    } else if has_wildcard(label) {
        Pattern::Glob(text::lower_all(label))
    } else {
        Pattern::Literal(text::lower_all(label))
    }
}

/// The index of the last label with a wildcard, or -1.
pub open spec fn last_wildcard(labels: Seq<Seq<u8>>) -> int
    decreases labels.len(),
{
    if labels.len() == 0 {
        -1
    } else if has_wildcard(labels.last()) {
        labels.len() - 1
    } else {
        last_wildcard(labels.drop_last())
    }
}

/// How many labels of a domain pattern are matched one by one: those up to the last one with a
/// wildcard, or all of them where none has one.
pub open spec fn prefix_len(labels: Seq<Seq<u8>>) -> int {
    if last_wildcard(labels) >= 0 {
        last_wildcard(labels) + 1
    } else {
        labels.len() as int
    }
}

/// The two parts of a domain pattern: the labels of the domain that it lies under, and the
/// patterns of the labels left of it, the one next to that domain first. `None` where the text
/// right of the wildcards writes no domain name.
pub open spec fn domain_pattern(text: Seq<u8>) -> Option<(Seq<Seq<u8>>, Seq<Pattern>)> {
    let labels = text::split_dots(text::strip_dot(text));
    let n = prefix_len(labels);
    let patterns = Seq::new(n as nat, |i: int| pattern_of(labels[n - 1 - i]));
    match domain::domain_labels(text::join_dots(labels.skip(n))) {
        Some(suffix) => Some((suffix, patterns)),
        None => None,
    }
}

/// Whether a name of these labels ends in a domain of `suffix_depth` labels with, left of it,
/// labels that the patterns ask for. Labels further left do not count.
pub open spec fn prefix_matches(patterns: Seq<Pattern>, labels: Seq<Seq<u8>>, suffix_depth: int) -> bool {
    &&& labels.len() >= suffix_depth + patterns.len()
    &&& forall|i: int|
        0 <= i < patterns.len() ==> pattern_matches(
            #[trigger] patterns[i],
            labels[labels.len() - suffix_depth - 1 - i],
        )
}

/// Whether no glob meets a label that is longer than those on the wire: the patterns are tried one
/// by one, and only as far as they match.
pub open spec fn globs_meet_labels(patterns: Seq<Pattern>, labels: Seq<Seq<u8>>, suffix_depth: int) -> bool {
    labels.len() >= suffix_depth + patterns.len() ==> forall|i: int|
        0 <= i < patterns.len() && (#[trigger] patterns[i]) is Glob && (forall|k: int|
            0 <= k < i ==> pattern_matches(#[trigger] patterns[k], labels[labels.len() - suffix_depth - 1 - k]))
            ==> labels[labels.len() - suffix_depth - 1 - i].len() <= MAX_LABEL
}

/// What one label of a query must look like.
#[derive(Clone, Debug)]
pub enum LabelPattern {
    Literal(Vec<u8>),
    AnyLabel,
    Glob(Vec<u8>),
}

impl View for LabelPattern {
    type V = Pattern;

    open spec fn view(&self) -> Pattern {
        match self {
            LabelPattern::Literal(octets) => Pattern::Literal(octets@),
            LabelPattern::AnyLabel => Pattern::AnyLabel,
            LabelPattern::Glob(glob) => Pattern::Glob(glob@),
        }
    }
}

/// The models of some patterns.
pub open spec fn patterns_of(patterns: Seq<LabelPattern>) -> Seq<Pattern> {
    Seq::new(patterns.len(), |i: int| patterns[i]@)
}

/// The labels left of a suffix domain, and the rule that they select.
#[derive(Clone, Debug)]
pub struct GlobValue {
    pub prefix: Vec<LabelPattern>,
    pub rule: usize,
}

impl GlobValue {
    /// Whether `query`, which lies under `suffix`, matches.
    pub fn matches(&self, query: &Domain, suffix: &Domain) -> (r: bool)
        requires
            globs_meet_labels(patterns_of(self.prefix@), query.labels(), suffix.labels().len() as int),
        ensures
            r == prefix_matches(patterns_of(self.prefix@), query.labels(), suffix.labels().len() as int),
    {
        let query_labels: Vec<&[u8]> = fqdn_labels(query);
        let suffix_depth: usize = suffix.depth();
        let ghost labels = query.labels();
        assert(labels == domain::octets_of_slices(query_labels@));

        if query_labels.len() < suffix_depth || query_labels.len() - suffix_depth < self.prefix.len() {
            return false;
        }
        let remaining: usize = query_labels.len() - suffix_depth;
        let mut i: usize = 0;
        while i < self.prefix.len()
            invariant
                labels == query.labels(),
                labels == domain::octets_of_slices(query_labels@),
                remaining == labels.len() - suffix_depth,
                suffix_depth == suffix.labels().len(),
                self.prefix@.len() <= remaining <= labels.len(),
                globs_meet_labels(patterns_of(self.prefix@), labels, suffix_depth as int),
                forall|k: int|
                    0 <= k < i ==> pattern_matches(
                        #[trigger] patterns_of(self.prefix@)[k],
                        labels[remaining - 1 - k],
                    ),
            decreases self.prefix@.len() - i,
        {
            assert(labels[remaining - 1 - i] == query_labels@[remaining - 1 - i]@);
            assert(patterns_of(self.prefix@)[i as int] == self.prefix@[i as int]@);
            if !label_matches(&self.prefix[i], query_labels[remaining - 1 - i]) {
                assert(!pattern_matches(patterns_of(self.prefix@)[i as int], labels[remaining - 1 - i]));
                return false;
            }
            i = i + 1;
        }
        true
    }
}

/// What the rules say of one domain: the rule for it and everything under it, and the patterns
/// for what lies under it.
#[derive(Clone)]
pub struct RuleValue {
    pub exact: Option<usize>,
    pub globs: Vec<GlobValue>,
}

impl Default for RuleValue {
    fn default() -> (r: RuleValue)
        ensures
            r.exact is None,
            r.globs@ == Seq::<GlobValue>::empty(),
    {
        RuleValue { exact: None, globs: Vec::new() }
    }
}

/// Whether a domain of a rule is a pattern.
pub fn contains_glob(domain: &str) -> (r: bool)
    ensures
        r == has_wildcard(domain.spec_bytes()),
{
    let bytes: &[u8] = domain.as_bytes();
    has_octet(bytes, STAR) || has_octet(bytes, ANY_ONE)
}

/// Whether a label is what `pattern` asks for.
pub fn label_matches(pattern: &LabelPattern, label: &[u8]) -> (r: bool)
    requires
        pattern@ is Glob ==> label@.len() <= MAX_LABEL,
    ensures
        r == pattern_matches(pattern@, label@),
{
    match pattern {
        LabelPattern::Literal(lit) => same_octets(lit.as_slice(), label),
        LabelPattern::AnyLabel => true,
        LabelPattern::Glob(pat) => glob_match(pat.as_slice(), label),
    }
}

/// Reads one label of a domain pattern.
pub fn parse_label(label: &str) -> (r: LabelPattern)
    ensures
        r@ == pattern_of(label.spec_bytes()),
{
    let bytes: &[u8] = label.as_bytes();
    if bytes.len() == 1 && bytes[0] == STAR {
        assert(bytes@ =~= seq![STAR]);
        LabelPattern::AnyLabel
    } else {
        let lowered: Vec<u8> = lower_octets(bytes);
        if contains_glob(label) {
            LabelPattern::Glob(lowered)
        } else {
            LabelPattern::Literal(lowered)
        }
    }
}

/// Reads a domain pattern: the domain that it lies under, and the patterns of the labels left of
/// that, the nearest first.
pub fn parse_domain_pattern(domain: &str) -> (r: Option<(Domain, Vec<LabelPattern>)>)
    ensures
        r is Some <==> domain_pattern(domain.spec_bytes()) is Some,
        r matches Some((suffix, prefix)) ==> {
            &&& suffix@ == domain::wire_of((domain_pattern(domain.spec_bytes())->0).0)
            &&& suffix.labels() == (domain_pattern(domain.spec_bytes())->0).0
            &&& patterns_of(prefix@) == (domain_pattern(domain.spec_bytes())->0).1
        },
{
    let ghost whole = domain.spec_bytes();
    let bytes: &[u8] = domain.as_bytes();
    let bare: &str = if bytes.len() > 0 && bytes[bytes.len() - 1] == DOT {
        cut(domain, 0, bytes.len() - 1)
    } else {
        domain
    };
    let ghost text = bare.spec_bytes();
    assert(text =~= text::strip_dot(whole));
    let labels: Vec<&str> = split_labels(bare);
    let ghost parts = text::split_dots(text);
    assert(text::octets_of_all(labels@) == parts);

    let mut start: usize = labels.len();
    let mut i: usize = labels.len();
    assert(parts.take(i as int) =~= parts);
    while i > 0
        invariant_except_break
            start == labels@.len(),
            last_wildcard(parts) == last_wildcard(parts.take(i as int)),
        invariant
            text::octets_of_all(labels@) == parts,
            0 <= i <= labels@.len(),
        ensures
            start == prefix_len(parts),
            start <= labels@.len(),
        decreases i,
    {
        let ghost seen = parts.take(i as int);
        assert(seen.drop_last() =~= parts.take(i - 1));
        assert(seen.last() == labels@[i - 1].spec_bytes());
        i = i - 1;
        if contains_glob(labels[i]) {
            start = i + 1;
            break;
        }
    }

    // Octets up to where the suffix begins.
    let total: usize = bare.as_bytes().len();
    let mut offset: usize = 0;
    let mut k: usize = 0;
    proof {
        text::lemma_join_split(text);
    }
    while k < start
        invariant
            text::octets_of_all(labels@) == parts,
            parts == text::split_dots(text),
            text::join_dots(parts) == text,
            text.len() == total,
            0 <= k <= start <= labels@.len(),
            k == 0 ==> offset == 0,
            0 < k ==> offset == text::join_dots(parts.take(k as int)).len() + (if k < parts.len() { 1int } else { 0int }),
            offset <= text.len(),
        decreases start - k,
    {
        let ghost head = parts.take(k as int);
        let ghost longer = parts.take(k + 1);
        let label_len: usize = labels[k].as_bytes().len();
        proof {
            assert(longer =~= head.push(parts[k as int]));
            assert(longer.drop_last() =~= head);
            assert(parts[k as int].len() == label_len);
            if k + 1 < parts.len() {
                let tail = parts.skip(k + 1);
                text::lemma_join_concat(longer, tail);
                assert(longer + tail =~= parts);
            } else {
                assert(longer =~= parts);
            }
            if k == 0 {
                assert(longer =~= seq![parts[0]]);
            } else {
                assert(text::join_dots(longer) == text::join_dots(head) + seq![DOT] + parts[k as int]);
            }
            assert(text::join_dots(longer).len() == offset + label_len);
            assert(text::join_dots(longer).len() <= text.len());
        }
        offset = offset + label_len;
        if k + 1 < labels.len() {
            offset = offset + 1;
        }
        k = k + 1;
    }
    let suffix: Option<Domain> = if start >= labels.len() {
        assert(parts.skip(start as int) =~= Seq::<Seq<u8>>::empty());
        assert(text::strip_dot(text::join_dots(parts.skip(start as int))).len() == 0);
        let root = Domain::root();
        Some(root)
    } else {
        proof {
            let tail = parts.skip(start as int);
            if start > 0 {
                let head = parts.take(start as int);
                text::lemma_join_concat(head, tail);
                assert(head + tail =~= parts);
                assert(text[offset - 1] == DOT);
                assert(text.subrange(offset as int, text.len() as int) =~= text::join_dots(tail));
            } else {
                assert(tail =~= parts);
                assert(text.subrange(0, text.len() as int) =~= text);
            }
        }
        let rest: &str = cut(bare, offset, total);
        Domain::from_ascii_str(rest)
    };
    match suffix {
        None => None,
        Some(suffix) => {
            let mut prefix: Vec<LabelPattern> = Vec::new();
            let mut j: usize = start;
            while j > 0
                invariant
                    text::octets_of_all(labels@) == parts,
                    0 <= j <= start <= labels@.len(),
                    prefix@.len() == start - j,
                    forall|n: int| 0 <= n < prefix@.len() ==> (#[trigger] prefix@[n])@ == pattern_of(parts[start - 1 - n]),
                decreases j,
            {
                j = j - 1;
                assert(parts[j as int] == labels@[j as int].spec_bytes());
                prefix.push(parse_label(labels[j]));
            }
            assert(patterns_of(prefix@) =~= (domain_pattern(whole)->0).1);
            Some((suffix, prefix))
        },
    }
}

/// What matches goes on to match with more labels at its left.
pub proof fn law_subdomains_match_too(
    patterns: Seq<Pattern>,
    labels: Seq<Seq<u8>>,
    more: Seq<Seq<u8>>,
    suffix_depth: int,
)
    requires
        0 <= suffix_depth,
        prefix_matches(patterns, labels, suffix_depth),
    ensures
        prefix_matches(patterns, more + labels, suffix_depth),
{
    let all = more + labels;
    assert forall|i: int| 0 <= i < patterns.len() implies pattern_matches(
        #[trigger] patterns[i],
        all[all.len() - suffix_depth - 1 - i],
    ) by {
        assert(all[all.len() - suffix_depth - 1 - i] == labels[labels.len() - suffix_depth - 1 - i]);
    }
}

proof fn lemma_wildcard_lower(text: Seq<u8>)
    ensures
        has_wildcard(text::lower_all(text)) == has_wildcard(text),
        pattern_of(text::lower_all(text)) == pattern_of(text),
{
    let low = text::lower_all(text);
    if text.contains(STAR) {
        let i = choose|i: int| 0 <= i < text.len() && text[i] == STAR;
        assert(low[i] == STAR);
    }
    if text.contains(ANY_ONE) {
        let i = choose|i: int| 0 <= i < text.len() && text[i] == ANY_ONE;
        assert(low[i] == ANY_ONE);
    }
    if low.contains(STAR) {
        let i = choose|i: int| 0 <= i < low.len() && low[i] == STAR;
        assert(text[i] == STAR);
    }
    if low.contains(ANY_ONE) {
        let i = choose|i: int| 0 <= i < low.len() && low[i] == ANY_ONE;
        assert(text[i] == ANY_ONE);
    }
    assert(text::lower_all(low) =~= low);
    if text == seq![STAR] {
        assert(low =~= seq![STAR]);
    }
    if low == seq![STAR] {
        assert(low[0] == STAR);
        assert(text =~= seq![STAR]);
    }
}

proof fn lemma_last_wildcard_lower(labels: Seq<Seq<u8>>)
    ensures
        last_wildcard(text::lower_labels(labels)) == last_wildcard(labels),
        -1 <= last_wildcard(labels) < labels.len(),
    decreases labels.len(),
{
    if labels.len() > 0 {
        lemma_wildcard_lower(labels.last());
        lemma_last_wildcard_lower(labels.drop_last());
        assert(text::lower_labels(labels).drop_last() =~= text::lower_labels(labels.drop_last()));
    }
}

/// Letter case does not count in what a domain pattern says.
pub proof fn law_pattern_case_does_not_count(text: Seq<u8>)
    ensures
        has_wildcard(text::lower_all(text)) == has_wildcard(text),
        domain_pattern(text::lower_all(text)) == domain_pattern(text),
{
    lemma_wildcard_lower(text);
    let low = text::lower_all(text);
    let bare = text::strip_dot(text);
    assert(text::strip_dot(low) =~= text::lower_all(bare));
    text::lemma_split_lower(bare);
    let labels = text::split_dots(bare);
    let low_labels = text::lower_labels(labels);
    lemma_last_wildcard_lower(labels);
    let n = prefix_len(labels);
    assert(low_labels.skip(n) =~= text::lower_labels(labels.skip(n)));
    text::lemma_join_lower(labels.skip(n));
    domain::law_domain_case_does_not_count(text::join_dots(labels.skip(n)));
    let patterns = Seq::new(n as nat, |i: int| pattern_of(labels[n - 1 - i]));
    let low_patterns = Seq::new(n as nat, |i: int| pattern_of(low_labels[n - 1 - i]));
    assert forall|i: int| 0 <= i < n implies low_patterns[i] == patterns[i] by {
        lemma_wildcard_lower(labels[n - 1 - i]);
    }
    assert(low_patterns =~= patterns);
}

/// A pattern that is put together from two matches what is put together from a match of each, and
/// nothing else.
pub proof fn law_patterns_match_piece_by_piece(first: Seq<u8>, second: Seq<u8>, input: Seq<u8>)
    ensures
        glob_matches(first + second, input) <==> exists|k: int|
            0 <= k <= input.len() && glob_matches(first, #[trigger] input.take(k)) && glob_matches(second, input.skip(k)),
    decreases second.len(),
{
    let pat = first + second;
    let n = input.len() as int;
    if second.len() == 0 {
        assert(pat =~= first);
        assert(input.take(n) =~= input);
        if glob_matches(pat, input) {
            assert(glob_matches(first, input.take(n)) && glob_matches(second, input.skip(n)));
        }
        assert forall|k: int| 0 <= k <= n && glob_matches(first, #[trigger] input.take(k)) && glob_matches(
            second,
            input.skip(k),
        ) implies glob_matches(pat, input) by {
            assert(input.skip(k).len() == n - k);
        }
    } else {
        let less = second.drop_last();
        assert(pat.drop_last() =~= first + less);
        assert(pat.last() == second.last());
        if second.last() == STAR {
            if glob_matches(pat, input) {
                let m = choose|m: int| 0 <= m <= n && glob_matches(pat.drop_last(), #[trigger] input.take(m));
                law_patterns_match_piece_by_piece(first, less, input.take(m));
                let k = choose|k: int|
                    0 <= k <= m && glob_matches(first, #[trigger] input.take(m).take(k)) && glob_matches(
                        less,
                        input.take(m).skip(k),
                    );
                assert(input.take(m).take(k) =~= input.take(k));
                assert(input.take(m).skip(k) =~= input.skip(k).take(m - k));
                assert(glob_matches(second, input.skip(k)));
            }
            assert forall|k: int| 0 <= k <= n && glob_matches(first, #[trigger] input.take(k)) && glob_matches(
                second,
                input.skip(k),
            ) implies glob_matches(pat, input) by {
                let rest = input.skip(k);
                let j = choose|j: int| 0 <= j <= rest.len() && glob_matches(less, #[trigger] rest.take(j));
                let m = k + j;
                assert(input.take(m).take(k) =~= input.take(k));
                assert(input.take(m).skip(k) =~= rest.take(j));
                law_patterns_match_piece_by_piece(first, less, input.take(m));
                assert(glob_matches(pat.drop_last(), input.take(m)));
            }
        } else {
            if glob_matches(pat, input) {
                let prev = input.drop_last();
                law_patterns_match_piece_by_piece(first, less, prev);
                let k = choose|k: int|
                    0 <= k <= prev.len() && glob_matches(first, #[trigger] prev.take(k)) && glob_matches(less, prev.skip(k));
                assert(prev.take(k) =~= input.take(k));
                assert(input.skip(k).drop_last() =~= prev.skip(k));
                assert(input.skip(k).last() == input.last());
                assert(glob_matches(second, input.skip(k)));
            }
            assert forall|k: int| 0 <= k <= n && glob_matches(first, #[trigger] input.take(k)) && glob_matches(
                second,
                input.skip(k),
            ) implies glob_matches(pat, input) by {
                let prev = input.drop_last();
                law_patterns_match_piece_by_piece(first, less, prev);
                assert(input.skip(k).last() == input.last());
                assert(input.skip(k).drop_last() =~= prev.skip(k));
                assert(prev.take(k) =~= input.take(k));
                assert(glob_matches(first, prev.take(k)) && glob_matches(less, prev.skip(k)));
            }
        }
    }
}

/// What the pieces of a pattern match: nothing the empty run alone, `*` every run, `?` every octet
/// alone, and any other octet itself alone.
pub proof fn law_single_octets_match(octet: u8, input: Seq<u8>)
    ensures
        glob_matches(Seq::empty(), input) <==> input.len() == 0,
        glob_matches(seq![42u8], input),
        glob_matches(seq![63u8], input) <==> input.len() == 1,
        octet != 42 && octet != 63 ==> (glob_matches(seq![octet], input) <==> input == seq![octet]),
{
    reveal_with_fuel(glob_matches, 3);
    let none = Seq::<u8>::empty();
    assert(seq![42u8].drop_last() =~= none);
    assert(seq![63u8].drop_last() =~= none);
    assert(seq![octet].drop_last() =~= none);
    assert(glob_matches(none, input.take(0)));
    assert(seq![42u8].last() == STAR);
    if input.len() == 1 {
        assert(input.drop_last().len() == 0);
        if input.last() == octet {
            assert(input =~= seq![octet]);
        }
    }
}

/// A pattern without wildcards matches itself, and nothing else.
pub proof fn law_pattern_without_wildcards_matches_itself(pat: Seq<u8>, input: Seq<u8>)
    requires
        !pat.contains(42u8),
        !pat.contains(63u8),
    ensures
        glob_matches(pat, input) <==> pat == input,
    decreases pat.len(),
{
    if pat.len() == 0 {
        assert(glob_matches(pat, input) ==> pat =~= input);
    } else {
        let less = pat.drop_last();
        assert(pat.contains(pat.last()));
        assert forall|i: int| 0 <= i < less.len() implies less[i] != 42 && less[i] != 63 by {
            assert(pat.contains(pat[i]));
        }
        if input.len() > 0 {
            law_pattern_without_wildcards_matches_itself(less, input.drop_last());
            assert(pat =~= less.push(pat.last()));
            assert(input =~= input.drop_last().push(input.last()));
        }
    }
}

/// A label of a pattern without a wildcard matches a label of a name only where the two are the
/// same but for letter case: they have the same length, and octet by octet the same letters.
pub proof fn law_literal_labels_match_themselves(label: Seq<u8>, name_label: Seq<u8>)
    requires
        !label.contains(42u8),
        !label.contains(63u8),
    ensures
        pattern_matches(pattern_of(label), name_label) <==> label.len() == name_label.len() && forall|i: int|
            0 <= i < label.len() ==> #[trigger] name_label[i] == (if 65 <= label[i] <= 90 {
                label[i] + 32
            } else {
                label[i] as int
            }),
{
    if label == seq![STAR] {
        assert(label.contains(label[0]));
    }
    let low = text::lower_all(label);
    if label.len() == name_label.len() && forall|i: int|
        0 <= i < label.len() ==> #[trigger] name_label[i] == (if 65 <= label[i] <= 90 {
            label[i] + 32
        } else {
            label[i] as int
        }) {
        assert forall|i: int| 0 <= i < low.len() implies low[i] == name_label[i] by {}
        assert(low =~= name_label);
    }
}

/// A label of a pattern matches what it matches as a pattern in lower case, with wildcards or
/// without.
pub proof fn law_labels_match_as_patterns(label: Seq<u8>, name_label: Seq<u8>)
    ensures
        pattern_matches(pattern_of(label), name_label) <==> glob_matches(text::lower_all(label), name_label),
{
    let low = text::lower_all(label);
    lemma_wildcard_lower(label);
    if label == seq![STAR] {
        assert(low =~= seq![42u8]);
        law_single_octets_match(42, name_label);
    } else if !has_wildcard(label) {
        law_pattern_without_wildcards_matches_itself(low, name_label);
    }
}

/// What a pattern of one label asks for: a literal one for the same octets, all of them and no
/// more, and a glob for what it matches.
pub proof fn law_patterns_ask_for_whole_labels(octets: Seq<u8>, label: Seq<u8>)
    ensures
        pattern_matches(Pattern::Literal(octets), label) <==> octets == label,
        pattern_matches(Pattern::Glob(octets), label) <==> glob_matches(octets, label),
        pattern_matches(Pattern::AnyLabel, label),
{
}

/// Patterns are held against the labels next to the domain, one each: with these in the middle,
/// and the last of them against the first pattern. A name with fewer labels does not match.
pub proof fn law_patterns_stand_next_to_the_domain(
    patterns: Seq<Pattern>,
    left: Seq<Seq<u8>>,
    middle: Seq<Seq<u8>>,
    domain: Seq<Seq<u8>>,
)
    ensures
        middle.len() == patterns.len() ==> (prefix_matches(patterns, left + middle + domain, domain.len() as int)
            <==> forall|i: int|
            0 <= i < patterns.len() ==> pattern_matches(#[trigger] patterns[i], middle[middle.len() - 1 - i])),
        middle.len() < patterns.len() ==> !prefix_matches(patterns, middle + domain, domain.len() as int),
{
    let all = left + middle + domain;
    if middle.len() == patterns.len() {
        assert forall|i: int| 0 <= i < patterns.len() implies all[all.len() - domain.len() - 1 - i] == #[trigger] middle[
        middle.len() - 1 - i] by {}
        if prefix_matches(patterns, all, domain.len() as int) {
            assert forall|i: int| 0 <= i < patterns.len() implies pattern_matches(
                #[trigger] patterns[i],
                middle[middle.len() - 1 - i],
            ) by {
                assert(all[all.len() - domain.len() - 1 - i] == middle[middle.len() - 1 - i]);
            }
        }
        if forall|i: int|
            0 <= i < patterns.len() ==> pattern_matches(#[trigger] patterns[i], middle[middle.len() - 1 - i]) {
            assert forall|i: int| 0 <= i < patterns.len() implies pattern_matches(
                #[trigger] patterns[i],
                all[all.len() - domain.len() - 1 - i],
            ) by {
                assert(all[all.len() - domain.len() - 1 - i] == middle[middle.len() - 1 - i]);
            }
        }
    }
}

proof fn lemma_last_wildcard_at(labels: Seq<Seq<u8>>, n: int)
    requires
        0 < n <= labels.len(),
        has_wildcard(labels[n - 1]),
        forall|i: int| n <= i < labels.len() ==> !has_wildcard(#[trigger] labels[i]),
    ensures
        last_wildcard(labels) == n - 1,
    decreases labels.len(),
{
    if n < labels.len() {
        let init = labels.drop_last();
        assert(!has_wildcard(labels[labels.len() - 1]));
        assert forall|i: int| n <= i < init.len() implies !has_wildcard(#[trigger] init[i]) by {
            assert(!has_wildcard(labels[i]));
        }
        lemma_last_wildcard_at(init, n);
    }
}

/// A text with a wildcard is a pattern. The labels behind the last one with a wildcard are the
/// domain that it lies under, in lower case; the labels up to that one are matched one by one, from
/// the right. It says nothing where the labels behind make no domain name.
pub proof fn law_pattern_is_cut_behind_the_last_wildcard(labels: Seq<Seq<u8>>, n: int)
    requires
        0 < n <= labels.len(),
        labels[n - 1].contains(42u8) || labels[n - 1].contains(63u8),
        forall|i: int| n <= i < labels.len() ==> !(#[trigger] labels[i]).contains(42u8) && !labels[i].contains(63u8),
        forall|i: int| 0 <= i < labels.len() ==> !(#[trigger] labels[i]).contains(46u8),
        labels.last().len() > 0,
    ensures
        has_wildcard(text::join_dots(labels)),
        has_wildcard(text::join_dots(labels).push(46)),
        domain_pattern(text::join_dots(labels).push(46)) == domain_pattern(text::join_dots(labels)),
        domain_pattern(text::join_dots(labels)) is Some <==> domain::domain_labels(
            text::join_dots(labels.skip(n)),
        ) is Some,
        domain_pattern(text::join_dots(labels)) matches Some((suffix, patterns)) ==> {
            &&& suffix == text::lower_labels(labels.skip(n))
            &&& patterns.len() == n
            &&& forall|i: int| 0 <= i < n ==> #[trigger] patterns[i] == pattern_of(labels[n - 1 - i])
        },
{
    let text = text::join_dots(labels);
    text::lemma_strip_join(labels);
    text::lemma_split_join(labels);
    lemma_last_wildcard_at(labels, n);
    let tail = labels.skip(n);
    if labels[n - 1].contains(42u8) {
        text::lemma_join_holds(labels, n - 1, 42);
        let j = choose|j: int| 0 <= j < text.len() && text[j] == 42;
        assert(text.push(46)[j] == 42);
    } else {
        text::lemma_join_holds(labels, n - 1, 63);
        let j = choose|j: int| 0 <= j < text.len() && text[j] == 63;
        assert(text.push(46)[j] == 63);
    }
    if tail.len() > 0 {
        assert(tail.last() == labels.last());
        domain::law_labels_make_a_domain(tail);
    } else {
        assert(text::lower_labels(tail) =~= Seq::<Seq<u8>>::empty());
    }
}

} // verus!
