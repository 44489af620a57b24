//! A table of domain names that is searched from the right.

use vstd::prelude::*;
use fqdn::FQDN;
use fqdn_trie::FqdnTrieMap;
use crate::domain;
use crate::domain::Domain;

verus! {

/// Most names that a table can hold, and most octets of a name in it.
pub const MAX_INDEX: usize = 0x7fff_ffff;

/// Whether `wire` ends in `suffix`.
pub open spec fn ends_in(wire: Seq<u8>, suffix: Seq<u8>) -> bool {
    &&& suffix.len() <= wire.len()
    &&& wire.skip(wire.len() - suffix.len()) == suffix
}

/// What a search goes by at one octet of a wire form: the letter, whatever its case, the digit,
/// `#`, `-` or `_`, and 0 for any other octet.
pub open spec fn search_key(c: u8) -> u8 {
    if 65 <= c <= 90 {
        (c + 32) as u8
    } else if domain::domain_octet(c) {
        c
    } else {
        0
    }
}

/// What a search goes by at the octets of a wire form.
pub open spec fn search_keys(wire: Seq<u8>) -> Seq<u8> {
    Seq::new(wire.len(), |i: int| search_key(wire[i]))
}

/// Whether a search can tell `wire` from a name that ends in `suffix`: where it sees `wire` end in
/// `suffix`, it does.
pub open spec fn told_apart(wire: Seq<u8>, suffix: Seq<u8>) -> bool {
    ends_in(search_keys(wire), search_keys(suffix)) ==> ends_in(wire, suffix)
}

/// Whether a search can tell any two of these names apart.
pub open spec fn searchable(wires: Set<Seq<u8>>) -> bool {
    forall|a: Seq<u8>, b: Seq<u8>|
        wires.contains(a) && wires.contains(b) ==> #[trigger] told_apart(a, b)
}

/// What a search goes by at one octet.
fn seen_octet(c: u8) -> (r: u8)
    ensures
        r == search_key(c),
{
    if 65 <= c && c <= 90 {
        c + 32
    } else if (97 <= c && c <= 122) || (48 <= c && c <= 57) || c == 45 || c == 95 || c == 35 {
        c
    } else {
        0
    }
}

/// Whether a search can tell `wire` from a name that ends in `suffix`.
pub fn can_tell_apart(wire: &[u8], suffix: &[u8]) -> (r: bool)
    ensures
        r == told_apart(wire@, suffix@),
{
    let ghost seen = search_keys(wire@);
    let ghost seen_suffix = search_keys(suffix@);
    if suffix.len() > wire.len() {
        return true;
    }
    let total: usize = wire.len();
    let at: usize = total - suffix.len();
    let mut same: bool = true;
    let mut i: usize = 0;
    while i < suffix.len()
        invariant
            at + suffix@.len() == total,
            total == wire@.len(),
            0 <= i <= suffix@.len(),
            seen == search_keys(wire@),
            seen_suffix == search_keys(suffix@),
            forall|j: int| 0 <= j < i ==> seen[at + j] == #[trigger] seen_suffix[j],
            same <==> forall|j: int| 0 <= j < i ==> wire@[at + j] == #[trigger] suffix@[j],
        decreases suffix@.len() - i,
    {
        if seen_octet(wire[at + i]) != seen_octet(suffix[i]) {
            assert(seen.skip(at as int)[i as int] != seen_suffix[i as int]);
            return true;
        }
        if wire[at + i] != suffix[i] {
            same = false;
        }
        i = i + 1;
    }
    proof {
        assert(seen.skip(at as int) =~= seen_suffix);
        if same {
            assert(wire@.skip(at as int) =~= suffix@);
        } else {
            let j = choose|j: int| 0 <= j < suffix@.len() && wire@[at + j] != #[trigger] suffix@[j];
            assert(wire@.skip(at as int)[j] != suffix@[j]);
        }
    }
    same
}

/// A table from domain names to slots, always with an entry for the root: an
/// `fqdn_trie::FqdnTrieMap`, whose contents are named by [`trie_slots`].
#[verifier::external_body]
pub struct SuffixTrie {
    inner: FqdnTrieMap<FQDN, usize>,
}

/// The names in a table, in wire form, with their slots.
pub uninterp spec fn trie_slots(trie: SuffixTrie) -> Map<Seq<u8>, usize>;

impl SuffixTrie {
    pub open spec fn slots(self) -> Map<Seq<u8>, usize> {
        trie_slots(self)
    }

    /// A table with the root alone, made by `FqdnTrieMap::with_key_root`.
    #[verifier::external_body]
    pub(crate) fn with_key_root(slot: usize) -> (r: SuffixTrie)
        ensures
            trie_slots(r) == map![seq![0u8] => slot],
    {
        SuffixTrie { inner: FqdnTrieMap::with_key_root(FQDN::default(), slot) }
    }

    /// The slot of exactly this name, by `FqdnTrieMap::get`.
    #[verifier::external_body]
    pub(crate) fn get(&self, name: &Domain) -> (r: Option<usize>)
        requires
            searchable(trie_slots(*self).dom()),
        ensures
            r is Some <==> trie_slots(*self).contains_key(name@),
            r matches Some(slot) ==> slot == trie_slots(*self)[name@],
    {
        let key = FQDN::from_vec(name.as_bytes().to_vec()).unwrap();
        self.inner.get(&key).copied()
    }

    /// Puts a name in, by `FqdnTrieMap::insert`. The names must stay such that a search can tell
    /// any two of them apart, and within the indices that the table has.
    #[verifier::external_body]
    pub(crate) fn insert(&mut self, name: Domain, slot: usize) -> (r: Option<usize>)
        requires
            searchable(trie_slots(*old(self)).dom().insert(name@)),
            trie_slots(*old(self)).dom().len() < MAX_INDEX,
            name@.len() < MAX_INDEX,
        ensures
            trie_slots(*final(self)) == trie_slots(*old(self)).insert(name@, slot),
            r is Some <==> trie_slots(*old(self)).contains_key(name@),
            r matches Some(before) ==> before == trie_slots(*old(self))[name@],
    {
        let key = FQDN::from_vec(name.as_bytes().to_vec()).unwrap();
        self.inner.insert(key, slot)
    }

    /// The longest name that `name` ends in, octet by octet, with its slot, by
    /// `FqdnTrieMap::lookup_key_value`.
    #[verifier::external_body]
    pub(crate) fn lookup_key_value(&self, name: &Domain) -> (r: (Domain, usize))
        requires
            trie_slots(*self).contains_key(seq![0u8]),
            searchable(trie_slots(*self).dom()),
        ensures
            trie_slots(*self).contains_key(r.0@),
            trie_slots(*self)[r.0@] == r.1,
            ends_in(name@, r.0@),
            forall|key: Seq<u8>| #[trigger]
                trie_slots(*self).contains_key(key) && ends_in(name@, key) ==> key.len() <= r.0@.len(),
    {
        let query = FQDN::from_vec(name.as_bytes().to_vec()).unwrap();
        let (key, slot) = self.inner.lookup_key_value(&query);
        (Domain { wire: key.as_bytes().to_vec() }, *slot)
    }
}

/// Whether every label is kept as domains are, and so short that the octet with its length is none
/// that can stand in a label.
pub open spec fn short_labels(labels: Seq<Seq<u8>>) -> bool {
    domain::kept_labels(labels) && forall|i: int| 0 <= i < labels.len() ==> (#[trigger] labels[i]).len() < 35
}

proof fn lemma_short_tail(labels: Seq<Seq<u8>>)
    requires
        short_labels(labels),
        labels.len() > 0,
    ensures
        short_labels(labels.drop_first()),
        domain::kept_label(labels[0]),
        labels[0].len() < 35,
        domain::wire_of(labels)[0] == labels[0].len(),
        search_key(domain::wire_of(labels)[0]) == 0,
        forall|i: int|
            0 <= i < labels[0].len() ==> #[trigger] domain::wire_of(labels)[1 + i] == labels[0][i] && search_key(
                labels[0][i],
            ) == labels[0][i],
        domain::wire_of(labels).len() == 1 + labels[0].len() + domain::wire_of(labels.drop_first()).len(),
        domain::wire_of(labels).skip(1 + labels[0].len() as int) == domain::wire_of(labels.drop_first()),
{
    let rest = labels.drop_first();
    let wire = domain::wire_of(labels);
    assert forall|i: int| 0 <= i < rest.len() implies domain::kept_label(#[trigger] rest[i]) && rest[i].len() < 35 by {
        assert(domain::kept_label(labels[i + 1]));
    }
    assert(domain::kept_label(labels[0]));
    assert forall|i: int| 0 <= i < labels[0].len() implies #[trigger] wire[1 + i] == labels[0][i] && search_key(
        labels[0][i],
    ) == labels[0][i] by {
        assert(domain::domain_octet(labels[0][i]));
    }
    assert(wire.skip(1 + labels[0].len() as int) =~= domain::wire_of(rest));
}

proof fn lemma_wire_starts(labels: Seq<Seq<u8>>)
    requires
        short_labels(labels),
    ensures
        domain::wire_of(labels).len() > 0,
        search_key(domain::wire_of(labels)[0]) == 0,
{
    if labels.len() > 0 {
        lemma_short_tail(labels);
    }
}

/// Where a search sees no octet of a label, a label begins, or the name ends.
proof fn lemma_label_begins(labels: Seq<Seq<u8>>, at: int) -> (k: int)
    requires
        short_labels(labels),
        0 <= at < domain::wire_of(labels).len(),
        search_key(domain::wire_of(labels)[at]) == 0,
    ensures
        0 <= k <= labels.len(),
        domain::wire_of(labels).skip(at) == domain::wire_of(labels.skip(k)),
        short_labels(labels.skip(k)),
    decreases labels.len(),
{
    let wire = domain::wire_of(labels);
    if at == 0 {
        assert(wire.skip(0) =~= wire);
        assert(labels.skip(0) =~= labels);
        0
    } else {
        lemma_short_tail(labels);
        let first = labels[0].len() as int;
        if at <= first {
            assert(wire[1 + (at - 1)] == labels[0][at - 1]);
            assert(domain::domain_octet(labels[0][at - 1]));
        }
        let rest = labels.drop_first();
        let behind = at - 1 - first;
        assert(wire.skip(1 + first)[behind] == wire[at]);
        let k = lemma_label_begins(rest, behind);
        assert(wire.skip(1 + first).skip(behind) =~= wire.skip(at));
        assert(rest.skip(k) =~= labels.skip(k + 1));
        k + 1
    }
}

/// What a search sees of a name with short labels is all that there is to it.
proof fn lemma_seen_is_all(a: Seq<Seq<u8>>, b: Seq<Seq<u8>>)
    requires
        short_labels(a),
        short_labels(b),
        search_keys(domain::wire_of(a)) == search_keys(domain::wire_of(b)),
    ensures
        domain::wire_of(a) == domain::wire_of(b),
    decreases a.len(),
{
    let wa = domain::wire_of(a);
    let wb = domain::wire_of(b);
    let sa = search_keys(wa);
    let sb = search_keys(wb);
    assert(sa.len() == wa.len() && sb.len() == wb.len());
    if a.len() > 0 {
        lemma_short_tail(a);
        lemma_wire_starts(a.drop_first());
    }
    if b.len() > 0 {
        lemma_short_tail(b);
        lemma_wire_starts(b.drop_first());
    }
    if a.len() > 0 && b.len() > 0 {
        let na = a[0].len() as int;
        let nb = b[0].len() as int;
        assert(wa.skip(1 + na)[0] == wa[1 + na]);
        assert(wb.skip(1 + nb)[0] == wb[1 + nb]);
        if na < nb {
            assert(sb[1 + na] == sa[1 + na]);
            assert(wb[1 + na] == b[0][na]);
            assert(domain::domain_octet(b[0][na]));
        } else if nb < na {
            assert(sb[1 + nb] == sa[1 + nb]);
            assert(wa[1 + nb] == a[0][nb]);
            assert(domain::domain_octet(a[0][nb]));
        }
        let ra = a.drop_first();
        let rb = b.drop_first();
        assert(search_keys(domain::wire_of(ra)) =~= sa.skip(1 + na));
        assert(search_keys(domain::wire_of(rb)) =~= sb.skip(1 + nb));
        lemma_seen_is_all(ra, rb);
        assert forall|i: int| 0 <= i < wa.len() implies wa[i] == wb[i] by {
            if 0 < i <= na {
                assert(wa[1 + (i - 1)] == a[0][i - 1]);
                assert(wb[1 + (i - 1)] == b[0][i - 1]);
                assert(sa[i] == sb[i]);
            } else if na < i {
                assert(wa.skip(1 + na)[i - 1 - na] == wa[i]);
                assert(wb.skip(1 + nb)[i - 1 - nb] == wb[i]);
            }
        }
        assert(wa =~= wb);
    }
}

/// A search can tell apart any two names with labels of fewer than 35 octets.
pub proof fn law_short_labels_are_told_apart(a: Seq<Seq<u8>>, b: Seq<Seq<u8>>)
    requires
        short_labels(a),
        short_labels(b),
    ensures
        told_apart(domain::wire_of(a), domain::wire_of(b)),
{
    let wa = domain::wire_of(a);
    let wb = domain::wire_of(b);
    let sa = search_keys(wa);
    let sb = search_keys(wb);
    if ends_in(sa, sb) {
        let at = wa.len() - wb.len();
        lemma_wire_starts(b);
        assert(sa.skip(at)[0] == sa[at]);
        assert(sb[0] == search_key(wb[0]));
        let k = lemma_label_begins(a, at);
        assert(search_keys(wa.skip(at)) =~= sa.skip(at));
        lemma_seen_is_all(a.skip(k), b);
    }
}

/// A name with labels of fewer than 35 octets ends in another one, octet by octet, exactly where
/// the labels of that one are its last labels.
pub proof fn law_short_labels_end_by_label(a: Seq<Seq<u8>>, b: Seq<Seq<u8>>)
    requires
        short_labels(a),
        short_labels(b),
    ensures
        ends_in(domain::wire_of(a), domain::wire_of(b)) <==> b.len() <= a.len() && a.skip(a.len() - b.len()) == b,
{
    let wa = domain::wire_of(a);
    let wb = domain::wire_of(b);
    if ends_in(wa, wb) {
        let at = wa.len() - wb.len();
        lemma_wire_starts(b);
        assert(wa.skip(at)[0] == wa[at]);
        let k = lemma_label_begins(a, at);
        domain::lemma_labels_of_wire(a.skip(k));
        domain::lemma_labels_of_wire(b);
        assert(a.skip(k) == b);
        assert(a.skip(k).len() == a.len() - k);
    }
    if b.len() <= a.len() && a.skip(a.len() - b.len()) == b {
        lemma_wire_tail(a, a.len() - b.len());
    }
}

/// The wire form of the last labels ends the wire form of all.
pub(crate) proof fn lemma_wire_tail(labels: Seq<Seq<u8>>, k: int)
    requires
        0 <= k <= labels.len(),
    ensures
        ends_in(domain::wire_of(labels), domain::wire_of(labels.skip(k))),
    decreases k,
{
    let wire = domain::wire_of(labels);
    if k == 0 {
        assert(labels.skip(0) =~= labels);
        assert(wire.skip(0) =~= wire);
    } else {
        let rest = labels.drop_first();
        lemma_wire_tail(rest, k - 1);
        assert(rest.skip(k - 1) =~= labels.skip(k));
        let tail = domain::wire_of(labels.skip(k));
        let inner = domain::wire_of(rest);
        assert(wire.skip(wire.len() - tail.len()) =~= inner.skip(inner.len() - tail.len()));
    }
}

/// A search sees two octets as the same where they are, but for letter case, the same octet of a
/// label, or where neither can stand in a label.
pub proof fn law_search_sees_octets_of_labels(a: u8, b: u8)
    ensures
        search_key(a) == search_key(b) <==> {
            ||| a == b
            ||| 65 <= a <= 90 && b == a + 32
            ||| 65 <= b <= 90 && a == b + 32
            ||| !domain::domain_octet(a) && !domain::domain_octet(b)
        },
{
}

} // verus!
