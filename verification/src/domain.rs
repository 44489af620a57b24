//! Fully qualified domain names in the form that rules are looked up by.

use vstd::prelude::*;
use vstd::string::*;
use crate::text;

verus! {

/// Longest label that a domain name of a rule may have.
pub const MAX_DOMAIN_LABEL: usize = 255;

/// Whether `c` may stand in a label: a letter, a digit, `-`, `_` or `#`.
pub open spec fn domain_octet(c: u8) -> bool {
    ||| 97 <= c <= 122
    ||| 65 <= c <= 90
    ||| 48 <= c <= 57
    ||| c == 45
    ||| c == 95
    ||| c == 35
}

/// Whether `label` is a label as it is written: 1 to 255 of the octets allowed.
pub open spec fn written_label(label: Seq<u8>) -> bool {
    &&& 1 <= label.len() <= MAX_DOMAIN_LABEL
    &&& forall|i: int| 0 <= i < label.len() ==> domain_octet(#[trigger] label[i])
}

/// Whether `label` is a label as it is kept: written, and without upper case.
pub open spec fn kept_label(label: Seq<u8>) -> bool {
    &&& 1 <= label.len() <= MAX_DOMAIN_LABEL
    &&& forall|i: int| 0 <= i < label.len() ==> domain_octet(#[trigger] label[i]) && !(65 <= label[i] <= 90)
}

pub open spec fn kept_labels(labels: Seq<Seq<u8>>) -> bool {
    forall|i: int| 0 <= i < labels.len() ==> kept_label(#[trigger] labels[i])
}

/// The labels of the domain name that `text` writes, in lower case, the leftmost first. A dot at
/// the end is allowed, and nothing but it, or nothing at all, is the root, which has no label.
/// `None` where some label is empty, too long, or holds an octet that is not allowed.
pub open spec fn domain_labels(text: Seq<u8>) -> Option<Seq<Seq<u8>>> {
    let bare = text::strip_dot(text);
    let parts = text::split_dots(bare);
    if bare.len() == 0 {
        Some(Seq::<Seq<u8>>::empty())
    } else if forall|i: int| 0 <= i < parts.len() ==> written_label(#[trigger] parts[i]) {
        Some(text::lower_labels(parts))
    } else {
        None
    }
}

/// The wire form of some labels: each behind an octet that holds its length, and a zero octet.
pub open spec fn wire_of(labels: Seq<Seq<u8>>) -> Seq<u8>
    decreases labels.len(),
{
    if labels.len() == 0 {
        seq![0u8]
    } else {
        seq![labels[0].len() as u8] + labels[0] + wire_of(labels.drop_first())
    }
}

/// The labels that a wire form holds.
pub open spec fn labels_of(wire: Seq<u8>) -> Seq<Seq<u8>>
    decreases wire.len(),
{
    if wire.len() == 0 || wire[0] == 0 || wire.len() <= wire[0] {
        Seq::<Seq<u8>>::empty()
    } else {
        seq![wire.subrange(1, 1 + wire[0])] + labels_of(wire.skip(1 + wire[0]))
    }
}

/// Whether `wire` is the wire form of a domain name.
pub open spec fn domain_wire(wire: Seq<u8>) -> bool {
    kept_labels(labels_of(wire)) && wire == wire_of(labels_of(wire))
}

/// A wire form gives back the labels that it was made of.
pub proof fn lemma_labels_of_wire(labels: Seq<Seq<u8>>)
    requires
        kept_labels(labels),
    ensures
        labels_of(wire_of(labels)) == labels,
        domain_wire(wire_of(labels)),
        wire_of(labels).len() > 0,
    decreases labels.len(),
{
    let wire = wire_of(labels);
    if labels.len() == 0 {
        assert(labels_of(wire) =~= labels);
    } else {
        let rest = labels.drop_first();
        assert(kept_label(labels[0]));
        assert forall|i: int| 0 <= i < rest.len() implies kept_label(#[trigger] rest[i]) by {
            assert(kept_label(labels[i + 1]));
        }
        lemma_labels_of_wire(rest);
        assert(wire.subrange(1, 1 + wire[0]) =~= labels[0]);
        assert(wire.skip(1 + wire[0]) =~= wire_of(rest));
        assert(labels_of(wire) =~= labels);
    }
}

/// What text can write is what a name can hold.
pub proof fn lemma_domain_labels_kept(text: Seq<u8>)
    requires
        domain_labels(text) is Some,
    ensures
        kept_labels(domain_labels(text)->0),
{
    let bare = text::strip_dot(text);
    let parts = text::split_dots(bare);
    let labels = domain_labels(text)->0;
    if bare.len() > 0 {
        assert forall|i: int| 0 <= i < labels.len() implies kept_label(#[trigger] labels[i]) by {
            assert(written_label(parts[i]));
            assert(labels[i] == text::lower_all(parts[i]));
            assert forall|j: int| 0 <= j < labels[i].len() implies domain_octet(#[trigger] labels[i][j])
                && !(65 <= labels[i][j] <= 90) by {
                assert(domain_octet(parts[i][j]));
            }
        }
    }
}

/// Letter case does not count in which domain name text writes.
pub proof fn law_domain_case_does_not_count(text: Seq<u8>)
    ensures
        domain_labels(text::lower_all(text)) == domain_labels(text),
{
    let low = text::lower_all(text);
    let bare = text::strip_dot(text);
    assert(text::strip_dot(low) =~= text::lower_all(bare));
    text::lemma_split_lower(bare);
    let parts = text::split_dots(bare);
    let low_parts = text::lower_labels(parts);
    assert forall|i: int| 0 <= i < parts.len() implies (written_label(#[trigger] parts[i]) <==> written_label(
        low_parts[i],
    )) && text::lower_all(low_parts[i]) == text::lower_all(parts[i]) by {
        assert(text::lower_all(low_parts[i]) =~= text::lower_all(parts[i]));
        if written_label(low_parts[i]) {
            assert forall|j: int| 0 <= j < parts[i].len() implies domain_octet(#[trigger] parts[i][j]) by {
                assert(domain_octet(low_parts[i][j]));
            }
        }
    }
    if forall|i: int| 0 <= i < parts.len() ==> written_label(#[trigger] parts[i]) {
        assert forall|i: int| 0 <= i < low_parts.len() implies written_label(#[trigger] low_parts[i]) by {
            assert(written_label(parts[i]));
        }
        if bare.len() > 0 {
            assert(domain_labels(low)->0 =~= domain_labels(text)->0);
        }
    } else {
        let i = choose|i: int| 0 <= i < parts.len() && !written_label(#[trigger] parts[i]);
        assert(!written_label(low_parts[i]));
    }
}

/// A fully qualified domain name. Letter case does not count: it is kept in lower case.
pub struct Domain {
    pub(crate) wire: Vec<u8>,
}

impl View for Domain {
    type V = Seq<u8>;

    /// The wire form.
    closed spec fn view(&self) -> Seq<u8> {
        self.wire@
    }
}

impl Domain {
    #[verifier::type_invariant]
    closed spec fn well_formed(self) -> bool {
        domain_wire(self.wire@)
    }

    /// The labels, the leftmost first.
    pub open spec fn labels(self) -> Seq<Seq<u8>> {
        labels_of(self@)
    }

    /// The name that `text` writes.
    pub fn from_ascii_str(text: &str) -> (r: Option<Domain>)
        ensures
            r is Some <==> domain_labels(text.spec_bytes()) is Some,
            r matches Some(d) ==> d@ == wire_of(domain_labels(text.spec_bytes())->0),
            r matches Some(d) ==> d.labels() == domain_labels(text.spec_bytes())->0,
    {
        proof {
            if domain_labels(text.spec_bytes()) is Some {
                lemma_domain_labels_kept(text.spec_bytes());
                lemma_labels_of_wire(domain_labels(text.spec_bytes())->0);
            }
        }
        read_fqdn(text)
    }

    /// The wire form, with the zero octet at its end.
    pub fn as_bytes(&self) -> (r: &[u8])
        ensures
            r@ == self@,
    {
        self.wire.as_slice()
    }

    /// The root domain.
    pub fn root() -> (r: Domain)
        ensures
            r@ == seq![0u8],
            r.labels() == Seq::<Seq<u8>>::empty(),
    {
        let mut wire: Vec<u8> = Vec::new();
        wire.push(0);
        proof {
            lemma_labels_of_wire(Seq::<Seq<u8>>::empty());
            assert(wire@ =~= seq![0u8]);
        }
        Domain { wire }
    }

    /// How many labels the name has.
    pub fn depth(&self) -> (r: usize)
        ensures
            r == self.labels().len(),
    {
        fqdn_labels(self).len()
    }
}

/// Reads a name with `fqdn::FQDN::from_ascii_str` and takes its wire form. One dot at the end of
/// `text` is dropped, the rest is cut at its dots, a label must have 1 to 255 octets out of
/// letters, digits, `-`, `_` and `#`, and letters come out in lower case.
#[verifier::external_body]
fn read_fqdn(text: &str) -> (r: Option<Domain>)
    ensures
        r is Some <==> domain_labels(text.spec_bytes()) is Some,
        r matches Some(d) ==> d@ == wire_of(domain_labels(text.spec_bytes())->0),
{
    let name = fqdn::FQDN::from_ascii_str(text).ok()?;
    Some(Domain { wire: name.as_bytes().to_vec() })
}

/// The octets of each of some slices.
pub open spec fn octets_of_slices(parts: Seq<&[u8]>) -> Seq<Seq<u8>> {
    Seq::new(parts.len(), |i: int| parts[i]@)
}

/// The labels of a name, the leftmost first.
pub fn fqdn_labels(fqdn: &Domain) -> (labels: Vec<&[u8]>)
    ensures
        octets_of_slices(labels@) == fqdn.labels(),
{
    proof {
        use_type_invariant(fqdn);
    }
    let bytes: &[u8] = fqdn.as_bytes();
    let ghost all = fqdn.labels();
    let mut labels: Vec<&[u8]> = Vec::new();
    let mut pos: usize = 0;
    assert(bytes@.skip(0) =~= bytes@);
    assert(octets_of_slices(labels@) + all =~= all);
    while pos < bytes.len() && bytes[pos] != 0
        invariant
            bytes@ == fqdn@,
            all == fqdn.labels(),
            0 <= pos < bytes@.len(),
            kept_labels(labels_of(bytes@.skip(pos as int))),
            bytes@.skip(pos as int) == wire_of(labels_of(bytes@.skip(pos as int))),
            octets_of_slices(labels@) + labels_of(bytes@.skip(pos as int)) == all,
        decreases bytes@.len() - pos,
    {
        let ghost rest = bytes@.skip(pos as int);
        let ghost done = octets_of_slices(labels@);
        let len: usize = bytes[pos] as usize;
        proof {
            let ls = labels_of(rest);
            assert(rest[0] == bytes@[pos as int]);
            if ls.len() == 0 {
                assert(rest == seq![0u8]);
            }
            assert(kept_label(ls[0]));
            let tail = ls.drop_first();
            assert forall|i: int| 0 <= i < tail.len() implies kept_label(#[trigger] tail[i]) by {
                assert(kept_label(ls[i + 1]));
            }
            lemma_labels_of_wire(tail);
            assert(rest.skip(1 + len) =~= wire_of(tail));
            assert(rest.skip(1 + len) =~= bytes@.skip(pos + 1 + len));
            assert(rest.subrange(1, 1 + len) =~= bytes@.subrange(pos + 1, pos + 1 + len));
            assert(ls =~= seq![rest.subrange(1, 1 + len)] + tail);
        }
        let label: &[u8] = vstd::slice::slice_subrange(bytes, pos + 1, pos + 1 + len);
        labels.push(label);
        pos = pos + 1 + len;
        proof {
            assert(octets_of_slices(labels@) =~= done.push(label@));
            assert(octets_of_slices(labels@) + labels_of(bytes@.skip(pos as int)) =~= all);
        }
    }
    proof {
        let rest = bytes@.skip(pos as int);
        assert(rest[0] == bytes@[pos as int]);
        assert(octets_of_slices(labels@) =~= all);
    }
    labels
}

/// Text writes a domain name where each label between its dots has 1 to 255 octets, all of them
/// letters, digits, `-`, `_` or `#`: the labels in lower case. A dot at the end does not count.
pub proof fn law_labels_make_a_domain(labels: Seq<Seq<u8>>)
    requires
        labels.len() > 0,
        labels.last().len() > 0,
        forall|i: int| 0 <= i < labels.len() ==> !(#[trigger] labels[i]).contains(46u8),
    ensures
        domain_labels(text::join_dots(labels).push(46)) == domain_labels(text::join_dots(labels)),
        domain_labels(text::join_dots(labels)) is Some <==> forall|i: int|
            0 <= i < labels.len() ==> 1 <= (#[trigger] labels[i]).len() <= 255 && forall|j: int|
                #![trigger labels[i][j]]
                0 <= j < labels[i].len() ==> {
                    ||| 97 <= labels[i][j] <= 122
                    ||| 65 <= labels[i][j] <= 90
                    ||| 48 <= labels[i][j] <= 57
                    ||| labels[i][j] == 45
                    ||| labels[i][j] == 95
                    ||| labels[i][j] == 35
                },
        domain_labels(text::join_dots(labels)) matches Some(lowered) ==> lowered == text::lower_labels(labels),
{
    text::lemma_strip_join(labels);
    text::lemma_split_join(labels);
    assert forall|i: int| 0 <= i < labels.len() implies (written_label(#[trigger] labels[i]) <==> 1 <= labels[i].len()
        <= 255 && forall|j: int|
        #![trigger labels[i][j]]
        0 <= j < labels[i].len() ==> {
            ||| 97 <= labels[i][j] <= 122
            ||| 65 <= labels[i][j] <= 90
            ||| 48 <= labels[i][j] <= 57
            ||| labels[i][j] == 45
            ||| labels[i][j] == 95
            ||| labels[i][j] == 35
        }) by {
        let label = labels[i];
        if forall|j: int| #![trigger labels[i][j]] 0 <= j < labels[i].len() ==> {
            ||| 97 <= labels[i][j] <= 122
            ||| 65 <= labels[i][j] <= 90
            ||| 48 <= labels[i][j] <= 57
            ||| labels[i][j] == 45
            ||| labels[i][j] == 95
            ||| labels[i][j] == 35
        } {
            assert forall|j: int| 0 <= j < label.len() implies domain_octet(#[trigger] label[j]) by {
                assert(labels[i][j] == label[j]);
            }
        }
        if written_label(label) {
            assert forall|j: int| #![trigger labels[i][j]] 0 <= j < labels[i].len() implies {
                ||| 97 <= labels[i][j] <= 122
                ||| 65 <= labels[i][j] <= 90
                ||| 48 <= labels[i][j] <= 57
                ||| labels[i][j] == 45
                ||| labels[i][j] == 95
                ||| labels[i][j] == 35
            } by {
                assert(domain_octet(label[j]));
            }
        }
    }
}

} // verus!
