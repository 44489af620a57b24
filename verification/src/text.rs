//! Dotted text, cut into labels and put together again.

use vstd::prelude::*;
use vstd::string::*;
use vstd::utf8::*;

verus! {

/// The octet that separates labels.
pub const DOT: u8 = 46;

/// The pieces of `text` between dots, the empty ones too: one more than there are dots.
pub open spec fn split_dots(text: Seq<u8>) -> Seq<Seq<u8>>
    decreases text.len(),
{
    if text.len() == 0 {
        seq![Seq::<u8>::empty()]
    } else {
        let init = split_dots(text.drop_last());
        if text.last() == DOT {
            init.push(Seq::<u8>::empty())
        } else {
            init.drop_last().push(init.last().push(text.last()))
        }
    }
}

/// `labels` in order, with a dot between any two.
pub open spec fn join_dots(labels: Seq<Seq<u8>>) -> Seq<u8>
    decreases labels.len(),
{
    if labels.len() == 0 {
        Seq::<u8>::empty()
    } else if labels.len() == 1 {
        labels[0]
    } else {
        join_dots(labels.drop_last()) + seq![DOT] + labels.last()
    }
}

/// `text` without one dot at its end, where it has one.
pub open spec fn strip_dot(text: Seq<u8>) -> Seq<u8> {
    if text.len() > 0 && text.last() == DOT {
        text.drop_last()
    } else {
        text
    }
}

/// An ASCII letter in lower case, any other octet as it is.
pub open spec fn lower(c: u8) -> u8 {
    if 65 <= c <= 90 {
        (c + 32) as u8
    } else {
        c
    }
}

/// Every octet of `text` in lower case.
pub open spec fn lower_all(text: Seq<u8>) -> Seq<u8> {
    Seq::new(text.len(), |i: int| lower(text[i]))
}

/// The octets of each of some pieces of text.
pub open spec fn octets_of_all(parts: Seq<&str>) -> Seq<Seq<u8>> {
    Seq::new(parts.len(), |i: int| parts[i].spec_bytes())
}

/// Joining two runs of labels puts a dot between them.
pub proof fn lemma_join_concat(a: Seq<Seq<u8>>, b: Seq<Seq<u8>>)
    requires
        a.len() > 0,
        b.len() > 0,
    ensures
        join_dots(a + b) == join_dots(a) + seq![DOT] + join_dots(b),
    decreases b.len(),
{
    let whole = a + b;
    assert(whole.last() == b.last());
    if b.len() == 1 {
        assert(whole.drop_last() =~= a);
    } else {
        assert(whole.drop_last() =~= a + b.drop_last());
        lemma_join_concat(a, b.drop_last());
        assert(join_dots(whole) =~= join_dots(a) + seq![DOT] + join_dots(b));
    }
}

/// Text is its own pieces, joined.
pub proof fn lemma_join_split(text: Seq<u8>)
    ensures
        join_dots(split_dots(text)) == text,
        split_dots(text).len() > 0,
    decreases text.len(),
{
    if text.len() == 0 {
        assert(split_dots(text)[0] =~= text);
    } else {
        let init = split_dots(text.drop_last());
        let parts = split_dots(text);
        lemma_join_split(text.drop_last());
        if text.last() == DOT {
            assert(parts.drop_last() =~= init);
            assert(join_dots(parts) =~= text);
        } else {
            assert(parts.drop_last() =~= init.drop_last());
            if init.len() == 1 {
                assert(parts[0] =~= text);
            } else {
                assert(parts.last() =~= init.last().push(text.last()));
                assert(join_dots(parts) == join_dots(init.drop_last()) + seq![DOT] + parts.last());
                assert(join_dots(init) == join_dots(init.drop_last()) + seq![DOT] + init.last());
                assert(join_dots(parts) =~= join_dots(init).push(text.last()));
                assert(text.drop_last().push(text.last()) =~= text);
            }
        }
    }
}

/// Labels without dots come back from their joined text.
pub proof fn lemma_split_join(labels: Seq<Seq<u8>>)
    requires
        labels.len() > 0,
        forall|i: int| 0 <= i < labels.len() ==> !(#[trigger] labels[i]).contains(DOT),
    ensures
        split_dots(join_dots(labels)) == labels,
    decreases labels.len(),
{
    let last = labels.last();
    if labels.len() == 1 {
        lemma_split_append(Seq::<u8>::empty(), last);
        assert(Seq::<u8>::empty() + last =~= last);
        assert(split_dots(last) =~= labels);
    } else {
        let init = labels.drop_last();
        lemma_split_join(init);
        let head = join_dots(init) + seq![DOT];
        assert(head.drop_last() =~= join_dots(init));
        assert(split_dots(head) =~= init.push(Seq::<u8>::empty()));
        lemma_split_append(head, last);
        assert(split_dots(head + last) =~= labels);
    }
}

/// Text without a dot lengthens the last piece.
proof fn lemma_split_append(text: Seq<u8>, more: Seq<u8>)
    requires
        !more.contains(DOT),
    ensures
        split_dots(text).len() > 0,
        split_dots(text + more) == split_dots(text).drop_last().push(split_dots(text).last() + more),
    decreases more.len(),
{
    lemma_join_split(text);
    let parts = split_dots(text);
    if more.len() == 0 {
        assert(text + more =~= text);
        assert(parts.last() + more =~= parts.last());
        assert(parts =~= parts.drop_last().push(parts.last()));
    } else {
        let less = more.drop_last();
        assert forall|i: int| 0 <= i < less.len() implies less[i] != DOT by {
            assert(more.contains(more[i]));
        }
        assert(more.contains(more.last()));
        lemma_split_append(text, less);
        assert((text + more).drop_last() =~= text + less);
        let grown = split_dots(text + less);
        assert(grown.drop_last() =~= parts.drop_last());
        assert(grown.last().push(more.last()) =~= parts.last() + more);
    }
}

/// After an ASCII octet a new character begins.
proof fn lemma_boundary_after_ascii(bytes: Seq<u8>, i: int)
    requires
        valid_utf8(bytes),
        0 <= i < bytes.len(),
        bytes[i] < 0x80,
    ensures
        is_char_boundary(bytes, i + 1),
{
    let b = bytes[i];
    assert(b < 0x80 ==> (b & 0xC0) != 0x80) by (bit_vector);
    assert(b < 0x80 ==> (b & 0x80) == 0) by (bit_vector);
    is_char_boundary_iff_not_is_continuation_byte(bytes, i);
    valid_utf8_split(bytes, i);
    let tail = bytes.subrange(i, bytes.len() as int);
    assert(tail[0] == b);
    if i + 1 < bytes.len() {
        let rest = pop_first_scalar(tail);
        assert(rest =~= tail.subrange(1, tail.len() as int));
        assert(valid_utf8(rest));
        is_char_boundary_start_end_of_seq(rest);
        is_char_boundary_iff_not_is_continuation_byte(rest, 0);
        assert(rest[0] == bytes[i + 1]);
        is_char_boundary_iff_not_is_continuation_byte(bytes, i + 1);
    } else {
        is_char_boundary_start_end_of_seq(bytes);
    }
}

/// Whether text can be cut at `i`: at an end of it, or beside an ASCII octet.
pub open spec fn cut_point(bytes: Seq<u8>, i: int) -> bool {
    ||| i == 0
    ||| i == bytes.len()
    ||| 0 < i < bytes.len() && (bytes[i] < 0x80 || bytes[i - 1] < 0x80)
}

proof fn lemma_cut_point(bytes: Seq<u8>, i: int)
    requires
        valid_utf8(bytes),
        cut_point(bytes, i),
    ensures
        is_char_boundary(bytes, i),
{
    is_char_boundary_start_end_of_seq(bytes);
    if 0 < i < bytes.len() {
        if bytes[i] < 0x80 {
            let b = bytes[i];
            assert(b < 0x80 ==> (b & 0xC0) != 0x80) by (bit_vector);
            is_char_boundary_iff_not_is_continuation_byte(bytes, i);
        } else {
            lemma_boundary_after_ascii(bytes, i - 1);
        }
    }
}

/// The part of `text` from octet `from` up to octet `to`.
pub fn cut<'a>(text: &'a str, from: usize, to: usize) -> (part: &'a str)
    requires
        from <= to <= text.spec_bytes().len(),
        cut_point(text.spec_bytes(), from as int),
        cut_point(text.spec_bytes(), to as int),
    ensures
        part.spec_bytes() == text.spec_bytes().subrange(from as int, to as int),
{
    let ghost all = text.spec_bytes();
    proof {
        encode_utf8_valid_utf8(text@);
        lemma_cut_point(all, to as int);
    }
    let (head, _tail) = text.split_at(to);
    let ghost first = head.spec_bytes();
    proof {
        encode_utf8_valid_utf8(head@);
        assert(first =~= all.subrange(0, to as int));
        assert(cut_point(first, from as int));
        lemma_cut_point(first, from as int);
    }
    let (_skipped, part) = head.split_at(from);
    assert(part.spec_bytes() =~= all.subrange(from as int, to as int));
    part
}

/// Cuts `text` at its dots.
pub fn split_labels<'a>(text: &'a str) -> (labels: Vec<&'a str>)
    ensures
        octets_of_all(labels@) == split_dots(text.spec_bytes()),
        labels@.len() > 0,
{
    let bytes: &[u8] = text.as_bytes();
    let ghost all = text.spec_bytes();
    let mut labels: Vec<&'a str> = Vec::new();
    let mut start: usize = 0;
    let mut i: usize = 0;
    assert(all.take(0) =~= Seq::<u8>::empty());
    assert(octets_of_all(labels@).push(all.subrange(0, 0)) =~= split_dots(all.take(0)));
    while i < bytes.len()
        invariant
            bytes@ == all,
            all == text.spec_bytes(),
            0 <= start <= i <= all.len(),
            start == 0 || all[start - 1] == DOT,
            octets_of_all(labels@).push(all.subrange(start as int, i as int)) == split_dots(all.take(i as int)),
        decreases all.len() - i,
    {
        let ghost done = octets_of_all(labels@);
        let ghost open = all.subrange(start as int, i as int);
        let ghost next = all.take(i + 1);
        assert(next.drop_last() =~= all.take(i as int));
        assert(next.last() == all[i as int]);
        if bytes[i] == DOT {
            let label = cut(text, start, i);
            labels.push(label);
            start = i + 1;
            assert(octets_of_all(labels@) =~= done.push(open));
            assert(all.subrange(start as int, i + 1) =~= Seq::<u8>::empty());
        } else {
            assert(all.subrange(start as int, i + 1) =~= open.push(all[i as int]));
            assert(done.push(open).drop_last() =~= done);
        }
        i = i + 1;
    }
    let ghost done = octets_of_all(labels@);
    assert(all.take(i as int) =~= all);
    let label = cut(text, start, i);
    labels.push(label);
    assert(octets_of_all(labels@) =~= done.push(all.subrange(start as int, i as int)));
    labels
}

/// An ASCII letter in lower case, any other octet as it is.
pub fn lower_octet(c: u8) -> (r: u8)
    ensures
        r == lower(c),
{
    if 65 <= c && c <= 90 {
        c + 32
    } else {
        c
    }
}

/// The octets of `text` in lower case.
pub fn lower_octets(text: &[u8]) -> (r: Vec<u8>)
    ensures
        r@ == lower_all(text@),
{
    let mut out: Vec<u8> = Vec::new();
    let mut i: usize = 0;
    while i < text.len()
        invariant
            0 <= i <= text@.len(),
            out@ == lower_all(text@.take(i as int)),
        decreases text@.len() - i,
    {
        out.push(lower_octet(text[i]));
        assert(out@ =~= lower_all(text@.take(i + 1)));
        i = i + 1;
    }
    assert(text@.take(i as int) =~= text@);
    out
}

/// Whether two runs of octets are the same.
pub fn same_octets(a: &[u8], b: &[u8]) -> (r: bool)
    ensures
        r == (a@ == b@),
{
    if a.len() != b.len() {
        return false;
    }
    let mut i: usize = 0;
    while i < a.len()
        invariant
            0 <= i <= a@.len(),
            a@.len() == b@.len(),
            forall|j: int| 0 <= j < i ==> a@[j] == b@[j],
        decreases a@.len() - i,
    {
        if a[i] != b[i] {
            assert(a@[i as int] != b@[i as int]);
            return false;
        }
        i = i + 1;
    }
    assert(a@ =~= b@);
    true
}

/// Whether `octet` occurs in `text`.
pub fn has_octet(text: &[u8], octet: u8) -> (r: bool)
    ensures
        r == text@.contains(octet),
{
    let mut i: usize = 0;
    while i < text.len()
        invariant
            0 <= i <= text@.len(),
            forall|j: int| 0 <= j < i ==> text@[j] != octet,
        decreases text@.len() - i,
    {
        if text[i] == octet {
            assert(text@[i as int] == octet);
            return true;
        }
        i = i + 1;
    }
    false
}

/// Every octet of joined labels is a dot, or one of a label.
pub proof fn lemma_joined_octet(labels: Seq<Seq<u8>>, i: int)
    requires
        0 <= i < join_dots(labels).len(),
    ensures
        join_dots(labels)[i] == DOT || exists|p: int|
            0 <= p < labels.len() && (#[trigger] labels[p]).contains(join_dots(labels)[i]),
    decreases labels.len(),
{
    if labels.len() == 1 {
        assert(labels[0].contains(labels[0][i]));
    } else {
        let init = labels.drop_last();
        let head = join_dots(init);
        if i < head.len() {
            lemma_joined_octet(init, i);
            if head[i] != DOT {
                let p = choose|p: int| 0 <= p < init.len() && (#[trigger] init[p]).contains(head[i]);
                assert(labels[p].contains(head[i]));
            }
        } else if i > head.len() {
            let at = i - head.len() - 1;
            assert(labels[labels.len() - 1].contains(labels.last()[at]));
        }
    }
}

/// Each of some labels in lower case.
pub open spec fn lower_labels(labels: Seq<Seq<u8>>) -> Seq<Seq<u8>> {
    Seq::new(labels.len(), |i: int| lower_all(labels[i]))
}

/// Lower case is cut at dots like any other.
pub proof fn lemma_split_lower(text: Seq<u8>)
    ensures
        split_dots(lower_all(text)) == lower_labels(split_dots(text)),
    decreases text.len(),
{
    let parts = split_dots(text);
    let low = lower_all(text);
    if text.len() == 0 {
        assert(low =~= text);
        assert(lower_labels(parts)[0] =~= parts[0]);
        assert(split_dots(low) =~= lower_labels(parts));
    } else {
        let init = text.drop_last();
        lemma_split_lower(init);
        lemma_join_split(init);
        assert(low.drop_last() =~= lower_all(init));
        let before = split_dots(init);
        if text.last() == DOT {
            assert(lower_all(Seq::<u8>::empty()) =~= Seq::<u8>::empty());
            assert(split_dots(low) =~= lower_labels(parts));
        } else {
            assert(lower_labels(before).last() == lower_all(before.last()));
            assert(lower_all(before.last()).push(low.last()) =~= lower_all(before.last().push(text.last())));
            assert(split_dots(low) =~= lower_labels(parts));
        }
    }
}

/// Labels in lower case are joined to text in lower case.
pub proof fn lemma_join_lower(labels: Seq<Seq<u8>>)
    ensures
        join_dots(lower_labels(labels)) == lower_all(join_dots(labels)),
    decreases labels.len(),
{
    let low = lower_labels(labels);
    if labels.len() == 0 {
        assert(lower_all(join_dots(labels)) =~= Seq::<u8>::empty());
    } else if labels.len() > 1 {
        let init = labels.drop_last();
        lemma_join_lower(init);
        assert(low.drop_last() =~= lower_labels(init));
        assert(join_dots(low) =~= lower_all(join_dots(labels)));
    }
}

/// The decimal digits of a number up to 255.
pub open spec fn decimal(n: u8) -> Seq<u8> {
    if n < 10 {
        seq![(48 + n) as u8]
    } else if n < 100 {
        seq![(48 + n / 10) as u8, (48 + n % 10) as u8]
    } else {
        seq![(48 + n / 100) as u8, (48 + n / 10 % 10) as u8, (48 + n % 10) as u8]
    }
}

/// Puts ASCII text behind ASCII text.
pub fn push_ascii(out: &mut String, piece: &str)
    requires
        is_ascii_chars(old(out)@),
        is_ascii_chars(piece@),
    ensures
        is_ascii_chars(final(out)@),
        encode_utf8(final(out)@) == encode_utf8(old(out)@) + piece.spec_bytes(),
{
    let ghost before = out@;
    out.append(piece);
    proof {
        is_ascii_chars_concat(out@, before, piece@);
        is_ascii_chars_encode_utf8(before);
        is_ascii_chars_encode_utf8(piece@);
        is_ascii_chars_encode_utf8(out@);
        assert(encode_utf8(out@) =~= encode_utf8(before) + piece.spec_bytes());
    }
}

/// A decimal digit as text.
fn digit_text(digit: u8) -> (r: &'static str)
    requires
        digit < 10,
    ensures
        is_ascii_chars(r@),
        r.spec_bytes() == seq![(48 + digit) as u8],
{
    proof {
        reveal_strlit("0");
        reveal_strlit("1");
        reveal_strlit("2");
        reveal_strlit("3");
        reveal_strlit("4");
        reveal_strlit("5");
        reveal_strlit("6");
        reveal_strlit("7");
        reveal_strlit("8");
        reveal_strlit("9");
    }
    let r: &'static str = match digit {
        0 => "0",
        1 => "1",
        2 => "2",
        3 => "3",
        4 => "4",
        5 => "5",
        6 => "6",
        7 => "7",
        8 => "8",
        _ => "9",
    };
    proof {
        is_ascii_chars_encode_utf8(r@);
        assert(r.spec_bytes() =~= seq![(48 + digit) as u8]);
    }
    r
}

/// Puts the decimal digits of a number behind ASCII text.
pub fn push_decimal(out: &mut String, n: u8)
    requires
        is_ascii_chars(old(out)@),
    ensures
        is_ascii_chars(final(out)@),
        encode_utf8(final(out)@) == encode_utf8(old(out)@) + decimal(n),
{
    let ghost before = encode_utf8(out@);
    if n >= 100 {
        push_ascii(out, digit_text(n / 100));
    }
    if n >= 10 {
        push_ascii(out, digit_text(n / 10 % 10));
    }
    push_ascii(out, digit_text(n % 10));
    assert(encode_utf8(out@) =~= before + decimal(n));
}

/// The number that decimal digits write.
pub open spec fn decimal_value(digits: Seq<u8>) -> int
    decreases digits.len(),
{
    if digits.len() == 0 {
        0
    } else {
        decimal_value(digits.drop_last()) * 10 + (digits.last() - 48)
    }
}

/// The decimal digits of a number write it, and do not start with a zero where there are more.
pub proof fn law_digits_write_the_number(n: u8)
    ensures
        decimal_value(decimal(n)) == n,
        1 <= decimal(n).len() <= 3,
        decimal(n).len() > 1 ==> decimal(n)[0] != 48,
        forall|i: int| 0 <= i < decimal(n).len() ==> 48 <= #[trigger] decimal(n)[i] <= 57,
{
    reveal_with_fuel(decimal_value, 4);
    let digits = decimal(n);
    if digits.len() == 1 {
        assert(digits.drop_last().len() == 0);
    } else if digits.len() == 2 {
        assert(digits.drop_last().last() == digits[0]);
        assert(digits.drop_last().drop_last().len() == 0);
    } else {
        assert(digits.drop_last().last() == digits[1]);
        assert(digits.drop_last().drop_last().last() == digits[0]);
    }
}

/// Lower case changes nothing but the letters from `A` to `Z`, of which none is left: each becomes
/// the letter 32 places on.
pub proof fn law_lower_case_changes_letters_only(text: Seq<u8>, i: int)
    requires
        0 <= i < text.len(),
    ensures
        lower_all(text).len() == text.len(),
        65 <= text[i] <= 90 ==> lower_all(text)[i] == text[i] + 32,
        !(65 <= text[i] <= 90) ==> lower_all(text)[i] == text[i],
        lower_all(lower_all(text)) == lower_all(text),
{
    assert(lower_all(lower_all(text)) =~= lower_all(text));
}

/// The pieces of text hold no dot, and with a dot between any two they are the text again: no
/// other pieces are.
pub proof fn law_pieces_lie_between_dots(text: Seq<u8>, pieces: Seq<Seq<u8>>)
    requires
        pieces.len() > 0,
        forall|i: int| 0 <= i < pieces.len() ==> !(#[trigger] pieces[i]).contains(DOT),
    ensures
        join_dots(pieces) == text <==> split_dots(text) == pieces,
        join_dots(seq![text]) == text,
        join_dots(pieces.push(text)) == join_dots(pieces) + seq![46u8] + text,
        forall|i: int| 0 <= i < split_dots(text).len() ==> !(#[trigger] split_dots(text)[i]).contains(46u8),
{
    lemma_split_join(pieces);
    lemma_join_split(text);
    lemma_pieces_without_dots(text);
    assert(pieces.push(text).drop_last() =~= pieces);
}

proof fn lemma_pieces_without_dots(text: Seq<u8>)
    ensures
        split_dots(text).len() > 0,
        forall|i: int| 0 <= i < split_dots(text).len() ==> !(#[trigger] split_dots(text)[i]).contains(DOT),
    decreases text.len(),
{
    let parts = split_dots(text);
    if text.len() > 0 {
        let init = split_dots(text.drop_last());
        lemma_pieces_without_dots(text.drop_last());
        assert forall|i: int| 0 <= i < parts.len() implies !(#[trigger] parts[i]).contains(DOT) by {
            if text.last() == DOT {
                if i < init.len() {
                    assert(parts[i] == init[i]);
                }
            } else if i < init.len() - 1 {
                assert(parts[i] == init[i]);
            } else {
                let last = init[init.len() - 1];
                assert(parts[i] == last.push(text.last()));
                assert forall|j: int| 0 <= j < parts[i].len() implies parts[i][j] != DOT by {
                    if j < last.len() {
                        assert(last.contains(last[j]));
                    }
                }
            }
        }
    }
}

/// Every octet of a label stands in the joined text.
pub proof fn lemma_join_holds(labels: Seq<Seq<u8>>, i: int, octet: u8)
    requires
        0 <= i < labels.len(),
        labels[i].contains(octet),
    ensures
        join_dots(labels).contains(octet),
    decreases labels.len(),
{
    if labels.len() > 1 {
        let init = labels.drop_last();
        let whole = join_dots(labels);
        if i < init.len() {
            lemma_join_holds(init, i, octet);
            let j = choose|j: int| 0 <= j < join_dots(init).len() && join_dots(init)[j] == octet;
            assert(whole[j] == octet);
        } else {
            let j = choose|j: int| 0 <= j < labels.last().len() && labels.last()[j] == octet;
            assert(whole[join_dots(init).len() + 1 + j] == octet);
        }
    }
}

/// Joined labels end in no dot, and are what is left of the text with a dot behind them.
pub proof fn lemma_strip_join(labels: Seq<Seq<u8>>)
    requires
        labels.len() > 0,
        labels.last().len() > 0,
        !labels.last().contains(DOT),
    ensures
        join_dots(labels).len() > 0,
        strip_dot(join_dots(labels)) == join_dots(labels),
        strip_dot(join_dots(labels).push(DOT)) == join_dots(labels),
{
    let whole = join_dots(labels);
    let last = labels.last();
    assert(last.contains(last.last()));
    assert(whole.last() == last.last());
    assert(whole.push(DOT).drop_last() =~= whole);
}

} // verus!
