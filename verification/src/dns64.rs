//! Answers for clients that have IPv6 only: IPv4 addresses are put into IPv6 ones under a prefix.

use vstd::prelude::*;
use vstd::string::*;
use vstd::utf8::*;
use crate::config::Rule;
use crate::message;
use crate::message::{DnsData, DnsQuestion, DnsRecord, Header, Name, Packet};
use crate::message::{CLASS_IN, RECURSION_AVAILABLE, RECURSION_DESIRED, RESPONSE};
use crate::message::{TYPE_A, TYPE_AAAA, TYPE_CNAME, TYPE_PTR};
use crate::text;
use crate::text::{push_ascii, push_decimal, split_labels, DOT};
use crate::wire;
use crate::wire::DnsError;

verus! {

/// How many names an alias is followed through.
pub const MAX_CNAME_DEPTH: usize = 11;

/// How many IPv6 addresses lie under one prefix.
pub const PREFIX_SIZE: u128 = 0x1_0000_0000;

/// The flags that a reply takes over from another one.
pub const KEPT_FLAGS: u16 = 0x07b0;

/// The IPv6 address that stands for an IPv4 address: the upper 96 bits of the prefix, and it.
pub open spec fn embed(prefix: u128, address: u32) -> u128 {
    (prefix / PREFIX_SIZE * PREFIX_SIZE + address) as u128
}

/// The low 32 bits of an IPv6 address.
pub open spec fn embedded(address: u128) -> u32 {
    (address % PREFIX_SIZE) as u32
}

/// Whether two IPv6 addresses have the same upper 96 bits.
pub open spec fn same_prefix(a: u128, b: u128) -> bool {
    a / PREFIX_SIZE == b / PREFIX_SIZE
}

/// An IPv4 address comes back from the IPv6 address that stands for it, which lies under the
/// prefix.
pub proof fn law_embedded_address_comes_back(prefix: u128, address: u32)
    ensures
        same_prefix(embed(prefix, address), prefix),
        embedded(embed(prefix, address)) == address,
{
}

/// An IPv6 address under the prefix is the one that stands for its low 32 bits.
pub proof fn law_prefixed_address_is_embedded(prefix: u128, address: u128)
    requires
        same_prefix(address, prefix),
    ensures
        embed(prefix, embedded(address)) == address,
{
}

/// The record that stands for `record`, of this owner, where that holds an IPv4 address.
pub open spec fn aaaa_of(
    prefix: u128,
    owner: Seq<Seq<u8>>,
    record: message::RecordModel,
) -> Option<message::RecordModel> {
    match record.rdata {
        message::DataModel::A(address) => Some(
            message::RecordModel {
                name: owner,
                class: record.class,
                ttl: record.ttl,
                cache_flush: false,
                rdata: message::DataModel::AAAA(embed(prefix, address)),
            },
        ),
        _ => None,
    }
}

/// The record that stands for `a_record`, of the owner `name`.
pub fn synthesize_aaaa(prefix: u128, name: &Name, a_record: &DnsRecord) -> (r: Option<DnsRecord>)
    ensures
        r is Some <==> aaaa_of(prefix, name@, a_record@) is Some,
        r matches Some(record) ==> aaaa_of(prefix, name@, a_record@) == Some(record@),
        r is Some <==> a_record.rdata is A,
        r matches Some(record) ==> {
            &&& a_record.rdata matches DnsData::A(address)
            &&& record.rdata matches DnsData::AAAA(ipv6)
            &&& ipv6 as int % 0x1_0000_0000 == address
            &&& ipv6 as int / 0x1_0000_0000 == prefix as int / 0x1_0000_0000
        },
{
    let address: u32 = match &a_record.rdata {
        DnsData::A(address) => *address,
        _ => return None,
    };
    let ipv6: u128 = prefix / PREFIX_SIZE * PREFIX_SIZE + address as u128;
    Some(DnsRecord {
        name: name.clone(),
        class: a_record.class,
        ttl: a_record.ttl,
        cache_flush: false,
        rdata: DnsData::AAAA(ipv6),
    })
}

/// The name of the first question, or the root.
pub open spec fn first_name(questions: Seq<message::QuestionModel>) -> Seq<Seq<u8>> {
    if questions.len() > 0 {
        questions[0].qname
    } else {
        Seq::empty()
    }
}

/// The name that a query asks for.
pub fn first_query_name(query: &Packet) -> (r: Name)
    ensures
        r@ == first_name(query@.questions),
{
    if query.questions.len() > 0 {
        query.questions[0].qname.clone()
    } else {
        Name::root()
    }
}

/// A query for one name and record type, which asks for recursion.
pub open spec fn query_for(id: u16, name: Seq<Seq<u8>>, record_type: u16) -> message::PacketModel {
    message::PacketModel {
        questions: seq![
            message::QuestionModel { qname: name, qtype: record_type, qclass: CLASS_IN, unicast_response: false },
        ],
        ..message::empty_packet(message::plain_header(id, RECURSION_DESIRED))
    }
}

/// A query for one name and record type, which asks for recursion.
pub fn build_query(id: u16, name: Name, record_type: u16) -> (r: Packet)
    ensures
        r@ == query_for(id, name@, record_type),
{
    let mut query = Packet::new_query(id);
    query.set_flags(RECURSION_DESIRED);
    query.questions.push(DnsQuestion { qname: name, qtype: record_type, qclass: CLASS_IN, unicast_response: false });
    proof {
        assert(0u16 | RECURSION_DESIRED == RECURSION_DESIRED) by (bit_vector);
        assert(query@ =~= query_for(id, name@, record_type));
    }
    query
}

/// The header of a reply that takes over what another reply says of itself.
pub open spec fn header_like(src: Header, id: u16) -> Header {
    Header { id, opcode: src.opcode, rcode: src.rcode, flags: RESPONSE | (src.flags & KEPT_FLAGS), opt: None }
}

/// A reply without questions and records that takes over what `src` says of itself.
pub fn reply_like(src: &Packet, id: u16) -> (r: Packet)
    ensures
        r@ == message::empty_packet(header_like(src.header, id)),
{
    let mut out = Packet::new_reply(id);
    out.header.opcode = src.header.opcode;
    out.header.rcode = src.header.rcode;
    out.set_flags(src.header.flags & KEPT_FLAGS);
    assert(out@ =~= message::empty_packet(header_like(src.header, id)));
    out
}

/// A query that is answered with synthesized addresses, as plain values.
#[verifier::ext_equal]
pub struct LookupModel {
    pub prefix: u128,
    pub force_synth: bool,
    pub query: message::PacketModel,
}

/// A query that is answered with synthesized addresses.
#[derive(Debug)]
pub struct Lookup {
    pub prefix: u128,
    pub force_synth: bool,
    pub query: Packet,
}

impl View for Lookup {
    type V = LookupModel;

    open spec fn view(&self) -> LookupModel {
        LookupModel { prefix: self.prefix, force_synth: self.force_synth, query: self.query@ }
    }
}

impl LookupModel {
    pub open spec fn qname(self) -> Seq<Seq<u8>> {
        first_name(self.query.questions)
    }
}

/// What is known while an upstream server is asked, as plain values.
#[verifier::ext_equal]
pub enum PendingModel {
    Native(LookupModel),
    Chase(LookupModel, Seq<message::RecordModel>, int),
    Reverse(message::PacketModel),
    Verbatim,
}

/// What is known while an upstream server is asked.
#[derive(Debug)]
pub enum Pending {
    /// Asked for real IPv6 addresses.
    Native(Lookup),
    /// Asked for IPv4 addresses, after these records were found behind that many aliases.
    Chase(Lookup, Vec<DnsRecord>, usize),
    /// Asked for the name of an IPv4 address instead of this query.
    Reverse(Packet),
    /// Asked for what the reply is passed on for.
    Verbatim,
}

impl View for Pending {
    type V = PendingModel;

    open spec fn view(&self) -> PendingModel {
        match self {
            Pending::Native(lookup) => PendingModel::Native(lookup@),
            Pending::Chase(lookup, records, hop) => PendingModel::Chase(
                lookup@,
                message::records_of(records@),
                *hop as int,
            ),
            Pending::Reverse(query) => PendingModel::Reverse(query@),
            Pending::Verbatim => PendingModel::Verbatim,
        }
    }
}

/// What comes next, as plain values.
#[verifier::ext_equal]
pub enum StepModel {
    Ask { query: Seq<u8>, qname: Seq<Seq<u8>>, pending: PendingModel },
    Reply(Seq<u8>),
    Fail,
}

/// What comes next in answering a query.
#[derive(Debug)]
pub enum Step {
    /// Ask an upstream server this, for this name, and go on with its reply.
    Ask { query: Vec<u8>, qname: Name, pending: Pending },
    /// Answer with this.
    Reply(Vec<u8>),
}

impl View for Step {
    type V = StepModel;

    open spec fn view(&self) -> StepModel {
        match self {
            Step::Ask { query, qname, pending } => StepModel::Ask {
                query: query@,
                qname: qname@,
                pending: pending@,
            },
            Step::Reply(reply) => StepModel::Reply(reply@),
        }
    }
}

/// Asking a message, where it can be written.
pub open spec fn ask(
    query: message::PacketModel,
    qname: Seq<Seq<u8>>,
    pending: PendingModel,
) -> StepModel {
    match wire::written(query) {
        Some(query) => StepModel::Ask { query, qname, pending },
        None => StepModel::Fail,
    }
}

/// Answering with a message, where it can be written.
pub open spec fn reply(packet: message::PacketModel) -> StepModel {
    match wire::written(packet) {
        Some(bytes) => StepModel::Reply(bytes),
        None => StepModel::Fail,
    }
}

/// Whether some record has this type.
pub open spec fn has_type(records: Seq<message::RecordModel>, code: u16) -> bool {
    exists|i: int| 0 <= i < records.len() && (#[trigger] records[i]).rdata.type_code() == code
}

/// The name that the first record of the type of an alias is one for.
pub open spec fn alias_target(records: Seq<message::RecordModel>) -> Option<Seq<Seq<u8>>>
    decreases records.len(),
{
    if records.len() == 0 {
        None
    } else if records[0].rdata.type_code() == TYPE_CNAME {
        match records[0].rdata {
            message::DataModel::CNAME(target) => Some(target),
            _ => None,
        }
    } else {
        alias_target(records.drop_first())
    }
}

/// What stands in the answer for one record that was found: a synthesized address for an IPv4
/// address, of the name asked for where synthesis is forced; any other record as it is, unless
/// synthesis is forced.
pub open spec fn answer_for(lookup: LookupModel, record: message::RecordModel) -> Option<message::RecordModel> {
    if record.rdata.type_code() == TYPE_A {
        aaaa_of(
            lookup.prefix,
            if lookup.force_synth {
                lookup.qname()
            } else {
                record.name
            },
            record,
        )
    } else if lookup.force_synth {
        None
    } else {
        Some(record)
    }
}

/// What stands in the answer for the records that were found.
pub open spec fn answers_for(lookup: LookupModel, records: Seq<message::RecordModel>) -> Seq<message::RecordModel>
    decreases records.len(),
{
    if records.len() == 0 {
        Seq::empty()
    } else {
        let init = answers_for(lookup, records.drop_last());
        match answer_for(lookup, records.last()) {
            Some(answer) => init.push(answer),
            None => init,
        }
    }
}

/// The reply with what stands for the records that were found.
pub open spec fn synthesized_reply(lookup: LookupModel, records: Seq<message::RecordModel>) -> message::PacketModel {
    message::PacketModel {
        questions: lookup.query.questions,
        answers: answers_for(lookup, records),
        ..message::empty_packet(message::plain_header(lookup.query.header.id, RESPONSE | RECURSION_AVAILABLE))
    }
}

/// Asking for the IPv4 addresses of `current`, after `records` were found behind `hop` aliases,
/// unless these are as many as an alias is followed through.
pub open spec fn chase(
    lookup: LookupModel,
    current: Seq<Seq<u8>>,
    records: Seq<message::RecordModel>,
    hop: int,
) -> StepModel {
    if hop < MAX_CNAME_DEPTH {
        ask(
            query_for(lookup.query.header.id, current, TYPE_A),
            current,
            PendingModel::Chase(lookup, records, hop),
        )
    } else {
        reply(synthesized_reply(lookup, records))
    }
}

/// The first step in answering a query for IPv6 addresses.
pub open spec fn dns64_start(
    prefix: Option<u128>,
    force_synth: bool,
    query: message::PacketModel,
) -> StepModel {
    match prefix {
        None => StepModel::Fail,
        Some(prefix) => {
            let lookup = LookupModel { prefix, force_synth, query };
            if force_synth {
                chase(lookup, lookup.qname(), Seq::empty(), 0)
            } else {
                ask(query, lookup.qname(), PendingModel::Native(lookup))
            }
        },
    }
}

/// The step after a reply of an upstream server to a question for real IPv6 addresses: they are
/// passed on, where there are any.
pub open spec fn after_native(lookup: LookupModel, bytes: Seq<u8>) -> StepModel {
    match wire::parsed_message(bytes) {
        None => StepModel::Fail,
        Some(packet) => if has_type(packet.answers, TYPE_AAAA) {
            StepModel::Reply(bytes)
        } else {
            chase(lookup, lookup.qname(), Seq::empty(), 0)
        },
    }
}

/// The step after a reply of an upstream server to a question for IPv4 addresses: without any,
/// the first alias is followed.
pub open spec fn after_chase(
    lookup: LookupModel,
    records: Seq<message::RecordModel>,
    hop: int,
    bytes: Seq<u8>,
) -> StepModel {
    match wire::parsed_message(bytes) {
        None => StepModel::Fail,
        Some(packet) => {
            let found = records + packet.answers;
            if has_type(packet.answers, TYPE_A) {
                reply(synthesized_reply(lookup, found))
            } else {
                match alias_target(packet.answers) {
                    Some(target) => chase(lookup, target, found, hop + 1),
                    None => reply(synthesized_reply(lookup, found)),
                }
            }
        },
    }
}

/// Whether some octets start like a response with this id.
pub open spec fn own_reply(bytes: Seq<u8>, id: u16) -> bool {
    &&& bytes.len() >= 12
    &&& wire::number_at(bytes, 0) == id
    &&& wire::number_at(bytes, 2) & RESPONSE == RESPONSE
}

fn ask_packet(query: &Packet, qname: Name, pending: Pending) -> (r: Result<Step, DnsError>)
    requires
        wire::countable(query@),
    ensures
        r is Err <==> ask(query@, qname@, pending@) is Fail,
        r matches Ok(step) ==> step@ == ask(query@, qname@, pending@),
        r matches Err(error) ==> error is Wire,
{
    match query.build_bytes_vec_compressed() {
        Ok(query) => Ok(Step::Ask { query, qname, pending }),
        Err(error) => Err(error),
    }
}

fn reply_packet(packet: &Packet) -> (r: Result<Step, DnsError>)
    requires
        wire::countable(packet@),
        packet.header.flags & RESPONSE == RESPONSE,
    ensures
        r is Err <==> reply(packet@) is Fail,
        r matches Ok(step) ==> step@ == reply(packet@),
        r matches Ok(step) ==> (step matches Step::Reply(bytes) && own_reply(bytes@, packet.header.id)),
        r matches Err(error) ==> error is Wire,
{
    match packet.build_bytes_vec_compressed() {
        Ok(bytes) => {
            proof {
                let sent = wire::number_at(bytes@, 2);
                let flags = packet.header.flags;
                assert(sent & RESPONSE == RESPONSE) by (bit_vector)
                    requires
                        sent & 0x87b0u16 == flags & 0x87b0u16,
                        flags & RESPONSE == RESPONSE,
                ;
            }
            Ok(Step::Reply(bytes))
        },
        Err(error) => Err(error),
    }
}

/// Whether some record has this type.
pub fn any_of_type(records: &Vec<DnsRecord>, code: u16) -> (r: bool)
    ensures
        r == has_type(message::records_of(records@), code),
{
    let ghost models = message::records_of(records@);
    let mut i: usize = 0;
    while i < records.len()
        invariant
            models == message::records_of(records@),
            0 <= i <= records@.len(),
            forall|j: int| 0 <= j < i ==> (#[trigger] models[j]).rdata.type_code() != code,
        decreases records@.len() - i,
    {
        assert(models[i as int] == records@[i as int]@);
        if records[i].rdata.type_code() == code {
            return true;
        }
        i = i + 1;
    }
    false
}

/// The name that the first alias is one for.
pub fn cname_target(records: &Vec<DnsRecord>) -> (r: Option<Name>)
    ensures
        r is Some <==> alias_target(message::records_of(records@)) is Some,
        r matches Some(name) ==> alias_target(message::records_of(records@)) == Some(name@),
{
    let ghost models = message::records_of(records@);
    let mut i: usize = 0;
    assert(models.skip(0) =~= models);
    while i < records.len()
        invariant
            models == message::records_of(records@),
            0 <= i <= records@.len(),
            alias_target(models) == alias_target(models.skip(i as int)),
        decreases records@.len() - i,
    {
        assert(models.skip(i as int)[0] == records@[i as int]@);
        assert(models.skip(i as int).drop_first() =~= models.skip(i + 1));
        if records[i].rdata.type_code() == TYPE_CNAME {
            return match &records[i].rdata {
                DnsData::CNAME(target) => Some(target.clone()),
                _ => None,
            };
        }
        i = i + 1;
    }
    assert(models.skip(i as int).len() == 0);
    None
}

fn answer_with(lookup: Lookup, records: Vec<DnsRecord>) -> (r: Result<Step, DnsError>)
    ensures
        r is Err <==> reply(synthesized_reply(lookup@, message::records_of(records@))) is Fail,
        r matches Ok(step) ==> step@ == reply(synthesized_reply(lookup@, message::records_of(records@))),
        r matches Ok(step) ==> (step matches Step::Reply(bytes) && own_reply(bytes@, lookup.query.header.id)),
        r matches Err(error) ==> error is Wire,
{
    let ghost model = lookup@;
    let ghost models = message::records_of(records@);
    let qname: Name = first_query_name(&lookup.query);
    let mut answers: Vec<DnsRecord> = Vec::new();
    assert(message::records_of(answers@) =~= answers_for(model, models.take(0)));
    for record in it: records
        invariant
            models == message::records_of(it.seq()),
            model == lookup@,
            qname@ == model.qname(),
            message::records_of(answers@) == answers_for(model, models.take(it.index() as int)),
    {
        let ghost i = it.index() as int;
        let ghost done = message::records_of(answers@);
        proof {
            assert(models[i] == record@);
            assert(models.take(i + 1).drop_last() =~= models.take(i));
            assert(models.take(i + 1).last() == record@);
        }
        if record.rdata.type_code() == TYPE_A {
            let owner: &Name = if lookup.force_synth {
                &qname
            } else {
                &record.name
            };
            if let Some(aaaa) = synthesize_aaaa(lookup.prefix, owner, &record) {
                answers.push(aaaa);
                assert(message::records_of(answers@) =~= done.push(aaaa@));
            }
        } else if !lookup.force_synth {
            answers.push(record);
            assert(message::records_of(answers@) =~= done.push(record@));
        }
    }
    assert(models.take(models.len() as int) =~= models);
    let mut resp = Packet::new_reply(lookup.query.header.id);
    resp.set_flags(RECURSION_AVAILABLE);
    resp.questions = lookup.query.questions;
    resp.answers = answers;
    proof {
        assert(resp@ =~= synthesized_reply(model, models));
        assert((RESPONSE | RECURSION_AVAILABLE) & RESPONSE == RESPONSE) by (bit_vector);
    }
    reply_packet(&resp)
}

/// The label `ip6`.
pub open spec fn ip6_label() -> Seq<u8> {
    seq![105u8, 112, 54]
}

/// The label `arpa`.
pub open spec fn arpa_label() -> Seq<u8> {
    seq![97u8, 114, 112, 97]
}

/// The label `in-addr`.
pub open spec fn in_addr_label() -> Seq<u8> {
    seq![105u8, 110, 45, 97, 100, 100, 114]
}

/// Whether `c` is a hexadecimal digit.
pub open spec fn hex_digit(c: u8) -> bool {
    48 <= c <= 57 || 65 <= c <= 70 || 97 <= c <= 102
}

/// The value of a hexadecimal digit.
pub open spec fn hex_value(c: u8) -> int {
    if c <= 57 {
        c - 48
    } else if c <= 70 {
        c - 55
    } else {
        c - 87
    }
}

/// The number that labels of one hexadecimal digit write, the least digit first.
pub open spec fn nibbles_value(labels: Seq<Seq<u8>>) -> int
    decreases labels.len(),
{
    if labels.len() == 0 {
        0
    } else {
        nibbles_value(labels.drop_first()) * 16 + hex_value(labels[0][0])
    }
}

/// Whether the labels are those of the reverse name of an IPv6 address.
pub open spec fn ip6_arpa(labels: Seq<Seq<u8>>) -> bool {
    &&& labels.len() == 34
    &&& labels[32] == ip6_label()
    &&& labels[33] == arpa_label()
    &&& forall|i: int| 0 <= i < 32 ==> (#[trigger] labels[i]).len() == 1 && hex_digit(labels[i][0])
}

/// The IPv6 address that these labels are the reverse name of.
pub open spec fn ip6_arpa_address(labels: Seq<Seq<u8>>) -> Option<u128> {
    if ip6_arpa(labels) {
        Some(nibbles_value(labels.take(32)) as u128)
    } else {
        None
    }
}

/// The labels of the reverse name of an IPv4 address.
pub open spec fn ptr_labels(address: u32) -> Seq<Seq<u8>> {
    seq![
        text::decimal((address % 256) as u8),
        text::decimal((address / 256 % 256) as u8),
        text::decimal((address / 65536 % 256) as u8),
        text::decimal((address / 16777216) as u8),
        in_addr_label(),
        arpa_label(),
    ]
}

/// How many numbers can be written with `n` hexadecimal digits.
spec fn hex_span(n: nat) -> int
    decreases n,
{
    if n == 0 {
        1
    } else {
        hex_span((n - 1) as nat) * 16
    }
}

proof fn lemma_hex_span(n: nat)
    requires
        n <= 32,
    ensures
        1 <= hex_span(n) <= 0x1_0000_0000_0000_0000_0000_0000_0000_0000,
    decreases 32 - n,
{
    reveal_with_fuel(hex_span, 33);
    assert(hex_span(32) == 0x1_0000_0000_0000_0000_0000_0000_0000_0000);
    if n < 32 {
        lemma_hex_span(n + 1);
        assert(hex_span(n + 1) == hex_span(n) * 16);
    }
}

/// The labels of the reverse name of an IPv6 address stand for themselves in text.
proof fn lemma_ip6_arpa_plain(labels: Seq<Seq<u8>>)
    requires
        ip6_arpa(labels),
    ensures
        wire::plain_labels(labels),
{
    assert forall|i: int, j: int| 0 <= i < labels.len() && 0 <= j < labels[i].len() implies (#[trigger] labels[i][j])
        < 0x80 && labels[i][j] != DOT && labels[i][j] != wire::BACKSLASH by {
        if i < 32 {
            assert(hex_digit(labels[i][0]));
        }
    }
}

/// Text that holds a backslash, or a character that is not ASCII, is no reverse name.
proof fn lemma_strange_text(text: Seq<u8>, i: int)
    requires
        0 <= i < text.len(),
        text[i] == wire::BACKSLASH || text[i] >= 0x80,
    ensures
        !ip6_arpa(text::split_dots(text)),
{
    let parts = text::split_dots(text);
    text::lemma_join_split(text);
    if ip6_arpa(parts) {
        text::lemma_joined_octet(parts, i);
        let p = choose|p: int| 0 <= p < parts.len() && (#[trigger] parts[p]).contains(text[i]);
        let j = choose|j: int| 0 <= j < parts[p].len() && parts[p][j] == text[i];
        lemma_ip6_arpa_plain(parts);
        assert(parts[p][j] < 0x80);
    }
}

/// The parts of the text of a name are its labels, as far as reverse names go.
proof fn lemma_text_parts(labels: Seq<Seq<u8>>, text: Seq<u8>)
    requires
        wire::plain_labels(labels) ==> text == text::join_dots(labels),
        !wire::plain_labels(labels) ==> exists|i: int|
            0 <= i < text.len() && (text[i] == wire::BACKSLASH || #[trigger] text[i] >= 0x80),
    ensures
        ip6_arpa(labels) <==> ip6_arpa(text::split_dots(text)),
        ip6_arpa(labels) ==> text::split_dots(text) == labels,
{
    if wire::plain_labels(labels) {
        if labels.len() > 0 {
            assert forall|i: int| 0 <= i < labels.len() implies !(#[trigger] labels[i]).contains(DOT) by {
                if labels[i].contains(DOT) {
                    let j = choose|j: int| 0 <= j < labels[i].len() && labels[i][j] == DOT;
                    assert(labels[i][j] != DOT);
                }
            }
            text::lemma_split_join(labels);
        }
    } else {
        let i = choose|i: int| 0 <= i < text.len() && (text[i] == wire::BACKSLASH || #[trigger] text[i] >= 0x80);
        lemma_strange_text(text, i);
        if ip6_arpa(labels) {
            lemma_ip6_arpa_plain(labels);
        }
    }
}

/// The IPv6 address that `name` is the reverse name of.
pub fn parse_ip6_arpa_name(name: &Name) -> (r: Option<u128>)
    ensures
        r == ip6_arpa_address(name@),
{
    let text: String = name.text();
    let ghost bytes = encode_utf8(text@);
    proof {
        lemma_text_parts(name@, bytes);
    }
    let parts: Vec<&str> = split_labels(text.as_str());
    let ghost labels = text::split_dots(bytes);
    assert(text::octets_of_all(parts@) == labels);
    if parts.len() != 34 {
        return None;
    }
    let ip6: &[u8] = parts[32].as_bytes();
    let arpa: &[u8] = parts[33].as_bytes();
    assert(ip6@ == labels[32] && arpa@ == labels[33]);
    if !(ip6.len() == 3 && ip6[0] == 105 && ip6[1] == 112 && ip6[2] == 54) {
        return None;
    }
    assert(ip6@ =~= ip6_label());
    if !(arpa.len() == 4 && arpa[0] == 97 && arpa[1] == 114 && arpa[2] == 112 && arpa[3] == 97) {
        return None;
    }
    assert(arpa@ =~= arpa_label());

    let mut address: u128 = 0;
    let mut i: usize = 32;
    let ghost digits = labels.take(32);
    assert(nibbles_value(digits.skip(32)) == 0);
    while i > 0
        invariant
            0 <= i <= 32,
            parts@.len() == 34,
            labels == text::octets_of_all(parts@),
            digits == labels.take(32),
            address == nibbles_value(digits.skip(i as int)),
            address < hex_span((32 - i) as nat),
            ip6_arpa(name@) <==> ip6_arpa(labels),
            forall|j: int| i <= j < 32 ==> (#[trigger] labels[j]).len() == 1 && hex_digit(labels[j][0]),
        decreases i,
    {
        i = i - 1;
        let label: &[u8] = parts[i].as_bytes();
        assert(label@ == labels[i as int]);
        if label.len() != 1 {
            return None;
        }
        let c: u8 = label[0];
        let value: u8 = if 48 <= c && c <= 57 {
            c - 48
        } else if 65 <= c && c <= 70 {
            c - 55
        } else if 97 <= c && c <= 102 {
            c - 87
        } else {
            assert(!hex_digit(labels[i as int][0]));
            return None;
        };
        proof {
            assert(digits.skip(i as int).drop_first() =~= digits.skip(i + 1));
            assert(digits.skip(i as int)[0] == labels[i as int]);
            lemma_hex_span((32 - i) as nat);
        }
        address = address * 16 + value as u128;
    }
    assert(digits.skip(0) =~= digits);
    Some(address)
}

proof fn lemma_filter_all(labels: Seq<Seq<u8>>)
    requires
        forall|i: int| 0 <= i < labels.len() ==> (#[trigger] labels[i]).len() > 0,
    ensures
        labels.filter(|label: Seq<u8>| label.len() > 0) == labels,
    decreases labels.len(),
{
    let pred = |label: Seq<u8>| label.len() > 0;
    reveal(Seq::filter);
    if labels.len() > 0 {
        lemma_filter_all(labels.drop_last());
        assert(pred(labels.last()));
        assert(labels =~= labels.drop_last().push(labels.last()));
    }
}

/// The reverse name of an IPv4 address is one that text can write.
proof fn lemma_ptr_name(address: u32)
    ensures
        wire::plain_name(text::join_dots(ptr_labels(address))) == Some(ptr_labels(address)),
        !text::join_dots(ptr_labels(address)).contains(wire::BACKSLASH),
{
    let labels = ptr_labels(address);
    let whole = text::join_dots(labels);
    assert forall|i: int| 0 <= i < labels.len() implies !(#[trigger] labels[i]).contains(DOT)
        && !labels[i].contains(wire::BACKSLASH) && 1 <= labels[i].len() <= 7 by {}
    text::lemma_split_join(labels);
    lemma_filter_all(labels);
    reveal_with_fuel(wire::wire_len, 7);
    assert(labels.drop_last().drop_last().drop_last().drop_last().drop_last().drop_last().len() == 0);
    assert(message::message_labels(labels));
    assert forall|i: int| 0 <= i < whole.len() implies whole[i] != wire::BACKSLASH by {
        text::lemma_joined_octet(labels, i);
    }
}

/// The reverse name of an IPv4 address.
pub fn ipv4_ptr_name(address: u32) -> (r: Name)
    ensures
        r@ == ptr_labels(address),
{
    let d: u8 = (address % 256) as u8;
    let c: u8 = (address / 256 % 256) as u8;
    let b: u8 = (address / 65536 % 256) as u8;
    let a: u8 = (address / 16777216) as u8;
    proof {
        reveal_strlit(".");
        reveal_strlit(".in-addr.arpa");
        is_ascii_chars_encode_utf8("."@);
        is_ascii_chars_encode_utf8(".in-addr.arpa"@);
    }
    let mut text: String = String::new();
    assert(encode_utf8(text@) =~= Seq::<u8>::empty());
    push_decimal(&mut text, d);
    push_ascii(&mut text, ".");
    push_decimal(&mut text, c);
    push_ascii(&mut text, ".");
    push_decimal(&mut text, b);
    push_ascii(&mut text, ".");
    push_decimal(&mut text, a);
    push_ascii(&mut text, ".in-addr.arpa");
    proof {
        let labels = ptr_labels(address);
        reveal_with_fuel(text::join_dots, 7);
        assert(".".spec_bytes() =~= seq![DOT]);
        assert(".in-addr.arpa".spec_bytes() =~= seq![DOT] + in_addr_label() + seq![DOT] + arpa_label());
        assert(labels.drop_last().drop_last().drop_last().drop_last().drop_last().len() == 1);
        assert(encode_utf8(text@) =~= text::join_dots(labels));
        lemma_ptr_name(address);
    }
    let name: Result<Name, DnsError> = Name::new(text.as_str());
    name.unwrap()
}

/// The records with this name in place of theirs.
pub open spec fn renamed(records: Seq<message::RecordModel>, name: Seq<Seq<u8>>) -> Seq<message::RecordModel> {
    Seq::new(records.len(), |i: int| message::RecordModel { name, ..records[i] })
}

/// The reply to a query for the name of an IPv6 address, from the one for the IPv4 address in it.
pub open spec fn reverse_reply(query: message::PacketModel, resp: message::PacketModel) -> message::PacketModel {
    let qname = first_name(query.questions);
    message::PacketModel {
        header: header_like(resp.header, query.header.id),
        questions: query.questions,
        answers: renamed(resp.answers, qname),
        name_servers: renamed(resp.name_servers, qname),
        additional_records: renamed(resp.additional_records, qname),
    }
}

/// The first step in answering a query for the name of an address: under the prefix, the IPv4
/// address is asked for; any other query is passed on.
pub open spec fn rdns_start(prefix: Option<u128>, query: message::PacketModel) -> StepModel {
    let qname = first_name(query.questions);
    match prefix {
        None => StepModel::Fail,
        Some(prefix) => match ip6_arpa_address(qname) {
            Some(address) if same_prefix(address, prefix) => {
                let ptr = ptr_labels(embedded(address));
                ask(query_for(query.header.id, ptr, TYPE_PTR), ptr, PendingModel::Reverse(query))
            },
            _ => ask(query, qname, PendingModel::Verbatim),
        },
    }
}

/// The step after a reply of an upstream server.
pub open spec fn after(pending: PendingModel, bytes: Seq<u8>) -> StepModel {
    match pending {
        PendingModel::Native(lookup) => after_native(lookup, bytes),
        PendingModel::Chase(lookup, records, hop) => after_chase(lookup, records, hop, bytes),
        PendingModel::Reverse(query) => match wire::parsed_message(bytes) {
            None => StepModel::Fail,
            Some(resp) => reply(reverse_reply(query, resp)),
        },
        PendingModel::Verbatim => StepModel::Reply(bytes),
    }
}

/// The id that an answer has, unless it is a reply that is passed on.
pub open spec fn own_id(pending: PendingModel) -> u16 {
    match pending {
        PendingModel::Native(lookup) => lookup.query.header.id,
        PendingModel::Chase(lookup, _, _) => lookup.query.header.id,
        PendingModel::Reverse(query) => query.header.id,
        PendingModel::Verbatim => 0,
    }
}

/// Asks for the IPv4 addresses of `current`, after `records` were found behind `hop` aliases, or
/// answers, where these are as many as an alias is followed through.
pub fn chase_a(lookup: Lookup, current: Name, records: Vec<DnsRecord>, hop: usize) -> (r: Result<Step, DnsError>)
    ensures
        r is Err <==> chase(lookup@, current@, message::records_of(records@), hop as int) is Fail,
        r matches Ok(step) ==> step@ == chase(lookup@, current@, message::records_of(records@), hop as int),
        r matches Ok(Step::Reply(bytes)) ==> own_reply(bytes@, lookup.query.header.id),
        r matches Err(error) ==> error is Wire,
{
    if hop < MAX_CNAME_DEPTH {
        let query: Packet = build_query(lookup.query.header.id, current.clone(), TYPE_A);
        ask_packet(&query, current, Pending::Chase(lookup, records, hop))
    } else {
        answer_with(lookup, records)
    }
}

/// Starts to answer a query for IPv6 addresses.
pub fn handle_dns64(query: Packet, rule: &Rule) -> (r: Result<Step, DnsError>)
    requires
        wire::countable(query@),
    ensures
        r is Err <==> dns64_start(rule.dns64_prefix, rule.dns64_force_synth, query@) is Fail,
        r matches Ok(step) ==> step@ == dns64_start(rule.dns64_prefix, rule.dns64_force_synth, query@),
        r matches Err(error) ==> (error is Dns64Disabled <==> rule.dns64_prefix is None),
{
    let Some(prefix) = rule.dns64_prefix else {
        return Err(DnsError::Dns64Disabled);
    };
    let qname: Name = first_query_name(&query);
    let force_synth: bool = rule.dns64_force_synth;
    if force_synth {
        let records: Vec<DnsRecord> = Vec::new();
        assert(message::records_of(records@) =~= Seq::<message::RecordModel>::empty());
        chase_a(Lookup { prefix, force_synth, query }, qname, records, 0)
    } else {
        match query.build_bytes_vec_compressed() {
            Ok(bytes) => Ok(
                Step::Ask { query: bytes, qname, pending: Pending::Native(Lookup { prefix, force_synth, query }) },
            ),
            Err(error) => Err(error),
        }
    }
}

fn rename_all(records: Vec<DnsRecord>, name: &Name) -> (r: Vec<DnsRecord>)
    ensures
        message::records_of(r@) == renamed(message::records_of(records@), name@),
{
    let ghost models = message::records_of(records@);
    let mut out: Vec<DnsRecord> = Vec::new();
    for record in it: records
        invariant
            models == message::records_of(it.seq()),
            out@.len() == it.index(),
            forall|j: int| 0 <= j < out@.len() ==> (#[trigger] out@[j])@ == renamed(models, name@)[j],
    {
        assert(models[it.index() as int] == record@);
        out.push(
            DnsRecord {
                name: name.clone(),
                class: record.class,
                ttl: record.ttl,
                cache_flush: record.cache_flush,
                rdata: record.rdata,
            },
        );
    }
    assert(message::records_of(out@) =~= renamed(models, name@));
    out
}

/// Starts to answer a query for the name of an address.
pub fn handle_dns64_rdns(query: Packet, rule: &Rule) -> (r: Result<Step, DnsError>)
    requires
        wire::countable(query@),
    ensures
        r is Err <==> rdns_start(rule.dns64_prefix, query@) is Fail,
        r matches Ok(step) ==> step@ == rdns_start(rule.dns64_prefix, query@),
        r matches Err(error) ==> (error is Dns64Disabled <==> rule.dns64_prefix is None),
{
    let Some(prefix) = rule.dns64_prefix else {
        return Err(DnsError::Dns64Disabled);
    };
    let qname: Name = first_query_name(&query);
    match parse_ip6_arpa_name(&qname) {
        Some(address) if address / PREFIX_SIZE == prefix / PREFIX_SIZE => {
            let ptr_name: Name = ipv4_ptr_name((address % PREFIX_SIZE) as u32);
            let ptr_query: Packet = build_query(query.header.id, ptr_name.clone(), TYPE_PTR);
            ask_packet(&ptr_query, ptr_name, Pending::Reverse(query))
        },
        _ => ask_packet(&query, qname, Pending::Verbatim),
    }
}

fn answer_reverse(query: Packet, resp: Packet) -> (r: Result<Step, DnsError>)
    ensures
        r is Err <==> reply(reverse_reply(query@, resp@)) is Fail,
        r matches Ok(step) ==> step@ == reply(reverse_reply(query@, resp@)),
        r matches Ok(step) ==> (step matches Step::Reply(bytes) && own_reply(bytes@, query.header.id)),
        r matches Err(error) ==> error is Wire,
{
    let ghost expected = reverse_reply(query@, resp@);
    let qname: Name = first_query_name(&query);
    let mut out: Packet = reply_like(&resp, query.header.id);
    out.questions = query.questions;
    out.answers = rename_all(resp.answers, &qname);
    out.name_servers = rename_all(resp.name_servers, &qname);
    out.additional_records = rename_all(resp.additional_records, &qname);
    proof {
        assert(out@ =~= expected);
        let src = resp.header.flags & KEPT_FLAGS;
        assert((RESPONSE | src) & RESPONSE == RESPONSE) by (bit_vector);
    }
    reply_packet(&out)
}

impl Pending {
    /// Goes on with the reply of an upstream server.
    pub fn resume(self, reply: Vec<u8>) -> (r: Result<Step, DnsError>)
        ensures
            r is Err <==> after(self@, reply@) is Fail,
            r matches Ok(step) ==> step@ == after(self@, reply@),
            r matches Ok(Step::Reply(bytes)) ==> bytes@ == reply@ || own_reply(bytes@, own_id(self@)),
            r matches Err(error) ==> error is Wire,
    {
        match self {
            Pending::Native(lookup) => {
                let packet: Packet = match Packet::parse(reply.as_slice()) {
                    Ok(packet) => packet,
                    Err(error) => return Err(error),
                };
                if any_of_type(&packet.answers, TYPE_AAAA) {
                    return Ok(Step::Reply(reply));
                }
                let qname: Name = first_query_name(&lookup.query);
                let records: Vec<DnsRecord> = Vec::new();
                assert(message::records_of(records@) =~= Seq::<message::RecordModel>::empty());
                chase_a(lookup, qname, records, 0)
            },
            Pending::Chase(lookup, records, hop) => {
                let packet: Packet = match Packet::parse(reply.as_slice()) {
                    Ok(packet) => packet,
                    Err(error) => return Err(error),
                };
                let ghost before = message::records_of(records@);
                let ghost answers = packet@.answers;
                let has_a: bool = any_of_type(&packet.answers, TYPE_A);
                let target: Option<Name> = cname_target(&packet.answers);
                let mut found: Vec<DnsRecord> = records;
                let mut more: Vec<DnsRecord> = packet.answers;
                found.append(&mut more);
                assert(message::records_of(found@) =~= before + answers);
                if has_a {
                    return answer_with(lookup, found);
                }
                match target {
                    Some(target) if hop < MAX_CNAME_DEPTH => chase_a(lookup, target, found, hop + 1),
                    _ => answer_with(lookup, found),
                }
            },
            Pending::Reverse(query) => {
                match Packet::parse(reply.as_slice()) {
                    Ok(resp) => answer_reverse(query, resp),
                    Err(error) => Err(error),
                }
            },
            Pending::Verbatim => Ok(Step::Reply(reply)),
        }
    }
}

/// The most upstream questions that answering takes from here on, with the one that is pending.
pub open spec fn questions_left(pending: PendingModel) -> int {
    match pending {
        PendingModel::Native(_) => MAX_CNAME_DEPTH + 1,
        PendingModel::Chase(_, _, hop) => MAX_CNAME_DEPTH - hop,
        PendingModel::Reverse(_) => 1,
        PendingModel::Verbatim => 1,
    }
}

/// Answering a query takes at most 12 upstream questions, whatever is replied: that many are left
/// at most with the first, at least one is left whenever one is pending, and each reply leaves
/// fewer.
pub proof fn law_questions_run_out(
    prefix: Option<u128>,
    force_synth: bool,
    query: message::PacketModel,
    pending: PendingModel,
    bytes: Seq<u8>,
)
    ensures
        dns64_start(prefix, force_synth, query) matches StepModel::Ask { pending: first, .. } ==> 1 <= questions_left(
            first,
        ) <= MAX_CNAME_DEPTH + 1,
        rdns_start(prefix, query) matches StepModel::Ask { pending: first, .. } ==> questions_left(first) == 1,
        after(pending, bytes) matches StepModel::Ask { pending: next, .. } ==> 1 <= questions_left(next)
            < questions_left(pending),
{
}

/// Where synthesis is forced, every answer is an IPv6 address under the prefix, of the name asked
/// for.
pub proof fn law_forced_answers_are_synthesized(lookup: LookupModel, records: Seq<message::RecordModel>, i: int)
    requires
        lookup.force_synth,
        0 <= i < answers_for(lookup, records).len(),
    ensures
        answers_for(lookup, records)[i].name == lookup.qname(),
        answers_for(lookup, records)[i].rdata matches message::DataModel::AAAA(address) && same_prefix(
            address,
            lookup.prefix,
        ),
    decreases records.len(),
{
    if records.len() > 0 {
        let init = records.drop_last();
        if i < answers_for(lookup, init).len() {
            law_forced_answers_are_synthesized(lookup, init, i);
        }
    }
}

/// Where synthesis is not forced, the records that were found keep their places: an IPv4 address
/// has become the IPv6 address that stands for it, of the same owner, and all else is as it was.
pub proof fn law_unforced_answers_keep_their_places(lookup: LookupModel, records: Seq<message::RecordModel>)
    requires
        !lookup.force_synth,
        forall|i: int|
            0 <= i < records.len() && (#[trigger] records[i]).rdata.type_code() == TYPE_A ==> records[i].rdata is A,
    ensures
        answers_for(lookup, records).len() == records.len(),
        forall|i: int|
            0 <= i < records.len() ==> #[trigger] answers_for(lookup, records)[i] == (if records[i].rdata is A {
                aaaa_of(lookup.prefix, records[i].name, records[i])->0
            } else {
                records[i]
            }),
    decreases records.len(),
{
    if records.len() > 0 {
        let init = records.drop_last();
        assert forall|i: int|
            0 <= i < init.len() && (#[trigger] init[i]).rdata.type_code() == TYPE_A implies init[i].rdata is A by {
            assert(records[i].rdata is A);
        }
        law_unforced_answers_keep_their_places(lookup, init);
        assert(records.last() == records[records.len() - 1]);
    }
}

/// The hexadecimal digit of a value up to 15.
pub open spec fn hex_char(value: int) -> u8 {
    if value < 10 {
        (48 + value) as u8
    } else {
        (87 + value) as u8
    }
}

/// Labels of one hexadecimal digit each that write a number, the least digit first.
pub open spec fn nibble_labels(value: int, n: nat) -> Seq<Seq<u8>>
    decreases n,
{
    if n == 0 {
        Seq::empty()
    } else {
        seq![seq![hex_char(value % 16)]] + nibble_labels(value / 16, (n - 1) as nat)
    }
}

/// The labels of the reverse name of an IPv6 address.
pub open spec fn ip6_arpa_labels(address: u128) -> Seq<Seq<u8>> {
    nibble_labels(address as int, 32) + seq![ip6_label(), arpa_label()]
}

proof fn lemma_nibbles(value: int, n: nat)
    requires
        0 <= value < hex_span(n),
    ensures
        nibble_labels(value, n).len() == n,
        nibbles_value(nibble_labels(value, n)) == value,
        forall|i: int|
            0 <= i < n ==> (#[trigger] nibble_labels(value, n)[i]).len() == 1 && hex_digit(nibble_labels(value, n)[i][0]),
    decreases n,
{
    if n > 0 {
        lemma_nibbles(value / 16, (n - 1) as nat);
        let labels = nibble_labels(value, n);
        assert(labels.drop_first() =~= nibble_labels(value / 16, (n - 1) as nat));
        assert(labels[0][0] == hex_char(value % 16));
        assert forall|i: int| 0 <= i < n implies (#[trigger] labels[i]).len() == 1 && hex_digit(labels[i][0]) by {
            if i > 0 {
                assert(labels[i] == nibble_labels(value / 16, (n - 1) as nat)[i - 1]);
            }
        }
    }
}

/// An IPv6 address comes back from its reverse name.
pub proof fn law_reverse_name_comes_back(address: u128)
    ensures
        ip6_arpa_address(ip6_arpa_labels(address)) == Some(address),
{
    reveal_with_fuel(hex_span, 33);
    assert(hex_span(32) == 0x1_0000_0000_0000_0000_0000_0000_0000_0000);
    lemma_nibbles(address as int, 32);
    let labels = ip6_arpa_labels(address);
    assert(labels.take(32) =~= nibble_labels(address as int, 32));
    assert forall|i: int| 0 <= i < 32 implies (#[trigger] labels[i]).len() == 1 && hex_digit(labels[i][0]) by {
        assert(labels[i] == nibble_labels(address as int, 32)[i]);
    }
    assert(ip6_arpa(labels));
}

/// A query for the name of an address that stands for an IPv4 address becomes one for the name of
/// that IPv4 address.
pub proof fn law_reverse_query_asks_for_embedded(prefix: u128, address: u32, query: message::PacketModel)
    requires
        first_name(query.questions) == ip6_arpa_labels(embed(prefix, address)),
    ensures
        rdns_start(Some(prefix), query) == ask(
            query_for(query.header.id, ptr_labels(address), TYPE_PTR),
            ptr_labels(address),
            PendingModel::Reverse(query),
        ),
{
    law_reverse_name_comes_back(embed(prefix, address));
    law_embedded_address_comes_back(prefix, address);
}

/// Upstream servers, as those see them who ask: what is replied to a query for IPv4 addresses of a
/// name, and to one for IPv6 addresses.
pub struct Upstream {
    pub a: spec_fn(Seq<Seq<u8>>) -> Seq<u8>,
    pub aaaa: spec_fn(Seq<Seq<u8>>) -> Seq<u8>,
}

impl Upstream {
    /// Whether every reply to a query for IPv4 addresses is a message, and every such query can be
    /// written.
    pub open spec fn speaks(self, id: u16) -> bool {
        forall|name: Seq<Seq<u8>>| #[trigger]
            wire::parsed_message((self.a)(name)) is Some && wire::written(query_for(id, name, TYPE_A)) is Some
    }

    /// The answers to a query for IPv4 addresses.
    pub open spec fn answers(self, name: Seq<Seq<u8>>) -> Seq<message::RecordModel> {
        wire::parsed_message((self.a)(name))->0.answers
    }
}

/// What answering comes to when that many questions are put to upstream servers.
pub open spec fn run(step: StepModel, upstream: Upstream, n: nat) -> StepModel
    decreases n,
{
    if n == 0 {
        step
    } else {
        match step {
            StepModel::Ask { qname, pending, .. } => run(
                after(
                    pending,
                    if pending is Native {
                        (upstream.aaaa)(qname)
                    } else {
                        (upstream.a)(qname)
                    },
                ),
                upstream,
                (n - 1) as nat,
            ),
            _ => step,
        }
    }
}

/// The records that are found for a name with that many questions: the answers for it, and, where
/// they hold no IPv4 address but an alias, what is found for the name that it is one for.
pub open spec fn found_records(upstream: Upstream, name: Seq<Seq<u8>>, questions: nat) -> Seq<message::RecordModel>
    decreases questions,
{
    if questions == 0 {
        Seq::empty()
    } else {
        let answers = upstream.answers(name);
        if has_type(answers, TYPE_A) {
            answers
        } else {
            match alias_target(answers) {
                Some(target) => answers + found_records(upstream, target, (questions - 1) as nat),
                None => answers,
            }
        }
    }
}

proof fn lemma_run_ends(step: StepModel, upstream: Upstream, n: nat)
    requires
        !(step is Ask),
    ensures
        run(step, upstream, n) == step,
{
}

proof fn lemma_chase_finds(
    lookup: LookupModel,
    upstream: Upstream,
    current: Seq<Seq<u8>>,
    records: Seq<message::RecordModel>,
    hop: int,
    n: nat,
)
    requires
        0 <= hop <= MAX_CNAME_DEPTH,
        n >= MAX_CNAME_DEPTH - hop,
        upstream.speaks(lookup.query.header.id),
    ensures
        run(chase(lookup, current, records, hop), upstream, n) == reply(
            synthesized_reply(
                lookup,
                records + found_records(upstream, current, (MAX_CNAME_DEPTH - hop) as nat),
            ),
        ),
    decreases MAX_CNAME_DEPTH - hop,
{
    let left = (MAX_CNAME_DEPTH - hop) as nat;
    let all = records + found_records(upstream, current, left);
    if hop == MAX_CNAME_DEPTH {
        assert(all =~= records);
        lemma_run_ends(reply(synthesized_reply(lookup, records)), upstream, n);
    } else {
        let bytes = (upstream.a)(current);
        assert(wire::parsed_message(bytes) is Some);
        let answers = upstream.answers(current);
        let found = records + answers;
        let rest = (n - 1) as nat;
        assert(run(chase(lookup, current, records, hop), upstream, n) == run(
            after_chase(lookup, records, hop, bytes),
            upstream,
            rest,
        ));
        if !has_type(answers, TYPE_A) && alias_target(answers) is Some {
            let target = alias_target(answers)->0;
            lemma_chase_finds(lookup, upstream, target, found, hop + 1, rest);
            assert(found + found_records(upstream, target, (left - 1) as nat) =~= all);
        } else {
            lemma_run_ends(reply(synthesized_reply(lookup, found)), upstream, rest);
        }
    }
}

/// Aliases are followed through as many questions as there may be, and what is found on the way is
/// answered: at once where synthesis is forced, and else where there are no real IPv6 addresses,
/// which are passed on.
pub proof fn law_aliases_are_followed(prefix: u128, force_synth: bool, query: message::PacketModel, upstream: Upstream)
    requires
        upstream.speaks(query.header.id),
        force_synth || wire::written(query) is Some,
        force_synth || wire::parsed_message((upstream.aaaa)(first_name(query.questions))) is Some,
    ensures
        run(dns64_start(Some(prefix), force_synth, query), upstream, MAX_CNAME_DEPTH as nat + 1) == {
            let lookup = LookupModel { prefix, force_synth, query };
            let native = (upstream.aaaa)(lookup.qname());
            if !force_synth && has_type(wire::parsed_message(native)->0.answers, TYPE_AAAA) {
                StepModel::Reply(native)
            } else {
                reply(
                    synthesized_reply(lookup, found_records(upstream, lookup.qname(), MAX_CNAME_DEPTH as nat)),
                )
            }
        },
{
    let lookup = LookupModel { prefix, force_synth, query };
    let qname = lookup.qname();
    let none = Seq::<message::RecordModel>::empty();
    let n = MAX_CNAME_DEPTH as nat;
    assert(none + found_records(upstream, qname, n) =~= found_records(upstream, qname, n));
    if force_synth {
        lemma_chase_finds(lookup, upstream, qname, none, 0, n + 1);
    } else {
        let start = dns64_start(Some(prefix), force_synth, query);
        let native = (upstream.aaaa)(qname);
        assert(run(start, upstream, n + 1) == run(after_native(lookup, native), upstream, n));
        lemma_chase_finds(lookup, upstream, qname, none, 0, n);
    }
}

/// The record that stands for one with an IPv4 address holds an IPv6 address whose low 32 bits are
/// that address and whose upper 96 bits are those of the prefix. It has the owner that it is given,
/// and the class and time to live of the other. No other record has one that stands for it.
pub proof fn law_synthesized_record_holds_the_address(
    prefix: u128,
    owner: Seq<Seq<u8>>,
    record: message::RecordModel,
    address: u32,
)
    ensures
        aaaa_of(prefix, owner, record) is Some <==> record.rdata is A,
        record.rdata == message::DataModel::A(address) ==> {
            let synthesized = aaaa_of(prefix, owner, record)->0;
            &&& synthesized.rdata matches message::DataModel::AAAA(ipv6)
            &&& ipv6 as int % 0x1_0000_0000 == address
            &&& ipv6 as int / 0x1_0000_0000 == prefix as int / 0x1_0000_0000
            &&& synthesized.name == owner
            &&& synthesized.class == record.class
            &&& synthesized.ttl == record.ttl
            &&& !synthesized.cache_flush
        },
{
}

/// Whatever is found is answered record by record, in its order.
pub proof fn law_records_are_answered_in_order(
    lookup: LookupModel,
    first: Seq<message::RecordModel>,
    more: Seq<message::RecordModel>,
)
    ensures
        answers_for(lookup, Seq::empty()).len() == 0,
        answers_for(lookup, first + more) == answers_for(lookup, first) + answers_for(lookup, more),
    decreases more.len(),
{
    if more.len() == 0 {
        assert(first + more =~= first);
        assert(answers_for(lookup, first) + answers_for(lookup, more) =~= answers_for(lookup, first));
    } else {
        law_records_are_answered_in_order(lookup, first, more.drop_last());
        assert((first + more).drop_last() =~= first + more.drop_last());
        assert((first + more).last() == more.last());
        assert(answers_for(lookup, first + more) =~= answers_for(lookup, first) + answers_for(lookup, more));
    }
}

/// What stands in the answer for one record. For an IPv4 address it is the IPv6 address with the
/// upper 96 bits of the prefix and that address below, whether synthesis is forced or not: forced,
/// its owner is the name asked for, and else the owner of the record. Any other record stays as it
/// is, but is left out where synthesis is forced, or where it is of the type of IPv4 addresses and
/// holds none.
pub proof fn law_one_record_is_answered(lookup: LookupModel, record: message::RecordModel, address: u32)
    ensures
        record.rdata == message::DataModel::A(address) ==> {
            let answers = answers_for(lookup, seq![record]);
            let questions = lookup.query.questions;
            &&& answers.len() == 1
            &&& answers[0].rdata matches message::DataModel::AAAA(ipv6)
            &&& ipv6 as int % 0x1_0000_0000 == address
            &&& ipv6 as int / 0x1_0000_0000 == lookup.prefix as int / 0x1_0000_0000
            &&& lookup.force_synth && questions.len() > 0 ==> answers[0].name == questions[0].qname
            &&& lookup.force_synth && questions.len() == 0 ==> answers[0].name.len() == 0
            &&& !lookup.force_synth ==> answers[0].name == record.name
            &&& answers[0].class == record.class
            &&& answers[0].ttl == record.ttl
            &&& !answers[0].cache_flush
        },
        !(record.rdata is A) && lookup.force_synth ==> answers_for(lookup, seq![record]).len() == 0,
        !(record.rdata is A) && !lookup.force_synth ==> answers_for(lookup, seq![record]) == (
        if record.rdata matches message::DataModel::Other(1, _) {
            Seq::empty()
        } else {
            seq![record]
        }),
{
    let one = seq![record];
    assert(one.drop_last() =~= Seq::<message::RecordModel>::empty());
    assert(one.last() == record);
    assert(answers_for(lookup, one.drop_last()) =~= Seq::<message::RecordModel>::empty());
    assert(Seq::<message::RecordModel>::empty().push(record) =~= seq![record]);
}

/// A synthesized reply is one to the query: it has its id and its questions, says that it is a
/// response from a server that offers recursion and that nothing failed, and holds nothing but the
/// answers.
pub proof fn law_synthesized_reply_is_one_to_the_query(lookup: LookupModel, records: Seq<message::RecordModel>)
    ensures
        synthesized_reply(lookup, records).header.id == lookup.query.header.id,
        synthesized_reply(lookup, records).header.flags == 0x8080,
        synthesized_reply(lookup, records).header.opcode == 0,
        synthesized_reply(lookup, records).header.rcode == 0,
        synthesized_reply(lookup, records).header.opt is None,
        synthesized_reply(lookup, records).questions == lookup.query.questions,
        synthesized_reply(lookup, records).answers == answers_for(lookup, records),
        synthesized_reply(lookup, records).name_servers.len() == 0,
        synthesized_reply(lookup, records).additional_records.len() == 0,
{
    assert(RESPONSE | RECURSION_AVAILABLE == 0x8080) by (bit_vector);
}

/// A query of our own asks for one name and record type on the Internet, with the id that it is
/// given, and asks for recursion. It holds nothing else.
pub proof fn law_query_asks_one_question(id: u16, name: Seq<Seq<u8>>, record_type: u16)
    ensures
        query_for(id, name, record_type).header.id == id,
        query_for(id, name, record_type).header.flags == 0x0100,
        query_for(id, name, record_type).header.opcode == 0,
        query_for(id, name, record_type).header.rcode == 0,
        query_for(id, name, record_type).header.opt is None,
        query_for(id, name, record_type).questions.len() == 1,
        query_for(id, name, record_type).questions[0].qname == name,
        query_for(id, name, record_type).questions[0].qtype == record_type,
        query_for(id, name, record_type).questions[0].qclass == 1,
        !query_for(id, name, record_type).questions[0].unicast_response,
        query_for(id, name, record_type).answers.len() == 0,
        query_for(id, name, record_type).name_servers.len() == 0,
        query_for(id, name, record_type).additional_records.len() == 0,
{
}

/// The name that is asked for is that of the first question, whatever follows it, and the root
/// where there is none.
pub proof fn law_first_question_is_asked(first: message::QuestionModel, more: Seq<message::QuestionModel>)
    ensures
        first_name(seq![first] + more) == first.qname,
        first_name(Seq::empty()).len() == 0,
{
}

/// The alias that is followed is the first one, whatever stands around it.
pub proof fn law_first_alias_is_followed(records: Seq<message::RecordModel>, target: Seq<Seq<u8>>)
    ensures
        alias_target(records) == Some(target) <==> exists|i: int|
            0 <= i < records.len() && (#[trigger] records[i]).rdata == message::DataModel::CNAME(target) && forall|j: int|
                0 <= j < i ==> (#[trigger] records[j]).rdata.type_code() != 5,
    decreases records.len(),
{
    if records.len() > 0 {
        let rest = records.drop_first();
        law_first_alias_is_followed(rest, target);
        if alias_target(records) == Some(target) {
            if records[0].rdata.type_code() == 5 {
                assert(records[0].rdata == message::DataModel::CNAME(target));
            } else {
                let i = choose|i: int|
                    0 <= i < rest.len() && (#[trigger] rest[i]).rdata == message::DataModel::CNAME(target)
                        && forall|j: int| 0 <= j < i ==> (#[trigger] rest[j]).rdata.type_code() != 5;
                assert(records[i + 1] == rest[i]);
                assert forall|j: int| 0 <= j < i + 1 implies (#[trigger] records[j]).rdata.type_code() != 5 by {
                    if j > 0 {
                        assert(rest[j - 1] == records[j]);
                    }
                }
            }
        }
        if exists|i: int|
            0 <= i < records.len() && (#[trigger] records[i]).rdata == message::DataModel::CNAME(target) && forall|j: int|
                0 <= j < i ==> (#[trigger] records[j]).rdata.type_code() != 5 {
            let i = choose|i: int|
                0 <= i < records.len() && (#[trigger] records[i]).rdata == message::DataModel::CNAME(target)
                    && forall|j: int| 0 <= j < i ==> (#[trigger] records[j]).rdata.type_code() != 5;
            if i > 0 {
                assert(records[0].rdata.type_code() != 5);
                assert(rest[i - 1] == records[i]);
                assert forall|j: int| 0 <= j < i - 1 implies (#[trigger] rest[j]).rdata.type_code() != 5 by {
                    assert(records[j + 1] == rest[j]);
                }
            }
        }
    }
}

/// Without a prefix nothing is answered. Unless synthesis is forced, the query itself is asked
/// first, as it is and for its own name; where it is forced, the IPv4 addresses of that name are.
pub proof fn law_real_addresses_are_asked_for_first(prefix: u128, force_synth: bool, query: message::PacketModel)
    ensures
        dns64_start(None, force_synth, query) is Fail,
        rdns_start(None, query) is Fail,
        !force_synth ==> dns64_start(Some(prefix), force_synth, query) == match wire::written(query) {
            Some(bytes) => StepModel::Ask {
                query: bytes,
                qname: first_name(query.questions),
                pending: PendingModel::Native(LookupModel { prefix, force_synth, query }),
            },
            None => StepModel::Fail,
        },
        force_synth ==> dns64_start(Some(prefix), force_synth, query) == match wire::written(
            query_for(query.header.id, first_name(query.questions), 1),
        ) {
            Some(bytes) => StepModel::Ask {
                query: bytes,
                qname: first_name(query.questions),
                pending: PendingModel::Chase(LookupModel { prefix, force_synth, query }, Seq::empty(), 0),
            },
            None => StepModel::Fail,
        },
{
}

/// Where some answer is an IPv6 address, the reply is passed on octet by octet. Where none is, the
/// IPv4 addresses of the same name are asked for, with the id of the query.
pub proof fn law_real_addresses_are_passed_on(lookup: LookupModel, bytes: Seq<u8>, packet: message::PacketModel)
    requires
        wire::parsed_message(bytes) == Some(packet),
    ensures
        (exists|i: int| 0 <= i < packet.answers.len() && (#[trigger] packet.answers[i]).rdata.type_code() == 28)
            ==> after(PendingModel::Native(lookup), bytes) == StepModel::Reply(bytes),
        (forall|i: int| 0 <= i < packet.answers.len() ==> (#[trigger] packet.answers[i]).rdata.type_code() != 28)
            ==> after(PendingModel::Native(lookup), bytes) == match wire::written(
            query_for(lookup.query.header.id, first_name(lookup.query.questions), 1),
        ) {
            Some(query) => StepModel::Ask {
                query,
                qname: first_name(lookup.query.questions),
                pending: PendingModel::Chase(lookup, Seq::empty(), 0),
            },
            None => StepModel::Fail,
        },
{
    if exists|i: int| 0 <= i < packet.answers.len() && (#[trigger] packet.answers[i]).rdata.type_code() == 28 {
        assert(has_type(packet.answers, TYPE_AAAA));
    } else {
        assert(!has_type(packet.answers, TYPE_AAAA));
    }
}

/// The answers to a question for IPv4 addresses are kept behind what was found before. Where one is
/// an IPv4 address, or there is no alias, or that was the 11th question, all that was found is
/// answered; else the addresses of the name that the alias is one for are asked for.
pub proof fn law_address_answers_are_kept(
    lookup: LookupModel,
    records: Seq<message::RecordModel>,
    hop: int,
    bytes: Seq<u8>,
    packet: message::PacketModel,
)
    requires
        wire::parsed_message(bytes) == Some(packet),
    ensures
        ({
            ||| exists|i: int| 0 <= i < packet.answers.len() && (#[trigger] packet.answers[i]).rdata.type_code() == 1
            ||| alias_target(packet.answers) is None
            ||| hop >= 10
        }) ==> after(PendingModel::Chase(lookup, records, hop), bytes) == match wire::written(
            synthesized_reply(lookup, records + packet.answers),
        ) {
            Some(reply) => StepModel::Reply(reply),
            None => StepModel::Fail,
        },
        ({
            &&& forall|i: int| 0 <= i < packet.answers.len() ==> (#[trigger] packet.answers[i]).rdata.type_code() != 1
            &&& alias_target(packet.answers) is Some
            &&& hop < 10
        }) ==> after(PendingModel::Chase(lookup, records, hop), bytes) == match wire::written(
            query_for(lookup.query.header.id, alias_target(packet.answers)->0, 1),
        ) {
            Some(query) => StepModel::Ask {
                query,
                qname: alias_target(packet.answers)->0,
                pending: PendingModel::Chase(lookup, records + packet.answers, hop + 1),
            },
            None => StepModel::Fail,
        },
{
    if exists|i: int| 0 <= i < packet.answers.len() && (#[trigger] packet.answers[i]).rdata.type_code() == 1 {
        assert(has_type(packet.answers, TYPE_A));
    } else {
        assert(!has_type(packet.answers, TYPE_A));
    }
}

/// A reply that is no message is answered by none of our own.
pub proof fn law_broken_replies_fail(lookup: LookupModel, records: Seq<message::RecordModel>, hop: int, bytes: Seq<u8>)
    requires
        wire::parsed_message(bytes) is None,
    ensures
        after(PendingModel::Native(lookup), bytes) is Fail,
        after(PendingModel::Chase(lookup, records, hop), bytes) is Fail,
        after(PendingModel::Reverse(lookup.query), bytes) is Fail,
{
}

/// The answers for each of some names, one after the other.
pub open spec fn answers_along(upstream: Upstream, names: Seq<Seq<Seq<u8>>>) -> Seq<message::RecordModel> {
    Seq::new(names.len(), |i: int| upstream.answers(names[i])).flatten()
}

/// Whether each of some names is an alias for the next, and has no IPv4 address.
pub open spec fn alias_chain(upstream: Upstream, names: Seq<Seq<Seq<u8>>>) -> bool {
    forall|i: int|
        #![trigger names[i]]
        0 <= i < names.len() - 1 ==> alias_target(upstream.answers(names[i])) == Some(names[i + 1]) && forall|j: int|
            0 <= j < upstream.answers(names[i]).len() ==> (#[trigger] upstream.answers(names[i])[j]).rdata.type_code()
                != 1
}

proof fn lemma_found_along(upstream: Upstream, names: Seq<Seq<Seq<u8>>>, questions: nat)
    requires
        0 < names.len() <= questions,
        alias_chain(upstream, names),
        names.len() == questions || has_type(upstream.answers(names.last()), TYPE_A) || alias_target(
            upstream.answers(names.last()),
        ) is None,
    ensures
        found_records(upstream, names[0], questions) == answers_along(upstream, names),
    decreases names.len(),
{
    let all = Seq::new(names.len(), |i: int| upstream.answers(names[i]));
    let answers = upstream.answers(names[0]);
    assert(all.first() == answers);
    if names.len() == 1 {
        all.lemma_flatten_one_element();
        if !has_type(answers, TYPE_A) && alias_target(answers) is Some {
            assert(questions == 1);
            assert(found_records(upstream, alias_target(answers)->0, 0) =~= Seq::<message::RecordModel>::empty());
            assert(found_records(upstream, names[0], questions) =~= answers);
        }
    } else {
        let rest = names.drop_first();
        assert forall|i: int| #![trigger rest[i]] 0 <= i < rest.len() - 1 implies alias_target(
            upstream.answers(rest[i]),
        ) == Some(rest[i + 1]) && forall|j: int|
            0 <= j < upstream.answers(rest[i]).len() ==> (#[trigger] upstream.answers(rest[i])[j]).rdata.type_code() != 1 by {
            assert(rest[i] == names[i + 1]);
        }
        assert(alias_target(answers) == Some(names[1]));
        assert(!has_type(answers, TYPE_A));
        lemma_found_along(upstream, rest, (questions - 1) as nat);
        assert(all.drop_first() =~= Seq::new(rest.len(), |i: int| upstream.answers(rest[i])));
        assert(rest[0] == names[1]);
    }
}

/// A chain of aliases is followed from the name asked for to its end, through up to 11 names: the
/// answer is made of what each of them is answered with, in the order of the chain. That is so at
/// once where synthesis is forced, and else where the name has no IPv6 address.
pub proof fn law_alias_chain_is_answered(
    prefix: u128,
    force_synth: bool,
    query: message::PacketModel,
    upstream: Upstream,
    names: Seq<Seq<Seq<u8>>>,
)
    requires
        upstream.speaks(query.header.id),
        0 < names.len() <= 11,
        names[0] == first_name(query.questions),
        alias_chain(upstream, names),
        names.len() == 11 || has_type(upstream.answers(names.last()), TYPE_A) || alias_target(
            upstream.answers(names.last()),
        ) is None,
        force_synth || wire::written(query) is Some,
        force_synth || (wire::parsed_message((upstream.aaaa)(names[0])) matches Some(packet) && forall|i: int|
            0 <= i < packet.answers.len() ==> (#[trigger] packet.answers[i]).rdata.type_code() != 28),
    ensures
        run(dns64_start(Some(prefix), force_synth, query), upstream, 12) == match wire::written(
            synthesized_reply(LookupModel { prefix, force_synth, query }, answers_along(upstream, names)),
        ) {
            Some(bytes) => StepModel::Reply(bytes),
            None => StepModel::Fail,
        },
{
    law_aliases_are_followed(prefix, force_synth, query, upstream);
    lemma_found_along(upstream, names, 11);
    if !force_synth {
        assert(!has_type(wire::parsed_message((upstream.aaaa)(names[0]))->0.answers, TYPE_AAAA));
    }
}

/// Whether these are the labels of the reverse name of an IPv6 address: its 32 hexadecimal digits,
/// the least first and in either case, then `ip6` and `arpa`.
pub open spec fn reverse_name_of(labels: Seq<Seq<u8>>, address: u128) -> bool {
    &&& labels.len() == 34
    &&& text::lower_labels(labels.take(32)) == nibble_labels(address as int, 32)
    &&& labels[32] == seq![105u8, 112, 54]
    &&& labels[33] == seq![97u8, 114, 112, 97]
}

proof fn lemma_nibbles_back(labels: Seq<Seq<u8>>)
    requires
        forall|i: int| 0 <= i < labels.len() ==> (#[trigger] labels[i]).len() == 1 && hex_digit(labels[i][0]),
    ensures
        0 <= nibbles_value(labels) < hex_span(labels.len()),
        nibble_labels(nibbles_value(labels), labels.len()) == text::lower_labels(labels),
    decreases labels.len(),
{
    let low = text::lower_labels(labels);
    if labels.len() == 0 {
        assert(low =~= Seq::<Seq<u8>>::empty());
    } else {
        let rest = labels.drop_first();
        assert forall|i: int| 0 <= i < rest.len() implies (#[trigger] rest[i]).len() == 1 && hex_digit(rest[i][0]) by {
            assert(rest[i] == labels[i + 1]);
        }
        lemma_nibbles_back(rest);
        let digit = hex_value(labels[0][0]);
        let value = nibbles_value(labels);
        assert(hex_digit(labels[0][0]));
        assert(value % 16 == digit && value / 16 == nibbles_value(rest));
        assert(low[0] =~= seq![hex_char(digit)]);
        assert(low =~= seq![low[0]] + text::lower_labels(rest));
    }
}

/// An IPv6 address is read from its reverse name, in either case, and from no other name.
pub proof fn law_reverse_names_and_no_others_are_read(labels: Seq<Seq<u8>>, address: u128)
    ensures
        ip6_arpa_address(labels) == Some(address) <==> reverse_name_of(labels, address),
{
    reveal_with_fuel(hex_span, 33);
    assert(hex_span(32) == 0x1_0000_0000_0000_0000_0000_0000_0000_0000);
    let digits = labels.take(32);
    lemma_nibbles(address as int, 32);
    if reverse_name_of(labels, address) {
        let low = text::lower_labels(digits);
        assert forall|i: int| 0 <= i < 32 implies (#[trigger] labels[i]).len() == 1 && hex_digit(labels[i][0]) by {
            assert(digits[i] == labels[i]);
            assert(low[i] == nibble_labels(address as int, 32)[i]);
            assert(low[i] == text::lower_all(labels[i]));
            assert(low[i][0] == text::lower(labels[i][0]));
            lemma_nibble_is_lower(address as int, 32, i);
        }
        assert(ip6_arpa(labels));
    }
    if ip6_arpa(labels) {
        assert forall|i: int| 0 <= i < digits.len() implies (#[trigger] digits[i]).len() == 1 && hex_digit(digits[i][0]) by {
            assert(digits[i] == labels[i]);
        }
        lemma_nibbles_back(digits);
        if nibbles_value(digits) != address {
            lemma_nibbles(nibbles_value(digits), 32);
        }
    }
}

proof fn lemma_nibble_is_lower(value: int, n: nat, i: int)
    requires
        0 <= value,
        0 <= i < n,
    ensures
        nibble_labels(value, n).len() == n,
        nibble_labels(value, n)[i].len() == 1,
        48 <= nibble_labels(value, n)[i][0] <= 57 || 97 <= nibble_labels(value, n)[i][0] <= 102,
    decreases n,
{
    if i > 0 {
        lemma_nibble_is_lower(value / 16, (n - 1) as nat, i - 1);
    } else if n > 1 {
        lemma_nibble_is_lower(value / 16, (n - 1) as nat, 0);
    } else {
        assert(nibble_labels(value / 16, 0).len() == 0);
    }
}

/// The reverse name of an IPv4 address writes its four octets in decimal, the least first, and then
/// `in-addr` and `arpa`.
pub proof fn law_reverse_name_writes_the_octets(address: u32)
    ensures
        ptr_labels(address).len() == 6,
        text::decimal_value(ptr_labels(address)[0]) + 0x100 * text::decimal_value(ptr_labels(address)[1]) + 0x1_0000
            * text::decimal_value(ptr_labels(address)[2]) + 0x100_0000 * text::decimal_value(ptr_labels(address)[3])
            == address,
        forall|i: int|
            0 <= i < 4 ==> 0 <= text::decimal_value(#[trigger] ptr_labels(address)[i]) < 256 && ptr_labels(address)[i]
                == text::decimal(text::decimal_value(ptr_labels(address)[i]) as u8),
        ptr_labels(address)[4] == seq![105u8, 110, 45, 97, 100, 100, 114],
        ptr_labels(address)[5] == seq![97u8, 114, 112, 97],
{
    text::law_digits_write_the_number((address % 256) as u8);
    text::law_digits_write_the_number((address / 256 % 256) as u8);
    text::law_digits_write_the_number((address / 65536 % 256) as u8);
    text::law_digits_write_the_number((address / 16777216) as u8);
}

/// A query for the reverse name of an address with the upper 96 bits of the prefix becomes one for
/// the pointer of the reverse name of the IPv4 address in its low 32 bits, with the same id.
pub proof fn law_addresses_under_the_prefix_are_asked_for(prefix: u128, address: u128, query: message::PacketModel)
    requires
        reverse_name_of(first_name(query.questions), address),
        address as int / 0x1_0000_0000 == prefix as int / 0x1_0000_0000,
    ensures
        rdns_start(Some(prefix), query) == match wire::written(
            query_for(query.header.id, ptr_labels((address as int % 0x1_0000_0000) as u32), 12),
        ) {
            Some(bytes) => StepModel::Ask {
                query: bytes,
                qname: ptr_labels((address as int % 0x1_0000_0000) as u32),
                pending: PendingModel::Reverse(query),
            },
            None => StepModel::Fail,
        },
{
    law_reverse_names_and_no_others_are_read(first_name(query.questions), address);
}

/// A query for a name that is the reverse name of no address with the upper 96 bits of the prefix
/// is asked as it is, for its own name, and the reply is passed on octet by octet.
pub proof fn law_other_reverse_queries_are_passed_on(prefix: u128, query: message::PacketModel, reply: Seq<u8>)
    requires
        forall|address: u128|
            address as int / 0x1_0000_0000 == prefix as int / 0x1_0000_0000 ==> !#[trigger] reverse_name_of(
                first_name(query.questions),
                address,
            ),
    ensures
        rdns_start(Some(prefix), query) == match wire::written(query) {
            Some(bytes) => StepModel::Ask {
                query: bytes,
                qname: first_name(query.questions),
                pending: PendingModel::Verbatim,
            },
            None => StepModel::Fail,
        },
        after(PendingModel::Verbatim, reply) == StepModel::Reply(reply),
{
    let qname = first_name(query.questions);
    if let Some(address) = ip6_arpa_address(qname) {
        law_reverse_names_and_no_others_are_read(qname, address);
    }
}

/// An address that has not the upper 96 bits of the prefix, in whichever of them they differ, is
/// asked for as it is, and the reply is passed on octet by octet.
pub proof fn law_addresses_outside_the_prefix_are_passed_on(
    prefix: u128,
    address: u128,
    query: message::PacketModel,
    reply: Seq<u8>,
)
    requires
        reverse_name_of(first_name(query.questions), address),
        address as int / 0x1_0000_0000 != prefix as int / 0x1_0000_0000,
    ensures
        rdns_start(Some(prefix), query) == match wire::written(query) {
            Some(bytes) => StepModel::Ask {
                query: bytes,
                qname: first_name(query.questions),
                pending: PendingModel::Verbatim,
            },
            None => StepModel::Fail,
        },
        after(PendingModel::Verbatim, reply) == StepModel::Reply(reply),
{
    law_reverse_names_and_no_others_are_read(first_name(query.questions), address);
}

/// A reply that takes over what another says of itself keeps its kind, its response code and each
/// flag that a server sets: that it is an authority, was cut short, was asked for recursion, offers
/// it, was authenticated, or goes unchecked. It is a response with the id that it is given, without
/// extensions.
pub proof fn law_reply_takes_over_the_flags(src: Header, id: u16)
    ensures
        header_like(src, id).id == id,
        header_like(src, id).opcode == src.opcode,
        header_like(src, id).rcode == src.rcode,
        header_like(src, id).opt is None,
        header_like(src, id).flags & 0x8000 == 0x8000,
        header_like(src, id).flags & 0x0400 == src.flags & 0x0400,
        header_like(src, id).flags & 0x0200 == src.flags & 0x0200,
        header_like(src, id).flags & 0x0100 == src.flags & 0x0100,
        header_like(src, id).flags & 0x0080 == src.flags & 0x0080,
        header_like(src, id).flags & 0x0020 == src.flags & 0x0020,
        header_like(src, id).flags & 0x0010 == src.flags & 0x0010,
        header_like(src, id).flags & 0x784f == 0,
{
    let flags = src.flags;
    let kept = RESPONSE | (flags & KEPT_FLAGS);
    assert(kept & 0x8000 == 0x8000 && kept & 0x0400 == flags & 0x0400 && kept & 0x0200 == flags & 0x0200 && kept & 0x0100
        == flags & 0x0100 && kept & 0x0080 == flags & 0x0080 && kept & 0x0020 == flags & 0x0020 && kept & 0x0010 == flags
        & 0x0010 && kept & 0x784f == 0) by (bit_vector)
        requires
            kept == 0x8000u16 | (flags & 0x07b0u16),
    ;
}

/// The answer to a query for the name of an IPv6 address is the reply for the IPv4 address in it,
/// with the id and the questions of the query: every record is kept in its place, and only its
/// owner becomes the name asked for.
pub proof fn law_reverse_reply_is_one_to_the_query(
    query: message::PacketModel,
    resp: message::PacketModel,
    bytes: Seq<u8>,
    i: int,
)
    requires
        wire::parsed_message(bytes) == Some(resp),
    ensures
        after(PendingModel::Reverse(query), bytes) == match wire::written(reverse_reply(query, resp)) {
            Some(reply) => StepModel::Reply(reply),
            None => StepModel::Fail,
        },
        reverse_reply(query, resp).header == header_like(resp.header, query.header.id),
        reverse_reply(query, resp).questions == query.questions,
        reverse_reply(query, resp).answers.len() == resp.answers.len(),
        reverse_reply(query, resp).name_servers.len() == resp.name_servers.len(),
        reverse_reply(query, resp).additional_records.len() == resp.additional_records.len(),
        0 <= i < resp.answers.len() ==> renamed_only(
            resp.answers[i],
            reverse_reply(query, resp).answers[i],
            first_name(query.questions),
        ),
        0 <= i < resp.name_servers.len() ==> renamed_only(
            resp.name_servers[i],
            reverse_reply(query, resp).name_servers[i],
            first_name(query.questions),
        ),
        0 <= i < resp.additional_records.len() ==> renamed_only(
            resp.additional_records[i],
            reverse_reply(query, resp).additional_records[i],
            first_name(query.questions),
        ),
{
}

/// Whether one record is the other with this owner.
pub open spec fn renamed_only(before: message::RecordModel, after: message::RecordModel, name: Seq<Seq<u8>>) -> bool {
    &&& after.name == name
    &&& after.class == before.class
    &&& after.ttl == before.ttl
    &&& after.cache_flush == before.cache_flush
    &&& after.rdata == before.rdata
}

} // verus!
