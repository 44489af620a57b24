//! Messages as octets: where the parser and the writer of DNS messages are called.

use vstd::prelude::*;
use vstd::string::*;
use simple_dns::rdata::{RData, A, AAAA, OPT};
use simple_dns::{Label, Question, ResourceRecord, CLASS, OPCODE, QCLASS, QTYPE, RCODE};
use crate::message;
use crate::message::{DnsData, DnsQuestion, DnsRecord, Header, Name, OtherData, Packet, ALL_FLAGS};
use crate::text;
use crate::text::DOT;

verus! {

/// The error of `simple_dns`, which is carried along as it is.
#[verifier::external_type_specification]
#[verifier::external_body]
pub struct ExWireError(simple_dns::SimpleDnsError);

/// A question as `simple_dns` has it. What it holds is named by [`question_of`].
#[verifier::external_type_specification]
#[verifier::external_body]
pub struct ExWireQuestion<'a>(simple_dns::Question<'a>);

/// A record as `simple_dns` has it. What it holds is named by [`record_of`].
#[verifier::external_type_specification]
#[verifier::external_body]
pub struct ExWireRecord<'a>(simple_dns::ResourceRecord<'a>);

/// The data of a record as `simple_dns` has it, which is carried along where it is not read.
#[verifier::external_type_specification]
#[verifier::external_body]
pub struct ExWireData<'a>(simple_dns::rdata::RData<'a>);

/// The extensions of a message as `simple_dns` has them, which are carried along.
#[verifier::external_type_specification]
#[verifier::external_body]
pub struct ExWireOptions<'a>(simple_dns::rdata::OPT<'a>);

/// The octet that escapes the next one in the text of a name.
pub const BACKSLASH: u8 = 92;

/// Longest wire form of a name.
pub const MAX_NAME: usize = 255;

/// Why a message cannot be handled.
#[derive(Debug)]
pub enum DnsError {
    /// The octets are no message, or the message cannot be written.
    Wire(simple_dns::SimpleDnsError),
    /// A rule without a DNS64 prefix was asked for DNS64.
    Dns64Disabled,
}

/// The number that two octets write, high octet first.
pub open spec fn number_at(bytes: Seq<u8>, at: int) -> u16 {
    (bytes[at] * 256 + bytes[at + 1]) as u16
}

/// Whether a question can ask for the record type of this number.
pub open spec fn known_qtype(code: u16) -> bool {
    ||| 1 <= code <= 18
    ||| 20 <= code <= 23
    ||| code == 28
    ||| code == 29
    ||| code == 33
    ||| 35 <= code <= 37
    ||| code == 41
    ||| code == 43
    ||| 45 <= code <= 49
    ||| 63 <= code <= 65
    ||| code == 108
    ||| code == 109
    ||| 251 <= code <= 255
    ||| code == 257
}

/// Whether a record can have the class of this number.
pub open spec fn known_class(code: u16) -> bool {
    1 <= code <= 4 || code == 254
}

/// Whether a question can have the class of this number.
pub open spec fn known_qclass(code: u16) -> bool {
    known_class(code) || code == 255
}

pub open spec fn known_question(question: message::QuestionModel) -> bool {
    known_qtype(question.qtype) && known_qclass(question.qclass)
}

pub open spec fn known_questions(questions: Seq<message::QuestionModel>) -> bool {
    forall|i: int| 0 <= i < questions.len() ==> known_question(#[trigger] questions[i])
}

pub open spec fn known_records(records: Seq<message::RecordModel>) -> bool {
    forall|i: int| 0 <= i < records.len() ==> known_class((#[trigger] records[i]).class)
}

/// Whether every number in a message is one that can be written.
pub open spec fn known_numbers(packet: message::PacketModel) -> bool {
    &&& known_questions(packet.questions)
    &&& known_records(packet.answers)
    &&& known_records(packet.name_servers)
    &&& known_records(packet.additional_records)
}

/// Whether the records behind the answers can be counted: with extensions there is one more.
pub open spec fn countable(packet: message::PacketModel) -> bool {
    packet.header.opt is Some ==> packet.additional_records.len() % 0x1_0000 != 0xffff
}

/// What a question of the parser holds.
pub uninterp spec fn question_of(question: simple_dns::Question<'static>) -> message::QuestionModel;

/// What a record of the parser holds.
pub uninterp spec fn record_of(record: simple_dns::ResourceRecord<'static>) -> message::RecordModel;

/// The message that some octets are, where they are one.
pub uninterp spec fn parsed_message(bytes: Seq<u8>) -> Option<message::PacketModel>;

/// The octets of a message with compressed names, where it can be written.
pub uninterp spec fn built_message(packet: message::PacketModel) -> Option<Seq<u8>>;

/// The octets of a message, where its numbers are known ones and it can be written.
pub open spec fn written(packet: message::PacketModel) -> Option<Seq<u8>> {
    if known_numbers(packet) {
        built_message(packet)
    } else {
        None
    }
}

/// What some questions of the parser hold.
pub open spec fn all_questions_of(questions: Seq<simple_dns::Question<'static>>) -> Seq<message::QuestionModel> {
    Seq::new(questions.len(), |i: int| question_of(questions[i]))
}

/// What some records of the parser hold.
pub open spec fn all_records_of(records: Seq<simple_dns::ResourceRecord<'static>>) -> Seq<message::RecordModel> {
    Seq::new(records.len(), |i: int| record_of(records[i]))
}

/// A message as the parser has it, but for its flags.
struct WireMessage {
    id: u16,
    opcode: u16,
    rcode: u16,
    opt: Option<simple_dns::rdata::OPT<'static>>,
    questions: Vec<simple_dns::Question<'static>>,
    answers: Vec<simple_dns::ResourceRecord<'static>>,
    name_servers: Vec<simple_dns::ResourceRecord<'static>>,
    additional_records: Vec<simple_dns::ResourceRecord<'static>>,
}

impl WireMessage {
    /// What the message holds, given its flags.
    spec fn packet(self, flags: u16) -> message::PacketModel {
        packet_of(
            Header { id: self.id, opcode: self.opcode, rcode: self.rcode, flags, opt: self.opt },
            self.questions@,
            self.answers@,
            self.name_servers@,
            self.additional_records@,
        )
    }
}

/// Parses octets with `simple_dns::Packet::parse`. A message has a header of 12 octets, which
/// starts with the id and the flags; the numbers of its types and classes are known ones; the
/// record with the extensions is counted among the additional ones, but not left there.
#[verifier::external_body]
fn parse_message(bytes: &[u8]) -> (r: Result<WireMessage, simple_dns::SimpleDnsError>)
    ensures
        r is Err <==> parsed_message(bytes@) is None,
        r matches Ok(m) ==> parsed_message(bytes@) == Some(m.packet(number_at(bytes@, 2) & ALL_FLAGS)),
        r matches Ok(m) ==> bytes@.len() >= 12 && m.id == number_at(bytes@, 0),
        r matches Ok(m) ==> known_numbers(m.packet(0)) && countable(m.packet(0)),
{
    let packet = simple_dns::Packet::parse(bytes)?;
    Ok(WireMessage {
        id: packet.id(),
        opcode: packet.opcode() as u16,
        rcode: packet.rcode() as u16,
        opt: packet.opt().cloned().map(OPT::into_owned),
        questions: packet.questions.into_iter().map(Question::into_owned).collect(),
        answers: packet.answers.into_iter().map(ResourceRecord::into_owned).collect(),
        name_servers: packet.name_servers.into_iter().map(ResourceRecord::into_owned).collect(),
        additional_records: packet.additional_records.into_iter().map(ResourceRecord::into_owned).collect(),
    })
}

/// The message with this header and with what the questions and records of the writer hold.
pub open spec fn packet_of(
    header: Header,
    questions: Seq<simple_dns::Question<'static>>,
    answers: Seq<simple_dns::ResourceRecord<'static>>,
    name_servers: Seq<simple_dns::ResourceRecord<'static>>,
    additional_records: Seq<simple_dns::ResourceRecord<'static>>,
) -> message::PacketModel {
    message::PacketModel {
        header,
        questions: all_questions_of(questions),
        answers: all_records_of(answers),
        name_servers: all_records_of(name_servers),
        additional_records: all_records_of(additional_records),
    }
}

/// Writes a message with `simple_dns::Packet::build_bytes_vec_compressed`. The octets start with
/// the id and the flags. With extensions, the writer counts one additional record more than there
/// are, in 16 bits, and that must not overflow.
#[verifier::external_body]
fn build_message(
    header: &Header,
    questions: Vec<simple_dns::Question<'static>>,
    answers: Vec<simple_dns::ResourceRecord<'static>>,
    name_servers: Vec<simple_dns::ResourceRecord<'static>>,
    additional: Vec<simple_dns::ResourceRecord<'static>>,
) -> (r: Result<Vec<u8>, simple_dns::SimpleDnsError>)
    requires
        countable(packet_of(*header, questions@, answers@, name_servers@, additional@)),
    ensures
        r is Err <==> built_message(packet_of(*header, questions@, answers@, name_servers@, additional@)) is None,
        r matches Ok(bytes) ==> built_message(packet_of(*header, questions@, answers@, name_servers@, additional@))
            == Some(bytes@),
        r matches Ok(bytes) ==> bytes@.len() >= 12 && number_at(bytes@, 0) == header.id,
        r matches Ok(bytes) ==> number_at(bytes@, 2) & ALL_FLAGS == header.flags & ALL_FLAGS,
{
    let mut packet = simple_dns::Packet::new_query(header.id);
    packet.set_flags(simple_dns::PacketFlag::from_bits_truncate(header.flags));
    *packet.opcode_mut() = OPCODE::from(header.opcode);
    *packet.rcode_mut() = RCODE::from(header.rcode);
    *packet.opt_mut() = header.opt.clone();
    packet.questions = questions;
    packet.answers = answers;
    packet.name_servers = name_servers;
    packet.additional_records = additional;
    packet.build_bytes_vec_compressed()
}

/// The fields of a `simple_dns::Question`. The labels of its name have 1 to 63 octets each.
#[verifier::external_body]
fn read_question(question: &simple_dns::Question<'static>) -> (r: DnsQuestion)
    ensures
        r@ == question_of(*question),
{
    DnsQuestion {
        qname: Name { labels: question.qname.as_bytes().map(<[u8]>::to_vec).collect() },
        qtype: u16::from(question.qtype),
        qclass: u16::from(question.qclass),
        unicast_response: question.unicast_response,
    }
}

/// The fields of a `simple_dns::ResourceRecord`. The labels of its names have 1 to 63 octets each.
#[verifier::external_body]
fn read_record(record: &simple_dns::ResourceRecord<'static>) -> (r: DnsRecord)
    ensures
        r@ == record_of(*record),
{
    let name = Name { labels: record.name.as_bytes().map(<[u8]>::to_vec).collect() };
    let rdata = match &record.rdata {
        RData::A(a) => DnsData::A(a.address),
        RData::AAAA(aaaa) => DnsData::AAAA(aaaa.address),
        RData::CNAME(cname) => {
            DnsData::CNAME(Name { labels: cname.0.as_bytes().map(<[u8]>::to_vec).collect() })
        },
        data => DnsData::Other(OtherData { code: u16::from(data.type_code()), data: data.clone() }),
    };
    DnsRecord { name, class: u16::from(record.class), ttl: record.ttl, cache_flush: record.cache_flush, rdata }
}

/// A `simple_dns::Question` with these fields, where its numbers are known ones.
#[verifier::external_body]
fn wire_question(question: &DnsQuestion) -> (r: Result<simple_dns::Question<'static>, simple_dns::SimpleDnsError>)
    ensures
        r is Ok <==> known_question(question@),
        r matches Ok(wire) ==> question_of(wire) == question@,
{
    let labels: Vec<Label<'static>> =
        question.qname.labels.iter().map(|label| Label::new_unchecked(label.clone())).collect();
    Ok(Question::new(
        simple_dns::Name::new_with_labels(&labels),
        QTYPE::try_from(question.qtype)?,
        QCLASS::try_from(question.qclass)?,
        question.unicast_response,
    ))
}

/// A `simple_dns::ResourceRecord` with these fields, where its class is a known one.
#[verifier::external_body]
fn wire_record(record: &DnsRecord) -> (r: Result<simple_dns::ResourceRecord<'static>, simple_dns::SimpleDnsError>)
    ensures
        r is Ok <==> known_class(record.class),
        r matches Ok(wire) ==> record_of(wire) == record@,
{
    let wire_name = |name: &Name| {
        let labels: Vec<_> = name.labels.iter().map(|label| Label::new_unchecked(label.clone())).collect();
        simple_dns::Name::new_with_labels(&labels)
    };
    let rdata = match &record.rdata {
        DnsData::A(address) => RData::A(A { address: *address }),
        DnsData::AAAA(address) => RData::AAAA(AAAA { address: *address }),
        DnsData::CNAME(target) => RData::CNAME(wire_name(target).into()),
        DnsData::Other(other) => other.data.clone(),
    };
    let class = CLASS::try_from(record.class)?;
    Ok(ResourceRecord::new(wire_name(&record.name), class, record.ttl, rdata).with_cache_flush(record.cache_flush))
}

fn read_questions(questions: &Vec<simple_dns::Question<'static>>) -> (r: Vec<DnsQuestion>)
    ensures
        message::questions_of(r@) == all_questions_of(questions@),
{
    let mut out: Vec<DnsQuestion> = Vec::new();
    let mut i: usize = 0;
    while i < questions.len()
        invariant
            0 <= i <= questions@.len(),
            out@.len() == i,
            forall|j: int| 0 <= j < i ==> (#[trigger] out@[j])@ == question_of(questions@[j]),
        decreases questions@.len() - i,
    {
        out.push(read_question(&questions[i]));
        i = i + 1;
    }
    assert(message::questions_of(out@) =~= all_questions_of(questions@));
    out
}

fn read_records(records: &Vec<simple_dns::ResourceRecord<'static>>) -> (r: Vec<DnsRecord>)
    ensures
        message::records_of(r@) == all_records_of(records@),
{
    let mut out: Vec<DnsRecord> = Vec::new();
    let mut i: usize = 0;
    while i < records.len()
        invariant
            0 <= i <= records@.len(),
            out@.len() == i,
            forall|j: int| 0 <= j < i ==> (#[trigger] out@[j])@ == record_of(records@[j]),
        decreases records@.len() - i,
    {
        out.push(read_record(&records[i]));
        i = i + 1;
    }
    assert(message::records_of(out@) =~= all_records_of(records@));
    out
}

fn wire_questions(questions: &Vec<DnsQuestion>) -> (r: Result<Vec<simple_dns::Question<'static>>, DnsError>)
    ensures
        r is Ok <==> known_questions(message::questions_of(questions@)),
        r matches Ok(wire) ==> all_questions_of(wire@) == message::questions_of(questions@),
        r matches Err(error) ==> error is Wire,
{
    let mut out: Vec<simple_dns::Question<'static>> = Vec::new();
    let mut i: usize = 0;
    let ghost models = message::questions_of(questions@);
    while i < questions.len()
        invariant
            0 <= i <= questions@.len(),
            out@.len() == i,
            models == message::questions_of(questions@),
            forall|j: int| 0 <= j < i ==> question_of(#[trigger] out@[j]) == models[j],
            forall|j: int| 0 <= j < i ==> known_question(#[trigger] models[j]),
        decreases questions@.len() - i,
    {
        assert(models[i as int] == questions@[i as int]@);
        match wire_question(&questions[i]) {
            Ok(wire) => out.push(wire),
            Err(error) => return Err(DnsError::Wire(error)),
        }
        i = i + 1;
    }
    assert(all_questions_of(out@) =~= models);
    Ok(out)
}

fn wire_records(records: &Vec<DnsRecord>) -> (r: Result<Vec<simple_dns::ResourceRecord<'static>>, DnsError>)
    ensures
        r is Ok <==> known_records(message::records_of(records@)),
        r matches Ok(wire) ==> all_records_of(wire@) == message::records_of(records@),
        r matches Err(error) ==> error is Wire,
{
    let mut out: Vec<simple_dns::ResourceRecord<'static>> = Vec::new();
    let mut i: usize = 0;
    let ghost models = message::records_of(records@);
    while i < records.len()
        invariant
            0 <= i <= records@.len(),
            out@.len() == i,
            models == message::records_of(records@),
            forall|j: int| 0 <= j < i ==> record_of(#[trigger] out@[j]) == models[j],
            forall|j: int| 0 <= j < i ==> known_class((#[trigger] models[j]).class),
        decreases records@.len() - i,
    {
        assert(models[i as int] == records@[i as int]@);
        match wire_record(&records[i]) {
            Ok(wire) => out.push(wire),
            Err(error) => return Err(DnsError::Wire(error)),
        }
        i = i + 1;
    }
    assert(all_records_of(out@) =~= models);
    Ok(out)
}

impl Packet {
    /// Parses a message.
    pub fn parse(bytes: &[u8]) -> (r: Result<Packet, DnsError>)
        ensures
            r is Ok <==> parsed_message(bytes@) is Some,
            r matches Ok(packet) ==> parsed_message(bytes@) == Some(packet@),
            r matches Ok(packet) ==> bytes@.len() >= 12 && packet.header.id == number_at(bytes@, 0)
                && packet.header.flags == number_at(bytes@, 2) & ALL_FLAGS,
            r matches Ok(packet) ==> known_numbers(packet@) && countable(packet@),
            r matches Err(error) ==> error is Wire,
    {
        match parse_message(bytes) {
            Err(error) => Err(DnsError::Wire(error)),
            Ok(wire) => {
                let word: u16 = bytes[2] as u16 * 256 + bytes[3] as u16;
                let flags: u16 = word & ALL_FLAGS;
                let ghost model = wire.packet(flags);
                let packet = Packet {
                    header: Header { id: wire.id, opcode: wire.opcode, rcode: wire.rcode, flags, opt: wire.opt },
                    questions: read_questions(&wire.questions),
                    answers: read_records(&wire.answers),
                    name_servers: read_records(&wire.name_servers),
                    additional_records: read_records(&wire.additional_records),
                };
                assert(packet@ == model);
                Ok(packet)
            },
        }
    }

    /// Writes the message, with compressed names.
    pub fn build_bytes_vec_compressed(&self) -> (r: Result<Vec<u8>, DnsError>)
        requires
            countable(self@),
        ensures
            r is Ok <==> written(self@) is Some,
            r matches Ok(bytes) ==> written(self@) == Some(bytes@),
            r matches Ok(bytes) ==> bytes@.len() >= 12 && number_at(bytes@, 0) == self.header.id,
            r matches Ok(bytes) ==> number_at(bytes@, 2) & ALL_FLAGS == self.header.flags & ALL_FLAGS,
            r matches Err(error) ==> error is Wire,
    {
        let questions: Vec<simple_dns::Question<'static>> = match wire_questions(&self.questions) {
            Ok(questions) => questions,
            Err(error) => return Err(error),
        };
        let answers: Vec<simple_dns::ResourceRecord<'static>> = match wire_records(&self.answers) {
            Ok(records) => records,
            Err(error) => return Err(error),
        };
        let name_servers: Vec<simple_dns::ResourceRecord<'static>> = match wire_records(&self.name_servers) {
            Ok(records) => records,
            Err(error) => return Err(error),
        };
        let additional: Vec<simple_dns::ResourceRecord<'static>> = match wire_records(&self.additional_records) {
            Ok(records) => records,
            Err(error) => return Err(error),
        };
        assert(packet_of(self.header, questions@, answers@, name_servers@, additional@) == self@);
        match build_message(&self.header, questions, answers, name_servers, additional) {
            Ok(bytes) => Ok(bytes),
            Err(error) => Err(DnsError::Wire(error)),
        }
    }
}

/// Whether every octet of these labels stands for itself in the text of a name: an ASCII
/// character, but no dot and no backslash.
pub open spec fn plain_labels(labels: Seq<Seq<u8>>) -> bool {
    forall|i: int, j: int|
        0 <= i < labels.len() && 0 <= j < labels[i].len() ==> (#[trigger] labels[i][j]) < 0x80 && labels[i][j] != DOT
            && labels[i][j] != BACKSLASH
}

/// How many octets the wire form of these labels has.
pub open spec fn wire_len(labels: Seq<Seq<u8>>) -> int
    decreases labels.len(),
{
    if labels.len() == 0 {
        1
    } else {
        wire_len(labels.drop_last()) + labels.last().len() + 1
    }
}

/// The labels of the name that text without escapes writes: the pieces between its dots, but for
/// the empty ones. `None` where a label or the whole name is too long.
pub open spec fn plain_name(text: Seq<u8>) -> Option<Seq<Seq<u8>>> {
    let labels = text::split_dots(text).filter(|label: Seq<u8>| label.len() > 0);
    if message::message_labels(labels) && wire_len(labels) <= MAX_NAME {
        Some(labels)
    } else {
        None
    }
}

/// The text of the name with these labels.
pub uninterp spec fn name_text(labels: Seq<Seq<u8>>) -> Seq<u8>;

/// The labels of the name that some text writes, where it writes one.
pub uninterp spec fn name_of_text(text: Seq<u8>) -> Option<Seq<Seq<u8>>>;

/// Writes a name with the `Display` of `simple_dns::Name`. Labels that stand for themselves come
/// out joined by dots. In any other label a dot or a backslash is escaped by a backslash, and
/// octets that are not ASCII come out as characters that are not ASCII either.
#[verifier::external_body]
fn display_name(name: &Name) -> (r: String)
    ensures
        vstd::utf8::encode_utf8(r@) == name_text(name@),
        plain_labels(name@) ==> vstd::utf8::encode_utf8(r@) == text::join_dots(name@),
        !plain_labels(name@) ==> exists|i: int|
            0 <= i < vstd::utf8::encode_utf8(r@).len() && (vstd::utf8::encode_utf8(r@)[i] == BACKSLASH
                || #[trigger] vstd::utf8::encode_utf8(r@)[i] >= 0x80),
{
    let labels: Vec<_> = name.labels.iter().map(|label| Label::new_unchecked(label.clone())).collect();
    simple_dns::Name::new_with_labels(&labels).to_string()
}

/// Reads a name with `simple_dns::Name::new`. Text without a backslash is cut at its dots, empty
/// pieces are skipped, a label has at most 63 octets and the wire form at most 255.
#[verifier::external_body]
fn parse_name(text: &str) -> (r: Result<Name, simple_dns::SimpleDnsError>)
    ensures
        r is Ok <==> name_of_text(text.spec_bytes()) is Some,
        r matches Ok(name) ==> name_of_text(text.spec_bytes()) == Some(name@),
        !text.spec_bytes().contains(BACKSLASH) ==> (r is Ok <==> plain_name(text.spec_bytes()) is Some),
        !text.spec_bytes().contains(BACKSLASH) ==> (r matches Ok(name) ==> plain_name(text.spec_bytes())
            == Some(name@)),
{
    let name = simple_dns::Name::new(text)?;
    Ok(Name { labels: name.as_bytes().map(<[u8]>::to_vec).collect() })
}

impl Name {
    /// The name that `text` writes: labels with dots between them, where a backslash escapes.
    pub fn new(text: &str) -> (r: Result<Name, DnsError>)
        ensures
            r is Ok <==> name_of_text(text.spec_bytes()) is Some,
            r matches Ok(name) ==> name_of_text(text.spec_bytes()) == Some(name@),
            r matches Err(error) ==> error is Wire,
            !text.spec_bytes().contains(BACKSLASH) ==> (r is Ok <==> plain_name(text.spec_bytes()) is Some),
            !text.spec_bytes().contains(BACKSLASH) ==> (r matches Ok(name) ==> plain_name(text.spec_bytes())
                == Some(name@)),
    {
        match parse_name(text) {
            Ok(name) => Ok(name),
            Err(error) => Err(DnsError::Wire(error)),
        }
    }

    /// The text of the name.
    pub fn text(&self) -> (r: String)
        ensures
            vstd::utf8::encode_utf8(r@) == name_text(self@),
            plain_labels(self@) ==> vstd::utf8::encode_utf8(r@) == text::join_dots(self@),
            !plain_labels(self@) ==> exists|i: int|
                0 <= i < vstd::utf8::encode_utf8(r@).len() && (vstd::utf8::encode_utf8(r@)[i] == BACKSLASH
                    || #[trigger] vstd::utf8::encode_utf8(r@)[i] >= 0x80),
    {
        display_name(self)
    }
}

/// A message is written where all its numbers are known ones, as it is, and else not at all.
pub proof fn law_messages_are_written_as_they_are(packet: message::PacketModel)
    ensures
        known_numbers(packet) ==> written(packet) == built_message(packet),
        !known_numbers(packet) ==> written(packet) is None,
{
}

} // verus!
