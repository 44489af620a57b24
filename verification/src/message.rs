//! DNS messages: what the forwarder reads of them, as plain values.

use vstd::prelude::*;
use crate::glob::MAX_LABEL;

verus! {

/// Record type of an IPv4 address.
pub const TYPE_A: u16 = 1;

/// Record type of an alias.
pub const TYPE_CNAME: u16 = 5;

/// Record type of a pointer to a name.
pub const TYPE_PTR: u16 = 12;

/// Record type of an IPv6 address.
pub const TYPE_AAAA: u16 = 28;

/// The class of the Internet.
pub const CLASS_IN: u16 = 1;

/// The message is a response.
pub const RESPONSE: u16 = 0x8000;

/// The server is an authority for the name.
pub const AUTHORITATIVE_ANSWER: u16 = 0x0400;

/// The message was cut short.
pub const TRUNCATION: u16 = 0x0200;

/// The query asks for recursion.
pub const RECURSION_DESIRED: u16 = 0x0100;

/// The server offers recursion.
pub const RECURSION_AVAILABLE: u16 = 0x0080;

/// The data was authenticated.
pub const AUTHENTIC_DATA: u16 = 0x0020;

/// The query does without checking.
pub const CHECKING_DISABLED: u16 = 0x0010;

/// Every flag of a message.
pub const ALL_FLAGS: u16 = 0x87b0;

/// The octets of each of some labels.
pub open spec fn octets_of_vecs(parts: Seq<Vec<u8>>) -> Seq<Seq<u8>> {
    Seq::new(parts.len(), |i: int| parts[i]@)
}

/// Whether these can be the labels of a name in a message: 1 to 63 octets each.
pub open spec fn message_labels(labels: Seq<Seq<u8>>) -> bool {
    forall|i: int| 0 <= i < labels.len() ==> 1 <= (#[trigger] labels[i]).len() <= MAX_LABEL
}

/// A domain name in a message. Its labels hold any octets.
#[derive(Debug)]
pub struct Name {
    pub(crate) labels: Vec<Vec<u8>>,
}

impl View for Name {
    type V = Seq<Seq<u8>>;

    /// The labels, the leftmost first.
    closed spec fn view(&self) -> Seq<Seq<u8>> {
        octets_of_vecs(self.labels@)
    }
}

/// A copy of some octets.
pub fn copy_octets(octets: &[u8]) -> (r: Vec<u8>)
    ensures
        r@ == octets@,
{
    let mut out: Vec<u8> = Vec::new();
    let mut i: usize = 0;
    while i < octets.len()
        invariant
            0 <= i <= octets@.len(),
            out@ == octets@.take(i as int),
        decreases octets@.len() - i,
    {
        out.push(octets[i]);
        assert(out@ =~= octets@.take(i + 1));
        i = i + 1;
    }
    assert(out@ =~= octets@);
    out
}

impl Name {
    #[verifier::type_invariant]
    closed spec fn well_formed(self) -> bool {
        message_labels(octets_of_vecs(self.labels@))
    }

    /// The name of these labels, where each has 1 to 63 octets.
    pub fn from_labels(labels: Vec<Vec<u8>>) -> (r: Option<Name>)
        ensures
            r is Some <==> message_labels(octets_of_vecs(labels@)),
            r matches Some(name) ==> name@ == octets_of_vecs(labels@),
    {
        let mut i: usize = 0;
        let ghost all = octets_of_vecs(labels@);
        while i < labels.len()
            invariant
                all == octets_of_vecs(labels@),
                0 <= i <= labels@.len(),
                forall|j: int| 0 <= j < i ==> 1 <= (#[trigger] all[j]).len() <= MAX_LABEL,
            decreases labels@.len() - i,
        {
            let len: usize = labels[i].len();
            assert(all[i as int].len() == len);
            if len < 1 || len > MAX_LABEL {
                return None;
            }
            i = i + 1;
        }
        Some(Name { labels })
    }

    /// The root, which has no label.
    pub fn root() -> (r: Name)
        ensures
            r@ == Seq::<Seq<u8>>::empty(),
    {
        let labels: Vec<Vec<u8>> = Vec::new();
        assert(octets_of_vecs(labels@) =~= Seq::<Seq<u8>>::empty());
        Name { labels }
    }

    /// How many labels the name has. Each of them has 1 to 63 octets.
    pub fn len(&self) -> (r: usize)
        ensures
            r == self@.len(),
            message_labels(self@),
    {
        proof {
            use_type_invariant(self);
        }
        self.labels.len()
    }

    /// One label.
    pub fn label(&self, i: usize) -> (r: &[u8])
        requires
            i < self@.len(),
        ensures
            r@ == self@[i as int],
    {
        self.labels[i].as_slice()
    }
}

impl Clone for Name {
    fn clone(&self) -> (r: Name)
        ensures
            r@ == self@,
    {
        proof {
            use_type_invariant(self);
        }
        let mut labels: Vec<Vec<u8>> = Vec::new();
        let mut i: usize = 0;
        while i < self.labels.len()
            invariant
                0 <= i <= self.labels@.len(),
                octets_of_vecs(labels@) == octets_of_vecs(self.labels@).take(i as int),
            decreases self.labels@.len() - i,
        {
            let ghost done = octets_of_vecs(labels@);
            let label: Vec<u8> = copy_octets(self.labels[i].as_slice());
            labels.push(label);
            assert(octets_of_vecs(labels@) =~= done.push(label@));
            assert(octets_of_vecs(labels@) =~= octets_of_vecs(self.labels@).take(i + 1));
            i = i + 1;
        }
        assert(octets_of_vecs(labels@) =~= octets_of_vecs(self.labels@));
        Name { labels }
    }
}

/// A question, as plain values.
#[verifier::ext_equal]
pub struct QuestionModel {
    pub qname: Seq<Seq<u8>>,
    pub qtype: u16,
    pub qclass: u16,
    pub unicast_response: bool,
}

/// A question of a message.
#[derive(Debug)]
pub struct DnsQuestion {
    pub qname: Name,
    /// The number of the record type that is asked for.
    pub qtype: u16,
    /// The number of the class.
    pub qclass: u16,
    pub unicast_response: bool,
}

impl View for DnsQuestion {
    type V = QuestionModel;

    open spec fn view(&self) -> QuestionModel {
        QuestionModel {
            qname: self.qname@,
            qtype: self.qtype,
            qclass: self.qclass,
            unicast_response: self.unicast_response,
        }
    }
}

/// The data of a record that the forwarder does not read, as it was received.
#[derive(Debug)]
pub struct OtherData {
    pub(crate) code: u16,
    pub(crate) data: simple_dns::rdata::RData<'static>,
}

impl OtherData {
    /// The number of the record type.
    pub closed spec fn spec_code(self) -> u16 {
        self.code
    }

    /// The data.
    pub closed spec fn spec_data(self) -> simple_dns::rdata::RData<'static> {
        self.data
    }

    /// The number of the record type.
    pub fn type_code(&self) -> (r: u16)
        ensures
            r == self.spec_code(),
    {
        self.code
    }
}

/// The data of a record, as plain values.
#[verifier::ext_equal]
pub enum DataModel {
    A(u32),
    AAAA(u128),
    CNAME(Seq<Seq<u8>>),
    Other(u16, simple_dns::rdata::RData<'static>),
}

impl DataModel {
    /// The number of the record type.
    pub open spec fn type_code(self) -> u16 {
        match self {
            DataModel::A(_) => TYPE_A,
            DataModel::AAAA(_) => TYPE_AAAA,
            DataModel::CNAME(_) => TYPE_CNAME,
            DataModel::Other(code, _) => code,
        }
    }
}

/// The data of a record.
#[derive(Debug)]
pub enum DnsData {
    /// An IPv4 address.
    A(u32),
    /// An IPv6 address.
    AAAA(u128),
    /// The name that this one is an alias for.
    CNAME(Name),
    /// Data of another type. A record without data is one of these, whatever its type.
    Other(OtherData),
}

impl View for DnsData {
    type V = DataModel;

    open spec fn view(&self) -> DataModel {
        match self {
            DnsData::A(address) => DataModel::A(*address),
            DnsData::AAAA(address) => DataModel::AAAA(*address),
            DnsData::CNAME(target) => DataModel::CNAME(target@),
            DnsData::Other(other) => DataModel::Other(other.spec_code(), other.spec_data()),
        }
    }
}

impl DnsData {
    /// The number of the record type.
    pub fn type_code(&self) -> (r: u16)
        ensures
            r == self@.type_code(),
    {
        match self {
            DnsData::A(_) => TYPE_A,
            DnsData::AAAA(_) => TYPE_AAAA,
            DnsData::CNAME(_) => TYPE_CNAME,
            DnsData::Other(other) => other.type_code(),
        }
    }
}

/// A record, as plain values.
#[verifier::ext_equal]
pub struct RecordModel {
    pub name: Seq<Seq<u8>>,
    pub class: u16,
    pub ttl: u32,
    pub cache_flush: bool,
    pub rdata: DataModel,
}

/// A record of a message.
#[derive(Debug)]
pub struct DnsRecord {
    pub name: Name,
    /// The number of the class.
    pub class: u16,
    pub ttl: u32,
    pub cache_flush: bool,
    pub rdata: DnsData,
}

impl View for DnsRecord {
    type V = RecordModel;

    open spec fn view(&self) -> RecordModel {
        RecordModel {
            name: self.name@,
            class: self.class,
            ttl: self.ttl,
            cache_flush: self.cache_flush,
            rdata: self.rdata@,
        }
    }
}

/// The models of some questions.
pub open spec fn questions_of(questions: Seq<DnsQuestion>) -> Seq<QuestionModel> {
    Seq::new(questions.len(), |i: int| questions[i]@)
}

/// The models of some records.
pub open spec fn records_of(records: Seq<DnsRecord>) -> Seq<RecordModel> {
    Seq::new(records.len(), |i: int| records[i]@)
}

/// What a message says of itself.
#[derive(Debug)]
pub struct Header {
    pub id: u16,
    /// The number of the kind of query.
    pub opcode: u16,
    /// The number of the response code.
    pub rcode: u16,
    /// The flags that are set, out of [`ALL_FLAGS`].
    pub flags: u16,
    /// The extensions that the message came with, where it had any.
    pub opt: Option<simple_dns::rdata::OPT<'static>>,
}

/// A message, as plain values.
#[verifier::ext_equal]
pub struct PacketModel {
    pub header: Header,
    pub questions: Seq<QuestionModel>,
    pub answers: Seq<RecordModel>,
    pub name_servers: Seq<RecordModel>,
    pub additional_records: Seq<RecordModel>,
}

/// A message.
#[derive(Debug)]
pub struct Packet {
    pub header: Header,
    pub questions: Vec<DnsQuestion>,
    pub answers: Vec<DnsRecord>,
    pub name_servers: Vec<DnsRecord>,
    pub additional_records: Vec<DnsRecord>,
}

impl View for Packet {
    type V = PacketModel;

    open spec fn view(&self) -> PacketModel {
        PacketModel {
            header: self.header,
            questions: questions_of(self.questions@),
            answers: records_of(self.answers@),
            name_servers: records_of(self.name_servers@),
            additional_records: records_of(self.additional_records@),
        }
    }
}

/// A header with nothing set but its id and these flags.
pub open spec fn plain_header(id: u16, flags: u16) -> Header {
    Header { id, opcode: 0, rcode: 0, flags, opt: None }
}

/// A message with this header and nothing else.
pub open spec fn empty_packet(header: Header) -> PacketModel {
    PacketModel {
        header,
        questions: Seq::empty(),
        answers: Seq::empty(),
        name_servers: Seq::empty(),
        additional_records: Seq::empty(),
    }
}

impl Packet {
    fn with_header(header: Header) -> (r: Packet)
        ensures
            r@ == empty_packet(header),
    {
        let r = Packet {
            header,
            questions: Vec::new(),
            answers: Vec::new(),
            name_servers: Vec::new(),
            additional_records: Vec::new(),
        };
        assert(r@ =~= empty_packet(header));
        r
    }

    /// A query without questions.
    pub fn new_query(id: u16) -> (r: Packet)
        ensures
            r@ == empty_packet(plain_header(id, 0)),
    {
        Packet::with_header(Header { id, opcode: 0, rcode: 0, flags: 0, opt: None })
    }

    /// A reply without questions and records.
    pub fn new_reply(id: u16) -> (r: Packet)
        ensures
            r@ == empty_packet(plain_header(id, RESPONSE)),
    {
        Packet::with_header(Header { id, opcode: 0, rcode: 0, flags: RESPONSE, opt: None })
    }

    /// Sets flags.
    pub fn set_flags(&mut self, flags: u16)
        ensures
            final(self)@ == (PacketModel {
                header: Header { flags: old(self).header.flags | flags, ..old(self).header },
                ..old(self)@
            }),
    {
        self.header.flags = self.header.flags | flags;
    }

    /// Whether all of these flags are set.
    pub fn has_flags(&self, flags: u16) -> (r: bool)
        ensures
            r == (self.header.flags & flags == flags),
    {
        self.header.flags & flags == flags
    }
}

/// The numbers of the record types that are told apart: 1 for an IPv4 address, 28 for an IPv6
/// address, 5 for an alias. Any other data has the number that it came with.
pub proof fn law_record_types_are_numbered(data: DataModel)
    ensures
        data is A ==> data.type_code() == 1,
        data is AAAA ==> data.type_code() == 28,
        data is CNAME ==> data.type_code() == 5,
        data matches DataModel::Other(code, _) ==> data.type_code() == code,
{
}

/// Nothing of a message is left out of its plain values: every question and every record is there,
/// in its place, with all that it holds.
pub proof fn law_plain_values_hold_all(packet: Packet, question: DnsQuestion, record: DnsRecord, i: int)
    ensures
        packet@.header == packet.header,
        packet@.questions.len() == packet.questions@.len(),
        packet@.answers.len() == packet.answers@.len(),
        packet@.name_servers.len() == packet.name_servers@.len(),
        packet@.additional_records.len() == packet.additional_records@.len(),
        0 <= i < packet.questions@.len() ==> packet@.questions[i] == packet.questions@[i]@,
        0 <= i < packet.answers@.len() ==> packet@.answers[i] == packet.answers@[i]@,
        0 <= i < packet.name_servers@.len() ==> packet@.name_servers[i] == packet.name_servers@[i]@,
        0 <= i < packet.additional_records@.len() ==> packet@.additional_records[i] == packet.additional_records@[i]@,
        question@.qname == question.qname@,
        question@.qtype == question.qtype,
        question@.qclass == question.qclass,
        question@.unicast_response == question.unicast_response,
        record@.name == record.name@,
        record@.class == record.class,
        record@.ttl == record.ttl,
        record@.cache_flush == record.cache_flush,
        record.rdata matches DnsData::A(address) ==> record@.rdata == DataModel::A(address),
        record.rdata matches DnsData::AAAA(address) ==> record@.rdata == DataModel::AAAA(address),
        record.rdata matches DnsData::CNAME(target) ==> record@.rdata == DataModel::CNAME(target@),
        record.rdata matches DnsData::Other(other) ==> record@.rdata == DataModel::Other(
            other.spec_code(),
            other.spec_data(),
        ),
{
}

} // verus!
