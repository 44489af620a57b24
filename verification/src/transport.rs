//! Which upstream server is asked, in which order, and how messages go over TCP.

use vstd::prelude::*;
use crate::addr;
use crate::addr::SocketAddr;

verus! {

/// Seconds after which an upstream server that was asked over UDP counts as failed.
pub const UDP_TIMEOUT_SECS: u64 = 5;

/// Seconds after which an upstream server that was asked over TCP counts as failed.
pub const TCP_TIMEOUT_SECS: u64 = 5;

/// Longest message that is read from a UDP socket.
pub const UDP_MAX_PACKET_SIZE: usize = 4096;

/// How a client asked, and so how upstream servers are asked.
#[derive(Clone, Copy, Debug, PartialEq, Eq, Structural)]
pub enum Transport {
    Udp,
    Tcp,
}

/// One question to one server.
#[derive(Clone, Copy, Debug, PartialEq, Eq, Structural)]
pub enum Attempt {
    /// A datagram from `local` to `server`.
    Udp { local: SocketAddr, server: SocketAddr },
    /// A connection to `server`.
    Tcp { server: SocketAddr },
}

/// The question to `server` over `transport`.
pub open spec fn attempt_to(server: SocketAddr, transport: Transport) -> Attempt {
    match transport {
        Transport::Udp => Attempt::Udp { local: server.unspecified(), server },
        Transport::Tcp => Attempt::Tcp { server },
    }
}

/// Why no server answered.
#[derive(Debug)]
pub enum ResolveError<E> {
    /// There is no server to ask.
    NoAddress,
    /// The last server failed like this.
    Upstream(E),
}

/// What comes next in asking upstream servers.
#[derive(Debug)]
pub enum Progress<E> {
    /// Ask this server.
    Ask(Attempt),
    /// Done: this or no answer.
    Done(Result<Vec<u8>, ResolveError<E>>),
}

/// What comes next after `tried` servers were asked, the last of them with this outcome.
pub open spec fn next_progress<E>(
    addresses: Seq<SocketAddr>,
    transport: Transport,
    tried: int,
    last: Option<Result<Vec<u8>, E>>,
) -> Progress<E> {
    match last {
        Some(Ok(message)) => Progress::Done(Ok(message)),
        Some(Err(error)) => if tried < addresses.len() {
            Progress::Ask(attempt_to(addresses[tried], transport))
        } else {
            Progress::Done(Err(ResolveError::Upstream(error)))
        },
        None => if addresses.len() > 0 {
            Progress::Ask(attempt_to(addresses[0], transport))
        } else {
            Progress::Done(Err(ResolveError::NoAddress))
        },
    }
}

/// Decides what comes next in asking `addresses` in their order: the first answer counts, and
/// where no server answers, the error of the last one. `tried` servers were asked so far, the last
/// of them with the outcome `last`.
pub fn resolve<E>(
    addresses: &[SocketAddr],
    transport: Transport,
    tried: usize,
    last: Option<Result<Vec<u8>, E>>,
) -> (r: Progress<E>)
    ensures
        r == next_progress(addresses@, transport, tried as int, last),
{
    match last {
        Some(Ok(message)) => Progress::Done(Ok(message)),
        Some(Err(error)) => {
            if tried < addresses.len() {
                Progress::Ask(attempt(addresses[tried], transport))
            } else {
                Progress::Done(Err(ResolveError::Upstream(error)))
            }
        },
        None => {
            if addresses.len() > 0 {
                Progress::Ask(attempt(addresses[0], transport))
            } else {
                Progress::Done(Err(ResolveError::NoAddress))
            }
        },
    }
}

/// The question to `server` over `transport`.
pub fn attempt(server: SocketAddr, transport: Transport) -> (r: Attempt)
    ensures
        r == attempt_to(server, transport),
{
    match transport {
        Transport::Udp => Attempt::Udp { local: server.local(), server },
        Transport::Tcp => Attempt::Tcp { server },
    }
}

/// What a whole run of [`resolve`] ends with, from the point where `tried` servers were asked,
/// when server `i` would answer `outcomes[i]`.
pub open spec fn run_resolve<E>(
    addresses: Seq<SocketAddr>,
    transport: Transport,
    outcomes: Seq<Result<Vec<u8>, E>>,
    tried: int,
) -> Result<Vec<u8>, ResolveError<E>>
    recommends
        outcomes.len() == addresses.len(),
        0 <= tried <= addresses.len(),
    decreases addresses.len() - tried,
{
    let last = if tried <= 0 {
        None
    } else {
        Some(outcomes[tried - 1])
    };
    match next_progress(addresses, transport, tried, last) {
        Progress::Done(result) => result,
        Progress::Ask(_) => if tried < addresses.len() {
            run_resolve(addresses, transport, outcomes, tried + 1)
        } else {
            Err(ResolveError::NoAddress)
        },
    }
}

/// The first server that answers is the one that counts, whatever those behind it would say.
pub proof fn law_first_answer_counts<E>(
    addresses: Seq<SocketAddr>,
    transport: Transport,
    outcomes: Seq<Result<Vec<u8>, E>>,
    first: int,
)
    requires
        outcomes.len() == addresses.len(),
        0 <= first < outcomes.len(),
        outcomes[first] is Ok,
        forall|i: int| 0 <= i < first ==> outcomes[i] is Err,
    ensures
        run_resolve(addresses, transport, outcomes, 0) == Ok::<Vec<u8>, ResolveError<E>>(outcomes[first]->Ok_0),
{
    lemma_run_from(addresses, transport, outcomes, first, 0);
}

proof fn lemma_run_from<E>(
    addresses: Seq<SocketAddr>,
    transport: Transport,
    outcomes: Seq<Result<Vec<u8>, E>>,
    first: int,
    tried: int,
)
    requires
        outcomes.len() == addresses.len(),
        0 <= tried <= first + 1,
        0 <= first < outcomes.len(),
        outcomes[first] is Ok,
        forall|i: int| 0 <= i < first ==> outcomes[i] is Err,
    ensures
        run_resolve(addresses, transport, outcomes, tried) == Ok::<Vec<u8>, ResolveError<E>>(outcomes[first]->Ok_0),
    decreases first + 1 - tried,
{
    if tried <= first {
        lemma_run_from(addresses, transport, outcomes, first, tried + 1);
    }
}

/// Where every server fails, the error is that of the last one.
pub proof fn law_last_error_counts<E>(
    addresses: Seq<SocketAddr>,
    transport: Transport,
    outcomes: Seq<Result<Vec<u8>, E>>,
)
    requires
        outcomes.len() == addresses.len(),
        addresses.len() > 0,
        forall|i: int| 0 <= i < outcomes.len() ==> outcomes[i] is Err,
    ensures
        run_resolve(addresses, transport, outcomes, 0) == Err::<Vec<u8>, ResolveError<E>>(
            ResolveError::Upstream(outcomes.last()->Err_0),
        ),
{
    lemma_run_fails(addresses, transport, outcomes, 0);
}

proof fn lemma_run_fails<E>(
    addresses: Seq<SocketAddr>,
    transport: Transport,
    outcomes: Seq<Result<Vec<u8>, E>>,
    tried: int,
)
    requires
        outcomes.len() == addresses.len(),
        addresses.len() > 0,
        0 <= tried <= addresses.len(),
        forall|i: int| 0 <= i < outcomes.len() ==> outcomes[i] is Err,
    ensures
        run_resolve(addresses, transport, outcomes, tried) == Err::<Vec<u8>, ResolveError<E>>(
            ResolveError::Upstream(outcomes.last()->Err_0),
        ),
    decreases addresses.len() - tried,
{
    if tried < addresses.len() {
        assert(tried > 0 ==> outcomes[tried - 1] is Err);
        lemma_run_fails(addresses, transport, outcomes, tried + 1);
    }
}

/// A message that does not fit behind a length of 16 bits.
#[derive(Debug)]
pub struct MessageTooLong;

/// A message as it goes over TCP: behind its length, high octet first.
pub open spec fn framed(message: Seq<u8>) -> Seq<u8> {
    seq![(message.len() / 256 % 256) as u8, (message.len() % 256) as u8] + message
}

/// Puts a message behind its length.
pub fn frame_message(message: &[u8]) -> (r: Result<Vec<u8>, MessageTooLong>)
    ensures
        r is Ok <==> message@.len() <= 0xffff,
        r matches Ok(frame) ==> frame@ == framed(message@),
{
    if message.len() > 0xffff {
        return Err(MessageTooLong);
    }
    Ok(frame_any(message))
}

/// Puts a message behind the low 16 bits of its length.
pub fn frame_any(message: &[u8]) -> (frame: Vec<u8>)
    ensures
        frame@ == framed(message@),
{
    let len: usize = message.len();
    let mut frame: Vec<u8> = Vec::new();
    frame.push((len / 256 % 256) as u8);
    frame.push((len % 256) as u8);
    let ghost head = frame@;
    let mut i: usize = 0;
    while i < len
        invariant
            0 <= i <= len,
            len == message@.len(),
            frame@ == head + message@.take(i as int),
        decreases len - i,
    {
        frame.push(message[i]);
        assert(frame@ =~= head + message@.take(i + 1));
        i = i + 1;
    }
    assert(message@.take(i as int) =~= message@);
    assert(frame@ =~= framed(message@));
    frame
}

/// How many octets follow a length of two octets, high octet first.
pub fn frame_len(high: u8, low: u8) -> (r: usize)
    ensures
        r == high * 256 + low,
{
    high as usize * 256 + low as usize
}

/// The length in front of a message says how many octets follow.
pub proof fn law_frame_carries_its_length(message: Seq<u8>)
    requires
        message.len() <= 0xffff,
    ensures
        framed(message)[0] * 256 + framed(message)[1] == message.len(),
        framed(message).skip(2) == message,
{
    assert(framed(message).skip(2) =~= message);
}

/// Servers are asked in the order of their addresses, each over the transport that the client
/// used: datagrams from any address of the same family. An answer ends it, and so does the failure
/// of the last server.
pub proof fn law_servers_are_asked_in_order<E>(
    addresses: Seq<SocketAddr>,
    transport: Transport,
    tried: int,
    message: Vec<u8>,
    error: E,
)
    requires
        0 <= tried,
    ensures
        addresses.len() > 0 ==> {
            &&& next_progress::<E>(addresses, transport, 0, None) matches Progress::Ask(attempt)
            &&& asks(attempt, addresses[0], transport)
        },
        addresses.len() == 0 ==> next_progress::<E>(addresses, transport, 0, None) == Progress::<E>::Done(
            Err(ResolveError::NoAddress),
        ),
        tried < addresses.len() ==> {
            &&& next_progress(addresses, transport, tried, Some(Err::<Vec<u8>, E>(error))) matches Progress::Ask(attempt)
            &&& asks(attempt, addresses[tried], transport)
        },
        tried >= addresses.len() ==> next_progress(addresses, transport, tried, Some(Err::<Vec<u8>, E>(error)))
            == Progress::<E>::Done(Err(ResolveError::Upstream(error))),
        next_progress(addresses, transport, tried, Some(Ok::<Vec<u8>, E>(message))) == Progress::<E>::Done(Ok(message)),
{
}

/// Whether this is a question to that server over that transport, for a datagram from any address
/// of the same family.
pub open spec fn asks(attempt: Attempt, asked: SocketAddr, transport: Transport) -> bool {
    match attempt {
        Attempt::Udp { local, server } => {
            &&& transport == Transport::Udp
            &&& server == asked
            &&& local.ip == (if asked.ip is V4 {
                addr::IpAddr::V4(0)
            } else {
                addr::IpAddr::V6(0)
            })
            &&& local.port == 0
        },
        Attempt::Tcp { server } => transport == Transport::Tcp && server == asked,
    }
}

/// A message of any length goes behind the low 16 bits of it, as it is.
pub proof fn law_frame_holds_the_message(message: Seq<u8>)
    ensures
        framed(message).len() == message.len() + 2,
        framed(message)[0] * 256 + framed(message)[1] == message.len() % 0x1_0000,
        framed(message).skip(2) == message,
{
    assert(framed(message).skip(2) =~= message);
}

} // verus!
