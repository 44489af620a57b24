//! Asking upstream servers where only the answer counts, not why there is none.

use vstd::prelude::*;
use crate::addr::SocketAddr;
use crate::transport;

verus! {

/// How a client asked, and so how upstream servers are asked.
#[derive(Clone, Copy, Debug, PartialEq, Eq, Structural)]
pub enum Transport {
    Udp,
    Tcp,
}

/// What comes next in asking upstream servers.
#[derive(Debug)]
pub enum Progress {
    /// Ask this server.
    Ask(transport::Attempt),
    /// Done: the answer, or that there is none.
    Done(Option<Vec<u8>>),
}

/// The question to `server` over `transport`.
pub open spec fn attempt_to(server: SocketAddr, transport: Transport) -> transport::Attempt {
    match transport {
        Transport::Udp => transport::Attempt::Udp { local: server.unspecified(), server },
        Transport::Tcp => transport::Attempt::Tcp { server },
    }
}

/// What comes next after `tried` servers were asked, the last of them with this answer.
pub open spec fn next_progress(
    addresses: Seq<SocketAddr>,
    transport: Transport,
    tried: int,
    last: Option<Vec<u8>>,
) -> Progress {
    if last is Some {
        Progress::Done(last)
    } else if tried < addresses.len() {
        Progress::Ask(attempt_to(addresses[tried], transport))
    } else {
        Progress::Done(None)
    }
}

/// Decides what comes next in asking `addresses` in their order: the first answer counts. `tried`
/// servers were asked so far, the last of them with the answer `last`.
pub fn resolve(
    addresses: &[SocketAddr],
    transport: Transport,
    tried: usize,
    last: Option<Vec<u8>>,
) -> (r: Progress)
    ensures
        r == next_progress(addresses@, transport, tried as int, last),
{
    if last.is_some() {
        Progress::Done(last)
    } else if tried < addresses.len() {
        let server: SocketAddr = addresses[tried];
        Progress::Ask(match transport {
            Transport::Udp => transport::Attempt::Udp { local: server.local(), server },
            Transport::Tcp => transport::Attempt::Tcp { server },
        })
    } else {
        Progress::Done(None)
    }
}

/// What a whole run of [`resolve`] ends with, from the point where `tried` servers were asked,
/// when server `i` would answer `answers[i]`.
pub open spec fn run_resolve(
    addresses: Seq<SocketAddr>,
    transport: Transport,
    answers: Seq<Option<Vec<u8>>>,
    tried: int,
) -> Option<Vec<u8>>
    recommends
        answers.len() == addresses.len(),
        0 <= tried <= addresses.len(),
    decreases addresses.len() - tried,
{
    let last = if tried <= 0 {
        None
    } else {
        answers[tried - 1]
    };
    match next_progress(addresses, transport, tried, last) {
        Progress::Done(answer) => answer,
        Progress::Ask(_) => if tried < addresses.len() {
            run_resolve(addresses, transport, answers, tried + 1)
        } else {
            None
        },
    }
}

proof fn lemma_run_from(
    addresses: Seq<SocketAddr>,
    transport: Transport,
    answers: Seq<Option<Vec<u8>>>,
    first: int,
    tried: int,
)
    requires
        answers.len() == addresses.len(),
        0 <= tried <= first + 1,
        0 <= first <= answers.len(),
        tried <= answers.len(),
        first < answers.len() ==> answers[first] is Some,
        forall|i: int| 0 <= i < first ==> answers[i] is None,
    ensures
        run_resolve(addresses, transport, answers, tried) == if first < answers.len() {
            answers[first]
        } else {
            None
        },
    decreases answers.len() - tried,
{
    if tried <= first && tried < answers.len() {
        lemma_run_from(addresses, transport, answers, first, tried + 1);
    }
}

/// The first server that answers is the one that counts, whatever those behind it would say, and
/// without one there is no answer.
pub proof fn law_first_answer_counts(
    addresses: Seq<SocketAddr>,
    transport: Transport,
    answers: Seq<Option<Vec<u8>>>,
    first: int,
)
    requires
        answers.len() == addresses.len(),
        0 <= first <= answers.len(),
        first < answers.len() ==> answers[first] is Some,
        forall|i: int| 0 <= i < first ==> answers[i] is None,
    ensures
        run_resolve(addresses, transport, answers, 0) == if first < answers.len() {
            answers[first]
        } else {
            None
        },
{
    lemma_run_from(addresses, transport, answers, first, 0);
}

/// Servers are asked in the order of their addresses, each over the transport that the client
/// used. An answer ends it, and so does the last server.
pub proof fn law_servers_are_asked_in_order(
    addresses: Seq<SocketAddr>,
    transport: Transport,
    tried: int,
    answer: Vec<u8>,
)
    requires
        0 <= tried,
    ensures
        tried < addresses.len() ==> {
            &&& next_progress(addresses, transport, tried, None) matches Progress::Ask(attempt)
            &&& transport == Transport::Udp ==> transport::asks(attempt, addresses[tried], transport::Transport::Udp)
            &&& transport == Transport::Tcp ==> transport::asks(attempt, addresses[tried], transport::Transport::Tcp)
        },
        tried >= addresses.len() ==> next_progress(addresses, transport, tried, None) == Progress::Done(None),
        next_progress(addresses, transport, tried, Some(answer)) == Progress::Done(Some(answer)),
{
}

} // verus!
