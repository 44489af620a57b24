use weirdns::addr::{IpAddr, SocketAddr};
use weirdns::transport::{
    attempt, frame_any, frame_len, frame_message, resolve, Attempt, Progress, ResolveError, Transport,
};
use weirdns::{dns, notify};

fn v4(last: u32) -> SocketAddr {
    SocketAddr::new(IpAddr::V4(0xc000_0200 + last), 53)
}

fn v6(last: u128) -> SocketAddr {
    SocketAddr::new(IpAddr::V6(last), 53)
}

/// Asks until it is done, and says whom, and with what end.
fn run(addresses: &[SocketAddr], outcomes: &[Result<Vec<u8>, u8>]) -> (Vec<Attempt>, Result<Vec<u8>, ResolveError<u8>>) {
    let mut attempts = vec![];
    let mut last = None;
    loop {
        match resolve(addresses, Transport::Tcp, attempts.len(), last) {
            Progress::Ask(attempt) => {
                last = Some(outcomes[attempts.len()].clone());
                attempts.push(attempt);
            }
            Progress::Done(result) => return (attempts, result),
        }
    }
}

#[test]
fn first_answer_counts() {
    let (attempts, result) = run(&[v4(1), v4(2), v4(3)], &[Err(1), Ok(vec![7]), Ok(vec![8])]);
    assert_eq!(attempts, vec![Attempt::Tcp { server: v4(1) }, Attempt::Tcp { server: v4(2) }]);
    assert_eq!(result.unwrap(), vec![7]);
}

#[test]
fn last_error_counts() {
    let (attempts, result) = run(&[v4(1), v4(2)], &[Err(1), Err(2)]);
    assert_eq!(attempts.len(), 2);
    assert!(matches!(result, Err(ResolveError::Upstream(2))));
}

#[test]
fn without_servers_there_is_no_answer() {
    let (attempts, result) = run(&[], &[]);
    assert!(attempts.is_empty());
    assert!(matches!(result, Err(ResolveError::NoAddress)));
}

#[test]
fn datagrams_are_sent_from_the_same_family() {
    let any4 = SocketAddr::new(IpAddr::V4(0), 0);
    let any6 = SocketAddr::new(IpAddr::V6(0), 0);
    assert_eq!(attempt(v4(1), Transport::Udp), Attempt::Udp { local: any4, server: v4(1) });
    assert_eq!(attempt(v6(1), Transport::Udp), Attempt::Udp { local: any6, server: v6(1) });
    assert_eq!(attempt(v6(1), Transport::Tcp), Attempt::Tcp { server: v6(1) });
}

#[test]
fn messages_go_behind_their_length() {
    assert_eq!(frame_message(&[9, 8, 7]).unwrap(), vec![0, 3, 9, 8, 7]);
    assert_eq!(frame_message(&vec![1; 0x1234]).unwrap()[..3], [0x12, 0x34, 1]);
    assert!(frame_message(&vec![0; 0xffff]).is_ok());
    assert!(frame_message(&vec![0; 0x1_0000]).is_err());
    assert_eq!(frame_any(&vec![0; 0x1_0001])[..2], [0, 1]);
    assert_eq!(frame_len(0x12, 0x34), 0x1234);
}

#[test]
fn only_the_answer_counts_where_errors_are_of_no_interest() {
    let addresses = [v4(1), v6(2)];
    let ask = |tried: usize, last: Option<Vec<u8>>| dns::resolve(&addresses, dns::Transport::Udp, tried, last);
    assert!(matches!(ask(0, None), dns::Progress::Ask(Attempt::Udp { server, .. }) if server == v4(1)));
    assert!(matches!(ask(1, None), dns::Progress::Ask(Attempt::Udp { server, .. }) if server == v6(2)));
    assert!(matches!(ask(2, None), dns::Progress::Done(None)));
    assert!(matches!(ask(1, Some(vec![5])), dns::Progress::Done(Some(reply)) if reply == vec![5]));
    assert!(matches!(
        dns::resolve(&addresses, dns::Transport::Tcp, 1, None),
        dns::Progress::Ask(Attempt::Tcp { server }) if server == v6(2)
    ));
}

#[test]
fn service_manager_is_told_where_it_listens() {
    assert!(matches!(notify::notify("READY=1", None), Ok(None)));
    let sent = notify::notify("READY=1", Some(b"/run/notify")).unwrap().unwrap();
    assert!(matches!(sent.target, notify::NotifyTarget::Path(path) if path == b"/run/notify"));
    assert_eq!(sent.payload, b"READY=1");
    let sent = notify::notify("X", Some(b"@name")).unwrap().unwrap();
    assert!(matches!(sent.target, notify::NotifyTarget::Abstract(name) if name == b"name"));
    assert!(notify::notify("X", Some(b"")).is_err());
    assert!(notify::notify("X", Some(b"run/notify")).is_err());
}
