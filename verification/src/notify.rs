//! Where the service manager is told that the service is ready.

use vstd::prelude::*;
use vstd::string::*;

verus! {

/// First octet of the path of a socket in the file system.
pub const SLASH: u8 = 47;

/// First octet of the name of an abstract socket.
pub const AT: u8 = 64;

/// A datagram socket of the service manager.
#[derive(Debug)]
pub enum NotifyTarget {
    /// One in the abstract namespace, by its name without the leading `@`.
    Abstract(Vec<u8>),
    /// One in the file system, by its path.
    Path(Vec<u8>),
}

impl NotifyTarget {
    /// The octets that `NOTIFY_SOCKET` holds for this socket.
    pub open spec fn setting(self) -> Seq<u8> {
        match self {
            NotifyTarget::Abstract(name) => seq![AT] + name@,
            NotifyTarget::Path(path) => path@,
        }
    }
}

/// A datagram to send.
#[derive(Debug)]
pub struct Notification {
    pub target: NotifyTarget,
    pub payload: Vec<u8>,
}

/// `NOTIFY_SOCKET` starts with neither `/` nor `@`.
#[derive(Debug)]
pub struct InvalidNotifySocket;

/// Whether `NOTIFY_SOCKET` names a socket.
pub open spec fn valid_setting(setting: Seq<u8>) -> bool {
    setting.len() > 0 && (setting[0] == SLASH || setting[0] == AT)
}

fn copy_from(octets: &[u8], from: usize) -> (r: Vec<u8>)
    requires
        from <= octets@.len(),
    ensures
        r@ == octets@.skip(from as int),
{
    let mut out: Vec<u8> = Vec::new();
    let mut i: usize = from;
    while i < octets.len()
        invariant
            from <= i <= octets@.len(),
            out@ == octets@.subrange(from as int, i as int),
        decreases octets@.len() - i,
    {
        out.push(octets[i]);
        assert(out@ =~= octets@.subrange(from as int, i + 1));
        i = i + 1;
    }
    assert(out@ =~= octets@.skip(from as int));
    out
}

/// What to send where, given what `NOTIFY_SOCKET` holds. Nothing where it is not set.
pub fn notify(message: &str, socket_path: Option<&[u8]>) -> (r: Result<Option<Notification>, InvalidNotifySocket>)
    ensures
        r matches Ok(None) <==> socket_path is None,
        r is Err <==> (socket_path matches Some(path) && !valid_setting(path@)),
        r matches Ok(Some(n)) ==> {
            &&& socket_path matches Some(path)
            &&& n.target.setting() == path@
            &&& n.target is Abstract <==> path@[0] == AT
            &&& n.payload@ == message.spec_bytes()
        },
{
    let Some(path) = socket_path else {
        return Ok(None);
    };
    if path.len() == 0 || (path[0] != SLASH && path[0] != AT) {
        return Err(InvalidNotifySocket);
    }
    let target: NotifyTarget = if path[0] == AT {
        let name: Vec<u8> = copy_from(path, 1);
        assert(seq![AT] + name@ =~= path@);
        NotifyTarget::Abstract(name)
    } else {
        let whole: Vec<u8> = copy_from(path, 0);
        assert(whole@ =~= path@);
        NotifyTarget::Path(whole)
    };
    let payload: Vec<u8> = copy_from(message.as_bytes(), 0);
    assert(payload@ =~= message.spec_bytes());
    Ok(Some(Notification { target, payload }))
}

/// A setting names a socket where it starts with `/` or `@`: with `@` it is the name of an abstract
/// socket, and the rest of it that name; with `/` all of it is a path.
pub proof fn law_settings_name_sockets(first: u8, rest: Seq<u8>, target: NotifyTarget)
    ensures
        valid_setting(seq![first] + rest) <==> first == 47 || first == 64,
        !valid_setting(Seq::empty()),
        target matches NotifyTarget::Abstract(name) ==> (target.setting() == seq![64u8] + rest <==> name@ == rest),
        target matches NotifyTarget::Path(path) ==> target.setting() == path@,
{
    if let NotifyTarget::Abstract(name) = target {
        if target.setting() == seq![64u8] + rest {
            assert(name@ =~= target.setting().skip(1));
            assert(rest =~= (seq![64u8] + rest).skip(1));
        }
    }
}

} // verus!
