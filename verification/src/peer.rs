use vstd::prelude::*;
use crate::IpAddress;

verus! {

/// An (ip, port) pair naming where a datagram can be sent.
#[derive(Clone, Copy, PartialEq, Eq, Structural, Debug)]
pub struct SocketAddress {
    pub ip: IpAddress,
    pub port: u16,
}

/// Mathematical value of a `Peer`: the same fields with strings as
/// character sequences.
#[verifier::ext_equal]
pub struct PeerView {
    pub id: Seq<char>,
    pub ip: IpAddress,
    pub port: u16,
    pub last_seen: u64,
    pub hostname: Option<Seq<char>>,
}

/// The view of an optional string: the character sequence, if any.
pub open spec fn opt_str_view(s: Option<String>) -> Option<Seq<char>> {
    match s {
        Some(t) => Some(t@),
        None => None,
    }
}

/// One discovered node: its identity, the address the packet came from,
/// its advertised listening port, when it was last heard, and an optional
/// display name.
#[derive(Debug)]
pub struct Peer {
    pub id: String,
    pub ip: IpAddress,
    pub port: u16,
    pub last_seen: u64,
    pub hostname: Option<String>,
}

impl View for Peer {
    type V = PeerView;

    open spec fn view(&self) -> PeerView {
        PeerView {
            id: self.id@,
            ip: self.ip,
            port: self.port,
            last_seen: self.last_seen,
            hostname: opt_str_view(self.hostname),
        }
    }
}

/// An entry is stale exactly when more than `timeout_secs` whole seconds
/// have passed between `last_seen` and `now` (the boundary itself is not
/// stale); an entry seen in the future is never stale.
pub open spec fn is_stale_at(last_seen: u64, now: u64, timeout_secs: u64) -> bool {
    now - last_seen > timeout_secs
}

impl Clone for Peer {
    fn clone(&self) -> (res: Self)
        ensures
            res@ == self@,
    {
        Peer {
            id: self.id.clone(),
            ip: self.ip,
            port: self.port,
            last_seen: self.last_seen,
            hostname: match &self.hostname {
                Some(h) => Some(h.clone()),
                None => None,
            },
        }
    }
}

impl Peer {
    /// Builds a peer record; `last_seen_secs` is the epoch second at which
    /// the peer was observed.
    pub fn new(id: String, ip: IpAddress, port: u16, hostname: Option<String>, last_seen_secs: u64) -> (r: Self)
        ensures
            r@ == (PeerView {
                id: id@,
                ip,
                port,
                last_seen: last_seen_secs,
                hostname: opt_str_view(hostname),
            }),
    {
        Peer { id, ip, port, last_seen: last_seen_secs, hostname }
    }

    /// The address a text datagram for this peer is sent to: the observed
    /// source address together with the advertised listening port.
    pub fn socket_addr(&self) -> (r: SocketAddress)
        ensures
            r == (SocketAddress { ip: self.ip, port: self.port }),
    {
        SocketAddress { ip: self.ip, port: self.port }
    }

    /// Whether this entry has gone stale by time `now_secs` under the given
    /// timeout.
    pub fn is_stale(&self, now_secs: u64, timeout_secs: u64) -> (r: bool)
        ensures
            r == is_stale_at(self.last_seen, now_secs, timeout_secs),
    {
        now_secs > self.last_seen && now_secs - self.last_seen > timeout_secs
    }
}

} // verus!
