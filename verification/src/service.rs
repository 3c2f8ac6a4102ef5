use vstd::prelude::*;
use crate::IpAddress;
use crate::peer::{Peer, PeerView, SocketAddress, opt_str_view};
use crate::message::{MessageType, MessageView, DiscoveryMessage};
use crate::codec::{
    encode_message,
    decode_message,
    spec_encode_message,
    spec_decode_message,
    spec_digits,
    u64_to_string,
};
use crate::registry::{
    PeerRegistry,
    UpsertOutcome,
    spec_upsert,
    spec_upsert_outcome,
    spec_sweep,
    spec_stale_count,
    has_id,
    index_of_id,
    ids_unique,
    views_of,
};
use crate::strutil::str_eq;
use crate::ident::generate_peer_id;

verus! {

/// The single agreed discovery port every node listens on.
pub const DISCOVERY_PORT: u16 = 7878;

/// The longest text payload a sender accepts, in characters, chosen so
/// the serialized envelope stays well under a datagram's practical size.
pub const MAX_TEXT_LEN: usize = 6000;

/// Why an outgoing text was refused.
#[derive(Clone, Debug, PartialEq, Eq)]
pub enum SendError {
    /// The text exceeds `MAX_TEXT_LEN` characters.
    TextTooLarge { length: usize },
    /// The addressed identity is not in the registry.
    PeerNotFound,
    /// The service has no identity yet.
    NotStarted,
}

/// Why the service could not do what was asked of its lifecycle.
#[derive(Clone, Copy, Debug, PartialEq, Eq, Structural)]
pub enum ServiceError {
    /// `start` was called on a running service.
    AlreadyStarted,
    /// An operation needing an identity ran before `start`.
    NotStarted,
}

/// What the listener decided about one inbound datagram.
#[derive(Debug, PartialEq, Eq)]
pub enum DatagramOutcome {
    /// Not a canonical wire message: dropped, never an error.
    Invalid,
    /// Our own broadcast received back: silently discarded.
    OwnMessage,
    /// A presence announcement: the registry was brought up to date.
    PeerSeen { outcome: UpsertOutcome },
    /// A text message for the host, to be handed to the delivery sink.
    TextReceived { sender: String, text: String },
    /// A text message with no payload: a no-op.
    EmptyText,
}

/// The peer entry a presence announcement gives rise to: identity and
/// port from the payload, the address as observed on the packet, the
/// time of observation.
pub open spec fn peer_of(mv: MessageView, src: IpAddress, now: u64) -> PeerView {
    PeerView { id: mv.peer_id, ip: src, port: mv.port, last_seen: now, hostname: mv.hostname }
}

/// The envelope an outgoing text is wrapped in.
pub open spec fn text_msg_view(own: Seq<char>, port: u16, now: u64, text: Seq<char>) -> MessageView {
    MessageView {
        message_type: MessageType::TextMessage,
        peer_id: own,
        port,
        hostname: None,
        timestamp: now,
        text: Some(text),
    }
}

/// The envelope a presence announcement is wrapped in.
pub open spec fn presence_msg_view(
    own: Seq<char>,
    port: u16,
    hostname: Option<Seq<char>>,
    now: u64,
) -> MessageView {
    MessageView {
        message_type: MessageType::PeerDiscovery,
        peer_id: own,
        port,
        hostname,
        timestamp: now,
        text: None,
    }
}

/// Where the datagrams of one planned send go.
pub open spec fn dests_of(s: Seq<PeerView>) -> Seq<SocketAddress> {
    s.map_values(|p: PeerView| SocketAddress { ip: p.ip, port: p.port })
}

/// One planned send: the serialized envelope and the addresses it goes
/// to, one datagram each.
#[derive(Debug)]
pub struct SendPlan {
    pub payload: String,
    pub destinations: Vec<SocketAddress>,
}

impl SendError {
    /// The error as text for the host.
    pub fn message(&self) -> (r: String)
        ensures
            r@ == spec_send_error_text(*self),
    {
        match self {
            SendError::TextTooLarge { length } => {
                let mut s = String::new();
                s.append("text too large (");
                let digits = u64_to_string(*length as u64);
                s.append(digits.as_str());
                s.append(" chars), limit 6000");
                proof {
                    assert(s@ =~= spec_send_error_text(*self));
                }
                s
            },
            SendError::PeerNotFound => {
                let mut s = String::new();
                s.append("peer not found");
                proof {
                    assert(s@ =~= spec_send_error_text(*self));
                }
                s
            },
            SendError::NotStarted => {
                let mut s = String::new();
                s.append("service not started");
                proof {
                    assert(s@ =~= spec_send_error_text(*self));
                }
                s
            },
        }
    }
}

/// The text of each send error; the size error names the limit.
pub open spec fn spec_send_error_text(e: SendError) -> Seq<char> {
    match e {
        SendError::TextTooLarge { length } => "text too large ("@ + spec_digits(length as int)
            + " chars), limit 6000"@,
        SendError::PeerNotFound => "peer not found"@,
        SendError::NotStarted => "service not started"@,
    }
}

/// The coordinator: owns the registry, holds this process's identity
/// once started, decides what the listener does with each datagram, and
/// plans outgoing sends.
pub struct DiscoveryService {
    registry: PeerRegistry,
    peer_id: Option<String>,
    port: u16,
}

impl DiscoveryService {
    /// The registry contents.
    pub closed spec fn peers(&self) -> Seq<PeerView> {
        self.registry.peers_view()
    }

    /// The sweep timeout, in seconds.
    pub closed spec fn timeout_spec(&self) -> u64 {
        self.registry.timeout_spec()
    }

    /// This process's identity, if `start` has run.
    pub closed spec fn identity(&self) -> Option<Seq<char>> {
        opt_str_view(self.peer_id)
    }

    /// The port stamped into outgoing envelopes.
    pub closed spec fn port_spec(&self) -> u16 {
        self.port
    }

    /// Running means an identity exists.
    pub open spec fn is_running(&self) -> bool {
        self.identity() is Some
    }

    /// Well-formed: the registry holds at most one entry per identity.
    pub open spec fn wf(&self) -> bool {
        ids_unique(self.peers())
    }

    /// A fresh, not yet started service whose registry sweeps entries
    /// older than `timeout_secs`.
    pub fn new(timeout_secs: u64) -> (r: Self)
        ensures
            r.wf(),
            !r.is_running(),
            r.peers() == Seq::<PeerView>::empty(),
            r.timeout_spec() == timeout_secs,
            r.port_spec() == DISCOVERY_PORT,
    {
        DiscoveryService {
            registry: PeerRegistry::new(timeout_secs),
            peer_id: None,
            port: DISCOVERY_PORT,
        }
    }

    /// Starts the service once: generates the identity and records the
    /// port; starting twice is an error and changes nothing.
    pub fn start(&mut self, port: u16) -> (r: Result<(), ServiceError>)
        requires
            old(self).wf(),
        ensures
            final(self).wf(),
            final(self).peers() == old(self).peers(),
            final(self).timeout_spec() == old(self).timeout_spec(),
            old(self).is_running() ==> r == Result::<(), ServiceError>::Err(
                ServiceError::AlreadyStarted,
            ) && final(self).identity() == old(self).identity() && final(self).port_spec() == old(self).port_spec(),
            !old(self).is_running() ==> r == Result::<(), ServiceError>::Ok(()) && final(self).is_running() && final(self).port_spec() == port,
    {
        match &self.peer_id {
            Some(_) => Err(ServiceError::AlreadyStarted),
            None => {
                self.peer_id = Some(generate_peer_id());
                self.port = port;
                Ok(())
            },
        }
    }

    /// Advisory stop: forgets the identity; entries and tasks are left
    /// to expire on their own.
    pub fn stop(&mut self)
        ensures
            !final(self).is_running(),
            final(self).peers() == old(self).peers(),
            final(self).timeout_spec() == old(self).timeout_spec(),
            final(self).port_spec() == old(self).port_spec(),
    {
        self.peer_id = None;
    }

    /// This process's identity, if any.
    pub fn peer_id(&self) -> (r: Option<String>)
        ensures
            opt_str_view(r) == self.identity(),
    {
        match &self.peer_id {
            Some(s) => Some(s.clone()),
            None => None,
        }
    }

    /// The registry, for host queries.
    pub fn registry(&self) -> (r: &PeerRegistry)
        ensures
            r.peers_view() == self.peers(),
            r.timeout_spec() == self.timeout_spec(),
    {
        &self.registry
    }

    /// A point-in-time copy of the known peers.
    pub fn current_peers(&self) -> (r: Vec<Peer>)
        ensures
            views_of(r@) == self.peers(),
    {
        self.registry.get_peers()
    }

    /// How many peers are currently known.
    pub fn peer_count(&self) -> (r: usize)
        ensures
            r == self.peers().len(),
    {
        self.registry.peer_count()
    }

    /// Sweeps the registry at time `now_secs`.
    pub fn sweep_stale(&mut self, now_secs: u64) -> (removed: usize)
        requires
            old(self).wf(),
        ensures
            final(self).wf(),
            final(self).peers() == spec_sweep(
                old(self).peers(),
                now_secs,
                old(self).timeout_spec(),
            ),
            removed == spec_stale_count(old(self).peers(), now_secs, old(self).timeout_spec()),
            final(self).timeout_spec() == old(self).timeout_spec(),
            final(self).identity() == old(self).identity(),
            final(self).port_spec() == old(self).port_spec(),
    {
        self.registry.cleanup_stale_peers(now_secs)
    }

    /// The presence announcement the broadcaster sends each tick, in
    /// wire form; an error before `start`.
    pub fn build_presence_payload(&self, hostname: Option<String>, now_secs: u64) -> (r: Result<
        String,
        ServiceError,
    >)
        ensures
            !self.is_running() ==> r == Result::<String, ServiceError>::Err(
                ServiceError::NotStarted,
            ),
            self.is_running() ==> (r matches Ok(p) && p@ == spec_encode_message(
                presence_msg_view(
                    self.identity().unwrap(),
                    self.port_spec(),
                    opt_str_view(hostname),
                    now_secs,
                ),
            )),
    {
        match &self.peer_id {
            None => Err(ServiceError::NotStarted),
            Some(own) => {
                let msg = DiscoveryMessage {
                    message_type: MessageType::PeerDiscovery,
                    peer_id: own.clone(),
                    port: self.port,
                    hostname,
                    timestamp: now_secs,
                    text: None,
                };
                Ok(encode_message(&msg))
            },
        }
    }

    /// What the listener does with one datagram: decode, drop garbage,
    /// drop our own traffic, upsert a presence, or hand a text payload
    /// out. A message whose sender identity equals our own never touches
    /// the registry and never reaches the text sink.
    pub fn handle_listener_message(&mut self, payload: &str, src: IpAddress, now_secs: u64) -> (r:
        DatagramOutcome)
        requires
            old(self).wf(),
        ensures
            final(self).wf(),
            final(self).identity() == old(self).identity(),
            final(self).timeout_spec() == old(self).timeout_spec(),
            final(self).port_spec() == old(self).port_spec(),
            spec_decode_message(payload@) is None ==> final(self).peers() == old(self).peers()
                && r == DatagramOutcome::Invalid,
            spec_decode_message(payload@) matches Some(mv) ==> {
                &&& old(self).identity() == Some(mv.peer_id) ==> final(self).peers() == old(self).peers() && r == DatagramOutcome::OwnMessage
                &&& old(self).identity() != Some(mv.peer_id)
                    && mv.message_type == MessageType::PeerDiscovery ==> final(self).peers()
                    == spec_upsert(old(self).peers(), peer_of(mv, src, now_secs)) && r == (
                DatagramOutcome::PeerSeen {
                    outcome: spec_upsert_outcome(old(self).peers(), peer_of(mv, src, now_secs)),
                })
                &&& old(self).identity() != Some(mv.peer_id)
                    && mv.message_type == MessageType::TextMessage ==> final(self).peers() == old(self).peers() && match mv.text {
                    Some(t) => r matches DatagramOutcome::TextReceived { sender, text }
                        && sender@ == mv.peer_id && text@ == t,
                    None => r == DatagramOutcome::EmptyText,
                }
            },
    {
        let msg = match decode_message(payload) {
            Some(m) => m,
            None => {
                return DatagramOutcome::Invalid;
            },
        };
        let own_message = match &self.peer_id {
            Some(own) => str_eq(own.as_str(), msg.peer_id.as_str()),
            None => false,
        };
        if own_message {
            return DatagramOutcome::OwnMessage;
        }
        match msg.message_type {
            MessageType::PeerDiscovery => {
                let peer = Peer::new(msg.peer_id, src, msg.port, msg.hostname, now_secs);
                let outcome = self.registry.add_peer(peer);
                DatagramOutcome::PeerSeen { outcome }
            },
            MessageType::TextMessage => {
                match msg.text {
                    Some(t) => DatagramOutcome::TextReceived { sender: msg.peer_id, text: t },
                    None => DatagramOutcome::EmptyText,
                }
            },
        }
    }

    /// Plans a text send to the one peer with this identity: size is
    /// checked first against the limit, an unknown identity is an error,
    /// and the datagram goes to the peer's observed address and
    /// advertised port.
    pub fn send_text_to_peer(&self, peer_id: &str, text: &str, now_secs: u64) -> (r: Result<
        SendPlan,
        SendError,
    >)
        ensures
            text@.len() > MAX_TEXT_LEN ==> r == Result::<SendPlan, SendError>::Err(
                SendError::TextTooLarge { length: text@.len() as usize },
            ),
            text@.len() <= MAX_TEXT_LEN && !self.is_running() ==> r == Result::<
                SendPlan,
                SendError,
            >::Err(SendError::NotStarted),
            text@.len() <= MAX_TEXT_LEN && self.is_running() && !has_id(self.peers(), peer_id@)
                ==> r == Result::<SendPlan, SendError>::Err(SendError::PeerNotFound),
            text@.len() <= MAX_TEXT_LEN && self.is_running() && has_id(self.peers(), peer_id@)
                ==> (r matches Ok(plan) && plan.payload@ == spec_encode_message(
                text_msg_view(self.identity().unwrap(), self.port_spec(), now_secs, text@),
            ) && plan.destinations@ == seq![
                SocketAddress {
                    ip: self.peers()[index_of_id(self.peers(), peer_id@)].ip,
                    port: self.peers()[index_of_id(self.peers(), peer_id@)].port,
                },
            ]),
    {
        let len = text.unicode_len();
        if len > MAX_TEXT_LEN {
            return Err(SendError::TextTooLarge { length: len });
        }
        let own = match &self.peer_id {
            Some(own) => own,
            None => {
                return Err(SendError::NotStarted);
            },
        };
        let target = match self.registry.get_peer(peer_id) {
            Some(p) => p,
            None => {
                return Err(SendError::PeerNotFound);
            },
        };
        let msg = DiscoveryMessage {
            message_type: MessageType::TextMessage,
            peer_id: own.clone(),
            port: self.port,
            hostname: None,
            timestamp: now_secs,
            text: Some(text.to_owned()),
        };
        let payload = encode_message(&msg);
        let mut destinations: Vec<SocketAddress> = Vec::new();
        destinations.push(target.socket_addr());
        proof {
            assert(destinations@ =~= seq![
                SocketAddress {
                    ip: self.peers()[index_of_id(self.peers(), peer_id@)].ip,
                    port: self.peers()[index_of_id(self.peers(), peer_id@)].port,
                },
            ]);
        }
        Ok(SendPlan { payload, destinations })
    }

    /// Plans a text send to every known peer: size is checked first
    /// against the limit; an empty registry yields a successful plan
    /// with no destinations.
    pub fn send_text_to_all_peers(&self, text: &str, now_secs: u64) -> (r: Result<
        SendPlan,
        SendError,
    >)
        ensures
            text@.len() > MAX_TEXT_LEN ==> r == Result::<SendPlan, SendError>::Err(
                SendError::TextTooLarge { length: text@.len() as usize },
            ),
            text@.len() <= MAX_TEXT_LEN && !self.is_running() ==> r == Result::<
                SendPlan,
                SendError,
            >::Err(SendError::NotStarted),
            text@.len() <= MAX_TEXT_LEN && self.is_running() ==> (r matches Ok(plan)
                && plan.payload@ == spec_encode_message(
                text_msg_view(self.identity().unwrap(), self.port_spec(), now_secs, text@),
            ) && plan.destinations@ == dests_of(self.peers())),
    {
        let len = text.unicode_len();
        if len > MAX_TEXT_LEN {
            return Err(SendError::TextTooLarge { length: len });
        }
        let own = match &self.peer_id {
            Some(own) => own,
            None => {
                return Err(SendError::NotStarted);
            },
        };
        let msg = DiscoveryMessage {
            message_type: MessageType::TextMessage,
            peer_id: own.clone(),
            port: self.port,
            hostname: None,
            timestamp: now_secs,
            text: Some(text.to_owned()),
        };
        let payload = encode_message(&msg);
        let peers = self.registry.get_peers();
        let n = peers.len();
        let mut destinations: Vec<SocketAddress> = Vec::new();
        let mut i: usize = 0;
        proof {
            assert(destinations@ =~= dests_of(self.peers().take(0)));
        }
        while i < n
            invariant
                i <= n,
                n == peers.len(),
                views_of(peers@) == self.peers(),
                destinations@ == dests_of(self.peers().take(i as int)),
            decreases n - i,
        {
            let ghost prev = destinations@;
            destinations.push(peers[i].socket_addr());
            proof {
                assert(views_of(peers@)[i as int] == peers@[i as int]@);
                assert forall|j: int|
                    0 <= j < destinations@.len() implies destinations@[j] == dests_of(
                    self.peers().take(i + 1),
                )[j] by {
                    if j < i as int {
                        assert(destinations@[j] == prev[j]);
                        assert(prev[j] == dests_of(self.peers().take(i as int))[j]);
                    }
                }
                assert(destinations@ =~= dests_of(self.peers().take(i + 1)));
            }
            i = i + 1;
        }
        proof {
            assert(self.peers().take(n as int) =~= self.peers());
        }
        Ok(SendPlan { payload, destinations })
    }
}

} // verus!
