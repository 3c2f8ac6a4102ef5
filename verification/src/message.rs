use vstd::prelude::*;
use crate::peer::opt_str_view;

verus! {

/// The two kinds of envelope on the discovery port: a presence
/// announcement, or a short text message.
#[derive(Clone, Copy, PartialEq, Eq, Structural, Debug)]
pub enum MessageType {
    PeerDiscovery,
    TextMessage,
}

/// Mathematical value of a `DiscoveryMessage`: the same fields with
/// strings as character sequences.
#[verifier::ext_equal]
pub struct MessageView {
    pub message_type: MessageType,
    pub peer_id: Seq<char>,
    pub port: u16,
    pub hostname: Option<Seq<char>>,
    pub timestamp: u64,
    pub text: Option<Seq<char>>,
}

/// The envelope exchanged over UDP: kind, sender identity, the sender's
/// listening port, an optional display name, a creation timestamp in epoch
/// seconds, and — for text messages only — the payload.
#[derive(Debug)]
pub struct DiscoveryMessage {
    pub message_type: MessageType,
    pub peer_id: String,
    pub port: u16,
    pub hostname: Option<String>,
    pub timestamp: u64,
    pub text: Option<String>,
}

impl View for DiscoveryMessage {
    type V = MessageView;

    open spec fn view(&self) -> MessageView {
        MessageView {
            message_type: self.message_type,
            peer_id: self.peer_id@,
            port: self.port,
            hostname: opt_str_view(self.hostname),
            timestamp: self.timestamp,
            text: opt_str_view(self.text),
        }
    }
}

} // verus!
