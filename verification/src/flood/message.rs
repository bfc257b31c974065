//! What nodes hand to one another across a link.

use vstd::prelude::*;
use crate::flood::claim::{Announcement, Claim};
use crate::key::PublicKey;
pub use crate::packet::{Packet, PacketView};

verus! {

/// Anything one node sends to a directly linked peer.
#[derive(PartialEq, Eq, Debug)]
pub enum Message {
    /// Gossip: some node's position in the tree.
    Announce(Announcement),
    /// Traffic being forwarded towards its destination.
    Packet(Packet),
}

/// What a [`Message`] says.
#[verifier::ext_equal]
pub enum MessageView {
    Announce(Claim),
    Packet(PacketView),
}

impl View for Message {
    type V = MessageView;

    open spec fn view(&self) -> MessageView {
        match self {
            Message::Announce(announcement) => MessageView::Announce(announcement@),
            Message::Packet(packet) => MessageView::Packet(packet@),
        }
    }
}

impl Clone for Message {
    fn clone(&self) -> (copy: Self)
        ensures
            copy@ == self@,
    {
        match self {
            Message::Announce(announcement) => Message::Announce(announcement.clone()),
            Message::Packet(packet) => Message::Packet(packet.clone()),
        }
    }
}

/// A message together with the linked peer it must be handed to.
///
/// Delivering it is the caller's job. Nothing here performs I/O, so a node's
/// entire effect on the world is the envelopes it returns.
#[derive(PartialEq, Eq, Debug)]
pub struct Envelope {
    /// The peer that should receive the message.
    pub to: PublicKey,
    /// The message itself.
    pub message: Message,
}

/// What an [`Envelope`] says.
#[verifier::ext_equal]
pub struct EnvelopeView {
    pub to: PublicKey,
    pub message: MessageView,
}

impl View for Envelope {
    type V = EnvelopeView;

    open spec fn view(&self) -> EnvelopeView {
        EnvelopeView { to: self.to, message: self.message@ }
    }
}

impl Clone for Envelope {
    fn clone(&self) -> (copy: Self)
        ensures
            copy@ == self@,
    {
        Envelope { to: self.to, message: self.message.clone() }
    }
}

/// What a run of envelopes says.
pub open spec fn posted(envelopes: Seq<Envelope>) -> Seq<EnvelopeView> {
    envelopes.map_values(|envelope: Envelope| envelope@)
}

/// Puts one more envelope on the end of a run.
pub(crate) fn post(out: &mut Vec<Envelope>, to: PublicKey, message: Message)
    ensures
        posted(final(out)@) == posted(old(out)@).push(
            (EnvelopeView { to, message: message@ }),
        ),
{
    let ghost before = out@;
    out.push(Envelope { to, message });
    assert(posted(out@) =~= posted(before).push((EnvelopeView { to, message: message@ })));
}

} // verus!
