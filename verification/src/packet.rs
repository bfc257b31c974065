//! What routing carries.

use vstd::prelude::*;
use crate::key::PublicKey;

verus! {

/// A unit of user traffic.
#[derive(PartialEq, Eq, Debug)]
pub struct Packet {
    /// The node that originated the packet.
    pub src: PublicKey,
    /// The node it is addressed to.
    pub dst: PublicKey,
    /// The bytes being carried, opaque to routing.
    pub payload: Vec<u8>,
}

/// What a [`Packet`] says.
#[verifier::ext_equal]
pub struct PacketView {
    pub src: PublicKey,
    pub dst: PublicKey,
    pub payload: Seq<u8>,
}

impl View for Packet {
    type V = PacketView;

    open spec fn view(&self) -> PacketView {
        PacketView { src: self.src, dst: self.dst, payload: self.payload@ }
    }
}

impl Clone for Packet {
    fn clone(&self) -> (copy: Self)
        ensures
            copy@ == self@,
    {
        let payload = self.payload.clone();
        assert(payload@ =~= self.payload@);
        Packet { src: self.src, dst: self.dst, payload }
    }
}

} // verus!
