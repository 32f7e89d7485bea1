//! The decisions of a UDP relay that talks to one remote peer.
use vstd::prelude::*;

verus! {

/// A UDP address: an IPv4 or IPv6 address and a port.
#[derive(Clone, Copy, Debug, PartialEq, Eq, Structural)]
pub struct Endpoint {
    /// The address's bits; an IPv4 address occupies the low 32.
    pub ip: u128,
    /// Whether the address is IPv6.
    pub is_v6: bool,
    /// The port.
    pub port: u16,
}

/// What the relay does with a datagram it received.
pub struct Received {
    /// The payload to hand to the consumer, unchanged.
    pub payload: Vec<u8>,
    /// Whether this datagram made its sender the relay's remote.
    pub established: bool,
    /// Whether it came from another address than the established remote.
    pub foreign_source: bool,
}

/// A relay bound to one remote peer, either given when it is made or
/// learned from the first datagram it receives. Once known, the remote never
/// changes.
pub struct Relay {
    remote: Option<Endpoint>,
}

impl Relay {
    /// The remote peer, once known.
    pub closed spec fn remote_spec(&self) -> Option<Endpoint> {
        self.remote
    }

    /// A relay whose remote is `remote`, or not yet known.
    pub fn new(remote: Option<Endpoint>) -> (r: Self)
        ensures
            r.remote_spec() == remote,
    {
        Relay { remote }
    }

    /// The remote peer, once known: where outbound datagrams go.
    pub fn remote(&self) -> (r: Option<Endpoint>)
        ensures
            r == self.remote_spec(),
    {
        self.remote
    }

    /// Handles a datagram received from `from`. The payload is always
    /// delivered. A relay without a remote takes `from` as its remote; a
    /// relay with one keeps it and flags a datagram from elsewhere.
    pub fn on_datagram(&mut self, from: Endpoint, payload: Vec<u8>) -> (r: Received)
        ensures
            r.payload@ == payload@,
            old(self).remote_spec() is None ==> final(self).remote_spec() == Some(from)
                && r.established && !r.foreign_source,
            old(self).remote_spec() is Some ==> final(self).remote_spec() == old(self).remote_spec()
                && !r.established && r.foreign_source == (old(self).remote_spec()->0 != from),
    {
        match self.remote {
            None => {
                self.remote = Some(from);
                Received { payload, established: true, foreign_source: false }
            },
            Some(remote) => {
                let foreign_source = remote != from;
                Received { payload, established: false, foreign_source }
            },
        }
    }
}

} // verus!
