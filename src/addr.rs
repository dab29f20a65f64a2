use vstd::prelude::*;

verus! {

/// The identity of one connection: the remote host, in its IPv6 form, and the
/// remote port. Stable for the lifetime of the connection.
#[derive(Clone, Copy, Debug, PartialEq, Eq, Hash, Structural)]
pub struct PeerAddr {
    pub host: u128,
    pub port: u16,
}

impl PeerAddr {
    pub fn new(host: u128, port: u16) -> (r: PeerAddr)
        ensures
            r.host == host,
            r.port == port,
    {
        PeerAddr { host, port }
    }

    /// Whether two addresses name the same connection.
    pub fn same(&self, other: &PeerAddr) -> (r: bool)
        ensures
            r == (*self == *other),
    {
        self.host == other.host && self.port == other.port
    }
}

} // verus!
