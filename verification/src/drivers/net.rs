//! Networking. No network card is driven yet, so nothing is sent.
use vstd::prelude::*;

verus! {

/// Brings up the network card; with no driver there is nothing to do.
pub fn init() {
}

/// Sends a UDP datagram; with no driver nothing is sent and the answer is false.
pub fn send_udp(dst_ip: [u8; 4], dst_port: u16, payload: &[u8]) -> (r: bool)
    ensures
        !r,
{
    false
}

} // verus!
