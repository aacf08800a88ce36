//! A UDP load balancer working at the IP layer: a routing table maps UDP
//! destination ports to trees of load-balancing strategies, and each captured
//! IPv4/UDP datagram is rewritten, with both checksums recomputed, for every
//! backend that its port resolves to.
use vstd::prelude::*;

pub mod address;
pub mod checksum;
pub mod packet;
pub mod routing;
pub mod strategy;

verus! {

} // verus!
