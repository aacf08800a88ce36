//! The routing table: UDP destination port to strategy tree.
use vstd::prelude::*;

use std::collections::HashMap;

use crate::address::BackendAddress;
use crate::packet::{is_ipv4_udp, udp_destination, udp_destination_port};
use crate::strategy::{group_advanced, group_error, group_result, group_wf, ConfigError, LoadBalanceGroup};

verus! {

broadcast use vstd::std_specs::hash::group_hash_axioms;

/// The routing table: for each UDP destination port, the root of the tree
/// that picks its backends.
pub type DestMap = HashMap<u16, LoadBalanceGroup>;

/// Every tree of the table can be resolved.
pub open spec fn dest_map_wf(m: Map<u16, LoadBalanceGroup>) -> bool {
    forall|k: u16| #[trigger] m.contains_key(k) ==> group_wf(m[k])
}

/// The table that loading `entries` in order builds: a later entry for a
/// port replaces an earlier one.
pub open spec fn entries_map(entries: Seq<(u16, LoadBalanceGroup)>) -> Map<u16, LoadBalanceGroup>
    decreases entries.len(),
{
    if entries.len() == 0 {
        Map::empty()
    } else {
        let last = entries.last();
        entries_map(entries.drop_last()).insert(last.0, last.1)
    }
}

/// The first error among the groups of `entries`, in order.
pub open spec fn entries_error(entries: Seq<(u16, LoadBalanceGroup)>) -> Option<ConfigError>
    decreases entries.len(),
{
    if entries.len() == 0 {
        None
    } else {
        match entries_error(entries.drop_last()) {
            Some(e) => Some(e),
            None => group_error(entries.last().1),
        }
    }
}

/// The backends that `packet` goes to: none where it is no IPv4 datagram
/// carrying UDP or where no tree serves its port; else those of the tree
/// that serves its port, whose round robins move on.
pub fn get_destinations(packet: &[u8], dest_map: &mut DestMap) -> (r: Vec<BackendAddress>)
    requires
        dest_map_wf(old(dest_map)@),
    ensures
        dest_map_wf(final(dest_map)@),
        final(dest_map)@.dom() == old(dest_map)@.dom(),
        !is_ipv4_udp(packet@) || !old(dest_map)@.contains_key(udp_destination(packet@)) ==> {
            &&& r@.len() == 0
            &&& final(dest_map)@ == old(dest_map)@
        },
        is_ipv4_udp(packet@) && old(dest_map)@.contains_key(udp_destination(packet@)) ==> {
            let port = udp_destination(packet@);
            &&& r@ == group_result(old(dest_map)@[port])
            &&& group_advanced(old(dest_map)@[port], final(dest_map)@[port])
            &&& forall|k: u16| k != port ==> #[trigger] final(dest_map)@.get(k) == old(dest_map)@.get(k)
        },
{
    let port = match udp_destination_port(packet) {
        Some(port) => port,
        None => return Vec::new(),
    };
    let ghost m0 = dest_map@;
    match dest_map.remove(&port) {
        None => {
            assert(dest_map@ =~= m0);
            Vec::new()
        },
        Some(mut group) => {
            let r = group.get_balance_result();
            dest_map.insert(port, group);
            assert(dest_map@.dom() =~= m0.dom());
            r
        },
    }
}

/// Builds the routing table from `(port, tree)` entries, refusing it where
/// a tree cannot be resolved: a group without children, or one with a
/// strategy that cannot be resolved.
pub fn load_dest_map(entries: Vec<(u16, LoadBalanceGroup)>) -> (r: Result<DestMap, ConfigError>)
    ensures
        match r {
            Ok(m) => entries_error(entries@) is None && m@ == entries_map(entries@),
            Err(e) => entries_error(entries@) == Some(e),
        },
        r is Ok ==> dest_map_wf(r->Ok_0@),
{
    let ghost all = entries@;
    let mut rest = entries;
    let mut m: DestMap = HashMap::new();
    let total = rest.len();
    let mut k: usize = 0;
    while k < total
        invariant
            all == entries@,
            total == all.len(),
            k <= total,
            k + rest@.len() == all.len(),
            rest@ == all.subrange(k as int, all.len() as int),
            entries_error(all.subrange(0, k as int)) is None,
            m@ == entries_map(all.subrange(0, k as int)),
            dest_map_wf(m@),
        decreases rest@.len(),
    {
        let (port, group) = rest.remove(0);
        assert(all.subrange(0, (k + 1) as int).drop_last() =~= all.subrange(0, k as int));
        assert(all.subrange(0, (k + 1) as int).last() == (port, group));
        match group.validate() {
            Err(e) => {
                proof {
                    assert(entries_error(all.subrange(0, (k + 1) as int)) == Some(e));
                    lemma_entries_error_grows(all, (k + 1) as nat);
                }
                return Err(e);
            },
            Ok(()) => {},
        }
        m.insert(port, group);
        k = k + 1;
        assert(rest@ =~= all.subrange(k as int, all.len() as int));
    }
    assert(all.subrange(0, k as int) =~= all);
    Ok(m)
}

proof fn lemma_entries_error_grows(all: Seq<(u16, LoadBalanceGroup)>, k: nat)
    requires
        k <= all.len(),
        entries_error(all.subrange(0, k as int)) is Some,
    ensures
        entries_error(all) == entries_error(all.subrange(0, k as int)),
    decreases all.len() - k,
{
    if k < all.len() {
        let next = all.subrange(0, (k + 1) as int);
        assert(next.drop_last() =~= all.subrange(0, k as int));
        lemma_entries_error_grows(all, k + 1);
    } else {
        assert(all.subrange(0, k as int) =~= all);
    }
}

} // verus!
