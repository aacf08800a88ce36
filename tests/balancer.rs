use std::collections::HashMap;

use udp_balancer::address::BackendAddress;
use udp_balancer::packet::{ipv4_checksum_ok, udp_checksum_ok, udp_destination_port, v4_to_v4};
use udp_balancer::routing::{get_destinations, load_dest_map, DestMap};
use udp_balancer::strategy::{
    ConfigError, Destination, Duplicate, LoadBalanceGroup, LoadBalancingStrategy, RoundRobin,
};

fn addr(a: u8, b: u8, c: u8, d: u8, port: u16) -> BackendAddress {
    BackendAddress::from_octets(a, b, c, d, port)
}

fn leaf(a: BackendAddress) -> Destination {
    Destination::Address(a)
}

fn duplicate(children: Vec<Destination>) -> LoadBalanceGroup {
    LoadBalanceGroup {
        strategy: LoadBalancingStrategy::Duplicate(Duplicate {}),
        destinations: children,
    }
}

fn round_robin(children: Vec<Destination>) -> LoadBalanceGroup {
    LoadBalanceGroup {
        strategy: LoadBalancingStrategy::RoundRobin(RoundRobin::new()),
        destinations: children,
    }
}

/// 192.168.1.10:5555 -> 192.168.1.1:333, payload "hello", checksums zero.
fn sample_packet() -> Vec<u8> {
    vec![
        69, 0, 0, 33, 18, 52, 64, 0, 64, 17, 0, 0, 192, 168, 1, 10, 192, 168, 1, 1, 21, 179, 1, 77, 0, 13, 0,
        0, 104, 101, 108, 108, 111,
    ]
}

fn be_u32(p: &[u8], i: usize) -> u32 {
    u32::from_be_bytes([p[i], p[i + 1], p[i + 2], p[i + 3]])
}

#[test]
fn from_octets_packs_big_endian() {
    let a = addr(10, 0, 0, 1, 4000);
    assert_eq!(a.ip, 0x0A00_0001);
    assert_eq!(a.port, 4000);
    assert_eq!(BackendAddress::new(0x0A00_0001, 4000), a);
}

#[test]
fn duplicate_of_three_backends_returns_all_every_call() {
    let (a, b, c) = (addr(10, 0, 0, 1, 1), addr(10, 0, 0, 2, 2), addr(10, 0, 0, 3, 3));
    let mut g = duplicate(vec![leaf(a), leaf(b), leaf(c)]);
    for _ in 0..3 {
        assert_eq!(g.get_balance_result(), vec![a, b, c]);
    }
}

#[test]
fn round_robin_of_two_alternates() {
    let (a, b) = (addr(10, 0, 0, 1, 1), addr(10, 0, 0, 2, 2));
    let mut g = round_robin(vec![leaf(a), leaf(b)]);
    assert_eq!(g.get_balance_result(), vec![a]);
    assert_eq!(g.get_balance_result(), vec![b]);
    assert_eq!(g.get_balance_result(), vec![a]);
    assert_eq!(g.get_balance_result(), vec![b]);
}

#[test]
fn round_robin_cursor_past_the_end_wraps() {
    let (a, b, c) = (addr(10, 0, 0, 1, 1), addr(10, 0, 0, 2, 2), addr(10, 0, 0, 3, 3));
    let mut g = LoadBalanceGroup {
        strategy: LoadBalancingStrategy::RoundRobin(RoundRobin { next_index: 7 }),
        destinations: vec![leaf(a), leaf(b), leaf(c)],
    };
    assert_eq!(g.get_balance_result(), vec![b]);
    assert_eq!(g.get_balance_result(), vec![c]);
    assert_eq!(g.get_balance_result(), vec![a]);
}

#[test]
fn nested_round_robin_advances_once_per_outer_call() {
    let (a, b, c, x) = (
        addr(10, 0, 0, 1, 1),
        addr(10, 0, 0, 2, 2),
        addr(10, 0, 0, 3, 3),
        addr(10, 0, 0, 9, 9),
    );
    let inner = round_robin(vec![leaf(a), leaf(b), leaf(c)]);
    let mut outer = duplicate(vec![leaf(x), Destination::Group(inner)]);
    assert_eq!(outer.get_balance_result(), vec![x, a]);
    assert_eq!(outer.get_balance_result(), vec![x, b]);
    assert_eq!(outer.get_balance_result(), vec![x, c]);
    assert_eq!(outer.get_balance_result(), vec![x, a]);
    match &outer.destinations[1] {
        Destination::Group(g) => match g.strategy {
            LoadBalancingStrategy::RoundRobin(rr) => assert_eq!(rr.next_index, 1),
            _ => panic!("inner group lost its strategy"),
        },
        Destination::Address(_) => panic!("inner group became a backend"),
    }
}

#[test]
fn round_robin_over_duplicate_fans_out_the_selected_child() {
    let (a, b, c) = (addr(10, 0, 0, 1, 1), addr(10, 0, 0, 2, 2), addr(10, 0, 0, 3, 3));
    let pair = duplicate(vec![leaf(a), leaf(b)]);
    let mut g = round_robin(vec![Destination::Group(pair), leaf(c)]);
    assert_eq!(g.get_balance_result(), vec![a, b]);
    assert_eq!(g.get_balance_result(), vec![c]);
    assert_eq!(g.get_balance_result(), vec![a, b]);
}

#[test]
fn empty_group_is_refused_at_load() {
    let g = duplicate(vec![]);
    assert_eq!(g.validate(), Err(ConfigError::EmptyGroup));
    let nested = round_robin(vec![leaf(addr(10, 0, 0, 1, 1)), Destination::Group(round_robin(vec![]))]);
    assert_eq!(nested.validate(), Err(ConfigError::EmptyGroup));
    let r = load_dest_map(vec![(333, nested)]);
    assert!(matches!(r, Err(ConfigError::EmptyGroup)));
}

#[test]
fn weighted_round_robin_is_refused_at_load() {
    let w = LoadBalanceGroup {
        strategy: LoadBalancingStrategy::WeightedRoundRobin,
        destinations: vec![leaf(addr(10, 0, 0, 1, 1))],
    };
    assert_eq!(w.validate(), Err(ConfigError::UnsupportedStrategy));
    let outer = duplicate(vec![leaf(addr(10, 0, 0, 2, 2)), Destination::Group(w)]);
    assert_eq!(outer.validate(), Err(ConfigError::UnsupportedStrategy));
    let r = load_dest_map(vec![(1, duplicate(vec![leaf(addr(10, 0, 0, 3, 3))])), (2, outer)]);
    assert!(matches!(r, Err(ConfigError::UnsupportedStrategy)));
}

#[test]
fn first_error_in_order_is_reported() {
    let w = LoadBalanceGroup {
        strategy: LoadBalancingStrategy::WeightedRoundRobin,
        destinations: vec![leaf(addr(10, 0, 0, 1, 1))],
    };
    let g = duplicate(vec![Destination::Group(duplicate(vec![])), Destination::Group(w)]);
    assert_eq!(g.validate(), Err(ConfigError::EmptyGroup));
}

#[test]
fn valid_tree_passes_validation() {
    let g = round_robin(vec![leaf(addr(10, 0, 0, 1, 1)), Destination::Group(duplicate(vec![leaf(addr(10, 0, 0, 2, 2))]))]);
    assert_eq!(g.validate(), Ok(()));
}

#[test]
fn later_entry_for_a_port_replaces_earlier() {
    let (a, b) = (addr(10, 0, 0, 1, 1), addr(10, 0, 0, 2, 2));
    let mut m = load_dest_map(vec![(333, duplicate(vec![leaf(a)])), (333, duplicate(vec![leaf(b)]))]).unwrap();
    assert_eq!(m.len(), 1);
    assert_eq!(get_destinations(&sample_packet(), &mut m), vec![b]);
}

#[test]
fn absent_port_yields_no_destinations() {
    let mut m: DestMap = HashMap::new();
    m.insert(9999, duplicate(vec![leaf(addr(10, 0, 0, 1, 1))]));
    assert!(get_destinations(&sample_packet(), &mut m).is_empty());
}

#[test]
fn non_udp_bytes_yield_no_destinations() {
    let mut m = load_dest_map(vec![(333, duplicate(vec![leaf(addr(10, 0, 0, 1, 1))]))]).unwrap();
    assert!(get_destinations(&sample_packet()[..24], &mut m).is_empty());
    assert!(get_destinations(&[], &mut m).is_empty());
}

#[test]
fn udp_destination_port_reads_the_udp_header() {
    assert_eq!(udp_destination_port(&sample_packet()), Some(333));
    assert_eq!(udp_destination_port(&sample_packet()[..19]), None);
    // a total length that leaves fewer than eight payload bytes
    let mut p = sample_packet();
    p[3] = 27;
    assert_eq!(udp_destination_port(&p), None);
}

#[test]
fn rewrite_sets_destination_and_checksums() {
    let input = sample_packet();
    let b = addr(10, 0, 0, 1, 4000);
    let out = v4_to_v4(&input, &b, None).unwrap();
    assert_eq!(be_u32(&out, 16), b.ip);
    assert_eq!(u16::from_be_bytes([out[22], out[23]]), 4000);
    assert_eq!(u16::from_be_bytes([out[26], out[27]]), 0xcafb);
    assert_eq!(u16::from_be_bytes([out[10], out[11]]), 0x5ce5);
    assert!(ipv4_checksum_ok(&out));
    assert!(udp_checksum_ok(&out));
    assert_eq!(be_u32(&out, 12), be_u32(&input, 12));
    assert_eq!(&out[28..], b"hello");
}

#[test]
fn rewrite_leaves_input_unchanged() {
    let input = sample_packet();
    let copy = input.clone();
    let _ = v4_to_v4(&input, &addr(10, 0, 0, 1, 4000), None).unwrap();
    let _ = v4_to_v4(&input, &addr(10, 0, 0, 2, 4000), None).unwrap();
    assert_eq!(input, copy);
}

#[test]
fn rewrite_with_source_override() {
    let out = v4_to_v4(&sample_packet(), &addr(10, 0, 0, 1, 4000), Some(0x0A00_00FE)).unwrap();
    assert_eq!(be_u32(&out, 12), 0x0A00_00FE);
    assert!(ipv4_checksum_ok(&out));
    assert!(udp_checksum_ok(&out));
}

#[test]
fn rewrite_refuses_malformed_input() {
    let b = addr(10, 0, 0, 1, 4000);
    assert!(v4_to_v4(&[], &b, None).is_none());
    assert!(v4_to_v4(&sample_packet()[..19], &b, None).is_none());
    assert!(v4_to_v4(&sample_packet()[..27], &b, None).is_none());
}

#[test]
fn checksum_checks_detect_corruption() {
    let mut out = v4_to_v4(&sample_packet(), &addr(10, 0, 0, 1, 4000), None).unwrap();
    out[30] ^= 0x01;
    assert!(ipv4_checksum_ok(&out));
    assert!(!udp_checksum_ok(&out));
    out[8] ^= 0x01;
    assert!(!ipv4_checksum_ok(&out));
    assert!(!ipv4_checksum_ok(&out[..10]));
    assert!(!udp_checksum_ok(&sample_packet()[..10]));
}

#[test]
fn duplicate_route_fans_out_to_both_backends() {
    let a = addr(10, 0, 0, 1, 4000);
    let b = addr(10, 0, 0, 2, 4000);
    let mut m = load_dest_map(vec![(333, duplicate(vec![leaf(a), leaf(b)]))]).unwrap();
    let input = sample_packet();
    let dests = get_destinations(&input, &mut m);
    assert_eq!(dests, vec![a, b]);
    let outs: Vec<Vec<u8>> = dests.iter().map(|d| v4_to_v4(&input, d, None).unwrap()).collect();
    assert_eq!(outs.len(), 2);
    for (out, d) in outs.iter().zip(dests.iter()) {
        assert_eq!(be_u32(out, 16), d.ip);
        assert_eq!(u16::from_be_bytes([out[22], out[23]]), d.port);
        assert!(udp_checksum_ok(out));
        assert!(ipv4_checksum_ok(out));
        assert_eq!(&out[28..], b"hello");
    }
    assert_eq!(u16::from_be_bytes([outs[1][26], outs[1][27]]), 0xcafa);
    assert_eq!(u16::from_be_bytes([outs[1][10], outs[1][11]]), 0x5ce4);
}
