//! Reading an IPv4 datagram that carries UDP, and rewriting it for a backend.
use vstd::prelude::*;
use vstd::slice::{slice_subrange, slice_to_vec};

use crate::address::BackendAddress;
use crate::checksum::{
    checksum_valid, internet_checksum, lemma_fold_complement, lemma_skip_outside, lemma_sum_after_put,
    ones_complement_checksum, put_u16, word_count, word_sum,
};

verus! {

broadcast use vstd::std_specs::vec::group_vec_axioms;

/// The IHL field in bytes: the length of the IPv4 header that the datagram
/// states.
pub open spec fn header_length(p: Seq<u8>) -> int {
    (p[0] % 16) as int * 4
}

/// The total-length field of the IPv4 header.
pub open spec fn total_length(p: Seq<u8>) -> int {
    p[2] as int * 256 + p[3] as int
}

/// Where the IPv4 payload starts: after the stated header, and never inside
/// the fixed 20-byte part.
pub open spec fn payload_start(p: Seq<u8>) -> int {
    if header_length(p) < 20 {
        20
    } else {
        header_length(p)
    }
}

/// Where the IPv4 payload ends: after the length that the header states, cut
/// at the end of the bytes.
pub open spec fn payload_end(p: Seq<u8>) -> int {
    let body = if total_length(p) > header_length(p) {
        total_length(p) - header_length(p)
    } else {
        0
    };
    if payload_start(p) + body < p.len() {
        payload_start(p) + body
    } else {
        p.len() as int
    }
}

/// The IPv4 payload: the UDP datagram.
pub open spec fn payload(p: Seq<u8>) -> Seq<u8> {
    if p.len() <= payload_start(p) {
        Seq::empty()
    } else {
        p.subrange(payload_start(p), payload_end(p))
    }
}

/// The bytes that the IPv4 header checksum covers: the stated header, at
/// least the fixed 20 bytes, at most all of them.
pub open spec fn checked_header(p: Seq<u8>) -> Seq<u8> {
    let h = if header_length(p) < 20 {
        20
    } else if header_length(p) > p.len() {
        p.len() as int
    } else {
        header_length(p)
    };
    p.subrange(0, h)
}

/// `p` holds a whole fixed IPv4 header and a payload of at least a UDP header.
pub open spec fn is_ipv4_udp(p: Seq<u8>) -> bool {
    &&& p.len() >= 20
    &&& payload(p).len() >= 8
}

/// The big-endian 32-bit value at `i`.
pub open spec fn be_u32(s: Seq<u8>, i: int) -> u32 {
    (s[i] as int * 0x100_0000 + s[i + 1] as int * 0x1_0000 + s[i + 2] as int * 0x100 + s[i + 3] as int) as u32
}

/// `s` with the big-endian `v` written at `i` to `i + 3`.
pub open spec fn put_u32(s: Seq<u8>, i: int, v: u32) -> Seq<u8> {
    put_u16(put_u16(s, i, (v / 0x1_0000) as u16), i + 2, (v % 0x1_0000) as u16)
}

/// The IPv4 source address.
pub open spec fn ipv4_source(p: Seq<u8>) -> u32 {
    be_u32(p, 12)
}

/// The IPv4 destination address.
pub open spec fn ipv4_destination(p: Seq<u8>) -> u32 {
    be_u32(p, 16)
}

/// The UDP destination port.
pub open spec fn udp_destination(p: Seq<u8>) -> u16 {
    (payload(p)[2] as int * 256 + payload(p)[3] as int) as u16
}

/// The bytes that the UDP checksum covers: the pseudo-header (source and
/// destination address, zero, protocol 17, the UDP length) and the UDP
/// datagram.
pub open spec fn udp_checksum_input(p: Seq<u8>) -> Seq<u8> {
    let n = payload(p).len();
    p.subrange(12, 20) + seq![0u8, 17u8, (n / 256) as u8, (n % 256) as u8] + payload(p)
}

/// The IPv4 header checksum of `p` checks.
pub open spec fn ipv4_checksum_valid(p: Seq<u8>) -> bool {
    checksum_valid(checked_header(p))
}

/// The UDP checksum of `p` checks against its pseudo-header.
pub open spec fn udp_checksum_valid(p: Seq<u8>) -> bool {
    checksum_valid(udp_checksum_input(p))
}

/// `p` readdressed to `dest`, its source replaced by `source` if one is
/// given, with a new UDP checksum and then a new IPv4 header checksum;
/// `None` where `p` is no IPv4 datagram carrying UDP.
pub open spec fn rewritten(p: Seq<u8>, dest: BackendAddress, source: Option<u32>) -> Option<Seq<u8>> {
    if !is_ipv4_udp(p) {
        None
    } else {
        let start = payload_start(p);
        let s1 = match source {
            Some(a) => put_u32(p, 12, a),
            None => p,
        };
        let s2 = put_u16(put_u32(s1, 16, dest.ip), start + 2, dest.port);
        let s3 = put_u16(s2, start + 6, internet_checksum(udp_checksum_input(s2), 9));
        Some(put_u16(s3, 10, internet_checksum(checked_header(s3), 5)))
    }
}

// ---- laws ---------------------------------------------------------------
proof fn lemma_put_u16_reads_back(s: Seq<u8>, i: int, v: u16)
    requires
        0 <= i,
        i + 1 < s.len(),
    ensures
        put_u16(s, i, v)[i] as int * 256 + put_u16(s, i, v)[i + 1] as int == v as int,
        put_u16(s, i, v).len() == s.len(),
        forall|j: int| 0 <= j < s.len() && j != i && j != i + 1 ==> #[trigger] put_u16(s, i, v)[j] == s[j],
{
}

proof fn lemma_put_u32_reads_back(s: Seq<u8>, i: int, v: u32)
    requires
        0 <= i,
        i + 3 < s.len(),
    ensures
        be_u32(put_u32(s, i, v), i) == v,
        put_u32(s, i, v).len() == s.len(),
        forall|j: int| 0 <= j < s.len() && (j < i || j > i + 3) ==> #[trigger] put_u32(s, i, v)[j] == s[j],
{
    let hi = (v / 0x1_0000) as u16;
    let lo = (v % 0x1_0000) as u16;
    let t = put_u32(s, i, v);
    lemma_put_u16_reads_back(s, i, hi);
    lemma_put_u16_reads_back(put_u16(s, i, hi), i + 2, lo);
    assert(t[i] as int * 256 + t[i + 1] as int == hi as int);
    assert(t[i + 2] as int * 256 + t[i + 3] as int == lo as int);
    assert(hi as int * 0x1_0000 + lo as int == v as int);
    assert(t[i] as int * 0x100_0000 + t[i + 1] as int * 0x1_0000 == (t[i] as int * 256 + t[i + 1] as int) * 0x1_0000);
}

/// A rewritten datagram goes to the backend it was rewritten for, keeps or
/// takes the source as asked, keeps its UDP payload, and both its checksums
/// check.
pub proof fn lemma_rewrite_readdresses(p: Seq<u8>, dest: BackendAddress, source: Option<u32>)
    requires
        is_ipv4_udp(p),
    ensures
        rewritten(p, dest, source) is Some,
        ({
            let out = rewritten(p, dest, source)->0;
            &&& is_ipv4_udp(out)
            &&& ipv4_destination(out) == dest.ip
            &&& udp_destination(out) == dest.port
            &&& ipv4_source(out) == match source {
                Some(a) => a,
                None => ipv4_source(p),
            }
            &&& payload(out).subrange(8, payload(out).len() as int) == payload(p).subrange(8, payload(p).len() as int)
            &&& ipv4_checksum_valid(out)
            &&& udp_checksum_valid(out)
        }),
{
    let start = payload_start(p);
    let end = payload_end(p);
    let s1 = match source {
        Some(a) => put_u32(p, 12, a),
        None => p,
    };
    let sa = put_u32(s1, 16, dest.ip);
    let s2 = put_u16(sa, start + 2, dest.port);
    let uc = internet_checksum(udp_checksum_input(s2), 9);
    let s3 = put_u16(s2, start + 6, uc);
    let ic = internet_checksum(checked_header(s3), 5);
    let out = put_u16(s3, 10, ic);
    assert(rewritten(p, dest, source) == Some(out));
    if let Some(a) = source {
        lemma_put_u32_reads_back(p, 12, a);
    }
    lemma_put_u32_reads_back(s1, 16, dest.ip);
    lemma_put_u16_reads_back(sa, start + 2, dest.port);
    lemma_put_u16_reads_back(s2, start + 6, uc);
    lemma_put_u16_reads_back(s3, 10, ic);
    // the fields that place the payload are untouched
    assert(out[0] == p[0] && out[2] == p[2] && out[3] == p[3]);
    assert(payload_start(out) == start && payload_end(out) == end);
    assert(payload_start(s2) == start && payload_end(s2) == end);
    assert(payload_start(s3) == start && payload_end(s3) == end);
    assert(is_ipv4_udp(out));
    assert(ipv4_destination(out) == ipv4_destination(sa));
    assert(udp_destination(out) == dest.port);
    assert(ipv4_source(out) == ipv4_source(s1));
    assert(payload(out).subrange(8, payload(out).len() as int) =~= payload(p).subrange(8, payload(p).len() as int));
    // the UDP checksum
    let u2 = udp_checksum_input(s2);
    assert(udp_checksum_input(out) =~= put_u16(u2, 18, uc));
    lemma_sum_after_put(u2, 9, uc, word_count(u2));
    lemma_fold_complement(word_sum(u2, 9));
    // the IPv4 header checksum
    let h3 = checked_header(s3);
    assert(checked_header(out) =~= put_u16(h3, 10, ic));
    lemma_sum_after_put(h3, 5, ic, word_count(h3));
    lemma_fold_complement(word_sum(h3, 5));
}

// ---- executable ---------------------------------------------------------
/// The payload bounds of `p`, where it is an IPv4 datagram carrying UDP.
fn udp_bounds(p: &[u8]) -> (r: Option<(usize, usize)>)
    ensures
        match r {
            Some((start, end)) => {
                &&& is_ipv4_udp(p@)
                &&& start == payload_start(p@)
                &&& end == payload_end(p@)
            },
            None => !is_ipv4_udp(p@),
        },
{
    let len = p.len();
    if len < 20 {
        return None;
    }
    let hl: usize = (p[0] % 16) as usize * 4;
    let tl: usize = p[2] as usize * 256 + p[3] as usize;
    let start: usize = if hl < 20 {
        20
    } else {
        hl
    };
    if len <= start {
        return None;
    }
    let body: usize = if tl > hl {
        tl - hl
    } else {
        0
    };
    let end: usize = if start + body < len {
        start + body
    } else {
        len
    };
    if end - start < 8 {
        return None;
    }
    Some((start, end))
}

/// Writes `x` big-endian at a position inside an IPv4 or UDP header.
fn write_u16(v: &mut Vec<u8>, i: usize, x: u16)
    requires
        i < 0x1_0000,
        i + 1 < old(v)@.len(),
    ensures
        final(v)@ == put_u16(old(v)@, i as int, x),
{
    v[i] = (x / 256) as u8;
    let j = i + 1;
    v[j] = (x % 256) as u8;
}

/// Writes `x` big-endian at a position inside an IPv4 header.
fn write_u32(v: &mut Vec<u8>, i: usize, x: u32)
    requires
        i < 0x1_0000 - 2,
        i + 3 < old(v)@.len(),
    ensures
        final(v)@ == put_u32(old(v)@, i as int, x),
{
    write_u16(v, i, (x / 0x1_0000) as u16);
    let j = i + 2;
    write_u16(v, j, (x % 0x1_0000) as u16);
}

/// The pseudo-header and the payload of `p`, the bytes that the UDP checksum
/// covers.
fn udp_checksum_bytes(p: &[u8], start: usize, end: usize) -> (r: Vec<u8>)
    requires
        is_ipv4_udp(p@),
        start == payload_start(p@),
        end == payload_end(p@),
    ensures
        r@ == udp_checksum_input(p@),
        r@.len() <= 0x1_0000 + 12,
{
    let n: usize = end - start;
    let mut r: Vec<u8> = Vec::new();
    let mut i: usize = 12;
    while i < 20
        invariant
            12 <= i <= 20,
            p@.len() >= 20,
            r@ == p@.subrange(12, i as int),
        decreases 20 - i,
    {
        r.push(p[i]);
        i = i + 1;
    }
    r.push(0);
    r.push(17);
    r.push((n / 256) as u8);
    r.push((n % 256) as u8);
    let ghost head = r@;
    assert(head =~= p@.subrange(12, 20) + seq![0u8, 17u8, (n / 256) as u8, (n % 256) as u8]);
    let mut j: usize = start;
    while j < end
        invariant
            start <= j <= end,
            end <= p@.len(),
            r@ == head + p@.subrange(start as int, j as int),
        decreases end - j,
    {
        r.push(p[j]);
        j = j + 1;
        assert(r@ =~= head + p@.subrange(start as int, j as int));
    }
    assert(r@ =~= udp_checksum_input(p@));
    r
}

/// Whether the IPv4 header checksum of `packet` checks.
pub fn ipv4_checksum_ok(packet: &[u8]) -> (r: bool)
    ensures
        r == (packet@.len() >= 20 && ipv4_checksum_valid(packet@)),
{
    if packet.len() < 20 {
        return false;
    }
    let hl: usize = (packet[0] % 16) as usize * 4;
    let h: usize = if hl < 20 {
        20
    } else if hl > packet.len() {
        packet.len()
    } else {
        hl
    };
    let header = slice_subrange(packet, 0, h);
    let c = ones_complement_checksum(header, h);
    proof {
        lemma_skip_outside(header@, h as int, word_count(header@));
        lemma_fold_complement(word_sum(header@, -1));
    }
    c == 0
}

/// Whether `packet` is an IPv4 datagram carrying UDP whose UDP checksum
/// checks.
pub fn udp_checksum_ok(packet: &[u8]) -> (r: bool)
    ensures
        r == (is_ipv4_udp(packet@) && udp_checksum_valid(packet@)),
{
    match udp_bounds(packet) {
        None => false,
        Some((start, end)) => {
            let bytes = udp_checksum_bytes(packet, start, end);
            let n = bytes.len();
            let c = ones_complement_checksum(bytes.as_slice(), n);
            proof {
                lemma_skip_outside(bytes@, n as int, word_count(bytes@));
                lemma_fold_complement(word_sum(bytes@, -1));
            }
            c == 0
        },
    }
}

/// The UDP destination port of `packet`, where it is an IPv4 datagram
/// carrying UDP.
pub fn udp_destination_port(packet: &[u8]) -> (r: Option<u16>)
    ensures
        r == if is_ipv4_udp(packet@) {
            Some(udp_destination(packet@))
        } else {
            None::<u16>
        },
{
    match udp_bounds(packet) {
        None => None,
        Some((start, _end)) => Some(packet[start + 2] as u16 * 256 + packet[start + 3] as u16),
    }
}

/// A fresh copy of `packet` sent to `destination`: the IPv4 destination
/// address and the UDP destination port replaced, the source address too if
/// `source` is given, and both checksums computed anew. `None` where
/// `packet` is no IPv4 datagram carrying UDP.
pub fn v4_to_v4(packet: &[u8], destination: &BackendAddress, source: Option<u32>) -> (r: Option<Vec<u8>>)
    ensures
        match r {
            Some(out) => rewritten(packet@, *destination, source) == Some(out@),
            None => rewritten(packet@, *destination, source) is None,
        },
{
    let (start, end) = match udp_bounds(packet) {
        None => return None,
        Some(b) => b,
    };
    let mut out = slice_to_vec(packet);
    match source {
        Some(a) => write_u32(&mut out, 12, a),
        None => {},
    }
    write_u32(&mut out, 16, destination.ip);
    write_u16(&mut out, start + 2, destination.port);
    let ghost s2 = out@;
    assert(payload_start(s2) == start && payload_end(s2) == end);
    let bytes = udp_checksum_bytes(out.as_slice(), start, end);
    let uc = ones_complement_checksum(bytes.as_slice(), 9);
    write_u16(&mut out, start + 6, uc);
    let hl: usize = (out[0] % 16) as usize * 4;
    let h: usize = if hl < 20 {
        20
    } else if hl > out.len() {
        out.len()
    } else {
        hl
    };
    let ic = ones_complement_checksum(slice_subrange(out.as_slice(), 0, h), 5);
    write_u16(&mut out, 10, ic);
    Some(out)
}

} // verus!
