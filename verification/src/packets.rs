//! Tunnel identifiers and the unfolding of a captured packet into one matrix
//! row per encapsulation level.
//!
//! A tunnel is identified by a 64-bit FNV-1a hash over an explicit,
//! prefix-free serialisation of its outermost flow, with the two endpoints
//! put in order first: both directions of a tunnel share the identifier, and
//! the identifier does not depend on the build or on the Rust version.

use vstd::prelude::*;
use vstd::utf8::encode_utf8;

use crate::flow_matrix::{opt_text, CapturedPacketOwned, FlowKey, FlowKeySpec, InternetKeySpec, TransportKeySpec};
use crate::link::LinkViewSpec;
use crate::import::parsed_ip;
use crate::order::{lemma_text_lt_total, text_less, text_lt};
use crate::text::str_eq;

verus! {

// ---------------------------------------------------------------------------
// FNV-1a
// ---------------------------------------------------------------------------

/// FNV-1a 64-bit offset basis.
pub const FNV_OFFSET: u64 = 0xcbf2_9ce4_8422_2325;

/// FNV-1a 64-bit prime.
pub const FNV_PRIME: u64 = 0x0000_0100_0000_01b3;

/// One FNV-1a round: xor the byte in, multiply by the prime modulo 2^64.
pub open spec fn fnv_step(hash: u64, byte: u8) -> u64 {
    vstd::wrapping::u64_specs::wrapping_mul(hash ^ (byte as u64), FNV_PRIME)
}

/// FNV-1a 64-bit hash of `bytes`.
pub open spec fn fnv_hash(bytes: Seq<u8>) -> u64
    decreases bytes.len(),
{
    if bytes.len() == 0 {
        FNV_OFFSET
    } else {
        fnv_step(fnv_hash(bytes.drop_last()), bytes.last())
    }
}

/// FNV-1a 64-bit hash of `bytes`.
pub fn fnv1a(bytes: &[u8]) -> (r: u64)
    ensures
        r == fnv_hash(bytes@),
{
    let mut hash: u64 = FNV_OFFSET;
    let mut i: usize = 0;
    while i < bytes.len()
        invariant
            i <= bytes@.len(),
            hash == fnv_hash(bytes@.take(i as int)),
        decreases bytes@.len() - i,
    {
        assert(bytes@.take(i + 1).drop_last() =~= bytes@.take(i as int));
        hash = (hash ^ (bytes[i] as u64)).wrapping_mul(FNV_PRIME);
        i = i + 1;
    }
    assert(bytes@.take(bytes@.len() as int) =~= bytes@);
    hash
}

// ---------------------------------------------------------------------------
// Serialisation of a tunnel's identity
// ---------------------------------------------------------------------------

/// Big-endian bytes of a `u32`.
pub open spec fn be_u32(x: u32) -> Seq<u8> {
    seq![(x / 0x100_0000) as u8, ((x / 0x1_0000) % 0x100) as u8, ((x / 0x100) % 0x100) as u8, (x % 0x100) as u8]
}

/// Big-endian bytes of a `u16`.
pub open spec fn be_u16(x: u16) -> Seq<u8> {
    seq![(x / 0x100) as u8, (x % 0x100) as u8]
}

/// A string field: its UTF-8 length as a big-endian `u32` (truncated to 32
/// bits), then its UTF-8 bytes.
pub open spec fn str_field(s: Seq<char>) -> Seq<u8> {
    be_u32(encode_utf8(s).len() as u32) + encode_utf8(s)
}

/// An optional 16-bit field: `0`, or `1` then the value big-endian.
pub open spec fn u16_field(v: Option<u16>) -> Seq<u8> {
    match v {
        None => seq![0u8],
        Some(x) => seq![1u8] + be_u16(x),
    }
}

/// An optional IP address, by its octets: `0`, or `4` then the four octets
/// of an IPv4 address, or `6` then the sixteen octets of an IPv6 address.
pub open spec fn ip_field(ip: Option<Seq<u8>>) -> Seq<u8> {
    match ip {
        None => seq![0u8],
        Some(o) => if o.len() == 4 {
            seq![4u8] + o
        } else {
            seq![6u8] + o
        },
    }
}

/// One end of a flow: MAC address text, IP octets, port.
pub type EndpointSpec = (Seq<char>, Option<Seq<u8>>, Option<u16>);

/// The serialisation of one endpoint.
pub open spec fn endpoint_field(e: EndpointSpec) -> Seq<u8> {
    str_field(e.0) + ip_field(e.1) + u16_field(e.2)
}

/// Octets of the IP address written `text` (IPv4: four, IPv6: sixteen), as
/// `core::net::IpAddr` parses it; `None` when the text is no IP address.
pub open spec fn ip_address_octets(text: Seq<char>) -> Option<Seq<u8>> {
    match parsed_ip(text) {
        Some(a) => Some(a.1),
        None => None,
    }
}

/// Octets of an optional address text; absent or unparsable gives `None`.
pub open spec fn ip_of(text: Option<Seq<char>>) -> Option<Seq<u8>> {
    match text {
        Some(t) => ip_address_octets(t),
        None => None,
    }
}

/// The source endpoint of a flow.
pub open spec fn source_endpoint(f: FlowKeySpec) -> EndpointSpec {
    (
        f.link.source_mac,
        match f.internet {
            Some(i) => ip_of(i.source_ip),
            None => None,
        },
        match f.transport {
            Some(t) => t.source_port,
            None => None,
        },
    )
}

/// The destination endpoint of a flow.
pub open spec fn destination_endpoint(f: FlowKeySpec) -> EndpointSpec {
    (
        f.link.destination_mac,
        match f.internet {
            Some(i) => ip_of(i.destination_ip),
            None => None,
        },
        match f.transport {
            Some(t) => t.destination_port,
            None => None,
        },
    )
}

/// Lexicographic order of byte strings (a proper prefix first).
pub open spec fn bytes_lt(a: Seq<u8>, b: Seq<u8>) -> bool
    decreases a.len(),
{
    if b.len() == 0 {
        false
    } else if a.len() == 0 {
        true
    } else if a[0] != b[0] {
        a[0] < b[0]
    } else {
        bytes_lt(a.drop_first(), b.drop_first())
    }
}

/// The order of `Option<IpAddr>`: absent first, then IPv4 before IPv6,
/// then by octets.
pub open spec fn ip_lt(a: Option<Seq<u8>>, b: Option<Seq<u8>>) -> bool {
    match (a, b) {
        (None, Some(_)) => true,
        (Some(x), Some(y)) => x.len() < y.len() || (x.len() == y.len() && bytes_lt(x, y)),
        _ => false,
    }
}

/// The order of `Option<u16>`: absent first.
pub open spec fn port_lt(a: Option<u16>, b: Option<u16>) -> bool {
    match (a, b) {
        (None, Some(_)) => true,
        (Some(x), Some(y)) => x < y,
        _ => false,
    }
}

/// The order of endpoints: by MAC text, then IP, then port.
pub open spec fn endpoint_lt(a: EndpointSpec, b: EndpointSpec) -> bool {
    text_lt(a.0, b.0) || (a.0 == b.0 && (ip_lt(a.1, b.1) || (a.1 == b.1 && port_lt(a.2, b.2))))
}

/// The two endpoints of a flow, the smaller first (the source when both
/// are equal).
pub open spec fn ordered_endpoints(f: FlowKeySpec) -> (EndpointSpec, EndpointSpec) {
    if endpoint_lt(destination_endpoint(f), source_endpoint(f)) {
        (destination_endpoint(f), source_endpoint(f))
    } else {
        (source_endpoint(f), destination_endpoint(f))
    }
}

/// Protocol name of an optional layer, empty when the layer is absent.
pub open spec fn internet_protocol(f: FlowKeySpec) -> Seq<char> {
    match f.internet {
        Some(i) => i.protocol,
        None => Seq::empty(),
    }
}

pub open spec fn transport_protocol(f: FlowKeySpec) -> Seq<char> {
    match f.transport {
        Some(t) => t.protocol,
        None => Seq::empty(),
    }
}

pub open spec fn application_protocol(f: FlowKeySpec) -> Seq<char> {
    match f.application {
        Some(a) => a,
        None => Seq::empty(),
    }
}

/// The bytes hashed into a tunnel identifier: both endpoints in order, the
/// link protocol, the VLAN id, then the network, transport and application
/// protocol names.
pub open spec fn pair_bytes(f: FlowKeySpec) -> Seq<u8> {
    endpoint_field(ordered_endpoints(f).0) + endpoint_field(ordered_endpoints(f).1) + str_field(
        f.link.protocol,
    ) + u16_field(f.link.vlan_id) + str_field(internet_protocol(f)) + str_field(
        transport_protocol(f),
    ) + str_field(application_protocol(f))
}

/// Identifier of the tunnel whose outermost flow is `f`.
pub open spec fn tunnel_id(f: FlowKeySpec) -> u64 {
    fnv_hash(pair_bytes(f))
}

/// The same flow seen in the other direction: MAC addresses, IP addresses
/// (with their types) and ports swapped.
pub open spec fn reversed(f: FlowKeySpec) -> FlowKeySpec {
    FlowKeySpec {
        link: LinkViewSpec {
            source_mac: f.link.destination_mac,
            destination_mac: f.link.source_mac,
            protocol: f.link.protocol,
            vlan_id: f.link.vlan_id,
        },
        internet: match f.internet {
            Some(i) => Some(
                InternetKeySpec {
                    source_ip: i.destination_ip,
                    ip_source_type: i.ip_destination_type,
                    destination_ip: i.source_ip,
                    ip_destination_type: i.ip_source_type,
                    protocol: i.protocol,
                },
            ),
            None => None,
        },
        transport: match f.transport {
            Some(t) => Some(
                TransportKeySpec {
                    source_port: t.destination_port,
                    destination_port: t.source_port,
                    protocol: t.protocol,
                },
            ),
            None => None,
        },
        application: f.application,
    }
}

// ---------------------------------------------------------------------------
// Laws of the endpoint order and of the identifier
// ---------------------------------------------------------------------------

proof fn lemma_bytes_lt_total(a: Seq<u8>, b: Seq<u8>)
    ensures
        a == b || bytes_lt(a, b) || bytes_lt(b, a),
        !(bytes_lt(a, b) && bytes_lt(b, a)),
    decreases a.len(),
{
    if a.len() > 0 && b.len() > 0 {
        if a[0] == b[0] {
            lemma_bytes_lt_total(a.drop_first(), b.drop_first());
            if a.drop_first() == b.drop_first() {
                assert(a =~= seq![a[0]] + a.drop_first());
                assert(b =~= seq![b[0]] + b.drop_first());
            }
        }
    } else if a.len() == 0 && b.len() == 0 {
        assert(a =~= b);
    }
}

/// Two endpoints are equal or ordered one way, never both ways.
pub proof fn lemma_endpoint_lt_total(a: EndpointSpec, b: EndpointSpec)
    ensures
        a == b || endpoint_lt(a, b) || endpoint_lt(b, a),
        !(endpoint_lt(a, b) && endpoint_lt(b, a)),
{
    lemma_text_lt_total(a.0, b.0);
    match (a.1, b.1) {
        (Some(x), Some(y)) => {
            lemma_bytes_lt_total(x, y);
        },
        _ => {},
    }
}

/// Both directions of a tunnel get the same identifier.
pub proof fn lemma_tunnel_id_direction_agnostic(f: FlowKeySpec)
    ensures
        tunnel_id(reversed(f)) == tunnel_id(f),
{
    let g = reversed(f);
    assert(source_endpoint(g) == destination_endpoint(f));
    assert(destination_endpoint(g) == source_endpoint(f));
    lemma_endpoint_lt_total(source_endpoint(f), destination_endpoint(f));
    assert(ordered_endpoints(g) == ordered_endpoints(f));
    assert(internet_protocol(g) == internet_protocol(f));
    assert(transport_protocol(g) == transport_protocol(f));
    assert(pair_bytes(g) == pair_bytes(f));
}

// ---------------------------------------------------------------------------
// Executable serialisation
// ---------------------------------------------------------------------------

/// Parses `text` with `core::net::IpAddr`'s `FromStr` and returns the
/// address's octets (`Ipv4Addr::octets`, four bytes, or `Ipv6Addr::octets`,
/// sixteen bytes), or `None` when the text is no IP address. The contract
/// names the result (the parse shared with the address's canonical text)
/// and states only its length.
#[verifier::external_body]
fn ip_octets(text: &str) -> (r: Option<Vec<u8>>)
    ensures
        (match r {
            Some(o) => Some(o@),
            None => None,
        }) == (match parsed_ip(text@) {
            Some(a) => Some(a.1),
            None => None,
        }),
        r matches Some(o) ==> o@.len() == 4 || o@.len() == 16,
{
    match text.parse::<core::net::IpAddr>() {
        Ok(core::net::IpAddr::V4(a)) => Some(a.octets().to_vec()),
        Ok(core::net::IpAddr::V6(a)) => Some(a.octets().to_vec()),
        Err(_) => None,
    }
}

pub open spec fn opt_bytes(v: Option<Vec<u8>>) -> Option<Seq<u8>> {
    match v {
        Some(o) => Some(o@),
        None => None,
    }
}

/// Octets of an optional address text.
fn ip_of_text(text: &Option<String>) -> (r: Option<Vec<u8>>)
    ensures
        opt_bytes(r) == ip_of(opt_text(*text)),
        r matches Some(o) ==> o@.len() == 4 || o@.len() == 16,
{
    match text {
        Some(t) => ip_octets(t.as_str()),
        None => None,
    }
}

/// Appends a big-endian `u32`.
fn push_be_u32(buf: &mut Vec<u8>, x: u32)
    ensures
        final(buf)@ == old(buf)@ + be_u32(x),
{
    buf.push((x / 0x100_0000) as u8);
    buf.push(((x / 0x1_0000) % 0x100) as u8);
    buf.push(((x / 0x100) % 0x100) as u8);
    buf.push((x % 0x100) as u8);
    assert(buf@ =~= old(buf)@ + be_u32(x));
}

/// Appends the bytes of `bytes`.
fn push_bytes(buf: &mut Vec<u8>, bytes: &[u8])
    ensures
        final(buf)@ == old(buf)@ + bytes@,
{
    let mut i: usize = 0;
    while i < bytes.len()
        invariant
            i <= bytes@.len(),
            buf@ == old(buf)@ + bytes@.take(i as int),
        decreases bytes@.len() - i,
    {
        buf.push(bytes[i]);
        assert(bytes@.take(i + 1) =~= bytes@.take(i as int).push(bytes@[i as int]));
        i = i + 1;
    }
    assert(bytes@.take(bytes@.len() as int) =~= bytes@);
}

/// Appends a string field: its UTF-8 length (big-endian `u32`) and bytes.
fn push_str(buf: &mut Vec<u8>, s: &str)
    ensures
        final(buf)@ == old(buf)@ + str_field(s@),
{
    let bytes = s.as_bytes();
    let ghost encoded = encode_utf8(s@);
    assert(bytes@ == encoded);
    let n: usize = bytes.len();
    push_be_u32(buf, n as u32);
    push_bytes(buf, bytes);
    assert(buf@ =~= old(buf)@ + str_field(s@));
}

/// Appends an optional 16-bit field.
fn push_u16_field(buf: &mut Vec<u8>, v: Option<u16>)
    ensures
        final(buf)@ == old(buf)@ + u16_field(v),
{
    match v {
        None => buf.push(0),
        Some(x) => {
            buf.push(1);
            buf.push((x / 0x100) as u8);
            buf.push((x % 0x100) as u8);
        },
    }
    assert(buf@ =~= old(buf)@ + u16_field(v));
}

/// Appends one endpoint.
fn push_endpoint(buf: &mut Vec<u8>, mac: &str, ip: &Option<Vec<u8>>, port: Option<u16>)
    requires
        ip matches Some(o) ==> o@.len() == 4 || o@.len() == 16,
    ensures
        final(buf)@ == old(buf)@ + endpoint_field((mac@, opt_bytes(*ip), port)),
{
    push_str(buf, mac);
    let ghost mid = buf@;
    match ip {
        None => buf.push(0),
        Some(o) => {
            if o.len() == 4 {
                buf.push(4);
            } else {
                buf.push(6);
            }
            push_bytes(buf, o.as_slice());
        },
    }
    assert(buf@ =~= mid + ip_field(opt_bytes(*ip)));
    push_u16_field(buf, port);
    assert(buf@ =~= old(buf)@ + endpoint_field((mac@, opt_bytes(*ip), port)));
}

/// Whether byte string `a` sorts before `b`.
fn bytes_less(a: &[u8], b: &[u8]) -> (r: bool)
    ensures
        r == bytes_lt(a@, b@),
{
    let mut i: usize = 0;
    assert(a@.skip(0) =~= a@);
    assert(b@.skip(0) =~= b@);
    while i < a.len() && i < b.len() && a[i] == b[i]
        invariant
            i <= a@.len(),
            i <= b@.len(),
            a@.take(i as int) == b@.take(i as int),
            bytes_lt(a@, b@) == bytes_lt(a@.skip(i as int), b@.skip(i as int)),
        decreases a@.len() - i,
    {
        proof {
            let sa = a@.skip(i as int);
            let sb = b@.skip(i as int);
            assert(sa.drop_first() =~= a@.skip(i + 1));
            assert(sb.drop_first() =~= b@.skip(i + 1));
            assert(sa[0] == a@[i as int]);
            assert(sb[0] == b@[i as int]);
        }
        assert(a@.take(i + 1) =~= a@.take(i as int).push(a@[i as int]));
        assert(b@.take(i + 1) =~= b@.take(i as int).push(b@[i as int]));
        i = i + 1;
    }
    let ghost sa = a@.skip(i as int);
    let ghost sb = b@.skip(i as int);
    if i == b.len() {
        assert(sb.len() == 0);
        false
    } else if i == a.len() {
        assert(sa.len() == 0);
        true
    } else {
        assert(sa[0] == a@[i as int]);
        assert(sb[0] == b@[i as int]);
        a[i] < b[i]
    }
}

/// Whether optional IP octets `a` sort before `b`.
fn ip_less(a: &Option<Vec<u8>>, b: &Option<Vec<u8>>) -> (r: bool)
    ensures
        r == ip_lt(opt_bytes(*a), opt_bytes(*b)),
{
    match (a, b) {
        (None, Some(_)) => true,
        (Some(x), Some(y)) => x.len() < y.len() || (x.len() == y.len() && bytes_less(
            x.as_slice(),
            y.as_slice(),
        )),
        _ => false,
    }
}

/// Equality of optional IP octets.
fn ip_same(a: &Option<Vec<u8>>, b: &Option<Vec<u8>>) -> (r: bool)
    ensures
        r == (opt_bytes(*a) == opt_bytes(*b)),
{
    match (a, b) {
        (None, None) => true,
        (Some(x), Some(y)) => {
            if x.len() != y.len() {
                return false;
            }
            let mut i: usize = 0;
            while i < x.len()
                invariant
                    i <= x@.len(),
                    x@.len() == y@.len(),
                    opt_bytes(*a) == Some(x@),
                    opt_bytes(*b) == Some(y@),
                    x@.take(i as int) == y@.take(i as int),
                decreases x@.len() - i,
            {
                if x[i] != y[i] {
                    assert(x@[i as int] != y@[i as int]);
                    assert(x@ != y@);
                    return false;
                }
                assert(x@.take(i + 1) =~= x@.take(i as int).push(x@[i as int]));
                assert(y@.take(i + 1) =~= y@.take(i as int).push(y@[i as int]));
                i = i + 1;
            }
            assert(x@ =~= x@.take(i as int));
            assert(y@ =~= y@.take(i as int));
            true
        },
        _ => false,
    }
}

/// Whether endpoint `a` sorts before endpoint `b`.
fn endpoint_less(
    a_mac: &str,
    a_ip: &Option<Vec<u8>>,
    a_port: Option<u16>,
    b_mac: &str,
    b_ip: &Option<Vec<u8>>,
    b_port: Option<u16>,
) -> (r: bool)
    ensures
        r == endpoint_lt((a_mac@, opt_bytes(*a_ip), a_port), (b_mac@, opt_bytes(*b_ip), b_port)),
{
    if text_less(a_mac, b_mac) {
        return true;
    }
    if !str_eq(a_mac, b_mac) {
        return false;
    }
    if ip_less(a_ip, b_ip) {
        return true;
    }
    if !ip_same(a_ip, b_ip) {
        return false;
    }
    match (a_port, b_port) {
        (None, Some(_)) => true,
        (Some(x), Some(y)) => x < y,
        _ => false,
    }
}

/// Source (`source == true`) or destination IP octets of a flow.
fn endpoint_ip(flow: &FlowKey, source: bool) -> (r: Option<Vec<u8>>)
    ensures
        opt_bytes(r) == (if source {
            source_endpoint(flow@).1
        } else {
            destination_endpoint(flow@).1
        }),
        r matches Some(o) ==> o@.len() == 4 || o@.len() == 16,
{
    match &flow.internet {
        Some(i) => if source {
            ip_of_text(&i.source_ip)
        } else {
            ip_of_text(&i.destination_ip)
        },
        None => None,
    }
}

/// Source or destination port of a flow.
fn endpoint_port(flow: &FlowKey, source: bool) -> (r: Option<u16>)
    ensures
        r == (if source {
            source_endpoint(flow@).2
        } else {
            destination_endpoint(flow@).2
        }),
{
    match &flow.transport {
        Some(t) => if source {
            t.source_port
        } else {
            t.destination_port
        },
        None => None,
    }
}

/// Deterministic identifier of the tunnel whose outermost flow is `flow`,
/// used as `encap_id` to join the outer row of a tunnel with its inner rows.
/// Both directions of a tunnel share it (see
/// [`lemma_tunnel_id_direction_agnostic`]).
pub fn tunnel_pair_id(flow: &FlowKey) -> (r: u64)
    ensures
        r == tunnel_id(flow@),
{
    let s_ip = endpoint_ip(flow, true);
    let s_port = endpoint_port(flow, true);
    let d_ip = endpoint_ip(flow, false);
    let d_port = endpoint_port(flow, false);
    let swap = endpoint_less(
        flow.link.destination_mac.as_str(),
        &d_ip,
        d_port,
        flow.link.source_mac.as_str(),
        &s_ip,
        s_port,
    );
    let mut buf: Vec<u8> = Vec::new();
    if swap {
        push_endpoint(&mut buf, flow.link.destination_mac.as_str(), &d_ip, d_port);
        push_endpoint(&mut buf, flow.link.source_mac.as_str(), &s_ip, s_port);
    } else {
        push_endpoint(&mut buf, flow.link.source_mac.as_str(), &s_ip, s_port);
        push_endpoint(&mut buf, flow.link.destination_mac.as_str(), &d_ip, d_port);
    }
    push_str(&mut buf, flow.link.protocol.as_str());
    push_u16_field(&mut buf, flow.link.vlan_id);
    let empty = String::new();
    match &flow.internet {
        Some(i) => push_str(&mut buf, i.protocol.as_str()),
        None => push_str(&mut buf, empty.as_str()),
    }
    match &flow.transport {
        Some(t) => push_str(&mut buf, t.protocol.as_str()),
        None => push_str(&mut buf, empty.as_str()),
    }
    match &flow.application {
        Some(a) => push_str(&mut buf, a.as_str()),
        None => push_str(&mut buf, empty.as_str()),
    }
    assert(buf@ =~= pair_bytes(flow@));
    fnv1a(buf.as_slice())
}

// ---------------------------------------------------------------------------
// Unfolding a packet into matrix rows
// ---------------------------------------------------------------------------

/// One encapsulation level of a captured packet: the flow it carries and
/// the size of its network-layer segment.
pub struct FlowLevel {
    pub flow: FlowKey,
    pub network_payload_len: usize,
}

/// A captured packet with its encapsulation levels unfolded, outermost
/// first: an untunneled packet has one level, a tunnel adds one level per
/// encapsulated flow.
pub struct CapturedPacket {
    pub ts_sec: i64,
    pub ts_usec: i64,
    pub caplen: u32,
    pub len: u32,
    pub levels: Vec<FlowLevel>,
}

/// A matrix row as a value: capture header, flow, tunnel id.
pub type OwnedRowSpec = (i64, i64, u32, u32, FlowKeySpec, Option<u64>);

/// The value of a built row.
pub open spec fn owned_view(p: CapturedPacketOwned) -> OwnedRowSpec {
    (p.ts_sec, p.ts_usec, p.caplen, p.len, p.flow@, p.encap_id)
}

impl CapturedPacket {
    /// The packet goes through a tunnel.
    pub open spec fn tunneled(&self) -> bool {
        self.levels@.len() > 1
    }

    /// The tunnel id shared by all rows of the packet: the identifier of its
    /// outermost flow for a tunneled packet, none otherwise.
    pub open spec fn encap(&self) -> Option<u64> {
        if self.tunneled() {
            Some(tunnel_id(self.levels@[0].flow@))
        } else {
            None
        }
    }

    /// Bytes attributed to level `i`: the whole frame to the outermost
    /// level, the network-layer segment (as `u32`) to each inner level, so
    /// that no volume is counted twice.
    pub open spec fn level_len(&self, i: int) -> u32 {
        if i == 0 {
            self.len
        } else {
            self.levels@[i].network_payload_len as u32
        }
    }

    /// The row of level `i`.
    pub open spec fn level_row(&self, i: int) -> OwnedRowSpec {
        (self.ts_sec, self.ts_usec, self.caplen, self.level_len(i), self.levels@[i].flow@, self.encap())
    }

    /// The row of the outer flow alone: the whole frame, the outermost flow
    /// (what it encapsulates is not part of its identity) and the packet's
    /// tunnel id.
    pub open spec fn outer_row(&self) -> OwnedRowSpec {
        (self.ts_sec, self.ts_usec, self.caplen, self.len, self.levels@[0].flow@, self.encap())
    }

    /// Whether the packet has more than one level.
    fn is_tunneled(&self) -> (r: bool)
        ensures
            r == self.tunneled(),
    {
        self.levels.len() > 1
    }

    /// The packet's tunnel id.
    fn encap_id(&self) -> (r: Option<u64>)
        requires
            self.levels@.len() > 0,
        ensures
            r == self.encap(),
    {
        if self.is_tunneled() {
            Some(tunnel_pair_id(&self.levels[0].flow))
        } else {
            None
        }
    }

    /// The row of the outer flow: whole frame size, outermost flow, and the
    /// tunnel id shared with the inner rows.
    pub fn to_owned_packet(&self) -> (r: CapturedPacketOwned)
        requires
            self.levels@.len() > 0,
        ensures
            owned_view(r) == self.outer_row(),
    {
        CapturedPacketOwned {
            ts_sec: self.ts_sec,
            ts_usec: self.ts_usec,
            caplen: self.caplen,
            len: self.len,
            flow: self.levels[0].flow.duplicate(),
            encap_id: self.encap_id(),
        }
    }

    /// One row per level, outermost first; all rows of a tunneled packet
    /// carry the tunnel id of the outermost flow, an untunneled packet gives
    /// one row without tunnel id.
    pub fn to_owned_packets(&self) -> (r: Vec<CapturedPacketOwned>)
        requires
            self.levels@.len() > 0,
        ensures
            r@.len() == self.levels@.len(),
            forall|i: int| 0 <= i < r@.len() ==> owned_view(#[trigger] r@[i]) == self.level_row(i),
    {
        let encap = self.encap_id();
        let mut out: Vec<CapturedPacketOwned> = Vec::new();
        let mut i: usize = 0;
        while i < self.levels.len()
            invariant
                i <= self.levels@.len(),
                out@.len() == i,
                encap == self.encap(),
                forall|j: int| 0 <= j < i ==> owned_view(#[trigger] out@[j]) == self.level_row(j),
            decreases self.levels@.len() - i,
        {
            let len: u32 = if i == 0 {
                self.len
            } else {
                self.levels[i].network_payload_len as u32
            };
            out.push(
                CapturedPacketOwned {
                    ts_sec: self.ts_sec,
                    ts_usec: self.ts_usec,
                    caplen: self.caplen,
                    len,
                    flow: self.levels[i].flow.duplicate(),
                    encap_id: encap,
                },
            );
            i = i + 1;
        }
        out
    }
}

/// The outer row built alone is the first of the unfolded rows: the outer
/// line of a tunnel carries the same tunnel id as its inner lines.
pub proof fn lemma_outer_row_is_first_level(p: &CapturedPacket)
    requires
        p.levels@.len() > 0,
    ensures
        p.outer_row() == p.level_row(0),
{
}

/// All rows of one packet carry the same tunnel id, and it is present
/// exactly when the packet is tunneled.
pub proof fn lemma_levels_share_tunnel_id(p: &CapturedPacket, i: int, j: int)
    requires
        0 <= i < p.levels@.len(),
        0 <= j < p.levels@.len(),
    ensures
        p.level_row(i).5 == p.level_row(j).5,
        p.level_row(i).5 is Some <==> p.tunneled(),
{
}

} // verus!
