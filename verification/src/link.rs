//! Textual view of the link layer, as the matrix, the graph and the CSV
//! consume it, and its inverse for the CSV re-import.

use vstd::prelude::*;

use packet_parser::owned::{LinkLayerOwned, LinuxSllLinkOwned};
use packet_parser::parse::data_link::ethertype::Ethertype;
use packet_parser::{LinuxArphrdType, LinuxCookedPacketType, MacAddress};

use crate::error::decimal_text;
use crate::text::{all_digits, dec_digits, digit_of, digit_value, digits_value};
use crate::rows::join_texts;
use crate::text::{
    lemma_digit_char_not_special, lemma_hex_fixed_chars, lemma_hex_fixed_value, lemma_split_append_piece,
    lemma_split_no_sep, pow16,
    chars_of, concat3, hex_fixed, parse_unsigned, parse_unsigned_range, push_hex_fixed, split_on,
    split_ranges, str_eq, string_of_range,
};

verus! {

/// Textual projection of the link layer. Link types without address (raw
/// IP) or with a source address only (Linux cooked capture) give empty
/// MACs rather than invented ones.
#[derive(Debug)]
pub struct LinkView {
    pub source_mac: String,
    pub destination_mac: String,
    /// Name of the link protocol ("IPv4", "ARP", "Unknown (0xABCD)", ...).
    pub protocol: String,
    pub vlan_id: Option<u16>,
}

/// Spec value of a [`LinkView`].
pub struct LinkViewSpec {
    pub source_mac: Seq<char>,
    pub destination_mac: Seq<char>,
    pub protocol: Seq<char>,
    pub vlan_id: Option<u16>,
}

impl View for LinkView {
    type V = LinkViewSpec;

    open spec fn view(&self) -> LinkViewSpec {
        LinkViewSpec {
            source_mac: self.source_mac@,
            destination_mac: self.destination_mac@,
            protocol: self.protocol@,
            vlan_id: self.vlan_id,
        }
    }
}

impl LinkView {
    /// A copy of the view.
    pub fn duplicate(&self) -> (r: LinkView)
        ensures
            r@ == self@,
    {
        LinkView {
            source_mac: self.source_mac.clone(),
            destination_mac: self.destination_mac.clone(),
            protocol: self.protocol.clone(),
            vlan_id: self.vlan_id,
        }
    }

    /// Field-wise equality.
    pub fn same_as(&self, other: &LinkView) -> (r: bool)
        ensures
            r == (self@ == other@),
    {
        self.source_mac == other.source_mac && self.destination_mac == other.destination_mac
            && self.protocol == other.protocol && self.vlan_id == other.vlan_id
    }
}


// ---------------------------------------------------------------------------
// The link layer of a frame
// ---------------------------------------------------------------------------

/// What a Linux cooked header records of the point where a frame was
/// observed: the direction (packet type), the hardware type, the declared
/// address length and, in version 2, the interface index and the reserved
/// field (zero in version 1). None of it is part of a matrix identity.
#[derive(Debug, Clone, Copy, PartialEq, Eq, Structural)]
pub struct CookedObservation {
    pub packet_type: u16,
    pub hardware_type: u16,
    pub address_length: u16,
    pub interface_index: u32,
    pub reserved: u16,
}

/// The link layer of a captured frame, as the matrix reads it.
pub enum LinkLayer {
    /// Ethernet: both MACs (six octets each), the EtherType, the VLAN id.
    Ethernet { source_mac: Vec<u8>, destination_mac: Vec<u8>, ethertype: u16, vlan_id: Option<u16> },
    /// IEEE 802.11 data frame: both MACs and the LLC/SNAP protocol.
    Ieee80211 { source_mac: Vec<u8>, destination_mac: Vec<u8>, snap_protocol: u16 },
    /// Linux cooked capture v1: the source address if the header exposes one,
    /// the network protocol, and what the header records of the observation
    /// point.
    LinuxSll { source_address: Option<Vec<u8>>, protocol: u16, observation: CookedObservation },
    /// Linux cooked capture v2, likewise.
    LinuxSll2 { source_address: Option<Vec<u8>>, protocol: u16, observation: CookedObservation },
    /// Raw IP and other link types without link address: the network
    /// protocol as displayed.
    Other { network_protocol: String },
}

/// The textual view of a link layer: MACs in hexadecimal, EtherType name,
/// VLAN id. A cooked capture has a source address only (empty when the
/// header exposes none), raw IP no address at all: nothing is invented.
pub open spec fn link_view_of(link: LinkLayer) -> LinkViewSpec {
    match link {
        LinkLayer::Ethernet { source_mac, destination_mac, ethertype, vlan_id } => LinkViewSpec {
            source_mac: hw_text(source_mac@),
            destination_mac: hw_text(destination_mac@),
            protocol: ethertype_name(ethertype),
            vlan_id,
        },
        LinkLayer::Ieee80211 { source_mac, destination_mac, snap_protocol } => LinkViewSpec {
            source_mac: hw_text(source_mac@),
            destination_mac: hw_text(destination_mac@),
            protocol: ethertype_name(snap_protocol),
            vlan_id: None,
        },
        LinkLayer::LinuxSll { source_address, protocol, .. } => LinkViewSpec {
            source_mac: match source_address {
                Some(a) => hw_text(a@),
                None => Seq::empty(),
            },
            destination_mac: Seq::empty(),
            protocol: network_protocol_name(protocol),
            vlan_id: None,
        },
        LinkLayer::LinuxSll2 { source_address, protocol, .. } => LinkViewSpec {
            source_mac: match source_address {
                Some(a) => hw_text(a@),
                None => Seq::empty(),
            },
            destination_mac: Seq::empty(),
            protocol: network_protocol_name(protocol),
            vlan_id: None,
        },
        LinkLayer::Other { network_protocol } => LinkViewSpec {
            source_mac: Seq::empty(),
            destination_mac: Seq::empty(),
            protocol: network_protocol@,
            vlan_id: None,
        },
    }
}

fn cooked_source(source_address: &Option<Vec<u8>>) -> (r: String)
    ensures
        r@ == match source_address {
            Some(a) => hw_text(a@),
            None => Seq::<char>::empty(),
        },
{
    match source_address {
        Some(a) => format_hw_address(a.as_slice()),
        None => String::new(),
    }
}

impl LinkView {
    /// Projects a link layer to its textual view (see [`link_view_of`]).
    pub fn of(link: &LinkLayer) -> (r: LinkView)
        ensures
            r@ == link_view_of(*link),
    {
        match link {
            LinkLayer::Ethernet { source_mac, destination_mac, ethertype, vlan_id } => LinkView {
                source_mac: format_hw_address(source_mac.as_slice()),
                destination_mac: format_hw_address(destination_mac.as_slice()),
                protocol: ethertype_display_name(*ethertype),
                vlan_id: *vlan_id,
            },
            LinkLayer::Ieee80211 { source_mac, destination_mac, snap_protocol } => LinkView {
                source_mac: format_hw_address(source_mac.as_slice()),
                destination_mac: format_hw_address(destination_mac.as_slice()),
                protocol: ethertype_display_name(*snap_protocol),
                vlan_id: None,
            },
            LinkLayer::LinuxSll { source_address, protocol, .. } => LinkView {
                source_mac: cooked_source(source_address),
                destination_mac: String::new(),
                protocol: cooked_network_protocol_name(*protocol),
                vlan_id: None,
            },
            LinkLayer::LinuxSll2 { source_address, protocol, .. } => LinkView {
                source_mac: cooked_source(source_address),
                destination_mac: String::new(),
                protocol: cooked_network_protocol_name(*protocol),
                vlan_id: None,
            },
            LinkLayer::Other { network_protocol } => LinkView {
                source_mac: String::new(),
                destination_mac: String::new(),
                protocol: network_protocol.clone(),
                vlan_id: None,
            },
        }
    }
}

// ---------------------------------------------------------------------------
// Matrix identity of a link
// ---------------------------------------------------------------------------

/// Number of octets of a cooked source address (zero when there is none).
pub open spec fn cooked_address_len(source_address: Option<Vec<u8>>) -> nat {
    match source_address {
        Some(a) => a@.len(),
        None => 0,
    }
}

/// The stable observation details that a matrix identity carries: a frame
/// addressed to this host, hardware type zero, the length of the exposed
/// address (as one octet in version 2), interface index and reserved
/// field zero.
pub open spec fn canonical_observation(source_address: Option<Vec<u8>>, second_version: bool) -> CookedObservation {
    let n = cooked_address_len(source_address);
    CookedObservation {
        packet_type: 0,
        hardware_type: 0,
        address_length: if second_version { (n as u8) as u16 } else { n as u16 },
        interface_index: 0,
        reserved: 0,
    }
}

/// The identity under which the matrix counts a link: a Linux cooked link
/// keeps its exposed address and protocol and gets the canonical
/// observation details, so that observations of one source from several
/// probes fall into one row; every other link is its own identity.
pub open spec fn matrix_identity(link: LinkLayer) -> LinkLayer {
    match link {
        LinkLayer::LinuxSll { source_address, protocol, .. } => LinkLayer::LinuxSll {
            source_address,
            protocol,
            observation: canonical_observation(source_address, false),
        },
        LinkLayer::LinuxSll2 { source_address, protocol, .. } => LinkLayer::LinuxSll2 {
            source_address,
            protocol,
            observation: canonical_observation(source_address, true),
        },
        other => other,
    }
}

/// Two link layers that hold the same values (their addresses compared as
/// octet sequences).
pub open spec fn same_link(a: LinkLayer, b: LinkLayer) -> bool {
    match (a, b) {
        (
            LinkLayer::Ethernet { source_mac: s1, destination_mac: d1, ethertype: e1, vlan_id: v1 },
            LinkLayer::Ethernet { source_mac: s2, destination_mac: d2, ethertype: e2, vlan_id: v2 },
        ) => s1@ == s2@ && d1@ == d2@ && e1 == e2 && v1 == v2,
        (
            LinkLayer::Ieee80211 { source_mac: s1, destination_mac: d1, snap_protocol: p1 },
            LinkLayer::Ieee80211 { source_mac: s2, destination_mac: d2, snap_protocol: p2 },
        ) => s1@ == s2@ && d1@ == d2@ && p1 == p2,
        (
            LinkLayer::LinuxSll { source_address: a1, protocol: p1, observation: o1 },
            LinkLayer::LinuxSll { source_address: a2, protocol: p2, observation: o2 },
        ) => same_address(a1, a2) && p1 == p2 && o1 == o2,
        (
            LinkLayer::LinuxSll2 { source_address: a1, protocol: p1, observation: o1 },
            LinkLayer::LinuxSll2 { source_address: a2, protocol: p2, observation: o2 },
        ) => same_address(a1, a2) && p1 == p2 && o1 == o2,
        (LinkLayer::Other { network_protocol: n1 }, LinkLayer::Other { network_protocol: n2 }) => n1@ == n2@,
        _ => false,
    }
}

/// Two optional cooked addresses with the same octets.
pub open spec fn same_address(a: Option<Vec<u8>>, b: Option<Vec<u8>>) -> bool {
    match (a, b) {
        (Some(x), Some(y)) => x@ == y@,
        (None, None) => true,
        _ => false,
    }
}

fn copy_address(a: &Option<Vec<u8>>) -> (r: Option<Vec<u8>>)
    ensures
        same_address(r, *a),
{
    match a {
        Some(v) => Some(v.clone()),
        None => None,
    }
}

impl LinkLayer {
    /// A copy of the link layer.
    pub fn duplicate(&self) -> (r: LinkLayer)
        ensures
            same_link(r, *self),
    {
        match self {
            LinkLayer::Ethernet { source_mac, destination_mac, ethertype, vlan_id } => LinkLayer::Ethernet {
                source_mac: source_mac.clone(),
                destination_mac: destination_mac.clone(),
                ethertype: *ethertype,
                vlan_id: *vlan_id,
            },
            LinkLayer::Ieee80211 { source_mac, destination_mac, snap_protocol } => LinkLayer::Ieee80211 {
                source_mac: source_mac.clone(),
                destination_mac: destination_mac.clone(),
                snap_protocol: *snap_protocol,
            },
            LinkLayer::LinuxSll { source_address, protocol, observation } => LinkLayer::LinuxSll {
                source_address: copy_address(source_address),
                protocol: *protocol,
                observation: *observation,
            },
            LinkLayer::LinuxSll2 { source_address, protocol, observation } => LinkLayer::LinuxSll2 {
                source_address: copy_address(source_address),
                protocol: *protocol,
                observation: *observation,
            },
            LinkLayer::Other { network_protocol } => LinkLayer::Other { network_protocol: network_protocol.clone() },
        }
    }
}

/// The canonical Linux cooked link of a matrix identity, for the cooked
/// link type `link_type` (version 1 or 2).
fn canonical_cooked_link(link_type: u32, source_address: Option<Vec<u8>>, protocol: u16) -> (r: LinkLayer)
    requires
        link_type == LINKTYPE_LINUX_SLL || link_type == LINKTYPE_LINUX_SLL2,
    ensures
        link_type == LINKTYPE_LINUX_SLL ==> r == (LinkLayer::LinuxSll {
            source_address,
            protocol,
            observation: canonical_observation(source_address, false),
        }),
        link_type == LINKTYPE_LINUX_SLL2 ==> r == (LinkLayer::LinuxSll2 {
            source_address,
            protocol,
            observation: canonical_observation(source_address, true),
        }),
{
    let n: usize = match &source_address {
        Some(a) => a.len(),
        None => 0,
    };
    if link_type == LINKTYPE_LINUX_SLL {
        let observation = CookedObservation {
            packet_type: 0,
            hardware_type: 0,
            address_length: n as u16,
            interface_index: 0,
            reserved: 0,
        };
        LinkLayer::LinuxSll { source_address, protocol, observation }
    } else {
        let observation = CookedObservation {
            packet_type: 0,
            hardware_type: 0,
            address_length: (n as u8) as u16,
            interface_index: 0,
            reserved: 0,
        };
        LinkLayer::LinuxSll2 { source_address, protocol, observation }
    }
}

/// The matrix identity of a link that the caller owns (see
/// [`matrix_identity`]).
pub fn into_matrix_flow_identity(link: LinkLayer) -> (r: LinkLayer)
    ensures
        r == matrix_identity(link),
{
    match link {
        LinkLayer::LinuxSll { source_address, protocol, .. } => canonical_cooked_link(
            LINKTYPE_LINUX_SLL,
            source_address,
            protocol,
        ),
        LinkLayer::LinuxSll2 { source_address, protocol, .. } => canonical_cooked_link(
            LINKTYPE_LINUX_SLL2,
            source_address,
            protocol,
        ),
        other => other,
    }
}

/// The matrix identity of a link, leaving the link itself untouched (see
/// [`matrix_identity`]).
pub fn matrix_flow_identity(link: &LinkLayer) -> (r: LinkLayer)
    ensures
        same_link(r, matrix_identity(*link)),
{
    let copy = link.duplicate();
    let r = into_matrix_flow_identity(copy);
    proof {
        lemma_identity_keeps_sameness(copy, *link);
    }
    r
}

/// Links with the same values have identities with the same values.
proof fn lemma_identity_keeps_sameness(a: LinkLayer, b: LinkLayer)
    requires
        same_link(a, b),
    ensures
        same_link(matrix_identity(a), matrix_identity(b)),
{
    match (a, b) {
        (LinkLayer::LinuxSll { source_address: a1, .. }, LinkLayer::LinuxSll { source_address: a2, .. }) => {
            assert(cooked_address_len(a1) == cooked_address_len(a2));
        },
        (LinkLayer::LinuxSll2 { source_address: a1, .. }, LinkLayer::LinuxSll2 { source_address: a2, .. }) => {
            assert(cooked_address_len(a1) == cooked_address_len(a2));
        },
        _ => {},
    }
}

/// Taking the matrix identity never changes the textual view of a link:
/// the matrix row, the graph and the CSV export read the same fields.
pub proof fn lemma_identity_keeps_view(link: LinkLayer)
    ensures
        link_view_of(matrix_identity(link)) == link_view_of(link),
{
}

/// The matrix identity of a matrix identity is itself.
pub proof fn lemma_identity_idempotent(link: LinkLayer)
    ensures
        matrix_identity(matrix_identity(link)) == matrix_identity(link),
{
}

/// Two observations of one Linux cooked source (same exposed address and
/// protocol) from different points (direction, hardware type, declared
/// length, interface) have one matrix identity: they never split a row.
pub proof fn lemma_observation_never_splits(
    source_address: Option<Vec<u8>>,
    protocol: u16,
    first: CookedObservation,
    second: CookedObservation,
)
    ensures
        matrix_identity(LinkLayer::LinuxSll { source_address, protocol, observation: first })
            == matrix_identity(LinkLayer::LinuxSll { source_address, protocol, observation: second }),
        matrix_identity(LinkLayer::LinuxSll2 { source_address, protocol, observation: first })
            == matrix_identity(LinkLayer::LinuxSll2 { source_address, protocol, observation: second }),
{
}

// ---------------------------------------------------------------------------
// Hardware addresses
// ---------------------------------------------------------------------------

/// Octets written as two lower-case hexadecimal digits, joined by `:`.
pub open spec fn hw_text(bytes: Seq<u8>) -> Seq<char> {
    join_texts(Seq::new(bytes.len(), |i: int| hex_fixed(bytes[i] as nat, 2)), ':')
}

/// A hardware address in hexadecimal separated by `:` (the form of a MAC),
/// whatever its length (a cooked capture does not impose 6 octets).
pub fn format_hw_address(bytes: &[u8]) -> (r: String)
    ensures
        r@ == hw_text(bytes@),
{
    let ghost items = Seq::new(bytes@.len(), |i: int| hex_fixed(bytes@[i] as nat, 2));
    let mut out: Vec<char> = Vec::new();
    let mut i: usize = 0;
    while i < bytes.len()
        invariant
            i <= bytes@.len(),
            items == Seq::new(bytes@.len(), |i: int| hex_fixed(bytes@[i] as nat, 2)),
            out@ == join_texts(items.take(i as int), ':'),
        decreases bytes@.len() - i,
    {
        assert(items.take(i + 1).drop_last() =~= items.take(i as int));
        if i > 0 {
            out.push(':');
        }
        let ghost before = out@;
        push_hex_fixed(&mut out, bytes[i] as u64, 2);
        assert(items.take(i + 1).last() == hex_fixed(bytes@[i as int] as nat, 2));
        i = i + 1;
    }
    assert(items.take(i as int) =~= items);
    crate::text::string_of(&out)
}

/// Octets of a MAC `aa:bb:cc:dd:ee:ff`: six pieces separated by `:`, each
/// a hexadecimal byte (`from_str_radix(.., 16)`).
pub open spec fn mac_octets(text: Seq<char>) -> Option<Seq<u8>> {
    let ps = split_on(text, ':');
    if ps.len() == 6 && forall|i: int| 0 <= i < 6 ==> (#[trigger] parse_unsigned(ps[i], 16, 255)) is Some {
        Some(Seq::new(6, |i: int| parse_unsigned(ps[i], 16, 255)->0 as u8))
    } else {
        None
    }
}

/// `MacAddress::try_from(String)` of `packet_parser`: split on `:`, each
/// piece parsed with `u8::from_str_radix(.., 16)`, exactly six pieces.
#[verifier::external_body]
fn mac_address_try_from(text: &str) -> (r: Option<Vec<u8>>)
    ensures
        match mac_octets(text@) {
            Some(b) => r matches Some(a) && a@ == b,
            None => r is None,
        },
{
    MacAddress::try_from(text.to_string()).ok().map(|mac| mac.0.to_vec())
}

/// Parses a textual MAC `aa:bb:cc:dd:ee:ff`; `None` when the form is
/// invalid (the import rejects the row with a precise message).
pub fn mac_from_text(text: &str) -> (r: Option<Vec<u8>>)
    ensures
        match mac_octets(text@) {
            Some(b) => r matches Some(a) && a@ == b,
            None => r is None,
        },
{
    mac_address_try_from(text)
}

// ---------------------------------------------------------------------------
// Protocol names
// ---------------------------------------------------------------------------

/// Upper-case digit character of `d` (`0-9A-Z`).
pub open spec fn upper_digit_char(d: nat) -> char {
    if d < 10 {
        (48 + d) as char
    } else {
        (65 + d - 10) as char
    }
}

/// `v` on exactly `n` upper-case hexadecimal digits (`{v:0nX}`).
pub open spec fn hex_upper(v: nat, n: nat) -> Seq<char>
    decreases n,
{
    if n == 0 {
        Seq::empty()
    } else {
        hex_upper(v / 16, (n - 1) as nat).push(upper_digit_char(v % 16))
    }
}

/// The EtherTypes that `packet_parser` names (`Ethertype::static_name`).
pub open spec fn ethertype_table(code: u16) -> Option<Seq<char>> {
    if code == 0x0800 { Some("IPv4"@) }
    else if code == 0x86DD { Some("IPv6"@) }
    else if code == 0x0806 { Some("ARP"@) }
    else if code == 0x8100 { Some("VLAN-tagged frame"@) }
    else if code == 0x88CC { Some("LLDP"@) }
    else if code == 0x8892 { Some("Profinet"@) }
    else if code == 0x88E3 { Some("MRP"@) }
    else if code == 0x88F7 { Some("PTP"@) }
    else if code == 0x88B8 { Some("GOOSE"@) }
    else if code == 0x9100 { Some("Q-in-Q"@) }
    else if code == 0x88A8 { Some("PBridge"@) }
    else if code == 0x22F3 { Some("Trill"@) }
    else if code == 0x6003 { Some("DECnet"@) }
    else if code == 0x8035 { Some("Rarp"@) }
    else if code == 0x809B { Some("AppleTalk"@) }
    else if code == 0x80F3 { Some("Aarp"@) }
    else if code == 0x8137 { Some("Ipx"@) }
    else if code == 0x8204 { Some("Qnx"@) }
    else if code == 0x8847 { Some("MPLS Unicast"@) }
    else if code == 0x8848 { Some("MPLS Multicast"@) }
    else if code == 0x8863 { Some("Pppoe Discovery Stage"@) }
    else if code == 0x8864 { Some("Pppoe Session Stage"@) }
    else if code == 0x8819 { Some("CobraNet"@) }
    else if code == 0x8902 { Some("cfm"@) }
    else { None }
}

/// `Ethertype::name`: the known name, else `Unknown (0xABCD)`.
pub open spec fn ethertype_name(code: u16) -> Seq<char> {
    match ethertype_table(code) {
        Some(n) => n,
        None => "Unknown (0x"@ + hex_upper(code as nat, 4) + ")"@,
    }
}

/// `Ethertype::static_name` of `packet_parser`: the name of a known
/// EtherType, from its table of 24 entries.
#[verifier::external_body]
fn ethertype_static_name(code: u16) -> (r: Option<&'static str>)
    ensures
        match r {
            Some(s) => ethertype_table(code) == Some(s@),
            None => ethertype_table(code) is None,
        },
{
    Ethertype(code).static_name()
}

/// `Ethertype::name` of `packet_parser`: the static name, else
/// `Unknown (0x{:04X})`.
#[verifier::external_body]
fn ethertype_display_name(code: u16) -> (r: String)
    ensures
        r@ == ethertype_name(code),
{
    Ethertype(code).name()
}

/// Name of the network protocol of a cooked (SLL/SLL2) frame, as
/// `packet_parser` displays it: a name for the seven known protocols, else
/// `0xABCD`.
pub open spec fn network_protocol_name(code: u16) -> Seq<char> {
    if code == 0x0800 { "IPv4"@ }
    else if code == 0x86dd { "IPv6"@ }
    else if code == 0x0806 { "ARP"@ }
    else if code == 0x8892 { "Profinet"@ }
    else if code == 0x88f7 { "PTP"@ }
    else if code == 0x88b8 { "GOOSE"@ }
    else if code == 0x88cc { "LLDP"@ }
    else { "0x"@ + hex_upper(code as nat, 4) }
}

/// The network protocol that `packet_parser` derives from the protocol
/// field of a cooked frame (`LinkLayerOwned::linux_sll(..)
/// .network_protocol()`), displayed.
#[verifier::external_body]
fn cooked_network_protocol_name(protocol: u16) -> (r: String)
    ensures
        r@ == network_protocol_name(protocol),
{
    let details = LinuxSllLinkOwned::new(LinuxCookedPacketType::HOST, LinuxArphrdType(0), 0, None, protocol);
    LinkLayerOwned::linux_sll(details).network_protocol().to_string()
}

/// `name` is `Unknown (0x` + `hex` + `)`.
pub open spec fn unknown_form(name: Seq<char>) -> Option<Seq<char>> {
    let p = "Unknown (0x"@;
    if name.len() >= p.len() + 1 && name.take(p.len() as int) == p && name.last() == ')' {
        Some(name.subrange(p.len() as int, name.len() - 1))
    } else {
        None
    }
}

/// Whether `c` is the smallest EtherType named `name`.
pub open spec fn least_code_named(name: Seq<char>, c: u16) -> bool {
    &&& ethertype_table(c) == Some(name)
    &&& forall|d: u16| d < c ==> ethertype_table(d) != Some(name)
}

/// Inverse of [`ethertype_name`]: the code of `Unknown (0xABCD)`, else the
/// code of a known name.
pub open spec fn ethertype_code_of(name: Seq<char>) -> Option<u16> {
    match unknown_form(name) {
        Some(hex) => match parse_unsigned(hex, 16, 0xFFFF) {
            Some(v) => Some(v as u16),
            None => None,
        },
        None => if exists|c: u16| least_code_named(name, c) {
            Some(choose|c: u16| least_code_named(name, c))
        } else {
            None
        },
    }
}

proof fn lemma_least_code_unique(name: Seq<char>, a: u16, b: u16)
    requires
        least_code_named(name, a),
        least_code_named(name, b),
    ensures
        a == b,
{
    if a < b {
        assert(ethertype_table(a) != Some(name));
    } else if b < a {
        assert(ethertype_table(b) != Some(name));
    }
}

/// An upper-case hexadecimal digit reads back as its value.
proof fn lemma_upper_digit_value(d: nat)
    requires
        d < 16,
    ensures
        crate::text::digit_value(upper_digit_char(d), 16) == Some(d),
{
}

/// Four upper-case hexadecimal digits read back as the value they write.
proof fn lemma_hex4_reads_back(v: u16)
    ensures
        hex_upper(v as nat, 4).len() == 4,
        crate::text::all_digits(hex_upper(v as nat, 4), 16),
        crate::text::digits_value(hex_upper(v as nat, 4), 16) == v as nat,
        hex_upper(v as nat, 4)[0] != '+',
{
    let n = v as nat;
    let d0 = n % 16;
    let d1 = (n / 16) % 16;
    let d2 = (n / 256) % 16;
    let d3 = (n / 4096) % 16;
    assert(n / 16 / 16 == n / 256) by (nonlinear_arith);
    assert(n / 256 / 16 == n / 4096) by (nonlinear_arith);
    lemma_upper_digit_value(d0);
    lemma_upper_digit_value(d1);
    lemma_upper_digit_value(d2);
    lemma_upper_digit_value(d3);
    let s0 = hex_upper(n / 4096, 1);
    let s1 = hex_upper(n / 256, 2);
    let s2 = hex_upper(n / 16, 3);
    let s3 = hex_upper(n, 4);
    assert(hex_upper(n / 4096 / 16, 0) =~= Seq::<char>::empty());
    assert(s0 =~= seq![upper_digit_char(d3)]);
    assert(s1 =~= s0.push(upper_digit_char(d2)));
    assert(s2 =~= s1.push(upper_digit_char(d1)));
    assert(s3 =~= s2.push(upper_digit_char(d0)));
    assert(s3 =~= seq![upper_digit_char(d3), upper_digit_char(d2), upper_digit_char(d1), upper_digit_char(d0)]);
    let t = s3;
    assert(t.drop_last() =~= seq![upper_digit_char(d3), upper_digit_char(d2), upper_digit_char(d1)]);
    assert(t.drop_last().drop_last() =~= seq![upper_digit_char(d3), upper_digit_char(d2)]);
    assert(t.drop_last().drop_last().drop_last() =~= seq![upper_digit_char(d3)]);
    assert(t.drop_last().drop_last().drop_last().drop_last() =~= Seq::<char>::empty());
    assert(seq![upper_digit_char(d3)].drop_last() =~= Seq::<char>::empty());
    assert(seq![upper_digit_char(d3), upper_digit_char(d2)].drop_last() =~= seq![upper_digit_char(d3)]);
    assert(seq![upper_digit_char(d3), upper_digit_char(d2), upper_digit_char(d1)].drop_last()
        =~= seq![upper_digit_char(d3), upper_digit_char(d2)]);
    assert(crate::text::digits_value(Seq::<char>::empty(), 16) == 0);
    assert(crate::text::digits_value(seq![upper_digit_char(d3)], 16) == d3);
    assert(crate::text::digits_value(seq![upper_digit_char(d3), upper_digit_char(d2)], 16) == d3 * 16 + d2);
    assert(crate::text::digits_value(
        seq![upper_digit_char(d3), upper_digit_char(d2), upper_digit_char(d1)],
        16,
    ) == (d3 * 16 + d2) * 16 + d1);
    assert(crate::text::digits_value(t, 16) == ((d3 * 16 + d2) * 16 + d1) * 16 + d0);
    assert(((d3 * 16 + d2) * 16 + d1) * 16 + d0 == n) by (nonlinear_arith)
        requires
            n < 65536,
            d0 == n % 16,
            d1 == (n / 16) % 16,
            d2 == (n / 256) % 16,
            d3 == (n / 4096) % 16,
    ;
    assert forall|i: int| 0 <= i < t.len() implies (#[trigger] crate::text::digit_value(t[i], 16)) is Some by {
        if i == 0 {
        } else if i == 1 {
        } else if i == 2 {
        } else {
        }
    }
}

/// Two EtherTypes of the table never share a name.
proof fn lemma_table_names_distinct(a: u16, b: u16)
    requires
        ethertype_table(a) is Some,
        ethertype_table(a) == ethertype_table(b),
    ensures
        a == b,
{
    reveal_strlit("IPv4");
    reveal_strlit("IPv6");
    reveal_strlit("ARP");
    reveal_strlit("VLAN-tagged frame");
    reveal_strlit("LLDP");
    reveal_strlit("Profinet");
    reveal_strlit("MRP");
    reveal_strlit("PTP");
    reveal_strlit("GOOSE");
    reveal_strlit("Q-in-Q");
    reveal_strlit("PBridge");
    reveal_strlit("Trill");
    reveal_strlit("DECnet");
    reveal_strlit("Rarp");
    reveal_strlit("AppleTalk");
    reveal_strlit("Aarp");
    reveal_strlit("Ipx");
    reveal_strlit("Qnx");
    reveal_strlit("MPLS Unicast");
    reveal_strlit("MPLS Multicast");
    reveal_strlit("Pppoe Discovery Stage");
    reveal_strlit("Pppoe Session Stage");
    reveal_strlit("CobraNet");
    reveal_strlit("cfm");
    let n = ethertype_table(a)->0;
    let key = (n.len(), n[0], n[n.len() - 1]);
    assert(ethertype_table(b)->0 == n);
    assert(key == (n.len(), n[0], n[n.len() - 1]));
}

/// No name of the table has the `Unknown (0x..)` form.
proof fn lemma_table_names_are_not_unknown(c: u16)
    requires
        ethertype_table(c) is Some,
    ensures
        unknown_form(ethertype_table(c)->0) is None,
{
    reveal_strlit("Unknown (0x");
    reveal_strlit("IPv4");
    reveal_strlit("IPv6");
    reveal_strlit("ARP");
    reveal_strlit("VLAN-tagged frame");
    reveal_strlit("LLDP");
    reveal_strlit("Profinet");
    reveal_strlit("MRP");
    reveal_strlit("PTP");
    reveal_strlit("GOOSE");
    reveal_strlit("Q-in-Q");
    reveal_strlit("PBridge");
    reveal_strlit("Trill");
    reveal_strlit("DECnet");
    reveal_strlit("Rarp");
    reveal_strlit("AppleTalk");
    reveal_strlit("Aarp");
    reveal_strlit("Ipx");
    reveal_strlit("Qnx");
    reveal_strlit("MPLS Unicast");
    reveal_strlit("MPLS Multicast");
    reveal_strlit("Pppoe Discovery Stage");
    reveal_strlit("Pppoe Session Stage");
    reveal_strlit("CobraNet");
    reveal_strlit("cfm");
    let n = ethertype_table(c)->0;
    if n.len() >= 12 {
        assert(n.take(11)[0] == n[0]);
        assert("Unknown (0x"@[0] == 'U');
    }
}

/// Every name that `Ethertype::name` produces reads back as its code, so a
/// matrix export re-imports to the same EtherType.
pub proof fn lemma_ethertype_name_invertible(c: u16)
    ensures
        ethertype_code_of(ethertype_name(c)) == Some(c),
{
    match ethertype_table(c) {
        Some(n) => {
            lemma_table_names_are_not_unknown(c);
            assert forall|d: u16| d < c implies ethertype_table(d) != Some(n) by {
                if ethertype_table(d) == Some(n) {
                    lemma_table_names_distinct(c, d);
                }
            }
            assert(least_code_named(n, c));
            lemma_least_code_unique(n, c, choose|x: u16| least_code_named(n, x));
        },
        None => {
            reveal_strlit("Unknown (0x");
            reveal_strlit(")");
            let hex = hex_upper(c as nat, 4);
            lemma_hex4_reads_back(c);
            let name = "Unknown (0x"@ + hex + ")"@;
            assert(name.take(11) =~= "Unknown (0x"@);
            assert(name.subrange(11, name.len() - 1) =~= hex);
            assert(unknown_form(name) == Some(hex));
        },
    }
}

/// Exact inverse of `Ethertype::name`: a known name ("IPv4", "LLDP", ...)
/// or the form `Unknown (0xABCD)`; `None` for any other text.
pub fn ethertype_from_name(name: &str) -> (r: Option<u16>)
    ensures
        r == ethertype_code_of(name@),
{
    let v = chars_of(name);
    let prefix = chars_of("Unknown (0x");
    proof {
        reveal_strlit("Unknown (0x");
    }
    let n = v.len();
    let p = prefix.len();
    if n >= p + 1 && v[n - 1] == ')' {
        let mut k: usize = 0;
        while k < p && v[k] == prefix[k]
            invariant
                k <= p,
                p < n,
                n == v@.len(),
                p == prefix@.len(),
                v@.take(k as int) == prefix@.take(k as int),
            decreases p - k,
        {
            assert(v@.take(k + 1) =~= v@.take(k as int).push(v@[k as int]));
            assert(prefix@.take(k + 1) =~= prefix@.take(k as int).push(prefix@[k as int]));
            k = k + 1;
        }
        if k == p {
            assert(v@.take(p as int) =~= prefix@);
            assert(unknown_form(name@) == Some(v@.subrange(p as int, n - 1)));
            return match parse_unsigned_range(&v, p, n - 1, 16, 0xFFFF) {
                Some(x) => Some(x as u16),
                None => None,
            };
        } else {
            assert(v@.take(p as int)[k as int] != prefix@[k as int]);
            assert(v@.take(p as int) != prefix@);
        }
    }
    assert(unknown_form(name@) is None);
    let mut code: u32 = 0;
    while code <= 0xFFFF
        invariant
            code <= 0x10000,
            unknown_form(name@) is None,
            forall|d: u16| d < code ==> ethertype_table(d) != Some(name@),
        decreases 0x10000 - code,
    {
        match ethertype_static_name(code as u16) {
            Some(s) => {
                if str_eq(s, name) {
                    proof {
                        assert(least_code_named(name@, code as u16));
                        lemma_least_code_unique(name@, code as u16, choose|c: u16| least_code_named(name@, c));
                    }
                    return Some(code as u16);
                }
            },
            None => {},
        }
        code = code + 1;
    }
    assert(!exists|c: u16| least_code_named(name@, c));
    None
}

/// Bytes of a character in UTF-8.
pub open spec fn utf8_width(c: char) -> nat {
    if (c as u32) < 0x80 {
        1
    } else if (c as u32) < 0x800 {
        2
    } else if (c as u32) < 0x10000 {
        3
    } else {
        4
    }
}

/// Byte length of a text in UTF-8 (`str::len`).
pub open spec fn utf8_len(s: Seq<char>) -> nat
    decreases s.len(),
{
    if s.len() == 0 {
        0
    } else {
        utf8_len(s.drop_last()) + utf8_width(s.last())
    }
}

proof fn lemma_utf8_len_prefix(s: Seq<char>, k: int)
    requires
        0 <= k <= s.len(),
    ensures
        utf8_len(s.take(k)) <= utf8_len(s),
    decreases s.len(),
{
    if k < s.len() {
        lemma_utf8_len_prefix(s.drop_last(), k);
        assert(s.drop_last().take(k) =~= s.take(k));
    } else {
        assert(s.take(k) =~= s);
    }
}

/// Whether the characters `v[lo..hi]` take exactly `n` bytes in UTF-8.
pub fn utf8_len_is(v: &Vec<char>, lo: usize, hi: usize, n: usize) -> (r: bool)
    requires
        lo <= hi <= v@.len(),
        n <= 16,
    ensures
        r == (utf8_len(v@.subrange(lo as int, hi as int)) == n),
{
    let ghost s = v@.subrange(lo as int, hi as int);
    let mut acc: usize = 0;
    let mut i = lo;
    while i < hi
        invariant
            lo <= i <= hi,
            hi <= v@.len(),
            n <= 16,
            s == v@.subrange(lo as int, hi as int),
            acc == utf8_len(s.take(i - lo)),
            acc <= n,
        decreases hi - i,
    {
        assert(s.take(i - lo + 1).drop_last() =~= s.take(i - lo));
        assert(s.take(i - lo + 1).last() == v@[i as int]);
        let c = v[i] as u32;
        let w: usize = if c < 0x80 {
            1
        } else if c < 0x800 {
            2
        } else if c < 0x10000 {
            3
        } else {
            4
        };
        if acc + w > n {
            proof {
                lemma_utf8_len_prefix(s, i - lo + 1);
            }
            return false;
        }
        acc = acc + w;
        i = i + 1;
    }
    assert(s.take(i - lo) =~= s);
    acc == n
}

/// Inverse of the display of a cooked (SLL/SLL2) protocol: `0xABCD` on
/// exactly four digits, else a known EtherType name or its `Unknown (0x..)`
/// form.
pub open spec fn cooked_protocol_code(name: Seq<char>) -> Option<u16> {
    if name.len() >= 2 && name[0] == '0' && name[1] == 'x' {
        let hex = name.skip(2);
        if utf8_len(hex) == 4 && all_digits(hex, 16) {
            match parse_unsigned(hex, 16, 0xFFFF) {
                Some(v) => Some(v as u16),
                None => None,
            }
        } else {
            None
        }
    } else {
        ethertype_code_of(name)
    }
}

/// Inverse of the display of a cooked protocol: known protocols have a name
/// (`IPv4`, `ARP`, ...), the others the numeric form `0xABCD`; the Ethernet
/// form `Unknown (0xABCD)` is accepted too.
pub fn cooked_protocol_from_text(name: &str) -> (r: Option<u16>)
    ensures
        r == cooked_protocol_code(name@),
{
    let v = chars_of(name);
    if v.len() >= 2 && v[0] == '0' && v[1] == 'x' {
        assert(v@.subrange(2, v@.len() as int) =~= name@.skip(2));
        assert(name@.len() >= 2 && name@[0] == '0' && name@[1] == 'x');
        if utf8_len_is(&v, 2, v.len(), 4) && hex_digits_in(&v, 2, v.len()) {
            return match parse_unsigned_range(&v, 2, v.len(), 16, 0xFFFF) {
                Some(x) => Some(x as u16),
                None => None,
            };
        } else {
            return None;
        }
    }
    ethertype_from_name(name)
}


// ---------------------------------------------------------------------------
// Cooked (SLL/SLL2) addresses
// ---------------------------------------------------------------------------

/// An octet of a cooked address: two bytes of text, both hexadecimal
/// digits (no sign).
pub open spec fn cooked_octet_ok(o: Seq<char>) -> bool {
    utf8_len(o) == 2 && all_digits(o, 16)
}

/// Whether `v[lo..hi]` is made of hexadecimal digits only.
fn hex_digits_in(v: &Vec<char>, lo: usize, hi: usize) -> (r: bool)
    requires
        lo <= hi <= v@.len(),
    ensures
        r == all_digits(v@.subrange(lo as int, hi as int), 16),
{
    let mut i = lo;
    while i < hi
        invariant
            lo <= i <= hi,
            hi <= v@.len(),
            forall|k: int| 0 <= k < i - lo ==> (#[trigger] digit_value(v@.subrange(lo as int, hi as int)[k], 16)) is Some,
        decreases hi - i,
    {
        assert(v@.subrange(lo as int, hi as int)[i - lo] == v@[i as int]);
        if digit_of(v[i], 16).is_none() {
            return false;
        }
        i = i + 1;
    }
    true
}

/// A hexadecimal digit is an ASCII character.
proof fn lemma_hex_digit_ascii(c: char)
    requires
        digit_value(c, 16) is Some,
    ensures
        (c as u32) < 0x80,
        c != '+',
{
}

/// Two bytes of hexadecimal digits are two characters read as a byte.
proof fn lemma_two_hex_digits(o: Seq<char>)
    requires
        utf8_len(o) == 2,
        all_digits(o, 16),
    ensures
        o.len() == 2,
        parse_unsigned(o, 16, 255) == Some(digits_value(o, 16)),
{
    assert forall|i: int| 0 <= i < o.len() implies (#[trigger] o[i] as u32) < 0x80 by {
        assert(digit_value(o[i], 16) is Some);
        lemma_hex_digit_ascii(o[i]);
    }
    lemma_utf8_len_ascii(o);
    assert(digit_value(o[0], 16) is Some);
    lemma_hex_digit_ascii(o[0]);
    assert(o.drop_last().drop_last() =~= Seq::<char>::empty());
    assert(o.drop_last().last() == o[0]);
    assert(o.last() == o[1]);
    assert(digit_value(o[1], 16) is Some);
    let d0 = digit_value(o[0], 16)->0;
    let d1 = digit_value(o[1], 16)->0;
    assert(d0 < 16 && d1 < 16);
    assert(digits_value(Seq::<char>::empty(), 16) == 0);
    assert(digits_value(o.drop_last(), 16) == d0);
    assert(digits_value(o, 16) == d0 * 16 + d1);
    assert(d0 * 16 + d1 <= 255) by (nonlinear_arith)
        requires
            d0 < 16,
            d1 < 16,
    ;
}

/// Message for a cooked address `text` that is rejected, with `detail`
/// appended.
pub open spec fn cooked_address_message(text: Seq<char>, detail: Seq<char>) -> Seq<char> {
    "adresse cooked invalide : « "@ + text + detail
}

/// Index of the first invalid octet.
pub open spec fn first_bad_octet(ps: Seq<Seq<char>>, j: int) -> bool {
    &&& 0 <= j < ps.len()
    &&& !cooked_octet_ok(ps[j])
    &&& forall|k: int| 0 <= k < j ==> cooked_octet_ok(#[trigger] ps[k])
}

/// The variable hardware address of a Linux cooked header, parsed: empty
/// text means no address; otherwise 1 to 8 octets of two hexadecimal digits
/// separated by `:`.
pub open spec fn cooked_address_of(text: Seq<char>) -> Result<Option<Seq<u8>>, Seq<char>> {
    let ps = split_on(text, ':');
    if text.len() == 0 {
        Ok(None)
    } else if ps.len() > 8 {
        Err(cooked_address_message(text, " » (attendu : 1 à 8 octets hexadécimaux)"@))
    } else if forall|i: int| 0 <= i < ps.len() ==> cooked_octet_ok(#[trigger] ps[i]) {
        Ok(Some(Seq::new(ps.len(), |i: int| parse_unsigned(ps[i], 16, 255)->0 as u8)))
    } else {
        let j = choose|j: int| first_bad_octet(ps, j);
        if utf8_len(ps[j]) != 2 {
            Err(cooked_address_message(text, " » (chaque octet doit avoir deux chiffres)"@))
        } else {
            Err(cooked_address_message(text, " »"@))
        }
    }
}

/// Parses the variable hardware address of a Linux cooked header. The
/// SLL/SLL2 slot holds at most eight octets; an empty address means the
/// header exposed none. Distinct from [`mac_from_text`], which demands the
/// six octets of an Ethernet MAC.
#[verifier::spinoff_prover]
pub fn cooked_address_from_text(text: &str) -> (r: Result<Option<Vec<u8>>, String>)
    ensures
        match cooked_address_of(text@) {
            Ok(None) => r matches Ok(None),
            Ok(Some(b)) => r matches Ok(Some(v)) && v@ == b,
            Err(m) => r matches Err(e) && e@ == m,
        },
{
    let v = chars_of(text);
    if v.len() == 0 {
        return Ok(None);
    }
    let ghost ps = split_on(text@, ':');
    assert(v@.subrange(0, v@.len() as int) =~= text@);
    let ranges = split_ranges(&v, 0, v.len(), ':');
    if ranges.len() > 8 {
        return Err(concat3("adresse cooked invalide : « ", text, " » (attendu : 1 à 8 octets hexadécimaux)"));
    }
    let mut bytes: Vec<u8> = Vec::new();
    let mut j: usize = 0;
    while j < ranges.len()
        invariant
            j <= ranges@.len(),
            ranges@.len() == ps.len(),
            ps.len() <= 8,
            text@.len() > 0,
            ps == split_on(text@, ':'),
            v@ == text@,
            forall|k: int| 0 <= k < ranges@.len() ==> #[trigger] ranges@[k].0 <= ranges@[k].1 <= v@.len()
                && v@.subrange(ranges@[k].0 as int, ranges@[k].1 as int) == ps[k],
            forall|k: int| 0 <= k < j ==> cooked_octet_ok(#[trigger] ps[k]),
            bytes@ == Seq::new(j as nat, |k: int| parse_unsigned(ps[k], 16, 255)->0 as u8),
        decreases ranges@.len() - j,
    {
        let (lo, hi) = ranges[j];
        assert(v@.subrange(lo as int, hi as int) == ps[j as int]);
        if !utf8_len_is(&v, lo, hi, 2) {
            assert(first_bad_octet(ps, j as int));
            let ghost c = choose|c: int| first_bad_octet(ps, c);
            assert(c == j) by {
                if c < j {
                    assert(cooked_octet_ok(ps[c]));
                } else if c > j {
                    assert(cooked_octet_ok(ps[j as int]));
                }
            }
            return Err(concat3("adresse cooked invalide : « ", text, " » (chaque octet doit avoir deux chiffres)"));
        }
        if !hex_digits_in(&v, lo, hi) {
            assert(first_bad_octet(ps, j as int));
            let ghost c = choose|c: int| first_bad_octet(ps, c);
            assert(c == j) by {
                if c < j {
                    assert(cooked_octet_ok(ps[c]));
                } else if c > j {
                    assert(cooked_octet_ok(ps[j as int]));
                }
            }
            return Err(concat3("adresse cooked invalide : « ", text, " »"));
        }
        proof {
            lemma_two_hex_digits(ps[j as int]);
        }
        match parse_unsigned_range(&v, lo, hi, 16, 255) {
            None => {
                assert(first_bad_octet(ps, j as int));
                let ghost c = choose|c: int| first_bad_octet(ps, c);
                assert(c == j) by {
                    if c < j {
                        assert(cooked_octet_ok(ps[c]));
                    } else if c > j {
                        assert(cooked_octet_ok(ps[j as int]));
                    }
                }
                return Err(concat3("adresse cooked invalide : « ", text, " »"));
            },
            Some(b) => {
                bytes.push(b as u8);
                assert(bytes@ =~= Seq::new((j + 1) as nat, |k: int| parse_unsigned(ps[k], 16, 255)->0 as u8));
            },
        }
        j = j + 1;
    }
    Ok(Some(bytes))
}


// ---------------------------------------------------------------------------
// Rebuilding the link of a matrix row
// ---------------------------------------------------------------------------

/// `LINKTYPE_ETHERNET`.
pub const LINKTYPE_ETHERNET: u32 = 1;
/// `LINKTYPE_RAW`.
pub const LINKTYPE_RAW: u32 = 101;
/// `LINKTYPE_LINUX_SLL`.
pub const LINKTYPE_LINUX_SLL: u32 = 113;
/// `LINKTYPE_LINUX_SLL2`.
pub const LINKTYPE_LINUX_SLL2: u32 = 276;

/// The all-zero MAC.
pub open spec fn zero_mac() -> Seq<u8> {
    seq![0u8, 0u8, 0u8, 0u8, 0u8, 0u8]
}

/// The view of an Ethernet link rebuilt from text: its MACs and EtherType,
/// an unreadable MAC becoming all zeros and an unknown protocol EtherType 0
/// (the validation rejects both beforehand).
pub open spec fn ethernet_view(
    source: Seq<char>,
    destination: Seq<char>,
    protocol: Seq<char>,
    vlan_id: Option<u16>,
) -> LinkViewSpec {
    LinkViewSpec {
        source_mac: hw_text(match mac_octets(source) { Some(b) => b, None => zero_mac() }),
        destination_mac: hw_text(match mac_octets(destination) { Some(b) => b, None => zero_mac() }),
        protocol: ethertype_name(match ethertype_code_of(protocol) { Some(c) => c, None => 0 }),
        vlan_id,
    }
}

/// The view of the link rebuilt by the historical Ethernet path: two empty
/// MACs with IPv4 or IPv6 and no VLAN are a raw IP link, anything else is
/// Ethernet.
pub open spec fn ethernet_path_view(
    source: Seq<char>,
    destination: Seq<char>,
    protocol: Seq<char>,
    vlan_id: Option<u16>,
) -> LinkViewSpec {
    if source.len() == 0 && destination.len() == 0 && vlan_id is None && (protocol == "IPv4"@
        || protocol == "IPv6"@) {
        LinkViewSpec { source_mac: Seq::empty(), destination_mac: Seq::empty(), protocol, vlan_id: None }
    } else {
        ethernet_view(source, destination, protocol, vlan_id)
    }
}

/// Rebuilds an Ethernet link from its text fields (see [`ethernet_view`]).
fn ethernet_view_of(source_address: &str, destination_address: &str, protocol: &str, vlan_id: Option<u16>) -> (r: LinkView)
    ensures
        r@ == ethernet_view(source_address@, destination_address@, protocol@, vlan_id),
{
    let zero: Vec<u8> = vec![0u8, 0u8, 0u8, 0u8, 0u8, 0u8];
    assert(zero@ =~= zero_mac());
    let src = match mac_from_text(source_address) {
        Some(b) => b,
        None => zero.clone(),
    };
    let dst = match mac_from_text(destination_address) {
        Some(b) => b,
        None => zero,
    };
    let code = match ethertype_from_name(protocol) {
        Some(c) => c,
        None => 0,
    };
    LinkView {
        source_mac: format_hw_address(src.as_slice()),
        destination_mac: format_hw_address(dst.as_slice()),
        protocol: ethertype_display_name(code),
        vlan_id,
    }
}

/// Rebuilds a link from the text fields of a matrix row by the historical
/// Ethernet path, as its textual view: a raw IP export (two empty MACs,
/// IPv4 or IPv6, no VLAN) comes back raw, anything else as Ethernet.
pub fn ethernet_link_from_text(
    source_mac: &str,
    destination_mac: &str,
    protocol: &str,
    vlan_id: Option<u16>,
) -> (r: LinkView)
    ensures
        r@ == ethernet_path_view(source_mac@, destination_mac@, protocol@, vlan_id),
{
    if source_mac.is_empty() && destination_mac.is_empty() && vlan_id.is_none() {
        if str_eq(protocol, "IPv4") || str_eq(protocol, "IPv6") {
            return LinkView {
                source_mac: String::new(),
                destination_mac: String::new(),
                protocol: protocol.to_owned(),
                vlan_id: None,
            };
        }
    }
    ethernet_view_of(source_mac, destination_mac, protocol, vlan_id)
}

/// The link view of the link rebuilt from the text fields of a matrix row
/// of link type `link_type`: Ethernet keeps its MACs and EtherType (an
/// unreadable MAC or protocol becoming zero, which the validation rejects
/// beforehand), raw IP has no address, and a cooked capture keeps its
/// source address and protocol only.
pub open spec fn matrix_link_view(
    link_type: u32,
    source: Seq<char>,
    destination: Seq<char>,
    protocol: Seq<char>,
    vlan_id: Option<u16>,
) -> Result<LinkViewSpec, Seq<char>> {
    if link_type == LINKTYPE_ETHERNET {
        Ok(ethernet_view(source, destination, protocol, vlan_id))
    } else if link_type == LINKTYPE_RAW {
        if protocol == "IPv4"@ || protocol == "IPv6"@ {
            Ok(LinkViewSpec { source_mac: Seq::empty(), destination_mac: Seq::empty(), protocol, vlan_id: None })
        } else {
            Err("protocole RAW invalide : « "@ + protocol + " » (attendu : IPv4 ou IPv6)"@)
        }
    } else if link_type == LINKTYPE_LINUX_SLL || link_type == LINKTYPE_LINUX_SLL2 {
        match cooked_address_of(source) {
            Err(m) => Err(m),
            Ok(address) => match cooked_protocol_code(protocol) {
                None => Err("protocole cooked invalide : « "@ + protocol + " » (attendu : nom connu ou 0xNNNN)"@),
                Some(p) => Ok(LinkViewSpec {
                    source_mac: match address { Some(b) => hw_text(b), None => Seq::empty() },
                    destination_mac: Seq::empty(),
                    protocol: network_protocol_name(p),
                    vlan_id: None,
                }),
            },
        }
    } else {
        Err("type de liaison non reconstructible : "@ + dec_digits(link_type as nat))
    }
}

/// Rebuilds the link of a matrix row from its text fields, for the link
/// type the survey announces, as its textual view: the inverse of the
/// projection for every identity an export produced.
pub fn matrix_link_from_text(
    link_type: u32,
    source_address: &str,
    destination_address: &str,
    protocol: &str,
    vlan_id: Option<u16>,
) -> (r: Result<LinkView, String>)
    ensures
        match matrix_link_view(link_type, source_address@, destination_address@, protocol@, vlan_id) {
            Ok(l) => r matches Ok(v) && v@ == l,
            Err(m) => r matches Err(e) && e@ == m,
        },
{
    if link_type == LINKTYPE_ETHERNET {
        Ok(ethernet_view_of(source_address, destination_address, protocol, vlan_id))
    } else if link_type == LINKTYPE_RAW {
        if str_eq(protocol, "IPv4") || str_eq(protocol, "IPv6") {
            Ok(LinkView {
                source_mac: String::new(),
                destination_mac: String::new(),
                protocol: protocol.to_owned(),
                vlan_id: None,
            })
        } else {
            Err(concat3("protocole RAW invalide : « ", protocol, " » (attendu : IPv4 ou IPv6)"))
        }
    } else if link_type == LINKTYPE_LINUX_SLL || link_type == LINKTYPE_LINUX_SLL2 {
        let address = match cooked_address_from_text(source_address) {
            Err(e) => {
                return Err(e);
            },
            Ok(a) => a,
        };
        match cooked_protocol_from_text(protocol) {
            None => Err(concat3("protocole cooked invalide : « ", protocol, " » (attendu : nom connu ou 0xNNNN)")),
            Some(p) => Ok(LinkView::of(&canonical_cooked_link(link_type, address, p))),
        }
    } else {
        let n = decimal_text(link_type as u64);
        Err(crate::text::concat2("type de liaison non reconstructible : ", n.as_str()))
    }
}

// ---------------------------------------------------------------------------
// An exported link reads back
// ---------------------------------------------------------------------------

pub(crate) proof fn lemma_split_joined_texts(items: Seq<Seq<char>>, sep: char)
    requires
        items.len() >= 1,
        forall|i: int| 0 <= i < items.len() ==> !(#[trigger] items[i]).contains(sep),
    ensures
        split_on(join_texts(items, sep), sep) == items,
    decreases items.len(),
{
    if items.len() == 1 {
        lemma_split_no_sep(items[0], sep);
        assert(items =~= seq![items[0]]);
    } else {
        let init = items.drop_last();
        assert forall|i: int| 0 <= i < init.len() implies !(#[trigger] init[i]).contains(sep) by {
            assert(init[i] == items[i]);
        }
        lemma_split_joined_texts(init, sep);
        assert(!items[items.len() - 1].contains(sep));
        lemma_split_append_piece(join_texts(init, sep), items.last(), sep);
        assert(init.push(items.last()) =~= items);
    }
}

/// Two hexadecimal digits of an octet read back as the octet.
proof fn lemma_octet_text_reads_back(v: u8)
    ensures
        parse_unsigned(hex_fixed(v as nat, 2), 16, 255) == Some(v as nat),
        !hex_fixed(v as nat, 2).contains(':'),
{
    reveal_with_fuel(pow16, 3);
    lemma_hex_fixed_value(v as nat, 2);
    lemma_hex_fixed_chars(v as nat, 2);
    let h = hex_fixed(v as nat, 2);
    let d0 = choose|d: nat| d < 16 && #[trigger] h[0] == crate::text::digit_char(d);
    lemma_digit_char_not_special(d0);
    let d1 = choose|d: nat| d < 16 && #[trigger] h[1] == crate::text::digit_char(d);
    lemma_digit_char_not_special(d1);
    assert(!h.contains(':')) by {
        if h.contains(':') {
            let i = choose|i: int| 0 <= i < h.len() && h[i] == ':';
            assert(i == 0 || i == 1);
        }
    }
}

/// A MAC written by the projection reads back as the same six octets.
pub proof fn lemma_mac_text_reads_back(b: Seq<u8>)
    requires
        b.len() == 6,
    ensures
        mac_octets(hw_text(b)) == Some(b),
{
    let items = Seq::new(b.len(), |i: int| hex_fixed(b[i] as nat, 2));
    assert forall|i: int| 0 <= i < items.len() implies !(#[trigger] items[i]).contains(':') by {
        lemma_octet_text_reads_back(b[i]);
    }
    lemma_split_joined_texts(items, ':');
    let ps = split_on(hw_text(b), ':');
    assert(ps == items);
    assert forall|i: int| 0 <= i < 6 implies (#[trigger] parse_unsigned(ps[i], 16, 255)) is Some by {
        lemma_octet_text_reads_back(b[i]);
    }
    assert forall|i: int| 0 <= i < 6 implies (parse_unsigned(ps[i], 16, 255)->0 as u8) == b[i] by {
        lemma_octet_text_reads_back(b[i]);
    }
    assert(Seq::new(6, |i: int| parse_unsigned(ps[i], 16, 255)->0 as u8) =~= b);
}

/// Whether a link layer is one that a matrix of link type `lt` holds:
/// Ethernet with six-octet MACs in an Ethernet survey, raw IPv4 or IPv6 in a
/// raw IP survey, a cooked frame (address of at most eight octets) in a
/// Linux cooked survey of its version.
pub open spec fn exported_link(link: LinkLayer, lt: u32) -> bool {
    match link {
        LinkLayer::Ethernet { source_mac, destination_mac, .. } => lt == LINKTYPE_ETHERNET
            && source_mac@.len() == 6 && destination_mac@.len() == 6,
        LinkLayer::Other { network_protocol } => lt == LINKTYPE_RAW && (network_protocol@ == "IPv4"@
            || network_protocol@ == "IPv6"@),
        LinkLayer::LinuxSll { source_address, .. } => lt == LINKTYPE_LINUX_SLL && (source_address matches Some(a) ==> a@.len() <= 8),
        LinkLayer::LinuxSll2 { source_address, .. } => lt == LINKTYPE_LINUX_SLL2 && (source_address matches Some(a) ==> a@.len() <= 8),
        _ => false,
    }
}

/// An ASCII text has one UTF-8 byte per character.
proof fn lemma_utf8_len_ascii(s: Seq<char>)
    requires
        forall|i: int| 0 <= i < s.len() ==> (#[trigger] s[i] as u32) < 0x80,
    ensures
        utf8_len(s) == s.len(),
    decreases s.len(),
{
    if s.len() > 0 {
        assert forall|i: int| 0 <= i < s.drop_last().len() implies (#[trigger] s.drop_last()[i] as u32) < 0x80 by {
            assert(s.drop_last()[i] == s[i]);
        }
        lemma_utf8_len_ascii(s.drop_last());
        assert((s[s.len() - 1] as u32) < 0x80);
    }
}

/// A cooked source address written by the projection reads back as itself
/// (an empty address as no address).
proof fn lemma_cooked_address_reads_back(b: Seq<u8>)
    requires
        b.len() <= 8,
    ensures
        cooked_address_of(hw_text(b)) == (if b.len() == 0 {
            Ok::<Option<Seq<u8>>, Seq<char>>(None)
        } else {
            Ok::<Option<Seq<u8>>, Seq<char>>(Some(b))
        }),
{
    let items = Seq::new(b.len(), |i: int| hex_fixed(b[i] as nat, 2));
    if b.len() == 0 {
        assert(hw_text(b) =~= Seq::<char>::empty());
    } else {
        assert forall|i: int| 0 <= i < items.len() implies !(#[trigger] items[i]).contains(':') by {
            lemma_octet_text_reads_back(b[i]);
        }
        lemma_split_joined_texts(items, ':');
        let ps = split_on(hw_text(b), ':');
        assert(ps == items);
        assert(hw_text(b).len() > 0) by {
            assert(ps.len() >= 1);
            if hw_text(b).len() == 0 {
                assert(split_on(hw_text(b), ':') == seq![Seq::<char>::empty()]);
                assert(items[0].len() == 2) by {
                    lemma_hex_fixed_chars(b[0] as nat, 2);
                }
            }
        }
        assert forall|i: int| 0 <= i < ps.len() implies cooked_octet_ok(#[trigger] ps[i]) by {
            lemma_octet_text_reads_back(b[i]);
            lemma_hex_fixed_chars(b[i] as nat, 2);
            let h = hex_fixed(b[i] as nat, 2);
            let d0 = choose|d: nat| d < 16 && #[trigger] h[0] == crate::text::digit_char(d);
            let d1 = choose|d: nat| d < 16 && #[trigger] h[1] == crate::text::digit_char(d);
            assert forall|k: int| 0 <= k < h.len() implies (#[trigger] h[k] as u32) < 0x80 by {
                let d = choose|d: nat| d < 16 && #[trigger] h[k] == crate::text::digit_char(d);
            }
            lemma_utf8_len_ascii(h);
        }
        assert(Seq::new(ps.len(), |i: int| parse_unsigned(ps[i], 16, 255)->0 as u8) =~= b) by {
            assert forall|i: int| 0 <= i < ps.len() implies (parse_unsigned(ps[i], 16, 255)->0 as u8) == b[i] by {
                lemma_octet_text_reads_back(b[i]);
            }
        }
    }
}

/// The displayed network protocol of a cooked frame reads back as a code
/// with the same display.
proof fn lemma_cooked_protocol_reads_back(p: u16)
    ensures
        cooked_protocol_code(network_protocol_name(p)) is Some,
        network_protocol_name(cooked_protocol_code(network_protocol_name(p))->0) == network_protocol_name(p),
{
    reveal_strlit("IPv4");
    reveal_strlit("IPv6");
    reveal_strlit("ARP");
    reveal_strlit("Profinet");
    reveal_strlit("PTP");
    reveal_strlit("GOOSE");
    reveal_strlit("LLDP");
    reveal_strlit("0x");
    let n = network_protocol_name(p);
    if p == 0x0800 || p == 0x86dd || p == 0x0806 || p == 0x8892 || p == 0x88f7 || p == 0x88b8 || p == 0x88cc {
        assert(ethertype_name(p) == n);
        lemma_ethertype_name_invertible(p);
        assert(!(n.len() >= 2 && n[0] == '0' && n[1] == 'x'));
    } else {
        let hex = hex_upper(p as nat, 4);
        lemma_hex4_reads_back(p);
        assert(n =~= "0x"@ + hex);
        assert(n.skip(2) =~= hex);
        assert(n[0] == '0' && n[1] == 'x');
        assert forall|i: int| 0 <= i < hex.len() implies (#[trigger] hex[i] as u32) < 0x80 by {
            assert(crate::text::digit_value(hex[i], 16) is Some);
        }
        lemma_utf8_len_ascii(hex);
    }
}

/// Re-importing the text fields that the projection exported rebuilds the
/// same link view: the CSV round trip is exact for every Ethernet, raw IP
/// and Linux cooked identity an export produces.
pub proof fn lemma_exported_link_reads_back(link: LinkLayer, lt: u32)
    requires
        exported_link(link, lt),
    ensures
        ({
            let v = link_view_of(link);
            matrix_link_view(lt, v.source_mac, v.destination_mac, v.protocol, v.vlan_id) == Ok::<LinkViewSpec, Seq<char>>(v)
        }),
{
    match link {
        LinkLayer::Ethernet { source_mac, destination_mac, ethertype, vlan_id } => {
            lemma_mac_text_reads_back(source_mac@);
            lemma_mac_text_reads_back(destination_mac@);
            lemma_ethertype_name_invertible(ethertype);
        },
        LinkLayer::LinuxSll { source_address, protocol, .. } => {
            match source_address {
                Some(a) => lemma_cooked_address_reads_back(a@),
                None => {},
            }
            lemma_cooked_protocol_reads_back(protocol);
        },
        LinkLayer::LinuxSll2 { source_address, protocol, .. } => {
            match source_address {
                Some(a) => lemma_cooked_address_reads_back(a@),
                None => {},
            }
            lemma_cooked_protocol_reads_back(protocol);
        },
        _ => {},
    }
}

} // verus!
