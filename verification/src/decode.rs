//! From the bytes of a captured frame to matrix rows: `packet_parser`
//! decodes the frame into its encapsulation levels, each level becomes a
//! flow identity, and every level is counted in the matrix; the packet is
//! classified in the file's report either way.

use vstd::prelude::*;

use packet_parser::errors::ParseError;
use packet_parser::LinkType;

use crate::error::{SonarCoreError, decimal_text};
use crate::text::{concat2, dec_digits};
use crate::flow_matrix::{
    CapturedPacketOwned, FlowKey, FlowKeySpec, FlowMatrix, InternetKey, InternetKeySpec, TransportKey,
    TransportKeySpec, timeval_converts, timeval_fits, timeval_instant, merge_entry, merge_fits, packet_stats,
};
use crate::import::{count_overflow_message, entries_in};
use crate::link::{
    CookedObservation, LINKTYPE_ETHERNET, LINKTYPE_LINUX_SLL, LINKTYPE_LINUX_SLL2, LINKTYPE_RAW, LinkLayer, LinkView,
    LinkViewSpec, ethertype_name, hw_text, into_matrix_flow_identity,
    lemma_identity_keeps_view, link_view_of, network_protocol_name,
};
use crate::matrix::{FlowStats, TunnelEntry};
use crate::packets::{CapturedPacket, FlowLevel, OwnedRowSpec, owned_view, tunnel_id};
use crate::report::{PacketDisposition, PcapFileReport, classify_outcome};

verus! {

// ---------------------------------------------------------------------------
// What the parser reads of a frame
// ---------------------------------------------------------------------------

/// Fields of an Ethernet link: source MAC, destination MAC, EtherType, VLAN id.
pub type EthernetFields = (Vec<u8>, Vec<u8>, u16, Option<u16>);
/// Fields of an IEEE 802.11 link: source MAC, destination MAC, SNAP protocol.
pub type WifiFields = (Vec<u8>, Vec<u8>, u16);
/// Fields of a Linux cooked link: source address, protocol, observation.
pub type CookedFields = (Option<Vec<u8>>, u16, CookedObservation);

/// The decoded levels of a frame, outermost first, as the network payload
/// size of each; or, when the frame does not decode, whether the parser
/// has no decoder for the link type.
pub uninterp spec fn parsed_payloads(link_type: u32, data: Seq<u8>) -> Result<Seq<usize>, bool>;

/// For each decoded level, its Ethernet fields if its link is Ethernet.
pub uninterp spec fn parsed_ethernet(link_type: u32, data: Seq<u8>) -> Option<Seq<Option<(Seq<u8>, Seq<u8>, u16, Option<u16>)>>>;

/// For each decoded level, its 802.11 fields if its link is 802.11.
pub uninterp spec fn parsed_wifi(link_type: u32, data: Seq<u8>) -> Option<Seq<Option<(Seq<u8>, Seq<u8>, u16)>>>;

/// For each decoded level, its cooked fields if its link is Linux SLL.
pub uninterp spec fn parsed_sll(link_type: u32, data: Seq<u8>) -> Option<Seq<Option<(Option<Seq<u8>>, u16, CookedObservation)>>>;

/// For each decoded level, its cooked fields if its link is Linux SLL2.
pub uninterp spec fn parsed_sll2(link_type: u32, data: Seq<u8>) -> Option<Seq<Option<(Option<Seq<u8>>, u16, CookedObservation)>>>;

/// For each decoded level, the network protocol of its link, displayed.
pub uninterp spec fn parsed_network_protocols(link_type: u32, data: Seq<u8>) -> Option<Seq<Seq<char>>>;

/// For each decoded level, its network layer as the matrix keys it.
pub uninterp spec fn parsed_internet(link_type: u32, data: Seq<u8>) -> Option<Seq<Option<InternetKeySpec>>>;

/// For each decoded level, its transport layer as the matrix keys it.
pub uninterp spec fn parsed_transport(link_type: u32, data: Seq<u8>) -> Option<Seq<Option<TransportKeySpec>>>;

/// For each decoded level, its application protocol.
pub uninterp spec fn parsed_application(link_type: u32, data: Seq<u8>) -> Option<Seq<Option<Seq<char>>>>;

/// Values of per-level optional fields.
pub open spec fn levels_of<A, B>(r: Option<Vec<Option<A>>>, f: spec_fn(A) -> B) -> Option<Seq<Option<B>>> {
    match r {
        Some(v) => Some(v@.map_values(|o: Option<A>| match o {
            Some(a) => Some(f(a)),
            None => None,
        })),
        None => None,
    }
}

/// Values of Ethernet fields.
pub open spec fn ethernet_value(e: EthernetFields) -> (Seq<u8>, Seq<u8>, u16, Option<u16>) {
    (e.0@, e.1@, e.2, e.3)
}

/// Values of 802.11 fields.
pub open spec fn wifi_value(w: WifiFields) -> (Seq<u8>, Seq<u8>, u16) {
    (w.0@, w.1@, w.2)
}

/// Values of cooked fields.
pub open spec fn cooked_value(c: CookedFields) -> (Option<Seq<u8>>, u16, CookedObservation) {
    (
        match c.0 {
            Some(a) => Some(a@),
            None => None,
        },
        c.1,
        c.2,
    )
}

/// Decodes a frame of link type `link_type` with `packet_parser::parse::parse`
/// and unfolds it (`PacketFlow::flatten`, outermost level first) into the
/// network payload size of each level (`network_payload().len()`); on a
/// parse error, whether it is `ParseError::UnsupportedLinkType`. Claimed:
/// the outcome is a function of the link type and the bytes.
#[verifier::external_body]
fn parse_levels(link_type: u32, data: &[u8]) -> (r: Result<Vec<usize>, bool>)
    ensures
        (match r {
            Ok(v) => Ok(v@),
            Err(u) => Err(u),
        }) == parsed_payloads(link_type, data@),
{
    match packet_parser::parse::parse(LinkType(link_type), data) {
        Ok(flow) => Ok(flow.flatten().iter().map(|l| l.data_link.network_payload().len()).collect()),
        Err(e) => Err(matches!(e, ParseError::UnsupportedLinkType(_))),
    }
}

/// The Ethernet fields of each decoded level (`to_owned_flow().data_link
/// .as_ethernet()`: MACs, EtherType, VLAN id), none when the frame does not
/// decode. Claimed: a function of the link type and the bytes.
#[verifier::external_body]
fn parsed_ethernet_links(link_type: u32, data: &[u8]) -> (r: Option<Vec<Option<EthernetFields>>>)
    ensures
        levels_of(r, |e: EthernetFields| ethernet_value(e)) == parsed_ethernet(link_type, data@),
{
    let flow = packet_parser::parse::parse(LinkType(link_type), data).ok()?;
    Some(flow.flatten().iter().map(|l| l.to_owned_flow().data_link.as_ethernet().map(|e| (
        e.source_mac.0.to_vec(), e.destination_mac.0.to_vec(), e.ethertype.0, e.vlan.as_ref().map(|v| v.id),
    ))).collect())
}

/// The 802.11 fields of each decoded level (`as_ieee80211()`: MACs and
/// SNAP protocol), none when the frame does not decode. Claimed: a
/// function of the link type and the bytes.
#[verifier::external_body]
fn parsed_wifi_links(link_type: u32, data: &[u8]) -> (r: Option<Vec<Option<WifiFields>>>)
    ensures
        levels_of(r, |w: WifiFields| wifi_value(w)) == parsed_wifi(link_type, data@),
{
    let flow = packet_parser::parse::parse(LinkType(link_type), data).ok()?;
    Some(flow.flatten().iter().map(|l| l.to_owned_flow().data_link.as_ieee80211().map(|w| (
        w.source_mac.0.to_vec(), w.destination_mac.0.to_vec(), w.snap_protocol.0,
    ))).collect())
}

/// The Linux SLL fields of each decoded level (`as_linux_sll()`: source
/// address, protocol, packet type, hardware type, declared length), none
/// when the frame does not decode. Claimed: a function of the link type
/// and the bytes.
#[verifier::external_body]
fn parsed_sll_links(link_type: u32, data: &[u8]) -> (r: Option<Vec<Option<CookedFields>>>)
    ensures
        levels_of(r, |c: CookedFields| cooked_value(c)) == parsed_sll(link_type, data@),
{
    let flow = packet_parser::parse::parse(LinkType(link_type), data).ok()?;
    Some(flow.flatten().iter().map(|l| l.to_owned_flow().data_link.as_linux_sll().map(|s| (
        s.source_address.clone(), s.protocol, CookedObservation {
            packet_type: s.packet_type.0, hardware_type: s.hardware_type.0,
            address_length: s.address_length, interface_index: 0, reserved: 0,
        },
    ))).collect())
}

/// The Linux SLL2 fields of each decoded level (`as_linux_sll2()`:
/// source address, protocol, packet type, hardware type, declared length,
/// interface index, reserved field), none when the frame does not decode.
/// Claimed: a function of the link type and the bytes.
#[verifier::external_body]
fn parsed_sll2_links(link_type: u32, data: &[u8]) -> (r: Option<Vec<Option<CookedFields>>>)
    ensures
        levels_of(r, |c: CookedFields| cooked_value(c)) == parsed_sll2(link_type, data@),
{
    let flow = packet_parser::parse::parse(LinkType(link_type), data).ok()?;
    Some(flow.flatten().iter().map(|l| l.to_owned_flow().data_link.as_linux_sll2().map(|s| (
        s.source_address.clone(), s.protocol, CookedObservation {
            packet_type: s.packet_type.0, hardware_type: s.hardware_type.0,
            address_length: u16::from(s.address_length), interface_index: s.interface_index,
            reserved: s.reserved_mbz,
        },
    ))).collect())
}

/// The network protocol of the link of each decoded level
/// (`network_protocol().to_string()`), none when the frame does not
/// decode. Claimed: a function of the link type and the bytes.
#[verifier::external_body]
fn parsed_network_protocol_names(link_type: u32, data: &[u8]) -> (r: Option<Vec<String>>)
    ensures
        (match r {
            Some(v) => Some(v@.map_values(|s: String| s@)),
            None => None,
        }) == parsed_network_protocols(link_type, data@),
{
    let flow = packet_parser::parse::parse(LinkType(link_type), data).ok()?;
    Some(flow.flatten().iter().map(|l| l.to_owned_flow().data_link.network_protocol().to_string()).collect())
}

/// The network layer of each decoded level: addresses and their classes
/// displayed, protocol (`to_owned_flow().internet`), none when the frame
/// does not decode. Claimed: a function of the link type and the bytes.
#[verifier::external_body]
fn parsed_internet_layers(link_type: u32, data: &[u8]) -> (r: Option<Vec<Option<InternetKey>>>)
    ensures
        levels_of(r, |k: InternetKey| k@) == parsed_internet(link_type, data@),
{
    let flow = packet_parser::parse::parse(LinkType(link_type), data).ok()?;
    Some(flow.flatten().iter().map(|l| l.to_owned_flow().internet.map(|i| InternetKey {
        source_ip: i.source_ip.map(|ip| ip.to_string()), ip_source_type: i.ip_source_type.map(|t| t.to_string()),
        destination_ip: i.destination_ip.map(|ip| ip.to_string()),
        ip_destination_type: i.ip_destination_type.map(|t| t.to_string()), protocol: i.protocol,
    })).collect())
}

/// The transport layer of each decoded level: ports and protocol
/// (`to_owned_flow().transport`), none when the frame does not decode.
/// Claimed: a function of the link type and the bytes.
#[verifier::external_body]
fn parsed_transport_layers(link_type: u32, data: &[u8]) -> (r: Option<Vec<Option<TransportKey>>>)
    ensures
        levels_of(r, |k: TransportKey| k@) == parsed_transport(link_type, data@),
{
    let flow = packet_parser::parse::parse(LinkType(link_type), data).ok()?;
    Some(flow.flatten().iter().map(|l| l.to_owned_flow().transport.map(|t| TransportKey {
        source_port: t.source_port, destination_port: t.destination_port, protocol: t.protocol,
    })).collect())
}

/// The application protocol of each decoded level
/// (`to_owned_flow().application`), none when the frame does not decode.
/// Claimed: a function of the link type and the bytes.
#[verifier::external_body]
fn parsed_application_protocols(link_type: u32, data: &[u8]) -> (r: Option<Vec<Option<String>>>)
    ensures
        levels_of(r, |s: String| s@) == parsed_application(link_type, data@),
{
    let flow = packet_parser::parse::parse(LinkType(link_type), data).ok()?;
    Some(flow.flatten().iter().map(|l| l.to_owned_flow().application.map(|a| a.protocol)).collect())
}

// ---------------------------------------------------------------------------
// The flow identity of a level
// ---------------------------------------------------------------------------

/// The `i`-th entry of per-level optional fields (none past the end).
pub open spec fn nth_level<B>(o: Option<Seq<Option<B>>>, i: int) -> Option<B> {
    match o {
        Some(s) => if 0 <= i < s.len() {
            s[i]
        } else {
            None
        },
        None => None,
    }
}

/// The `i`-th text of per-level texts (empty past the end).
pub open spec fn nth_text(o: Option<Seq<Seq<char>>>, i: int) -> Seq<char> {
    match o {
        Some(s) => if 0 <= i < s.len() {
            s[i]
        } else {
            Seq::empty()
        },
        None => Seq::empty(),
    }
}

/// The textual view of a cooked link.
pub open spec fn cooked_link_view(address: Option<Seq<u8>>, protocol: u16) -> LinkViewSpec {
    LinkViewSpec {
        source_mac: match address {
            Some(a) => hw_text(a),
            None => Seq::empty(),
        },
        destination_mac: Seq::empty(),
        protocol: network_protocol_name(protocol),
        vlan_id: None,
    }
}

/// The textual view of the link of level `i` of a frame: Ethernet,
/// 802.11 or Linux cooked fields as decoded, any other link reduced to
/// its network protocol.
pub open spec fn level_link_view(link_type: u32, data: Seq<u8>, i: int) -> LinkViewSpec {
    match nth_level(parsed_ethernet(link_type, data), i) {
        Some(e) => LinkViewSpec {
            source_mac: hw_text(e.0),
            destination_mac: hw_text(e.1),
            protocol: ethertype_name(e.2),
            vlan_id: e.3,
        },
        None => match nth_level(parsed_wifi(link_type, data), i) {
            Some(w) => LinkViewSpec {
                source_mac: hw_text(w.0),
                destination_mac: hw_text(w.1),
                protocol: ethertype_name(w.2),
                vlan_id: None,
            },
            None => match nth_level(parsed_sll(link_type, data), i) {
                Some(c) => cooked_link_view(c.0, c.1),
                None => match nth_level(parsed_sll2(link_type, data), i) {
                    Some(c) => cooked_link_view(c.0, c.1),
                    None => LinkViewSpec {
                        source_mac: Seq::empty(),
                        destination_mac: Seq::empty(),
                        protocol: nth_text(parsed_network_protocols(link_type, data), i),
                        vlan_id: None,
                    },
                },
            },
        },
    }
}

/// The flow identity of level `i` of a frame, as the matrix keys it.
pub open spec fn level_key(link_type: u32, data: Seq<u8>, i: int) -> FlowKeySpec {
    FlowKeySpec {
        link: level_link_view(link_type, data, i),
        internet: nth_level(parsed_internet(link_type, data), i),
        transport: nth_level(parsed_transport(link_type, data), i),
        application: nth_level(parsed_application(link_type, data), i),
    }
}

fn copy_bytes(v: &Vec<u8>) -> (r: Vec<u8>)
    ensures
        r@ == v@,
{
    let mut r: Vec<u8> = Vec::new();
    let mut i: usize = 0;
    while i < v.len()
        invariant
            i <= v@.len(),
            r@ == v@.take(i as int),
        decreases v@.len() - i,
    {
        r.push(v[i]);
        i = i + 1;
        assert(r@ =~= v@.take(i as int));
    }
    assert(v@.take(i as int) =~= v@);
    r
}

fn copy_cooked(c: &CookedFields) -> (r: LinkLayer)
    ensures
        link_view_of(r) == cooked_link_view(cooked_value(*c).0, c.1),
        r is LinuxSll,
{
    let address = match &c.0 {
        Some(a) => Some(copy_bytes(a)),
        None => None,
    };
    LinkLayer::LinuxSll { source_address: address, protocol: c.1, observation: c.2 }
}

/// The link layer of level `i`, whose view is [`level_link_view`].
fn level_link(
    eth: &Option<Vec<Option<EthernetFields>>>,
    wifi: &Option<Vec<Option<WifiFields>>>,
    sll: &Option<Vec<Option<CookedFields>>>,
    sll2: &Option<Vec<Option<CookedFields>>>,
    protos: &Option<Vec<String>>,
    i: usize,
) -> (r: LinkLayer)
    ensures
        link_view_of(r) == ({
            match nth_level(levels_of(*eth, |e: EthernetFields| ethernet_value(e)), i as int) {
                Some(e) => LinkViewSpec {
                    source_mac: hw_text(e.0),
                    destination_mac: hw_text(e.1),
                    protocol: ethertype_name(e.2),
                    vlan_id: e.3,
                },
                None => match nth_level(levels_of(*wifi, |w: WifiFields| wifi_value(w)), i as int) {
                    Some(w) => LinkViewSpec {
                        source_mac: hw_text(w.0),
                        destination_mac: hw_text(w.1),
                        protocol: ethertype_name(w.2),
                        vlan_id: None,
                    },
                    None => match nth_level(levels_of(*sll, |c: CookedFields| cooked_value(c)), i as int) {
                        Some(c) => cooked_link_view(c.0, c.1),
                        None => match nth_level(levels_of(*sll2, |c: CookedFields| cooked_value(c)), i as int) {
                            Some(c) => cooked_link_view(c.0, c.1),
                            None => LinkViewSpec {
                                source_mac: Seq::empty(),
                                destination_mac: Seq::empty(),
                                protocol: nth_text(
                                    match *protos {
                                        Some(v) => Some(v@.map_values(|s: String| s@)),
                                        None => None,
                                    },
                                    i as int,
                                ),
                                vlan_id: None,
                            },
                        },
                    },
                },
            }
        }),
{
    if let Some(v) = eth {
        if i < v.len() {
            if let Some(e) = &v[i] {
                return LinkLayer::Ethernet {
                    source_mac: copy_bytes(&e.0),
                    destination_mac: copy_bytes(&e.1),
                    ethertype: e.2,
                    vlan_id: e.3,
                };
            }
        }
    }
    if let Some(v) = wifi {
        if i < v.len() {
            if let Some(w) = &v[i] {
                return LinkLayer::Ieee80211 {
                    source_mac: copy_bytes(&w.0),
                    destination_mac: copy_bytes(&w.1),
                    snap_protocol: w.2,
                };
            }
        }
    }
    if let Some(v) = sll {
        if i < v.len() {
            if let Some(c) = &v[i] {
                return copy_cooked(c);
            }
        }
    }
    if let Some(v) = sll2 {
        if i < v.len() {
            if let Some(c) = &v[i] {
                let link = copy_cooked(c);
                return match link {
                    LinkLayer::LinuxSll { source_address, protocol, observation } => LinkLayer::LinuxSll2 {
                        source_address,
                        protocol,
                        observation,
                    },
                    other => other,
                };
            }
        }
    }
    let name = match protos {
        Some(v) => if i < v.len() {
            v[i].clone()
        } else {
            String::new()
        },
        None => String::new(),
    };
    LinkLayer::Other { network_protocol: name }
}

fn nth_internet(o: &Option<Vec<Option<InternetKey>>>, i: usize) -> (r: Option<InternetKey>)
    ensures
        (match r {
            Some(k) => Some(k@),
            None => None,
        }) == nth_level(levels_of(*o, |k: InternetKey| k@), i as int),
{
    match o {
        Some(v) => if i < v.len() {
            match &v[i] {
                Some(k) => Some(k.duplicate()),
                None => None,
            }
        } else {
            None
        },
        None => None,
    }
}

fn nth_transport(o: &Option<Vec<Option<TransportKey>>>, i: usize) -> (r: Option<TransportKey>)
    ensures
        (match r {
            Some(k) => Some(k@),
            None => None,
        }) == nth_level(levels_of(*o, |k: TransportKey| k@), i as int),
{
    match o {
        Some(v) => if i < v.len() {
            match &v[i] {
                Some(k) => Some(k.duplicate()),
                None => None,
            }
        } else {
            None
        },
        None => None,
    }
}

fn nth_application(o: &Option<Vec<Option<String>>>, i: usize) -> (r: Option<String>)
    ensures
        (match r {
            Some(k) => Some(k@),
            None => None,
        }) == nth_level(levels_of(*o, |s: String| s@), i as int),
{
    match o {
        Some(v) => if i < v.len() {
            match &v[i] {
                Some(s) => Some(s.clone()),
                None => None,
            }
        } else {
            None
        },
        None => None,
    }
}

/// What the parser reads of a frame, level by level.
struct DecodedFrame {
    eth: Option<Vec<Option<EthernetFields>>>,
    wifi: Option<Vec<Option<WifiFields>>>,
    sll: Option<Vec<Option<CookedFields>>>,
    sll2: Option<Vec<Option<CookedFields>>>,
    protos: Option<Vec<String>>,
    internet: Option<Vec<Option<InternetKey>>>,
    transport: Option<Vec<Option<TransportKey>>>,
    application: Option<Vec<Option<String>>>,
}

impl DecodedFrame {
    /// The frame's fields agree with what the parser reads of `data`.
    spec fn reads(&self, link_type: u32, data: Seq<u8>) -> bool {
        &&& levels_of(self.eth, |e: EthernetFields| ethernet_value(e)) == parsed_ethernet(link_type, data)
        &&& levels_of(self.wifi, |w: WifiFields| wifi_value(w)) == parsed_wifi(link_type, data)
        &&& levels_of(self.sll, |c: CookedFields| cooked_value(c)) == parsed_sll(link_type, data)
        &&& levels_of(self.sll2, |c: CookedFields| cooked_value(c)) == parsed_sll2(link_type, data)
        &&& (match self.protos {
            Some(v) => Some(v@.map_values(|s: String| s@)),
            None => None,
        }) == parsed_network_protocols(link_type, data)
        &&& levels_of(self.internet, |k: InternetKey| k@) == parsed_internet(link_type, data)
        &&& levels_of(self.transport, |k: TransportKey| k@) == parsed_transport(link_type, data)
        &&& levels_of(self.application, |s: String| s@) == parsed_application(link_type, data)
    }

    fn read(link_type: u32, data: &[u8]) -> (r: DecodedFrame)
        ensures
            r.reads(link_type, data@),
    {
        DecodedFrame {
            eth: parsed_ethernet_links(link_type, data),
            wifi: parsed_wifi_links(link_type, data),
            sll: parsed_sll_links(link_type, data),
            sll2: parsed_sll2_links(link_type, data),
            protos: parsed_network_protocol_names(link_type, data),
            internet: parsed_internet_layers(link_type, data),
            transport: parsed_transport_layers(link_type, data),
            application: parsed_application_protocols(link_type, data),
        }
    }

    /// The flow identity of level `i` (see [`level_key`]).
    fn level_flow(&self, i: usize, link_type: u32, data: Ghost<Seq<u8>>) -> (r: FlowKey)
        requires
            self.reads(link_type, data@),
        ensures
            r@ == level_key(link_type, data@, i as int),
    {
        let link = level_link(&self.eth, &self.wifi, &self.sll, &self.sll2, &self.protos, i);
        proof {
            lemma_identity_keeps_view(link);
        }
        FlowKey {
            link: LinkView::of(&into_matrix_flow_identity(link)),
            internet: nth_internet(&self.internet, i),
            transport: nth_transport(&self.transport, i),
            application: nth_application(&self.application, i),
        }
    }
}

// ---------------------------------------------------------------------------
// Counting a frame
// ---------------------------------------------------------------------------

/// Category of a frame of the capture from its header and its parse: as
/// [`classify_outcome`] decides.
pub open spec fn frame_disposition(link_type: u32, data: Seq<u8>, caplen: u32, len: u32) -> PacketDisposition {
    match parsed_payloads(link_type, data) {
        Ok(_) => PacketDisposition::Decoded,
        Err(unsupported) => if unsupported {
            PacketDisposition::RejectedUnsupportedLinkType
        } else if caplen < len {
            PacketDisposition::RejectedTruncated
        } else {
            PacketDisposition::RejectedMalformed
        },
    }
}

/// The matrix rows of a decoded frame: one per level, outermost first, the
/// whole frame counted at the outer level and each level's network payload
/// at the inner ones, all in the tunnel of the outermost flow when there
/// are several levels.
pub open spec fn frame_rows(link_type: u32, data: Seq<u8>, ts_sec: i64, ts_usec: i64, caplen: u32, len: u32) -> Seq<
    OwnedRowSpec,
> {
    match parsed_payloads(link_type, data) {
        Ok(lens) => {
            let encap = if lens.len() > 1 {
                Some(tunnel_id(level_key(link_type, data, 0)))
            } else {
                None
            };
            Seq::new(
                lens.len(),
                |i: int|
                    (
                        ts_sec,
                        ts_usec,
                        caplen,
                        if i == 0 {
                            len
                        } else {
                            lens[i] as u32
                        },
                        level_key(link_type, data, i),
                        encap,
                    ),
            )
        },
        Err(_) => Seq::empty(),
    }
}

/// What one row adds: one packet, its bytes, its time.
pub open spec fn row_stats(r: OwnedRowSpec) -> FlowStats {
    FlowStats { count: 1, total_bytes: r.3 as u64, last_seen: timeval_instant(r.0, r.1) }
}

/// The flows once the rows are counted in order; `None` when a packet
/// count would exceed `u64`.
pub open spec fn rows_counted(f: Map<FlowKeySpec, Seq<TunnelEntry>>, rows: Seq<OwnedRowSpec>) -> Option<
    Map<FlowKeySpec, Seq<TunnelEntry>>,
>
    decreases rows.len(),
{
    if rows.len() == 0 {
        Some(f)
    } else {
        match rows_counted(f, rows.drop_last()) {
            None => None,
            Some(g) => {
                let r = rows.last();
                if merge_fits(entries_in(g, r.4), r.5, row_stats(r)) {
                    Some(g.insert(r.4, merge_entry(entries_in(g, r.4), r.5, row_stats(r))))
                } else {
                    None
                }
            },
        }
    }
}

/// The link types a survey can hold: those whose matrix rows rebuild their
/// flows (Ethernet, raw IP, Linux cooked v1 and v2).
pub open spec fn survey_link_type(link_type: u32) -> bool {
    link_type == LINKTYPE_ETHERNET || link_type == LINKTYPE_RAW || link_type == LINKTYPE_LINUX_SLL || link_type
        == LINKTYPE_LINUX_SLL2
}

/// The text naming a link type in an error: `DLT` and its number.
pub open spec fn link_type_label(link_type: u32) -> Seq<char> {
    "DLT "@ + dec_digits(link_type as nat)
}

/// Refuses a capture file (`path`) of a link type a survey cannot hold,
/// before any of its packets is read: its packets are never decoded as if
/// they were of another link type.
pub fn check_capture_link_type(path: &str, link_type: u32) -> (r: Result<(), SonarCoreError>)
    ensures
        survey_link_type(link_type) ==> r is Ok,
        !survey_link_type(link_type) ==> (r matches Err(SonarCoreError::UnsupportedLinkType { path: p, label })
            && p@ == path@ && label@ == link_type_label(link_type)),
{
    if link_type == LINKTYPE_ETHERNET || link_type == LINKTYPE_RAW || link_type == LINKTYPE_LINUX_SLL || link_type
        == LINKTYPE_LINUX_SLL2 {
        Ok(())
    } else {
        let label = concat2("DLT ", decimal_text(link_type as u64).as_str());
        Err(SonarCoreError::UnsupportedLinkType { path: path.to_owned(), label })
    }
}

/// Whether one more packet can be counted in the report.
fn report_has_room(report: &PcapFileReport) -> (r: bool)
    ensures
        r == (report.total() < usize::MAX),
{
    match report.decoded.checked_add(report.rejected_truncated) {
        None => false,
        Some(a) => match a.checked_add(report.rejected_unsupported_link_type) {
            None => false,
            Some(b) => match b.checked_add(report.rejected_malformed) {
                None => false,
                Some(c) => c < usize::MAX,
            },
        },
    }
}

/// Counts one frame of a capture file of link type `link_type` (from
/// `path`): the frame is decoded, classified in the report (while the report
/// can count it), and each of its levels is counted in the matrix. A frame
/// that does not decode, or has no level, leaves the matrix as it was; a
/// time that does not convert is an error; so is a packet count that would
/// exceed `u64`, with the rows before it counted.
pub fn absorb_packet(
    matrix: &mut FlowMatrix,
    report: &mut PcapFileReport,
    path: &str,
    link_type: u32,
    ts_sec: i64,
    ts_usec: i64,
    caplen: u32,
    len: u32,
    data: &[u8],
) -> (r: Result<(), SonarCoreError>)
    requires
        old(matrix).wf(),
    ensures
        final(matrix).wf(),
        final(matrix).labels() == old(matrix).labels(),
        final(matrix).origins@ == old(matrix).origins@,
        final(matrix).link_type == old(matrix).link_type,
        ({
            let d = frame_disposition(link_type, data@, caplen, len);
            if old(report).total() < usize::MAX {
                &&& final(report).count_of(d) == old(report).count_of(d) + 1
                &&& forall|e: PacketDisposition| e != d ==> #[trigger] final(report).count_of(e) == old(report).count_of(e)
            } else {
                *final(report) == *old(report)
            }
        }),
        match parsed_payloads(link_type, data@) {
            Err(_) => r is Ok && final(matrix).flows() == old(matrix).flows(),
            Ok(lens) => if lens.len() == 0 {
                r is Ok && final(matrix).flows() == old(matrix).flows()
            } else if !timeval_fits(ts_sec, ts_usec) {
                &&& (r matches Err(SonarCoreError::PcapRead { path: p, message: m }) && p@ == path@ && m@
                    == "horodatage hors plage"@)
                &&& final(matrix).flows() == old(matrix).flows()
            } else {
                match rows_counted(old(matrix).flows(), frame_rows(link_type, data@, ts_sec, ts_usec, caplen, len)) {
                    Some(f) => r is Ok && final(matrix).flows() == f,
                    None => r matches Err(SonarCoreError::Io(m)) && m@ == count_overflow_message(),
                }
            },
        },
{
    let outcome = parse_levels(link_type, data);
    let (parsed, unsupported) = match &outcome {
        Ok(_) => (true, false),
        Err(u) => (false, *u),
    };
    let disposition = classify_outcome(caplen, len, parsed, unsupported);
    if report_has_room(report) {
        report.record(disposition);
    }
    let lens = match outcome {
        Ok(l) => l,
        Err(_) => {
            return Ok(());
        },
    };
    if lens.len() == 0 {
        return Ok(());
    }
    if !timeval_converts(ts_sec, ts_usec) {
        return Err(
            SonarCoreError::PcapRead { path: path.to_owned(), message: "horodatage hors plage".to_owned() },
        );
    }
    let frame = DecodedFrame::read(link_type, data);
    let ghost bytes = data@;
    let mut levels: Vec<FlowLevel> = Vec::new();
    let mut i: usize = 0;
    while i < lens.len()
        invariant
            i <= lens@.len(),
            frame.reads(link_type, bytes),
            levels@.len() == i,
            forall|j: int| 0 <= j < i ==> (#[trigger] levels@[j]).flow@ == level_key(link_type, bytes, j)
                && levels@[j].network_payload_len == lens@[j],
        decreases lens@.len() - i,
    {
        let flow = frame.level_flow(i, link_type, Ghost(bytes));
        levels.push(FlowLevel { flow, network_payload_len: lens[i] });
        i = i + 1;
    }
    let packet = CapturedPacket { ts_sec, ts_usec, caplen, len, levels };
    let rows = packet.to_owned_packets();
    let ghost all = frame_rows(link_type, data@, ts_sec, ts_usec, caplen, len);
    assert(rows@.map_values(|p: CapturedPacketOwned| owned_view(p)) =~= all) by {
        assert forall|j: int| 0 <= j < rows@.len() implies owned_view(#[trigger] rows@[j]) == all[j] by {
            assert(owned_view(rows@[j]) == packet.level_row(j));
        }
    }
    assert forall|j: int| 0 <= j < rows@.len() implies timeval_fits(#[trigger] rows@[j].ts_sec, rows@[j].ts_usec) by {
        assert(owned_view(rows@[j]) == packet.level_row(j));
    }
    count_rows(matrix, &rows)
}

/// Counts the rows in the matrix, in order; stops at the first row whose
/// packet count would exceed `u64`, with the rows before it counted.
fn count_rows(matrix: &mut FlowMatrix, rows: &Vec<CapturedPacketOwned>) -> (r: Result<(), SonarCoreError>)
    requires
        old(matrix).wf(),
        forall|j: int| 0 <= j < rows@.len() ==> timeval_fits(#[trigger] rows@[j].ts_sec, rows@[j].ts_usec),
    ensures
        final(matrix).wf(),
        final(matrix).labels() == old(matrix).labels(),
        final(matrix).origins@ == old(matrix).origins@,
        final(matrix).link_type == old(matrix).link_type,
        match rows_counted(old(matrix).flows(), rows@.map_values(|p: CapturedPacketOwned| owned_view(p))) {
            Some(f) => r is Ok && final(matrix).flows() == f,
            None => r matches Err(SonarCoreError::Io(m)) && m@ == count_overflow_message(),
        },
{
    let ghost all = rows@.map_values(|p: CapturedPacketOwned| owned_view(p));
    let ghost f0 = matrix.flows();
    let mut k: usize = 0;
    while k < rows.len()
        invariant
            k <= rows@.len(),
            matrix.wf(),
            all == rows@.map_values(|p: CapturedPacketOwned| owned_view(p)),
            forall|j: int| 0 <= j < rows@.len() ==> timeval_fits(#[trigger] rows@[j].ts_sec, rows@[j].ts_usec),
            f0 == old(matrix).flows(),
            rows_counted(f0, all.take(k as int)) == Some(matrix.flows()),
            matrix.labels() == old(matrix).labels(),
            matrix.origins@ == old(matrix).origins@,
            matrix.link_type == old(matrix).link_type,
        decreases rows@.len() - k,
    {
        let row = &rows[k];
        proof {
            assert(all[k as int] == owned_view(*row));
            assert(row_stats(all[k as int]) == packet_stats(*row));
            lemma_count_step(f0, all, k as int, matrix.flows());
        }
        let stats = FlowStats { count: 1, total_bytes: row.len as u64, last_seen: crate::matrix::Timestamp::unix_epoch() };
        if !matrix.merge_fits_in(&row.flow, row.encap_id, &stats) {
            proof {
                lemma_rows_counted_stops(f0, all, k as int);
            }
            return Err(SonarCoreError::Io("compteur de paquets hors capacité".to_owned()));
        }
        matrix.update_flow(row);
        k = k + 1;
    }
    assert(all.take(k as int) =~= all);
    Ok(())
}

/// Counting row `k` after the rows before it: what [`rows_counted`] does
/// at that step.
proof fn lemma_count_step(f: Map<FlowKeySpec, Seq<TunnelEntry>>, rows: Seq<OwnedRowSpec>, k: int, g: Map<FlowKeySpec, Seq<TunnelEntry>>)
    requires
        0 <= k < rows.len(),
        rows_counted(f, rows.take(k)) == Some(g),
    ensures
        rows_counted(f, rows.take(k + 1)) == (if merge_fits(entries_in(g, rows[k].4), rows[k].5, row_stats(rows[k])) {
            Some(g.insert(rows[k].4, merge_entry(entries_in(g, rows[k].4), rows[k].5, row_stats(rows[k]))))
        } else {
            None::<Map<FlowKeySpec, Seq<TunnelEntry>>>
        }),
{
    assert(rows.take(k + 1).drop_last() =~= rows.take(k));
    assert(rows.take(k + 1).last() == rows[k]);
}

/// Once a row does not fit, the rows after it change nothing to the
/// outcome: the counting fails.
proof fn lemma_rows_counted_stops(f: Map<FlowKeySpec, Seq<TunnelEntry>>, rows: Seq<OwnedRowSpec>, k: int)
    requires
        0 <= k < rows.len(),
        rows_counted(f, rows.take(k)) is Some,
        !merge_fits(
            entries_in(rows_counted(f, rows.take(k))->0, rows[k].4),
            rows[k].5,
            row_stats(rows[k]),
        ),
    ensures
        rows_counted(f, rows) is None,
    decreases rows.len(),
{
    if k == rows.len() - 1 {
        assert(rows.drop_last() =~= rows.take(k));
    } else {
        assert(rows.drop_last().take(k) =~= rows.take(k));
        lemma_rows_counted_stops(f, rows.drop_last(), k);
    }
}

} // verus!
