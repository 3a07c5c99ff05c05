//! The textual identity of a captured packet that the relation graphs are
//! built from, and the class of an IP address.

use vstd::prelude::*;

verus! {

/// Class of an IP address.
#[derive(Debug, Clone, Copy, PartialEq, Eq, Structural)]
pub enum IpType {
    Private,
    Multicast,
    Loopback,
    Apipa,
    LinkLocal,
    Ula,
    Public,
    Documentation,
    Unknown,
    Broadcast,
}

/// Transport and application fields of a packet.
#[derive(Debug)]
pub struct Layer4Infos {
    pub port_source: Option<String>,
    pub port_destination: Option<String>,
    pub l_7_protocol: Option<String>,
}

/// Network fields of a packet.
#[derive(Debug)]
pub struct Layer3Infos {
    pub ip_source: Option<String>,
    pub ip_source_type: Option<IpType>,
    pub ip_destination: Option<String>,
    pub ip_destination_type: Option<IpType>,
    pub l_4_protocol: Option<String>,
    pub layer_4_infos: Layer4Infos,
}

/// A packet as the graphs read it: its link addresses and protocol, and its
/// network, transport and application fields.
#[derive(Debug)]
pub struct PacketKey {
    pub mac_address_source: String,
    pub mac_address_destination: String,
    pub l_3_protocol: String,
    pub layer_3_infos: Layer3Infos,
}

/// A private or public address: the only ones drawn in the graphs.
pub open spec fn graphable(t: Option<IpType>) -> bool {
    t == Some(IpType::Private) || t == Some(IpType::Public)
}

/// Whether an address class is drawn in the graphs (private or public).
pub fn is_valid_ip(ip_type: &Option<IpType>) -> (r: bool)
    ensures
        r == graphable(*ip_type),
{
    match ip_type {
        Some(IpType::Private) => true,
        Some(IpType::Public) => true,
        _ => false,
    }
}

/// Node colour by address class.
pub open spec fn color_of(t: Option<IpType>) -> Seq<char> {
    if t == Some(IpType::Private) {
        "#D4D3DC"@
    } else if t == Some(IpType::Public) {
        "#317AC1"@
    } else {
        "#FF5733"@
    }
}

/// The colour of a node: light grey for a private address, blue for a
/// public one, red otherwise.
pub fn determine_color(ip_type: &Option<IpType>) -> (r: String)
    ensures
        r@ == color_of(*ip_type),
{
    match ip_type {
        Some(IpType::Private) => "#D4D3DC".to_owned(),
        Some(IpType::Public) => "#317AC1".to_owned(),
        _ => "#FF5733".to_owned(),
    }
}

} // verus!
