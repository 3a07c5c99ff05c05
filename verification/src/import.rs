//! Re-import of exported matrix rows: strict validation of each row for the
//! announced link type, reconstruction of its flow and per-tunnel
//! statistics, and merge of rows into a matrix.

use vstd::prelude::*;

use crate::error::SonarCoreError;
use crate::flow_matrix::{entry_index, lemma_merge_entry_conserves, FlowKey, FlowKeySpec, FlowMatrix, InternetKey, InternetKeySpec, TransportKey, TransportKeySpec, kept_names, merge_entry, merge_fits, opt_text};
use crate::matrix::{encap_counts_fit, list_items_of, parse_origin_list, unescape_formula_cell, unescaped_cell};
use crate::rows::row_views;
use crate::link::{
    LINKTYPE_ETHERNET, LINKTYPE_LINUX_SLL, LINKTYPE_LINUX_SLL2, LINKTYPE_RAW, LinkView,
    cooked_address_from_text, cooked_address_of, cooked_protocol_code, cooked_protocol_from_text,
    ethertype_code_of, ethertype_from_name, mac_from_text, mac_octets, matrix_link_from_text,
    matrix_link_view,
};
use crate::matrix::{Timestamp, TunnelEntry, encap_entries, encap_in_tunnels, entries_count, lemma_encap_entries_totals, parse_encap_list};
use crate::rows::{FlowMatrixRow, FlowMatrixRowSpec};
use crate::text::{chars_of, concat2, concat3, dec_digits, str_eq, string_of_range, trim, trim_bounds, trimmed};

verus! {

// ---------------------------------------------------------------------------
// IP addresses
// ---------------------------------------------------------------------------

/// The IP address the text `s` parses to (`core::net::IpAddr`'s
/// `FromStr`), seen as its canonical text (its `Display`) and as its octets
/// (`Ipv4Addr::octets`, `Ipv6Addr::octets`); `None` when `s` is no IP
/// address.
pub uninterp spec fn parsed_ip(s: Seq<char>) -> Option<(Seq<char>, Seq<u8>)>;

/// The canonical text of the IP address `s` parses to, or `None` when `s`
/// is no IP address.
pub open spec fn parsed_ip_text(s: Seq<char>) -> Option<Seq<char>> {
    match parsed_ip(s) {
        Some(a) => Some(a.0),
        None => None,
    }
}

/// Parses an IP address (`str::parse::<IpAddr>`) and displays it back;
/// claims only that the outcome is a function of the text, shared with the
/// octets of the same parse.
#[verifier::external_body]
pub(crate) fn parse_ip_addr(s: &str) -> (r: Option<String>)
    ensures
        opt_text(r) == (match parsed_ip(s@) {
            Some(a) => Some(a.0),
            None => None,
        }),
{
    match s.parse::<core::net::IpAddr>() {
        Ok(ip) => Some(ip.to_string()),
        Err(_) => None,
    }
}

/// The address a text reads as: none for an empty text (which names no
/// address), else the canonical text of the parsed address.
pub open spec fn ip_of_text(s: Seq<char>) -> Option<Seq<char>> {
    if s.len() == 0 {
        None
    } else {
        parsed_ip_text(s)
    }
}

fn ip_of(s: &str) -> (r: Option<String>)
    ensures
        opt_text(r) == ip_of_text(s@),
{
    if s.is_empty() {
        None
    } else {
        parse_ip_addr(s)
    }
}

/// The class `packet_parser` gives to the address `s` (private, public,
/// multicast, ...), displayed.
pub uninterp spec fn ip_type_text(s: Seq<char>) -> Seq<char>;

/// `IpType::from_ip(s).to_string()` of `packet_parser`; claims only that the
/// text is a function of the address text.
#[verifier::external_body]
fn ip_type_of(s: &str) -> (r: String)
    ensures
        r@ == ip_type_text(s@),
{
    packet_parser::IpType::from_ip(s).to_string()
}

// ---------------------------------------------------------------------------
// The `last_seen` column
// ---------------------------------------------------------------------------

/// `chrono::NaiveDateTime::parse_from_str(text, format)` read as a UTC
/// instant: seconds since the epoch and nanoseconds within the second.
pub uninterp spec fn naive_utc_instant(text: Seq<char>, format: Seq<char>) -> Option<(i64, u32)>;

/// Parses `text` with `format` (`NaiveDateTime::parse_from_str`, then
/// `and_utc`); claims only that the outcome is a function of both texts.
#[verifier::external_body]
fn parse_naive_utc(text: &str, format: &str) -> (r: Option<(i64, u32)>)
    ensures
        r == naive_utc_instant(text@, format@),
{
    match chrono::NaiveDateTime::parse_from_str(text, format) {
        Ok(dt) => Some((dt.and_utc().timestamp(), dt.and_utc().timestamp_subsec_nanos())),
        Err(_) => None,
    }
}

/// `s` without its trailing ` UTC` suffixes (`trim_end_matches(" UTC")`).
pub open spec fn strip_utc(s: Seq<char>) -> Seq<char>
    decreases s.len(),
{
    if s.len() >= 4 && s.subrange(s.len() - 4, s.len() as int) == " UTC"@ {
        strip_utc(s.take(s.len() - 4))
    } else {
        s
    }
}

/// The instant of a parsed date, refused before 1970.
pub open spec fn instant_of(p: (i64, u32), value: Seq<char>) -> Result<Timestamp, Seq<char>> {
    if p.0 < 0 {
        Err("date antérieure à 1970 : « "@ + value + " »"@)
    } else {
        Ok(Timestamp { secs: (p.0 + p.1 / 1_000_000_000) as u64, nanos: (p.1 % 1_000_000_000) as u32 })
    }
}

/// The `last_seen` column read: the current format (microseconds and an
/// explicit zone) or the former one (seconds, implicit UTC).
pub open spec fn last_seen_of(value: Seq<char>) -> Result<Timestamp, Seq<char>> {
    let n = strip_utc(trim(value));
    match naive_utc_instant(n, "%Y-%m-%d %H:%M:%S%.f"@) {
        Some(p) => instant_of(p, value),
        None => match naive_utc_instant(n, "%Y-%m-%d %H:%M:%S"@) {
            Some(p) => instant_of(p, value),
            None => Err("date invalide « "@ + value + " » (attendu : AAAA-MM-JJ HH:MM:SS[.µs] [UTC])"@),
        },
    }
}

fn instant_from(p: (i64, u32), value: &str) -> (r: Result<Timestamp, String>)
    ensures
        match instant_of(p, value@) {
            Ok(t) => r == Ok::<Timestamp, String>(t),
            Err(m) => r matches Err(e) && e@ == m,
        },
{
    if p.0 < 0 {
        Err(concat3("date antérieure à 1970 : « ", value, " »"))
    } else {
        Ok(Timestamp { secs: p.0 as u64 + (p.1 / 1_000_000_000) as u64, nanos: p.1 % 1_000_000_000 })
    }
}

/// Parses the `last_seen` column of an exported matrix. Accepts the current
/// format (microseconds and explicit zone) and the former one (seconds,
/// implicit UTC), so that matrices already exported stay readable.
pub fn parse_last_seen(value: &str) -> (r: Result<Timestamp, String>)
    ensures
        match last_seen_of(value@) {
            Ok(t) => r == Ok::<Timestamp, String>(t),
            Err(m) => r matches Err(e) && e@ == m,
        },
{
    let v = chars_of(value);
    let (a, b) = trim_bounds(&v, 0, v.len());
    assert(v@.subrange(0, v@.len() as int) =~= value@);
    let suffix = chars_of(" UTC");
    proof {
        reveal_strlit(" UTC");
    }
    let mut e = b;
    while e - a >= 4 && v[e - 4] == suffix[0] && v[e - 3] == suffix[1] && v[e - 2] == suffix[2]
        && v[e - 1] == suffix[3]
        invariant
            a <= e <= b,
            b <= v@.len(),
            suffix@ == " UTC"@,
            suffix@.len() == 4,
            strip_utc(v@.subrange(a as int, b as int)) == strip_utc(v@.subrange(a as int, e as int)),
        decreases e,
    {
        let ghost s = v@.subrange(a as int, e as int);
        assert(s.subrange(s.len() - 4, s.len() as int) =~= suffix@);
        assert(s.take(s.len() - 4) =~= v@.subrange(a as int, e - 4));
        e = e - 4;
    }
    let ghost s = v@.subrange(a as int, e as int);
    assert(strip_utc(s) == s) by {
        if s.len() >= 4 && s.subrange(s.len() - 4, s.len() as int) == " UTC"@ {
            assert(s.subrange(s.len() - 4, s.len() as int)[0] == v@[e - 4]);
            assert(s.subrange(s.len() - 4, s.len() as int)[1] == v@[e - 3]);
            assert(s.subrange(s.len() - 4, s.len() as int)[2] == v@[e - 2]);
            assert(s.subrange(s.len() - 4, s.len() as int)[3] == v@[e - 1]);
        }
    }
    let normalized = string_of_range(&v, a, e);
    match parse_naive_utc(normalized.as_str(), "%Y-%m-%d %H:%M:%S%.f") {
        Some(p) => instant_from(p, value),
        None => match parse_naive_utc(normalized.as_str(), "%Y-%m-%d %H:%M:%S") {
            Some(p) => instant_from(p, value),
            None => Err(
                concat3("date invalide « ", value, " » (attendu : AAAA-MM-JJ HH:MM:SS[.µs] [UTC])"),
            ),
        },
    }
}


// ---------------------------------------------------------------------------
// Validation of an imported row
// ---------------------------------------------------------------------------

/// `field invalide : « value »`.
pub open spec fn invalid_field(field: Seq<char>, value: Seq<char>) -> Seq<char> {
    field + " invalide : « "@ + value + " »"@
}

/// What is wrong with the link fields of a row for link type `lt`, if
/// anything: Ethernet demands 6-octet MACs and a known protocol, raw IP no
/// link address, no VLAN and IPv4/IPv6, a cooked capture a source address
/// of 1 to 8 octets, no destination, no VLAN and a readable protocol.
pub open spec fn link_problem(r: FlowMatrixRowSpec, lt: u32) -> Option<Seq<char>> {
    if lt == LINKTYPE_ETHERNET {
        if r.mac_source.len() > 0 && mac_octets(r.mac_source) is None {
            Some(invalid_field("mac_source"@, r.mac_source))
        } else if r.mac_destination.len() > 0 && mac_octets(r.mac_destination) is None {
            Some(invalid_field("mac_destination"@, r.mac_destination))
        } else if r.protocol_data_link.len() > 0 && ethertype_code_of(r.protocol_data_link) is None {
            Some("protocol_data_link inconnu : « "@ + r.protocol_data_link + " » (attendu : nom connu ou « Unknown (0x…) »)"@)
        } else {
            None
        }
    } else if lt == LINKTYPE_RAW {
        if r.mac_source.len() > 0 || r.mac_destination.len() > 0 {
            Some("un relevé RAW ne peut pas porter d'adresse de liaison"@)
        } else if r.vlan_id is Some {
            Some("un relevé RAW ne peut pas porter de VLAN"@)
        } else if r.protocol_data_link != "IPv4"@ && r.protocol_data_link != "IPv6"@ {
            Some("protocol_data_link RAW invalide : « "@ + r.protocol_data_link + " » (attendu : IPv4 ou IPv6)"@)
        } else {
            None
        }
    } else if lt == LINKTYPE_LINUX_SLL || lt == LINKTYPE_LINUX_SLL2 {
        if cooked_address_of(r.mac_source) is Err {
            Some(cooked_address_of(r.mac_source)->Err_0)
        } else if r.mac_destination.len() > 0 {
            Some("un relevé SLL/SLL2 ne peut pas porter d'adresse destination"@)
        } else if r.vlan_id is Some {
            Some("un relevé SLL/SLL2 ne peut pas porter de VLAN"@)
        } else if cooked_protocol_code(r.protocol_data_link) is None {
            Some("protocol_data_link cooked invalide : « "@ + r.protocol_data_link + " » (attendu : nom connu ou 0xNNNN)"@)
        } else {
            None
        }
    } else {
        Some("type de liaison non reconstructible : "@ + dec_digits(lt as nat))
    }
}

/// What is wrong with a row for link type `lt`, if anything: an IP that is
/// present but unreadable, a `last_seen` that is present (not empty nor
/// `N/A`) but unreadable, then the link fields.
pub open spec fn row_problem(r: FlowMatrixRowSpec, lt: u32) -> Option<Seq<char>> {
    let ls = trim(r.last_seen);
    if r.ip_source.len() > 0 && parsed_ip_text(r.ip_source) is None {
        Some(invalid_field("ip_source"@, r.ip_source))
    } else if r.ip_destination.len() > 0 && parsed_ip_text(r.ip_destination) is None {
        Some(invalid_field("ip_destination"@, r.ip_destination))
    } else if ls.len() > 0 && ls != "N/A"@ && last_seen_of(ls) is Err {
        Some("last_seen : "@ + last_seen_of(ls)->Err_0)
    } else {
        link_problem(r, lt)
    }
}

fn invalid_field_message(field: &str, value: &str) -> (r: String)
    ensures
        r@ == invalid_field(field@, value@),
{
    let head = concat2(field, " invalide : « ");
    concat3(head.as_str(), value, " »")
}

impl FlowMatrixRow {
    fn link_check(&self, link_type: u32) -> (r: Result<(), String>)
        ensures
            match link_problem(self@, link_type) {
                None => r is Ok,
                Some(m) => r matches Err(e) && e@ == m,
            },
    {
        if link_type == LINKTYPE_ETHERNET {
            if !self.mac_source.as_str().is_empty() && mac_from_text(self.mac_source.as_str()).is_none() {
                return Err(invalid_field_message("mac_source", self.mac_source.as_str()));
            }
            if !self.mac_destination.as_str().is_empty() && mac_from_text(self.mac_destination.as_str()).is_none() {
                return Err(invalid_field_message("mac_destination", self.mac_destination.as_str()));
            }
            if !self.protocol_data_link.as_str().is_empty() && ethertype_from_name(self.protocol_data_link.as_str()).is_none() {
                return Err(concat3(
                    "protocol_data_link inconnu : « ",
                    self.protocol_data_link.as_str(),
                    " » (attendu : nom connu ou « Unknown (0x…) »)",
                ));
            }
            Ok(())
        } else if link_type == LINKTYPE_RAW {
            if !self.mac_source.as_str().is_empty() || !self.mac_destination.as_str().is_empty() {
                return Err("un relevé RAW ne peut pas porter d'adresse de liaison".to_owned());
            }
            if self.vlan_id.is_some() {
                return Err("un relevé RAW ne peut pas porter de VLAN".to_owned());
            }
            if !str_eq(self.protocol_data_link.as_str(), "IPv4") && !str_eq(self.protocol_data_link.as_str(), "IPv6") {
                return Err(concat3(
                    "protocol_data_link RAW invalide : « ",
                    self.protocol_data_link.as_str(),
                    " » (attendu : IPv4 ou IPv6)",
                ));
            }
            Ok(())
        } else if link_type == LINKTYPE_LINUX_SLL || link_type == LINKTYPE_LINUX_SLL2 {
            match cooked_address_from_text(self.mac_source.as_str()) {
                Err(e) => {
                    return Err(e);
                },
                Ok(_) => {},
            }
            if !self.mac_destination.as_str().is_empty() {
                return Err("un relevé SLL/SLL2 ne peut pas porter d'adresse destination".to_owned());
            }
            if self.vlan_id.is_some() {
                return Err("un relevé SLL/SLL2 ne peut pas porter de VLAN".to_owned());
            }
            if cooked_protocol_from_text(self.protocol_data_link.as_str()).is_none() {
                return Err(concat3(
                    "protocol_data_link cooked invalide : « ",
                    self.protocol_data_link.as_str(),
                    " » (attendu : nom connu ou 0xNNNN)",
                ));
            }
            Ok(())
        } else {
            let n = crate::error::decimal_text(link_type as u64);
            Err(concat2("type de liaison non reconstructible : ", n.as_str()))
        }
    }

    /// Strict validation of an imported row: an invalid IP or an unreadable
    /// date is rejected with a precise message instead of being degraded
    /// silently. An empty IP stays valid (a flow without network layer);
    /// `N/A` and empty are absent dates. The link fields are checked for the
    /// link type announced by the file.
    pub fn validate(&self, link_type: u32) -> (r: Result<(), String>)
        ensures
            match row_problem(self@, link_type) {
                None => r is Ok,
                Some(m) => r matches Err(e) && e@ == m,
            },
    {
        if !self.ip_source.as_str().is_empty() && parse_ip_addr(self.ip_source.as_str()).is_none() {
            return Err(invalid_field_message("ip_source", self.ip_source.as_str()));
        }
        if !self.ip_destination.as_str().is_empty() && parse_ip_addr(self.ip_destination.as_str()).is_none() {
            return Err(invalid_field_message("ip_destination", self.ip_destination.as_str()));
        }
        let last_seen = trimmed(self.last_seen.as_str());
        if !last_seen.as_str().is_empty() && !str_eq(last_seen.as_str(), "N/A") {
            match parse_last_seen(last_seen.as_str()) {
                Err(e) => {
                    return Err(concat2("last_seen : ", e.as_str()));
                },
                Ok(_) => {},
            }
        }
        self.link_check(link_type)
    }
}


// ---------------------------------------------------------------------------
// Rebuilding the flow of a row
// ---------------------------------------------------------------------------

/// The flow identity of a row whose link was rebuilt as `link`: IP types
/// recomputed from the addresses, empty transport or application protocols
/// meaning no such layer.
pub open spec fn row_flow_key(r: FlowMatrixRowSpec, link: crate::link::LinkViewSpec) -> FlowKeySpec {
    let s = ip_of_text(r.ip_source);
    let d = ip_of_text(r.ip_destination);
    FlowKeySpec {
        link,
        internet: if s is Some || d is Some {
            Some(InternetKeySpec {
                source_ip: s,
                ip_source_type: if s is Some { Some(ip_type_text(r.ip_source)) } else { None },
                destination_ip: d,
                ip_destination_type: if d is Some { Some(ip_type_text(r.ip_destination)) } else { None },
                protocol: r.protocol_data_link,
            })
        } else {
            None
        },
        transport: match r.protocol_transport {
            Some(p) => if p.len() > 0 {
                Some(TransportKeySpec { source_port: r.port_source, destination_port: r.port_destination, protocol: p })
            } else {
                None
            },
            None => None,
        },
        application: match r.application_protocol {
            Some(p) => if p.len() > 0 { Some(p) } else { None },
            None => None,
        },
    }
}

/// The time of a row: its `last_seen`, the epoch when absent or unreadable.
pub open spec fn row_last_seen(r: FlowMatrixRowSpec) -> Timestamp {
    match last_seen_of(r.last_seen) {
        Ok(t) => t,
        Err(_) => Timestamp { secs: 0, nanos: 0 },
    }
}

/// The flow of a row and its statistics per tunnel, for link type `lt`.
pub open spec fn row_flow(r: FlowMatrixRowSpec, lt: u32) -> Result<(FlowKeySpec, Seq<TunnelEntry>), Seq<char>> {
    match matrix_link_view(lt, r.mac_source, r.mac_destination, r.protocol_data_link, r.vlan_id) {
        Err(m) => Err(m),
        Ok(link) => Ok((row_flow_key(r, link), encap_entries(r.encap_id, r.count, r.total_bytes, row_last_seen(r)))),
    }
}

fn nonempty_copy(o: &Option<String>) -> (r: Option<String>)
    ensures
        opt_text(r) == match opt_text(*o) {
            Some(p) => if p.len() > 0 { Some(p) } else { None },
            None => None,
        },
{
    match o {
        Some(p) => if p.as_str().is_empty() {
            None
        } else {
            Some(p.clone())
        },
        None => None,
    }
}

impl FlowMatrixRow {
    /// Rebuilds the flow and its per-tunnel statistics from an exported row
    /// (the inverse of the export): IP types recomputed from the addresses,
    /// the VLAN reduced to its id, the packets split between the tunnels of
    /// `encap_id`.
    pub fn to_flow_and_rows(&self, link_type: u32) -> (r: Result<(FlowKey, Vec<TunnelEntry>), String>)
        requires
            encap_in_tunnels(self.encap_id@, self.count) <= u64::MAX,
        ensures
            match row_flow(self@, link_type) {
                Ok((k, es)) => r matches Ok((key, entries)) && key@ == k && entries@ == es,
                Err(m) => r matches Err(e) && e@ == m,
            },
    {
        let link = match matrix_link_from_text(
            link_type,
            self.mac_source.as_str(),
            self.mac_destination.as_str(),
            self.protocol_data_link.as_str(),
            self.vlan_id,
        ) {
            Ok(l) => l,
            Err(e) => {
                return Err(e);
            },
        };
        let source_ip = ip_of(self.ip_source.as_str());
        let destination_ip = ip_of(self.ip_destination.as_str());
        let internet = if source_ip.is_some() || destination_ip.is_some() {
            let ip_source_type = if source_ip.is_some() {
                Some(ip_type_of(self.ip_source.as_str()))
            } else {
                None
            };
            let ip_destination_type = if destination_ip.is_some() {
                Some(ip_type_of(self.ip_destination.as_str()))
            } else {
                None
            };
            Some(InternetKey {
                source_ip,
                ip_source_type,
                destination_ip,
                ip_destination_type,
                protocol: self.protocol_data_link.clone(),
            })
        } else {
            None
        };
        let transport = match nonempty_copy(&self.protocol_transport) {
            Some(p) => Some(TransportKey {
                source_port: self.port_source,
                destination_port: self.port_destination,
                protocol: p,
            }),
            None => None,
        };
        let application = nonempty_copy(&self.application_protocol);
        let last_seen = match parse_last_seen(self.last_seen.as_str()) {
            Ok(t) => t,
            Err(_) => Timestamp::unix_epoch(),
        };
        let entries = parse_encap_list(self.encap_id.as_str(), self.count, self.total_bytes, last_seen);
        Ok((FlowKey { link, internet, transport, application }, entries))
    }
}


// ---------------------------------------------------------------------------
// Merging rows into a matrix
// ---------------------------------------------------------------------------

/// Entries of flow `k` in a map of flows (none for an unknown flow).
pub open spec fn entries_in(flows: Map<FlowKeySpec, Seq<TunnelEntry>>, k: FlowKeySpec) -> Seq<TunnelEntry> {
    if flows.contains_key(k) {
        flows[k]
    } else {
        Seq::empty()
    }
}

/// The flows once the entries `es` of flow `k` are merged in, tunnel by
/// tunnel; `None` when a packet count would exceed `u64`.
pub open spec fn merge_all(flows: Map<FlowKeySpec, Seq<TunnelEntry>>, k: FlowKeySpec, es: Seq<TunnelEntry>) -> Option<Map<FlowKeySpec, Seq<TunnelEntry>>>
    decreases es.len(),
{
    if es.len() == 0 {
        Some(flows)
    } else {
        match merge_all(flows, k, es.drop_last()) {
            None => None,
            Some(f) => {
                let cur = entries_in(f, k);
                let e = es.last();
                if merge_fits(cur, e.0, e.1) {
                    Some(f.insert(k, merge_entry(cur, e.0, e.1)))
                } else {
                    None
                }
            },
        }
    }
}

/// The file names of an `origin` column.
pub open spec fn origin_names(origin: Seq<char>) -> Set<Seq<char>> {
    Set::new(
        |t: Seq<char>|
            exists|i: int| 0 <= i < list_items_of(origin).len() && list_items_of(origin)[i] == t && trim(t).len() > 0,
    )
}

/// Origins once `names` are added to flow `k` (nothing for no name).
pub open spec fn origins_added(origins: Map<FlowKeySpec, Set<Seq<char>>>, k: FlowKeySpec, names: Set<Seq<char>>) -> Map<FlowKeySpec, Set<Seq<char>>> {
    if names.is_empty() {
        origins
    } else {
        origins.insert(k, (if origins.contains_key(k) { origins[k] } else { Set::empty() }).union(names))
    }
}

/// Message of a packet count that no longer fits in `u64`.
pub open spec fn count_overflow_message() -> Seq<char> {
    "compteur de paquets hors capacité"@
}

/// Flows and origins once row `r` is merged: its flow gets its per-tunnel
/// statistics added and its files of origin recorded.
pub open spec fn row_merged(
    f: Map<FlowKeySpec, Seq<TunnelEntry>>,
    o: Map<FlowKeySpec, Set<Seq<char>>>,
    r: FlowMatrixRowSpec,
    lt: u32,
) -> Result<(Map<FlowKeySpec, Seq<TunnelEntry>>, Map<FlowKeySpec, Set<Seq<char>>>), Seq<char>> {
    if encap_in_tunnels(r.encap_id, r.count) > u64::MAX {
        Err(count_overflow_message())
    } else {
        match row_flow(r, lt) {
            Err(m) => Err(m),
            Ok((k, es)) => match merge_all(f, k, es) {
                None => Err(count_overflow_message()),
                Some(f2) => Ok((f2, origins_added(o, k, origin_names(r.origin)))),
            },
        }
    }
}

/// Flows and origins once the rows are merged in order.
pub open spec fn rows_merged(
    flows: Map<FlowKeySpec, Seq<TunnelEntry>>,
    origins: Map<FlowKeySpec, Set<Seq<char>>>,
    rows: Seq<FlowMatrixRowSpec>,
    lt: u32,
) -> Result<(Map<FlowKeySpec, Seq<TunnelEntry>>, Map<FlowKeySpec, Set<Seq<char>>>), Seq<char>>
    decreases rows.len(),
{
    if rows.len() == 0 {
        Ok((flows, origins))
    } else {
        match rows_merged(flows, origins, rows.drop_last(), lt) {
            Err(m) => Err(m),
            Ok((f, o)) => row_merged(f, o, rows.last(), lt),
        }
    }
}

/// The labels a row carries (non-empty, unescaped), applied.
pub open spec fn row_labels_applied(labels: Map<(Seq<char>, Seq<char>), Seq<char>>, r: FlowMatrixRowSpec) -> Map<(Seq<char>, Seq<char>), Seq<char>> {
    let l1 = match r.label_source {
        Some(l) => if l.len() > 0 { labels.insert((r.mac_source, r.ip_source), unescaped_cell(l)) } else { labels },
        None => labels,
    };
    match r.label_destination {
        Some(l) => if l.len() > 0 { l1.insert((r.mac_destination, r.ip_destination), unescaped_cell(l)) } else { l1 },
        None => l1,
    }
}

/// The labels once those of every row are applied in order (the last one
/// wins for a key).
pub open spec fn labels_after(labels: Map<(Seq<char>, Seq<char>), Seq<char>>, rows: Seq<FlowMatrixRowSpec>) -> Map<(Seq<char>, Seq<char>), Seq<char>>
    decreases rows.len(),
{
    if rows.len() == 0 {
        labels
    } else {
        row_labels_applied(labels_after(labels, rows.drop_last()), rows.last())
    }
}

impl FlowMatrix {
    /// Applies the labels carried by rows (non-empty, unescaped): for a
    /// key, the last row wins.
    pub fn apply_row_labels(&mut self, rows: &[FlowMatrixRow])
        requires
            old(self).wf(),
        ensures
            final(self).wf(),
            final(self).labels() == labels_after(old(self).labels(), row_views(rows@)),
            final(self).matrix@ == old(self).matrix@,
            final(self).origins@ == old(self).origins@,
            final(self).link_type == old(self).link_type,
    {
        let ghost views = row_views(rows@);
        let mut i: usize = 0;
        while i < rows.len()
            invariant
                i <= rows@.len(),
                views == row_views(rows@),
                self.wf(),
                self.labels() == labels_after(old(self).labels(), views.take(i as int)),
                self.matrix@ == old(self).matrix@,
                self.origins@ == old(self).origins@,
                self.link_type == old(self).link_type,
            decreases rows@.len() - i,
        {
            assert(views.take(i + 1).drop_last() =~= views.take(i as int));
            assert(views.take(i + 1).last() == rows@[i as int]@);
            let row = &rows[i];
            match &row.label_source {
                Some(l) => {
                    if !l.as_str().is_empty() {
                        self.add_label(row.mac_source.clone(), row.ip_source.clone(), unescape_formula_cell(l.as_str()));
                    }
                },
                None => {},
            }
            match &row.label_destination {
                Some(l) => {
                    if !l.as_str().is_empty() {
                        self.add_label(row.mac_destination.clone(), row.ip_destination.clone(), unescape_formula_cell(l.as_str()));
                    }
                },
                None => {},
            }
            i = i + 1;
        }
        assert(views.take(i as int) =~= views);
    }

    /// Merges the per-tunnel entries of one flow, in order; `false` (the
    /// matrix partly merged) when a packet count would exceed `u64`.
    fn merge_entries(&mut self, flow: &FlowKey, entries: &Vec<TunnelEntry>) -> (r: bool)
        requires
            old(self).wf(),
        ensures
            final(self).wf(),
            final(self).labels() == old(self).labels(),
            final(self).origins@ == old(self).origins@,
            final(self).link_type == old(self).link_type,
            match merge_all(old(self).flows(), flow@, entries@) {
                Some(f) => r && final(self).flows() == f,
                None => !r,
            },
    {
        let ghost f0 = self.flows();
        let mut j: usize = 0;
        while j < entries.len()
            invariant
                j <= entries@.len(),
                self.wf(),
                self.labels() == old(self).labels(),
                self.origins@ == old(self).origins@,
                self.link_type == old(self).link_type,
                f0 == old(self).flows(),
                merge_all(f0, flow@, entries@.take(j as int)) == Some(self.flows()),
            decreases entries@.len() - j,
        {
            assert(entries@.take(j + 1).drop_last() =~= entries@.take(j as int));
            let (id, stats) = entries[j];
            assert(entries@.take(j + 1).last() == (id, stats));
            assert(entries_in(self.flows(), flow@) == self.entries_of(flow@));
            if !self.merge_fits_in(flow, id, &stats) {
                proof {
                    lemma_merge_all_stops(f0, flow@, entries@, j as int);
                }
                return false;
            }
            self.merge_row(flow.duplicate(), id, stats);
            j = j + 1;
        }
        assert(entries@.take(j as int) =~= entries@);
        true
    }

    /// Merges one row: its flow rebuilt, its entries merged, its files of
    /// origin recorded.
    fn merge_one_row(&mut self, row: &FlowMatrixRow, link_type: u32) -> (r: Result<(), SonarCoreError>)
        requires
            old(self).wf(),
        ensures
            final(self).wf(),
            final(self).labels() == old(self).labels(),
            final(self).link_type == old(self).link_type,
            match row_merged(old(self).flows(), old(self).origin_sets(), row@, link_type) {
                Ok((f, o)) => r is Ok && final(self).flows() == f && final(self).origin_sets() == o,
                Err(m) => r matches Err(SonarCoreError::InvalidMatrixRow(e)) && e@ == m,
            },
    {
        if !encap_counts_fit(row.encap_id.as_str(), row.count) {
            return Err(SonarCoreError::InvalidMatrixRow("compteur de paquets hors capacité".to_owned()));
        }
        let (flow, entries) = match row.to_flow_and_rows(link_type) {
            Ok(p) => p,
            Err(e) => {
                return Err(SonarCoreError::InvalidMatrixRow(e));
            },
        };
        let ghost o1 = self.origin_sets();
        if !self.merge_entries(&flow, &entries) {
            return Err(SonarCoreError::InvalidMatrixRow("compteur de paquets hors capacité".to_owned()));
        }
        assert(self.origin_sets() =~= o1);
        let names = parse_origin_list(row.origin.as_str());
        assert(kept_names(names@) =~= origin_names(row.origin@)) by {
            assert forall|t: Seq<char>| kept_names(names@).contains(t) == origin_names(row.origin@).contains(t) by {
                if kept_names(names@).contains(t) {
                    let k = choose|k: int| 0 <= k < names@.len() && (#[trigger] names@[k])@ == t && trim(t).len() > 0;
                    assert(list_items_of(row.origin@)[k] == t);
                }
                if origin_names(row.origin@).contains(t) {
                    let k = choose|k: int| 0 <= k < list_items_of(row.origin@).len() && list_items_of(row.origin@)[k] == t && trim(t).len() > 0;
                    assert(names@[k]@ == t);
                }
            }
        }
        self.add_flow_origins(&flow, names);
        assert(self.origin_sets() =~= origins_added(o1, flow@, origin_names(row.origin@)));
        Ok(())
    }

    /// Merges rows into the matrix, in order: for each row its flow is
    /// rebuilt for link type `link_type`, its per-tunnel statistics are
    /// added tunnel by tunnel and its files of origin recorded. A row that
    /// cannot be rebuilt, or a packet count that would exceed `u64`, stops
    /// the merge with an error.
    pub fn merge_rows(&mut self, rows: &[FlowMatrixRow], link_type: u32) -> (r: Result<(), SonarCoreError>)
        requires
            old(self).wf(),
        ensures
            final(self).wf(),
            final(self).labels() == old(self).labels(),
            final(self).link_type == old(self).link_type,
            match rows_merged(old(self).flows(), old(self).origin_sets(), row_views(rows@), link_type) {
                Ok((f, o)) => r is Ok && final(self).flows() == f && final(self).origin_sets() == o,
                Err(m) => r matches Err(SonarCoreError::InvalidMatrixRow(e)) && e@ == m,
            },
    {
        let ghost views = row_views(rows@);
        let ghost f0 = old(self).flows();
        let ghost o0 = old(self).origin_sets();
        let mut i: usize = 0;
        while i < rows.len()
            invariant
                i <= rows@.len(),
                views == row_views(rows@),
                self.wf(),
                self.labels() == old(self).labels(),
                self.link_type == old(self).link_type,
                f0 == old(self).flows(),
                o0 == old(self).origin_sets(),
                rows_merged(f0, o0, views.take(i as int), link_type) == Ok::<_, Seq<char>>((self.flows(), self.origin_sets())),
            decreases rows@.len() - i,
        {
            assert(views.take(i + 1).drop_last() =~= views.take(i as int));
            assert(views.take(i + 1).last() == rows@[i as int]@);
            match self.merge_one_row(&rows[i], link_type) {
                Ok(()) => {},
                Err(e) => {
                    proof {
                        lemma_rows_merged_stops(f0, o0, views, i as int, link_type);
                    }
                    return Err(e);
                },
            }
            i = i + 1;
        }
        assert(views.take(i as int) =~= views);
        Ok(())
    }
}

proof fn lemma_merge_all_stops(f: Map<FlowKeySpec, Seq<TunnelEntry>>, k: FlowKeySpec, es: Seq<TunnelEntry>, j: int)
    requires
        0 <= j < es.len(),
        merge_all(f, k, es.take(j)) is Some,
        !merge_fits(entries_in(merge_all(f, k, es.take(j))->0, k), es[j].0, es[j].1),
    ensures
        merge_all(f, k, es) is None,
    decreases es.len(),
{
    if j + 1 == es.len() {
        assert(es.drop_last() =~= es.take(j));
    } else {
        assert(es.drop_last().take(j) =~= es.take(j));
        lemma_merge_all_stops(f, k, es.drop_last(), j);
    }
}

proof fn lemma_rows_merged_stops(
    f: Map<FlowKeySpec, Seq<TunnelEntry>>,
    o: Map<FlowKeySpec, Set<Seq<char>>>,
    rows: Seq<FlowMatrixRowSpec>,
    i: int,
    lt: u32,
)
    requires
        0 <= i < rows.len(),
        rows_merged(f, o, rows.take(i + 1), lt) is Err,
    ensures
        rows_merged(f, o, rows, lt) == rows_merged(f, o, rows.take(i + 1), lt),
    decreases rows.len(),
{
    if i + 1 == rows.len() {
        assert(rows.take(i + 1) =~= rows);
    } else {
        assert(rows.drop_last().take(i + 1) =~= rows.take(i + 1));
        lemma_rows_merged_stops(f, o, rows.drop_last(), i, lt);
    }
}

/// Rebuilds a matrix of link type `link_type` from exported rows: the
/// labels the rows carry first (for a key, the last row wins), then the
/// rows merged in order, tunnel by tunnel, with their files of origin.
pub fn matrix_from_rows(rows: &[FlowMatrixRow], link_type: u32) -> (r: Result<FlowMatrix, SonarCoreError>)
    ensures
        match rows_merged(Map::empty(), Map::empty(), row_views(rows@), link_type) {
            Ok((f, o)) => r matches Ok(m) && m.wf() && m.flows() == f && m.origin_sets() == o
                && m.labels() == labels_after(Map::empty(), row_views(rows@)) && m.link_type == Some(link_type),
            Err(e) => r matches Err(SonarCoreError::InvalidMatrixRow(t)) && t@ == e,
        },
{
    let mut matrix = FlowMatrix::new();
    assert(matrix.flows() =~= Map::empty());
    assert(matrix.origin_sets() =~= Map::empty());
    matrix.link_type = Some(link_type);
    matrix.apply_row_labels(rows);
    match matrix.merge_rows(rows, link_type) {
        Ok(()) => Ok(matrix),
        Err(e) => Err(e),
    }
}

// ---------------------------------------------------------------------------
// Conservation laws of the merge
// ---------------------------------------------------------------------------

/// Packets of flow `k` in a map of flows.
pub open spec fn flow_total(flows: Map<FlowKeySpec, Seq<TunnelEntry>>, k: FlowKeySpec) -> nat {
    entries_count(entries_in(flows, k))
}

/// Packets that row `r` brings to flow `k` (none for a row of another flow
/// or a row that cannot be rebuilt).
pub open spec fn row_packets_for(r: FlowMatrixRowSpec, lt: u32, k: FlowKeySpec) -> nat {
    match row_flow(r, lt) {
        Ok((k2, es)) => if k2 == k {
            entries_count(es)
        } else {
            0
        },
        Err(_) => 0,
    }
}

/// Packets that the rows bring to flow `k`.
pub open spec fn rows_packets_for(rows: Seq<FlowMatrixRowSpec>, lt: u32, k: FlowKeySpec) -> nat
    decreases rows.len(),
{
    if rows.len() == 0 {
        0
    } else {
        rows_packets_for(rows.drop_last(), lt, k) + row_packets_for(rows.last(), lt, k)
    }
}

/// The flows the rows rebuild to.
pub open spec fn row_keys(rows: Seq<FlowMatrixRowSpec>, lt: u32) -> Set<FlowKeySpec>
    decreases rows.len(),
{
    if rows.len() == 0 {
        Set::empty()
    } else {
        match row_flow(rows.last(), lt) {
            Ok((k, _)) => row_keys(rows.drop_last(), lt).insert(k),
            Err(_) => row_keys(rows.drop_last(), lt),
        }
    }
}

proof fn lemma_merge_all_total(
    f: Map<FlowKeySpec, Seq<TunnelEntry>>,
    k: FlowKeySpec,
    es: Seq<TunnelEntry>,
)
    requires
        merge_all(f, k, es) is Some,
    ensures
        flow_total(merge_all(f, k, es)->0, k) == flow_total(f, k) + entries_count(es),
        forall|k2: FlowKeySpec| k2 != k ==> #[trigger] entries_in(merge_all(f, k, es)->0, k2) == entries_in(f, k2),
        es.len() > 0 ==> merge_all(f, k, es)->0.dom() == f.dom().insert(k),
        es.len() == 0 ==> merge_all(f, k, es)->0 == f,
    decreases es.len(),
{
    if es.len() > 0 {
        let f1 = merge_all(f, k, es.drop_last())->0;
        lemma_merge_all_total(f, k, es.drop_last());
        let e = es.last();
        lemma_merge_entry_conserves(entries_in(f1, k), e.0, e.1);
        let f2 = f1.insert(k, merge_entry(entries_in(f1, k), e.0, e.1));
        assert(merge_all(f, k, es)->0 == f2);
        assert(entries_in(f2, k) == merge_entry(entries_in(f1, k), e.0, e.1));
        assert forall|k2: FlowKeySpec| k2 != k implies #[trigger] entries_in(f2, k2) == entries_in(f, k2) by {
            assert(entries_in(f1, k2) == entries_in(f, k2));
        }
        assert(f2.dom() =~= f.dom().insert(k));
    }
}

/// Merging rows into flows: each flow gains exactly the packets of its
/// rows, and the flows afterwards are those before plus those of the rows.
pub proof fn lemma_rows_merged_totals(
    f: Map<FlowKeySpec, Seq<TunnelEntry>>,
    o: Map<FlowKeySpec, Set<Seq<char>>>,
    rows: Seq<FlowMatrixRowSpec>,
    lt: u32,
)
    requires
        rows_merged(f, o, rows, lt) is Ok,
    ensures
        forall|k: FlowKeySpec| #[trigger] flow_total(rows_merged(f, o, rows, lt)->Ok_0.0, k) == flow_total(f, k) + rows_packets_for(rows, lt, k),
        rows_merged(f, o, rows, lt)->Ok_0.0.dom() == f.dom().union(row_keys(rows, lt)),
    decreases rows.len(),
{
    if rows.len() == 0 {
        assert(f.dom().union(Set::empty()) =~= f.dom());
    } else {
        lemma_rows_merged_totals(f, o, rows.drop_last(), lt);
        let (f1, o1) = rows_merged(f, o, rows.drop_last(), lt)->Ok_0;
        let r = rows.last();
        let (k, es) = row_flow(r, lt)->Ok_0;
        lemma_encap_entries_totals(r.encap_id, r.count, r.total_bytes, row_last_seen(r));
        lemma_merge_all_total(f1, k, es);
        let f2 = merge_all(f1, k, es)->0;
        assert(rows_merged(f, o, rows, lt)->Ok_0.0 == f2);
        assert forall|k2: FlowKeySpec| #[trigger] flow_total(f2, k2) == flow_total(f, k2) + rows_packets_for(rows, lt, k2) by {
            assert(flow_total(f1, k2) == flow_total(f, k2) + rows_packets_for(rows.drop_last(), lt, k2));
            assert(rows_packets_for(rows, lt, k2) == rows_packets_for(rows.drop_last(), lt, k2) + row_packets_for(r, lt, k2));
            if k2 != k {
                assert(entries_in(f2, k2) == entries_in(f1, k2));
                assert(row_packets_for(r, lt, k2) == 0);
            } else {
                assert(row_packets_for(r, lt, k2) == entries_count(es));
            }
        }
        assert(f2.dom() =~= f.dom().union(row_keys(rows, lt)));
    }
}

proof fn lemma_rows_merged_prefix(
    f: Map<FlowKeySpec, Seq<TunnelEntry>>,
    o: Map<FlowKeySpec, Set<Seq<char>>>,
    a: Seq<FlowMatrixRowSpec>,
    b: Seq<FlowMatrixRowSpec>,
    lt: u32,
)
    requires
        rows_merged(f, o, a + b, lt) is Ok,
    ensures
        rows_merged(f, o, a, lt) is Ok,
    decreases b.len(),
{
    if b.len() == 0 {
        assert(a + b =~= a);
    } else {
        assert((a + b).drop_last() =~= a + b.drop_last());
        lemma_rows_merged_prefix(f, o, a, b.drop_last(), lt);
    }
}

pub proof fn lemma_rows_concat(a: Seq<FlowMatrixRowSpec>, b: Seq<FlowMatrixRowSpec>, lt: u32, k: FlowKeySpec)
    ensures
        rows_packets_for(a + b, lt, k) == rows_packets_for(a, lt, k) + rows_packets_for(b, lt, k),
        row_keys(a + b, lt) == row_keys(a, lt).union(row_keys(b, lt)),
    decreases b.len(),
{
    if b.len() == 0 {
        assert(a + b =~= a);
        assert(row_keys(a, lt).union(Set::empty()) =~= row_keys(a, lt));
    } else {
        assert((a + b).drop_last() =~= a + b.drop_last());
        assert((a + b).last() == b.last());
        lemma_rows_concat(a, b.drop_last(), lt, k);
        assert(row_keys(a + b, lt) =~= row_keys(a, lt).union(row_keys(b, lt)));
    }
}

pub proof fn lemma_rows_same_flows(a: Seq<FlowMatrixRowSpec>, b: Seq<FlowMatrixRowSpec>, lt: u32, k: FlowKeySpec)
    requires
        a.len() == b.len(),
        forall|i: int| 0 <= i < a.len() ==> row_flow(#[trigger] b[i], lt) == row_flow(a[i], lt),
    ensures
        rows_packets_for(b, lt, k) == rows_packets_for(a, lt, k),
        row_keys(b, lt) == row_keys(a, lt),
    decreases a.len(),
{
    if a.len() > 0 {
        assert(row_flow(b[b.len() - 1], lt) == row_flow(a[a.len() - 1], lt));
        lemma_rows_same_flows(a.drop_last(), b.drop_last(), lt, k);
    }
}

/// Merging the same rows twice (two copies of one matrix under two file
/// names, say) gives the same flows with every packet count doubled.
pub proof fn lemma_merging_twice_doubles_counts(
    rows: Seq<FlowMatrixRowSpec>,
    copy: Seq<FlowMatrixRowSpec>,
    lt: u32,
)
    requires
        copy.len() == rows.len(),
        forall|i: int| 0 <= i < rows.len() ==> row_flow(#[trigger] copy[i], lt) == row_flow(rows[i], lt),
        rows_merged(Map::empty(), Map::empty(), rows + copy, lt) is Ok,
    ensures
        rows_merged(Map::empty(), Map::empty(), rows, lt) is Ok,
        ({
            let once = rows_merged(Map::empty(), Map::empty(), rows, lt)->Ok_0.0;
            let twice = rows_merged(Map::empty(), Map::empty(), rows + copy, lt)->Ok_0.0;
            &&& twice.dom() == once.dom()
            &&& forall|k: FlowKeySpec| #[trigger] flow_total(twice, k) == 2 * flow_total(once, k)
        }),
{
    let e = Map::<FlowKeySpec, Seq<TunnelEntry>>::empty();
    let eo = Map::<FlowKeySpec, Set<Seq<char>>>::empty();
    lemma_rows_merged_prefix(e, eo, rows, copy, lt);
    lemma_rows_merged_totals(e, eo, rows, lt);
    lemma_rows_merged_totals(e, eo, rows + copy, lt);
    let once = rows_merged(e, eo, rows, lt)->Ok_0.0;
    let twice = rows_merged(e, eo, rows + copy, lt)->Ok_0.0;
    assert forall|k: FlowKeySpec| #[trigger] flow_total(twice, k) == 2 * flow_total(once, k) by {
        lemma_rows_concat(rows, copy, lt, k);
        lemma_rows_same_flows(rows, copy, lt, k);
        assert(entries_in(e, k) =~= Seq::<TunnelEntry>::empty());
    }
    let k0 = arbitrary::<FlowKeySpec>();
    lemma_rows_concat(rows, copy, lt, k0);
    lemma_rows_same_flows(rows, copy, lt, k0);
    assert(twice.dom() =~= once.dom());
}


/// A row that merges on its own: its tunnel split fits in `u64` and its
/// flow can be rebuilt.
pub open spec fn row_admissible(r: FlowMatrixRowSpec, lt: u32) -> bool {
    encap_in_tunnels(r.encap_id, r.count) <= u64::MAX && row_flow(r, lt) is Ok
}

/// The files of origin that the rows give flow `k`.
pub open spec fn rows_origins_for(rows: Seq<FlowMatrixRowSpec>, lt: u32, k: FlowKeySpec) -> Set<Seq<char>>
    decreases rows.len(),
{
    if rows.len() == 0 {
        Set::empty()
    } else {
        rows_origins_for(rows.drop_last(), lt, k).union(
            match row_flow(rows.last(), lt) {
                Ok((k2, _)) => if k2 == k {
                    origin_names(rows.last().origin)
                } else {
                    Set::empty()
                },
                Err(_) => Set::empty(),
            },
        )
    }
}

/// One tunnel's packets never exceed those of its flow.
proof fn lemma_entry_count_le(es: Seq<TunnelEntry>, j: int)
    requires
        0 <= j < es.len(),
    ensures
        es[j].1.count <= entries_count(es),
    decreases es.len(),
{
    if j < es.len() - 1 {
        lemma_entry_count_le(es.drop_last(), j);
        assert(es.drop_last()[j] == es[j]);
    }
}

/// Merging entries into a flow succeeds when the flow's packets and theirs
/// fit in `u64` together.
proof fn lemma_merge_all_ok(f: Map<FlowKeySpec, Seq<TunnelEntry>>, k: FlowKeySpec, es: Seq<TunnelEntry>)
    requires
        flow_total(f, k) + entries_count(es) <= u64::MAX,
    ensures
        merge_all(f, k, es) is Some,
    decreases es.len(),
{
    if es.len() > 0 {
        lemma_merge_all_ok(f, k, es.drop_last());
        lemma_merge_all_total(f, k, es.drop_last());
        let g = merge_all(f, k, es.drop_last())->0;
        let cur = entries_in(g, k);
        let e = es.last();
        match entry_index(cur, e.0) {
            Some(j) => {
                lemma_entry_count_le(cur, j);
            },
            None => {},
        }
        assert(merge_fits(cur, e.0, e.1));
    }
}

/// Rows that each merge on their own merge together when, for every flow,
/// its packets and theirs fit in `u64`.
pub proof fn lemma_rows_merged_ok(
    f: Map<FlowKeySpec, Seq<TunnelEntry>>,
    o: Map<FlowKeySpec, Set<Seq<char>>>,
    rows: Seq<FlowMatrixRowSpec>,
    lt: u32,
)
    requires
        forall|i: int| 0 <= i < rows.len() ==> row_admissible(#[trigger] rows[i], lt),
        forall|k: FlowKeySpec| #[trigger] flow_total(f, k) + rows_packets_for(rows, lt, k) <= u64::MAX,
    ensures
        rows_merged(f, o, rows, lt) is Ok,
    decreases rows.len(),
{
    if rows.len() > 0 {
        let init = rows.drop_last();
        assert forall|i: int| 0 <= i < init.len() implies row_admissible(#[trigger] init[i], lt) by {
            assert(init[i] == rows[i]);
        }
        assert forall|k: FlowKeySpec| #[trigger] flow_total(f, k) + rows_packets_for(init, lt, k) <= u64::MAX by {
            assert(flow_total(f, k) + rows_packets_for(rows, lt, k) <= u64::MAX);
        }
        lemma_rows_merged_ok(f, o, init, lt);
        lemma_rows_merged_totals(f, o, init, lt);
        let f1 = rows_merged(f, o, init, lt)->Ok_0.0;
        let r = rows.last();
        assert(row_admissible(rows[rows.len() - 1], lt));
        let (k, es) = row_flow(r, lt)->Ok_0;
        assert(flow_total(f, k) + rows_packets_for(rows, lt, k) <= u64::MAX);
        assert(row_packets_for(r, lt, k) == entries_count(es));
        lemma_merge_all_ok(f1, k, es);
    }
}

/// Rows that merge are each admissible on their own.
pub proof fn lemma_rows_merged_admissible(
    f: Map<FlowKeySpec, Seq<TunnelEntry>>,
    o: Map<FlowKeySpec, Set<Seq<char>>>,
    rows: Seq<FlowMatrixRowSpec>,
    lt: u32,
)
    requires
        rows_merged(f, o, rows, lt) is Ok,
    ensures
        forall|i: int| 0 <= i < rows.len() ==> row_admissible(#[trigger] rows[i], lt),
    decreases rows.len(),
{
    if rows.len() > 0 {
        lemma_rows_merged_admissible(f, o, rows.drop_last(), lt);
        assert forall|i: int| 0 <= i < rows.len() implies row_admissible(#[trigger] rows[i], lt) by {
            if i < rows.len() - 1 {
                assert(rows.drop_last()[i] == rows[i]);
            }
        }
    }
}

/// Merging rows records for each flow the files of origin of its rows,
/// added to those it had.
pub proof fn lemma_rows_merged_origins(
    f: Map<FlowKeySpec, Seq<TunnelEntry>>,
    o: Map<FlowKeySpec, Set<Seq<char>>>,
    rows: Seq<FlowMatrixRowSpec>,
    lt: u32,
)
    requires
        rows_merged(f, o, rows, lt) is Ok,
    ensures
        forall|k: FlowKeySpec| #[trigger] crate::roundtrip::origins_read(rows_merged(f, o, rows, lt)->Ok_0.1, k)
            == crate::roundtrip::origins_read(o, k).union(rows_origins_for(rows, lt, k)),
    decreases rows.len(),
{
    if rows.len() == 0 {
        assert forall|k: FlowKeySpec| #[trigger] crate::roundtrip::origins_read(o, k)
            == crate::roundtrip::origins_read(o, k).union(rows_origins_for(rows, lt, k)) by {
            assert(crate::roundtrip::origins_read(o, k).union(Set::empty()) =~= crate::roundtrip::origins_read(o, k));
        }
    } else {
        let init = rows.drop_last();
        lemma_rows_merged_origins(f, o, init, lt);
        let (f1, o1) = rows_merged(f, o, init, lt)->Ok_0;
        let r = rows.last();
        let (k0, es) = row_flow(r, lt)->Ok_0;
        let names = origin_names(r.origin);
        let o2 = origins_added(o1, k0, names);
        assert(rows_merged(f, o, rows, lt)->Ok_0.1 == o2);
        assert forall|k: FlowKeySpec| #[trigger] crate::roundtrip::origins_read(o2, k)
            == crate::roundtrip::origins_read(o, k).union(rows_origins_for(rows, lt, k)) by {
            let before = crate::roundtrip::origins_read(o1, k);
            assert(before == crate::roundtrip::origins_read(o, k).union(rows_origins_for(init, lt, k)));
            if k == k0 {
                if names.is_empty() {
                    assert(names =~= Set::<Seq<char>>::empty());
                    assert(rows_origins_for(init, lt, k).union(names) =~= rows_origins_for(init, lt, k));
                } else {
                    assert(crate::roundtrip::origins_read(o2, k) =~= before.union(names));
                }
                assert(crate::roundtrip::origins_read(o, k).union(rows_origins_for(init, lt, k)).union(names)
                    =~= crate::roundtrip::origins_read(o, k).union(rows_origins_for(init, lt, k).union(names)));
            } else {
                assert(crate::roundtrip::origins_read(o2, k) == before);
                assert(rows_origins_for(init, lt, k).union(Set::empty()) =~= rows_origins_for(init, lt, k));
            }
        }
    }
}

/// The files of origin of two runs of rows are those of each.
pub proof fn lemma_rows_origins_concat(a: Seq<FlowMatrixRowSpec>, b: Seq<FlowMatrixRowSpec>, lt: u32, k: FlowKeySpec)
    ensures
        rows_origins_for(a + b, lt, k) == rows_origins_for(a, lt, k).union(rows_origins_for(b, lt, k)),
    decreases b.len(),
{
    if b.len() == 0 {
        assert(a + b =~= a);
        assert(rows_origins_for(a, lt, k).union(Set::empty()) =~= rows_origins_for(a, lt, k));
    } else {
        assert((a + b).drop_last() =~= a + b.drop_last());
        assert((a + b).last() == b.last());
        lemma_rows_origins_concat(a, b.drop_last(), lt, k);
        let x = match row_flow(b.last(), lt) {
            Ok((k2, _)) => if k2 == k {
                origin_names(b.last().origin)
            } else {
                Set::empty()
            },
            Err(_) => Set::empty(),
        };
        assert(rows_origins_for(a, lt, k).union(rows_origins_for(b.drop_last(), lt, k)).union(x)
            =~= rows_origins_for(a, lt, k).union(rows_origins_for(b.drop_last(), lt, k).union(x)));
    }
}
} // verus!
