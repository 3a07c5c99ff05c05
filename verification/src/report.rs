//! Read accounting of a capture file: every packet read falls in exactly one
//! category (decoded, or rejected for a named cause) and the number of
//! packets read is the sum of the categories, never an independent counter.

use vstd::prelude::*;

use packet_parser::ParseError;

verus! {

/// The parser's error type, carried opaquely: only its variant is inspected.
#[verifier::external_type_specification]
#[verifier::external_body]
pub struct ExParseError(ParseError);

/// Category of a packet read from a capture file: exhaustive and exclusive.
#[derive(Debug, Clone, Copy, PartialEq, Eq, Structural)]
pub enum PacketDisposition {
    /// Parsed and merged into the matrix.
    Decoded,
    /// The parse failed on a capture cut short (`caplen < len`).
    RejectedTruncated,
    /// The parser has no decoder for the link type.
    RejectedUnsupportedLinkType,
    /// The parse failed on a complete frame (`caplen == len`).
    RejectedMalformed,
}

/// Whether a parse error reports a link type without decoder
/// (`ParseError::UnsupportedLinkType`). Nothing is stated of the answer: the
/// variant of an opaque error is not visible to the proofs.
#[verifier::external_body]
fn is_unsupported_link_type(error: &ParseError) -> bool {
    matches!(error, ParseError::UnsupportedLinkType(_))
}

/// Classification from the capture header and the outcome of the parse:
/// success first, then an unknown link type, which wins over truncation.
pub fn classify_outcome(caplen: u32, len: u32, parsed: bool, unsupported_link_type: bool) -> (r:
    PacketDisposition)
    ensures
        r == (if parsed {
            PacketDisposition::Decoded
        } else if unsupported_link_type {
            PacketDisposition::RejectedUnsupportedLinkType
        } else if caplen < len {
            PacketDisposition::RejectedTruncated
        } else {
            PacketDisposition::RejectedMalformed
        }),
{
    if parsed {
        PacketDisposition::Decoded
    } else if unsupported_link_type {
        PacketDisposition::RejectedUnsupportedLinkType
    } else if caplen < len {
        PacketDisposition::RejectedTruncated
    } else {
        PacketDisposition::RejectedMalformed
    }
}

/// Classifies a packet read from its capture header and its parse result
/// (`None`: the parse succeeded). The variant of the error decides between
/// an unsupported link type and the two other causes of rejection.
pub fn classify_packet(caplen: u32, len: u32, error: Option<&ParseError>) -> (r:
    PacketDisposition)
    ensures
        (r == PacketDisposition::Decoded) <==> error is None,
        r == PacketDisposition::RejectedTruncated ==> caplen < len,
        r == PacketDisposition::RejectedMalformed ==> caplen >= len,
        error is Some && caplen < len ==> r != PacketDisposition::RejectedMalformed,
        error is Some && caplen >= len ==> r != PacketDisposition::RejectedTruncated,
{
    match error {
        None => classify_outcome(caplen, len, true, false),
        Some(e) => {
            let unsupported = is_unsupported_link_type(e);
            classify_outcome(caplen, len, false, unsupported)
        },
    }
}

/// Read report of one capture file, by category.
#[derive(Debug, Clone, Copy, PartialEq, Eq, Structural)]
pub struct PcapFileReport {
    /// Packets parsed and merged into the matrix.
    pub decoded: usize,
    /// Rejected because the capture was cut (`caplen < len`).
    pub rejected_truncated: usize,
    /// Rejected for a link type unknown to the parser.
    pub rejected_unsupported_link_type: usize,
    /// Rejected on a complete frame: malformed on the observed network.
    pub rejected_malformed: usize,
}

impl PcapFileReport {
    /// Number of packets read: the sum of the categories.
    pub open spec fn total(self) -> int {
        self.decoded + self.rejected_truncated + self.rejected_unsupported_link_type
            + self.rejected_malformed
    }

    /// Number of packets of category `d`.
    pub open spec fn count_of(self, d: PacketDisposition) -> int {
        match d {
            PacketDisposition::Decoded => self.decoded as int,
            PacketDisposition::RejectedTruncated => self.rejected_truncated as int,
            PacketDisposition::RejectedUnsupportedLinkType => self.rejected_unsupported_link_type as int,
            PacketDisposition::RejectedMalformed => self.rejected_malformed as int,
        }
    }

    /// The report of a file not read yet: every category at zero.
    pub fn new() -> (r: Self)
        ensures
            r.decoded == 0,
            r.rejected_truncated == 0,
            r.rejected_unsupported_link_type == 0,
            r.rejected_malformed == 0,
    {
        PcapFileReport {
            decoded: 0,
            rejected_truncated: 0,
            rejected_unsupported_link_type: 0,
            rejected_malformed: 0,
        }
    }

    /// Counts one packet in its category.
    pub fn record(&mut self, disposition: PacketDisposition)
        requires
            old(self).total() < usize::MAX,
        ensures
            final(self).count_of(disposition) == old(self).count_of(disposition) + 1,
            forall|d: PacketDisposition|
                d != disposition ==> #[trigger] final(self).count_of(d) == old(self).count_of(d),
            final(self).total() == old(self).total() + 1,
    {
        match disposition {
            PacketDisposition::Decoded => self.decoded += 1,
            PacketDisposition::RejectedTruncated => self.rejected_truncated += 1,
            PacketDisposition::RejectedUnsupportedLinkType => {
                self.rejected_unsupported_link_type += 1
            },
            PacketDisposition::RejectedMalformed => self.rejected_malformed += 1,
        }
    }

    /// Packets read: the sum of the categories.
    pub fn read(&self) -> (r: usize)
        requires
            self.total() <= usize::MAX,
        ensures
            r == self.total(),
    {
        self.decoded + self.rejected_truncated + self.rejected_unsupported_link_type
            + self.rejected_malformed
    }

    /// Packets read but not merged, whatever the cause.
    pub fn rejected(&self) -> (r: usize)
        requires
            self.total() <= usize::MAX,
        ensures
            r == self.total() - self.decoded,
            r == self.rejected_truncated + self.rejected_unsupported_link_type
                + self.rejected_malformed,
    {
        self.read() - self.decoded
    }

    /// Adds another report, category by category (several files).
    pub fn absorb(&mut self, other: &PcapFileReport)
        requires
            old(self).total() + other.total() <= usize::MAX,
        ensures
            forall|d: PacketDisposition| #[trigger]
                final(self).count_of(d) == old(self).count_of(d) + other.count_of(d),
            final(self).total() == old(self).total() + other.total(),
    {
        self.decoded += other.decoded;
        self.rejected_truncated += other.rejected_truncated;
        self.rejected_unsupported_link_type += other.rejected_unsupported_link_type;
        self.rejected_malformed += other.rejected_malformed;
    }
}

impl Default for PcapFileReport {
    fn default() -> (r: Self)
        ensures
            r.total() == 0,
            r.decoded == 0,
            r.rejected_truncated == 0,
            r.rejected_unsupported_link_type == 0,
            r.rejected_malformed == 0,
    {
        PcapFileReport::new()
    }
}

/// Number of occurrences of category `d` in a sequence of dispositions.
pub open spec fn occurrences(ds: Seq<PacketDisposition>, d: PacketDisposition) -> int
    decreases ds.len(),
{
    if ds.len() == 0 {
        0
    } else {
        occurrences(ds.drop_last(), d) + if ds.last() == d {
            1int
        } else {
            0
        }
    }
}

/// The categories partition the packets read: over any sequence of
/// dispositions, the occurrences of the four categories add up to the
/// number of packets.
pub proof fn lemma_categories_partition(ds: Seq<PacketDisposition>)
    ensures
        occurrences(ds, PacketDisposition::Decoded) + occurrences(
            ds,
            PacketDisposition::RejectedTruncated,
        ) + occurrences(ds, PacketDisposition::RejectedUnsupportedLinkType) + occurrences(
            ds,
            PacketDisposition::RejectedMalformed,
        ) == ds.len(),
    decreases ds.len(),
{
    if ds.len() > 0 {
        lemma_categories_partition(ds.drop_last());
    }
}

} // verus!
