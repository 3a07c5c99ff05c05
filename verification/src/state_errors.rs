//! Errors of the desktop application, by domain (capture, export, import,
//! labels), their serializable `{ kind, message }` forms, and the mapping of
//! the errors of the batch operations onto them. Errors of outside
//! libraries are carried by their message.

use vstd::prelude::*;

use crate::error::{SonarCoreError, core_error_text};
use crate::labels::{LabelError, LabelErrorKind};
use crate::text::{concat2, concat3};

verus! {

/// Error at the configuration, start or run of a network capture.
#[derive(Debug)]
pub enum CaptureError {
    InvalidConfig(String),
    ConfigPersistence(String),
    InterfaceNotFound(String),
    DeviceListError(String),
    CaptureInitError(String),
    ChannelSendError(String),
    EventSendError(String),
    /// Link type of the interface without decoder.
    UnsupportedLinkType(String),
    /// Interface of another link type than the survey.
    MixedLinkType(String),
}

/// Serializable form of a [`CaptureError`].
#[derive(Debug, PartialEq, Eq)]
pub enum CaptureErrorKind {
    InvalidConfig(String),
    ConfigPersistence(String),
    InterfaceNotFound(String),
    DeviceListError(String),
    CaptureInitError(String),
    ChannelSendError(String),
    EventSendError(String),
    UnsupportedLinkType(String),
    MixedLinkType(String),
}

/// Error of an export.
#[derive(Debug)]
pub enum ExportError {
    EmptyPath,
    Io(String),
    Csv(String),
    Zip(String),
    PoisonError(String),
    LogNotFound,
}

/// Serializable form of an [`ExportError`].
#[derive(Debug, PartialEq, Eq)]
pub enum ExportErrorKind {
    EmptyPath,
    Io(String),
    Csv(String),
    Zip(String),
    PoisonError(String),
    LogNotFound,
}

/// Error of a capture file import.
#[derive(Debug)]
pub enum PcapImportError {
    /// The command was called without any source.
    MissingInput(String),
    OpenFileError(String, String),
    /// Read error in the middle of a file (truncated, corrupted).
    ReadPacketError(String, String),
    /// Link type of the file without decoder.
    UnsupportedLinkType(String, String),
    /// Import cancelled by the operator.
    Cancelled(String),
}

/// Serializable form of a [`PcapImportError`].
#[derive(Debug, PartialEq, Eq)]
pub enum PcapImportErrorKind {
    MissingInput(String),
    OpenFileError(String, String),
    ReadPacketError(String, String),
    UnsupportedLinkType(String, String),
    Cancelled(String),
}

/// Error of the application: one variant per domain.
#[derive(Debug)]
pub enum CaptureStateError {
    Io(String),
    PoisonError(String),
    InvalidTransition { from: String, to: String },
    Capture(CaptureError),
    Export(ExportError),
    Import(PcapImportError),
    Label(LabelError),
    Tauri(String),
}

/// Serializable form of a [`CaptureStateError`] (`{ kind, message }`).
#[derive(Debug)]
pub enum CaptureStateErrorKind {
    Io(String),
    PoisonError(String),
    InvalidTransition(String),
    Capture(CaptureErrorKind),
    Export(ExportErrorKind),
    Import(PcapImportErrorKind),
    Label(LabelErrorKind),
    Tauri(String),
}

/// Message of a refused capture transition.
pub open spec fn transition_text(from: Seq<char>, to: Seq<char>) -> Seq<char> {
    "transition de capture refusée : "@ + from + " → "@ + to
}

impl CaptureError {
    /// The serializable form: each variant to its own, with its message.
    pub fn into_kind(self) -> (r: CaptureErrorKind)
        ensures
            match self {
                CaptureError::InvalidConfig(m) => r == CaptureErrorKind::InvalidConfig(m),
                CaptureError::ConfigPersistence(m) => r == CaptureErrorKind::ConfigPersistence(m),
                CaptureError::InterfaceNotFound(m) => r == CaptureErrorKind::InterfaceNotFound(m),
                CaptureError::DeviceListError(m) => r == CaptureErrorKind::DeviceListError(m),
                CaptureError::CaptureInitError(m) => r == CaptureErrorKind::CaptureInitError(m),
                CaptureError::ChannelSendError(m) => r == CaptureErrorKind::ChannelSendError(m),
                CaptureError::EventSendError(m) => r == CaptureErrorKind::EventSendError(m),
                CaptureError::UnsupportedLinkType(m) => r == CaptureErrorKind::UnsupportedLinkType(m),
                CaptureError::MixedLinkType(m) => r == CaptureErrorKind::MixedLinkType(m),
            },
    {
        match self {
            CaptureError::InvalidConfig(m) => CaptureErrorKind::InvalidConfig(m),
            CaptureError::ConfigPersistence(m) => CaptureErrorKind::ConfigPersistence(m),
            CaptureError::InterfaceNotFound(m) => CaptureErrorKind::InterfaceNotFound(m),
            CaptureError::DeviceListError(m) => CaptureErrorKind::DeviceListError(m),
            CaptureError::CaptureInitError(m) => CaptureErrorKind::CaptureInitError(m),
            CaptureError::ChannelSendError(m) => CaptureErrorKind::ChannelSendError(m),
            CaptureError::EventSendError(m) => CaptureErrorKind::EventSendError(m),
            CaptureError::UnsupportedLinkType(m) => CaptureErrorKind::UnsupportedLinkType(m),
            CaptureError::MixedLinkType(m) => CaptureErrorKind::MixedLinkType(m),
        }
    }
}

impl ExportError {
    /// The serializable form: each variant to its own, with its message.
    pub fn into_kind(self) -> (r: ExportErrorKind)
        ensures
            match self {
                ExportError::EmptyPath => r == ExportErrorKind::EmptyPath,
                ExportError::Io(m) => r == ExportErrorKind::Io(m),
                ExportError::Csv(m) => r == ExportErrorKind::Csv(m),
                ExportError::Zip(m) => r == ExportErrorKind::Zip(m),
                ExportError::PoisonError(m) => r == ExportErrorKind::PoisonError(m),
                ExportError::LogNotFound => r == ExportErrorKind::LogNotFound,
            },
    {
        match self {
            ExportError::EmptyPath => ExportErrorKind::EmptyPath,
            ExportError::Io(m) => ExportErrorKind::Io(m),
            ExportError::Csv(m) => ExportErrorKind::Csv(m),
            ExportError::Zip(m) => ExportErrorKind::Zip(m),
            ExportError::PoisonError(m) => ExportErrorKind::PoisonError(m),
            ExportError::LogNotFound => ExportErrorKind::LogNotFound,
        }
    }
}

impl PcapImportError {
    /// The serializable form: each variant to its own, with its fields.
    pub fn into_kind(self) -> (r: PcapImportErrorKind)
        ensures
            match self {
                PcapImportError::MissingInput(m) => r == PcapImportErrorKind::MissingInput(m),
                PcapImportError::OpenFileError(a, b) => r == PcapImportErrorKind::OpenFileError(a, b),
                PcapImportError::ReadPacketError(a, b) => r == PcapImportErrorKind::ReadPacketError(a, b),
                PcapImportError::UnsupportedLinkType(a, b) => r == PcapImportErrorKind::UnsupportedLinkType(a, b),
                PcapImportError::Cancelled(m) => r == PcapImportErrorKind::Cancelled(m),
            },
    {
        match self {
            PcapImportError::MissingInput(m) => PcapImportErrorKind::MissingInput(m),
            PcapImportError::OpenFileError(a, b) => PcapImportErrorKind::OpenFileError(a, b),
            PcapImportError::ReadPacketError(a, b) => PcapImportErrorKind::ReadPacketError(a, b),
            PcapImportError::UnsupportedLinkType(a, b) => PcapImportErrorKind::UnsupportedLinkType(a, b),
            PcapImportError::Cancelled(m) => PcapImportErrorKind::Cancelled(m),
        }
    }
}

impl CaptureStateError {
    /// The serializable form sent to the front end: each domain under its
    /// own tag with its own kind; a refused transition carries its message.
    pub fn into_kind(self) -> (r: CaptureStateErrorKind)
        ensures
            match self {
                CaptureStateError::Io(m) => r == CaptureStateErrorKind::Io(m),
                CaptureStateError::PoisonError(m) => r == CaptureStateErrorKind::PoisonError(m),
                CaptureStateError::InvalidTransition { from, to } => r matches CaptureStateErrorKind::InvalidTransition(m)
                    && m@ == transition_text(from@, to@),
                CaptureStateError::Capture(e) => r matches CaptureStateErrorKind::Capture(k) && match e {
                    CaptureError::InvalidConfig(m) => k == CaptureErrorKind::InvalidConfig(m),
                    CaptureError::ConfigPersistence(m) => k == CaptureErrorKind::ConfigPersistence(m),
                    CaptureError::InterfaceNotFound(m) => k == CaptureErrorKind::InterfaceNotFound(m),
                    CaptureError::DeviceListError(m) => k == CaptureErrorKind::DeviceListError(m),
                    CaptureError::CaptureInitError(m) => k == CaptureErrorKind::CaptureInitError(m),
                    CaptureError::ChannelSendError(m) => k == CaptureErrorKind::ChannelSendError(m),
                    CaptureError::EventSendError(m) => k == CaptureErrorKind::EventSendError(m),
                    CaptureError::UnsupportedLinkType(m) => k == CaptureErrorKind::UnsupportedLinkType(m),
                    CaptureError::MixedLinkType(m) => k == CaptureErrorKind::MixedLinkType(m),
                },
                CaptureStateError::Export(e) => r matches CaptureStateErrorKind::Export(k) && match e {
                    ExportError::EmptyPath => k == ExportErrorKind::EmptyPath,
                    ExportError::Io(m) => k == ExportErrorKind::Io(m),
                    ExportError::Csv(m) => k == ExportErrorKind::Csv(m),
                    ExportError::Zip(m) => k == ExportErrorKind::Zip(m),
                    ExportError::PoisonError(m) => k == ExportErrorKind::PoisonError(m),
                    ExportError::LogNotFound => k == ExportErrorKind::LogNotFound,
                },
                CaptureStateError::Import(e) => r matches CaptureStateErrorKind::Import(k) && match e {
                    PcapImportError::MissingInput(m) => k == PcapImportErrorKind::MissingInput(m),
                    PcapImportError::OpenFileError(a, b) => k == PcapImportErrorKind::OpenFileError(a, b),
                    PcapImportError::ReadPacketError(a, b) => k == PcapImportErrorKind::ReadPacketError(a, b),
                    PcapImportError::UnsupportedLinkType(a, b) => k == PcapImportErrorKind::UnsupportedLinkType(a, b),
                    PcapImportError::Cancelled(m) => k == PcapImportErrorKind::Cancelled(m),
                },
                CaptureStateError::Label(e) => r matches CaptureStateErrorKind::Label(k) && match e {
                    LabelError::InvalidMacIpFormat { invalid_mac, invalid_ip } => k == LabelErrorKind::InvalidMacIpFormat(invalid_mac, invalid_ip),
                    LabelError::InvalidRowsFormat { invalid_lines } => k == LabelErrorKind::InvalidRowsFormat(invalid_lines),
                    LabelError::LabelLinesConflicts { same_ip_diff_mac, same_ip_diff_label } => k == LabelErrorKind::LabelLinesConflicts(same_ip_diff_mac, same_ip_diff_label),
                    LabelError::EditRejected(reason) => k == LabelErrorKind::EditRejected(reason),
                },
                CaptureStateError::Tauri(m) => r == CaptureStateErrorKind::Tauri(m),
            },
    {
        match self {
            CaptureStateError::Io(m) => CaptureStateErrorKind::Io(m),
            CaptureStateError::PoisonError(m) => CaptureStateErrorKind::PoisonError(m),
            CaptureStateError::InvalidTransition { from, to } => {
                let head = concat3("transition de capture refusée : ", from.as_str(), " → ");
                CaptureStateErrorKind::InvalidTransition(concat2(head.as_str(), to.as_str()))
            },
            CaptureStateError::Capture(e) => CaptureStateErrorKind::Capture(e.into_kind()),
            CaptureStateError::Export(e) => CaptureStateErrorKind::Export(e.into_kind()),
            CaptureStateError::Import(e) => CaptureStateErrorKind::Import(e.into_kind()),
            CaptureStateError::Label(e) => CaptureStateErrorKind::Label(e.into_kind()),
            CaptureStateError::Tauri(m) => CaptureStateErrorKind::Tauri(m),
        }
    }

    /// The application error of a batch-operation error: the capture file
    /// errors become import errors (open, read, unsupported link type), a
    /// missing input becomes the import's missing input, an input/output
    /// error stays one, and any other error becomes an input/output error
    /// carrying its message.
    pub fn from_core_error(err: SonarCoreError) -> (r: CaptureStateError)
        ensures
            match err {
                SonarCoreError::PcapOpen { path, message } => r matches CaptureStateError::Import(PcapImportError::OpenFileError(p, m))
                    && p@ == path@ && m@ == message@,
                SonarCoreError::PcapRead { path, message } => r matches CaptureStateError::Import(PcapImportError::ReadPacketError(p, m))
                    && p@ == path@ && m@ == message@,
                SonarCoreError::UnsupportedLinkType { path, label } => r matches CaptureStateError::Import(PcapImportError::UnsupportedLinkType(p, l))
                    && p@ == path@ && l@ == label@,
                SonarCoreError::MissingInput => r matches CaptureStateError::Import(PcapImportError::MissingInput(m))
                    && m@ == "cet import"@,
                SonarCoreError::Io(message) => r matches CaptureStateError::Io(m) && m@ == message@,
                other => r matches CaptureStateError::Io(m) && m@ == core_error_text(other),
            },
    {
        match err {
            SonarCoreError::PcapOpen { path, message } => CaptureStateError::Import(PcapImportError::OpenFileError(path, message)),
            SonarCoreError::PcapRead { path, message } => CaptureStateError::Import(PcapImportError::ReadPacketError(path, message)),
            SonarCoreError::UnsupportedLinkType { path, label } => CaptureStateError::Import(PcapImportError::UnsupportedLinkType(path, label)),
            SonarCoreError::MissingInput => CaptureStateError::Import(PcapImportError::MissingInput("cet import".to_owned())),
            SonarCoreError::Io(message) => CaptureStateError::Io(message),
            other => {
                let m = other.message();
                CaptureStateError::Io(m)
            },
        }
    }
}

/// Failure of the former capture-file conversion command.
#[derive(Debug)]
pub enum PcapProcessingError {
    /// The capture file cannot be opened: path, then reason.
    OpenFileError(String, String),
}

/// Text of a [`PcapProcessingError`].
pub open spec fn processing_error_text(e: PcapProcessingError) -> Seq<char> {
    match e {
        PcapProcessingError::OpenFileError(path, reason) => "Failed to open pcap file "@ + path@ + ": "@ + reason@,
    }
}

impl PcapProcessingError {
    /// The message shown to the user.
    pub fn message(&self) -> (r: String)
        ensures
            r@ == processing_error_text(*self),
    {
        match self {
            PcapProcessingError::OpenFileError(path, reason) => {
                let head = crate::text::concat2("Failed to open pcap file ", path.as_str());
                crate::text::concat3(head.as_str(), ": ", reason.as_str())
            },
        }
    }
}

} // verus!
