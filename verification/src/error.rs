//! Errors of the batch operations (conversion, merge, import), and the
//! validation of a batch of input paths.

use vstd::prelude::*;

use crate::text::{concat2, concat3, dec_digits, push_dec, string_of};

verus! {

/// Error of a batch operation.
#[derive(Debug)]
pub enum SonarCoreError {
    /// At least one input file is required.
    MissingInput,
    /// An output path is required.
    MissingOutput,
    /// An input file does not exist.
    MissingInputFile(String),
    /// A matrix file is invalid (the message names the line).
    InvalidCsv { path: String, message: String },
    /// A matrix row already read cannot be rebuilt in the announced link type.
    InvalidMatrixRow(String),
    /// Input/output error, by its message.
    Io(String),
    /// A capture file cannot be opened.
    PcapOpen { path: String, message: String },
    /// A read error in the middle of a capture file (truncated, corrupted).
    PcapRead { path: String, message: String },
    /// A link type without decoder.
    UnsupportedLinkType { path: String, label: String },
    /// Merging surveys of different link types (codes `LINKTYPE_*`).
    MixedLinkTypes { path: String, found: u32, expected: u32 },
    /// A survey whose link type has no identity projection.
    UnreimportableLinkType { path: String, label: String },
}

/// Text of `n` in base 10.
pub fn decimal_text(n: u64) -> (r: String)
    ensures
        r@ == dec_digits(n as nat),
{
    let mut v: Vec<char> = Vec::new();
    push_dec(&mut v, n);
    assert(v@ =~= dec_digits(n as nat));
    string_of(&v)
}

/// The message of an error, as shown to the user.
pub open spec fn core_error_text(e: SonarCoreError) -> Seq<char> {
    match e {
        SonarCoreError::MissingInput => "at least one input file is required"@,
        SonarCoreError::MissingOutput => "output path is required"@,
        SonarCoreError::MissingInputFile(path) => "input file does not exist: "@ + path@,
        SonarCoreError::InvalidCsv { path, message } => path@ + ": "@ + message@,
        SonarCoreError::InvalidMatrixRow(message) => "ligne de matrice non reconstructible : "@ + message@,
        SonarCoreError::Io(message) => message@,
        SonarCoreError::PcapOpen { path, message } => path@ + ": "@ + message@,
        SonarCoreError::PcapRead { path, message } => path@ + ": "@ + message@,
        SonarCoreError::UnsupportedLinkType { path, label } => path@ + ": type de liaison non supporté : "@ + label@,
        SonarCoreError::MixedLinkTypes { path, found, expected } => path@ + ": type de liaison "@ + dec_digits(found as nat)
            + " incompatible avec le relevé en cours ("@ + dec_digits(expected as nat)
            + ") : une fusion ne concerne que des relevés du même réseau (même type de liaison)"@,
        SonarCoreError::UnreimportableLinkType { path, label } => path@ + ": relevé "@ + label@
            + " non réimportable : aucune projection d'identité SFMS n'est définie pour ce type de liaison"@,
    }
}

impl SonarCoreError {
    /// The message shown to the user.
    pub fn message(&self) -> (r: String)
        ensures
            r@ == core_error_text(*self),
    {
        match self {
            SonarCoreError::MissingInput => "at least one input file is required".to_owned(),
            SonarCoreError::MissingOutput => "output path is required".to_owned(),
            SonarCoreError::MissingInputFile(path) => concat2("input file does not exist: ", path.as_str()),
            SonarCoreError::InvalidCsv { path, message } => concat3(path.as_str(), ": ", message.as_str()),
            SonarCoreError::InvalidMatrixRow(message) => concat2(
                "ligne de matrice non reconstructible : ",
                message.as_str(),
            ),
            SonarCoreError::Io(message) => message.clone(),
            SonarCoreError::PcapOpen { path, message } => concat3(path.as_str(), ": ", message.as_str()),
            SonarCoreError::PcapRead { path, message } => concat3(path.as_str(), ": ", message.as_str()),
            SonarCoreError::UnsupportedLinkType { path, label } => concat3(
                path.as_str(),
                ": type de liaison non supporté : ",
                label.as_str(),
            ),
            SonarCoreError::MixedLinkTypes { path, found, expected } => {
                let found = decimal_text(*found as u64);
                let expected = decimal_text(*expected as u64);
                let a = concat3(path.as_str(), ": type de liaison ", found.as_str());
                let b = concat3(a.as_str(), " incompatible avec le relevé en cours (", expected.as_str());
                concat2(
                    b.as_str(),
                    ") : une fusion ne concerne que des relevés du même réseau (même type de liaison)",
                )
            },
            SonarCoreError::UnreimportableLinkType { path, label } => {
                let a = concat3(path.as_str(), ": relevé ", label.as_str());
                concat2(
                    a.as_str(),
                    " non réimportable : aucune projection d'identité SFMS n'est définie pour ce type de liaison",
                )
            },
        }
    }
}

/// Whether the file `path` exists (`Path::exists`). The answer depends on
/// the disk at the time of the call; nothing is stated of it.
#[verifier::external_body]
fn path_exists(path: &str) -> bool {
    std::path::Path::new(path).exists()
}

/// Verdict on a batch of paths, given whether each input exists: no
/// input, then an empty output, then the first missing input, are refused.
pub fn check_batch_paths(inputs: &[String], output: &str, exists: &[bool]) -> (r: Result<
    (),
    SonarCoreError,
>)
    requires
        exists@.len() == inputs@.len(),
    ensures
        inputs@.len() == 0 ==> r matches Err(SonarCoreError::MissingInput),
        inputs@.len() > 0 && output@.len() == 0 ==> r matches Err(SonarCoreError::MissingOutput),
        inputs@.len() > 0 && output@.len() > 0 ==> match r {
            Ok(()) => forall|i: int| 0 <= i < exists@.len() ==> #[trigger] exists@[i],
            Err(SonarCoreError::MissingInputFile(p)) => exists|i: int|
                0 <= i < exists@.len() && !#[trigger] exists@[i] && p@ == inputs@[i]@ && forall|j: int|
                    0 <= j < i ==> exists@[j],
            _ => false,
        },
{
    if inputs.len() == 0 {
        return Err(SonarCoreError::MissingInput);
    }
    if output.is_empty() {
        return Err(SonarCoreError::MissingOutput);
    }
    let mut i: usize = 0;
    while i < inputs.len()
        invariant
            i <= inputs@.len(),
            exists@.len() == inputs@.len(),
            output@.len() > 0,
            forall|j: int| 0 <= j < i ==> exists@[j],
        decreases inputs@.len() - i,
    {
        if !exists[i] {
            return Err(SonarCoreError::MissingInputFile(inputs[i].clone()));
        }
        i = i + 1;
    }
    Ok(())
}

/// Checks a batch of input paths and an output path: inputs required, an
/// output path required, every input must exist.
pub fn validate_batch_paths(inputs: &[String], output: &str) -> (r: Result<(), SonarCoreError>)
    ensures
        inputs@.len() == 0 ==> r matches Err(SonarCoreError::MissingInput),
        inputs@.len() > 0 && output@.len() == 0 ==> r matches Err(SonarCoreError::MissingOutput),
        inputs@.len() > 0 && output@.len() > 0 ==> match r {
            Ok(()) => true,
            Err(SonarCoreError::MissingInputFile(p)) => exists|i: int|
                0 <= i < inputs@.len() && p@ == (#[trigger] inputs@[i])@,
            _ => false,
        },
{
    let mut exists: Vec<bool> = Vec::new();
    let mut i: usize = 0;
    while i < inputs.len()
        invariant
            i <= inputs@.len(),
            exists@.len() == i,
        decreases inputs@.len() - i,
    {
        exists.push(path_exists(inputs[i].as_str()));
        i = i + 1;
    }
    check_batch_paths(inputs, output, exists.as_slice())
}

/// A request to merge matrix files into one.
#[derive(Debug)]
pub struct MatrixMergeRequest {
    pub inputs: Vec<String>,
    pub output: String,
}

impl MatrixMergeRequest {
    /// Builds a merge request once its paths are validated
    /// ([`validate_batch_paths`]).
    pub fn new(inputs: Vec<String>, output: String) -> (r: Result<MatrixMergeRequest, SonarCoreError>)
        ensures
            inputs@.len() == 0 ==> r matches Err(SonarCoreError::MissingInput),
            inputs@.len() > 0 && output@.len() == 0 ==> r matches Err(SonarCoreError::MissingOutput),
            r matches Ok(req) ==> req.inputs@ == inputs@ && req.output@ == output@ && inputs@.len()
                > 0 && output@.len() > 0,
            r matches Err(SonarCoreError::MissingInputFile(p)) ==> exists|i: int|
                0 <= i < inputs@.len() && p@ == (#[trigger] inputs@[i])@,
    {
        match validate_batch_paths(inputs.as_slice(), output.as_str()) {
            Ok(()) => Ok(MatrixMergeRequest { inputs, output }),
            Err(e) => Err(e),
        }
    }
}

} // verus!
