//! Rules of a survey project file: the schema versions a project may have
//! to be opened, and when a crashed session's autosave is offered back.

use vstd::prelude::*;

use crate::error::decimal_text;
use crate::state_errors::PcapImportError;
use crate::text::{concat2, concat3, dec_digits};

verus! {

/// Version of the project schema written and read. A project of a later
/// schema is refused before anything is changed.
pub const PROJECT_SCHEMA_VERSION: u32 = 1;

/// Identity card of a project, written first in the archive and checked
/// before the current survey is replaced.
#[derive(Debug)]
pub struct ProjectManifest {
    pub schema_version: u32,
    pub app_version: String,
    pub sfms_version: String,
    /// Link type of the survey (`None`: empty survey, no link type yet).
    pub dlt: Option<String>,
    pub matrix_rows: usize,
    pub label_rows: usize,
    pub saved_at_epoch_secs: u64,
}

/// Message refusing a project of a later schema.
pub open spec fn future_schema_message(schema: u32, app_version: Seq<char>) -> Seq<char> {
    "projet au schéma v"@ + dec_digits(schema as nat) + " (créé par SONAR "@ + app_version
        + "), cette version ne lit que v"@ + dec_digits(PROJECT_SCHEMA_VERSION as nat)
        + " au plus — mettez SONAR à jour pour l'ouvrir"@
}

/// Checks that the project at `path` has a schema this version reads: a
/// later schema is an open error on that path, naming both versions.
pub fn check_manifest(path: &str, manifest: &ProjectManifest) -> (r: Result<(), PcapImportError>)
    ensures
        manifest.schema_version <= PROJECT_SCHEMA_VERSION ==> r is Ok,
        manifest.schema_version > PROJECT_SCHEMA_VERSION ==> match r {
            Err(PcapImportError::OpenFileError(p, m)) => p@ == path@ && m@ == future_schema_message(
                manifest.schema_version,
                manifest.app_version@,
            ),
            _ => false,
        },
{
    if manifest.schema_version <= PROJECT_SCHEMA_VERSION {
        return Ok(());
    }
    let found = decimal_text(manifest.schema_version as u64);
    let supported = decimal_text(PROJECT_SCHEMA_VERSION as u64);
    let a = concat3("projet au schéma v", found.as_str(), " (créé par SONAR ");
    let b = concat3(a.as_str(), manifest.app_version.as_str(), "), cette version ne lit que v");
    let c = concat3(b.as_str(), supported.as_str(), " au plus — mettez SONAR à jour pour l'ouvrir");
    Err(PcapImportError::OpenFileError(path.to_owned(), c))
}

/// Recovery offered at start-up: the autosave of the previous session when
/// it ended in a crash, none otherwise.
#[derive(Debug)]
pub struct RecoveryOffer(pub Option<String>);

/// A crashed session left its lock file behind; with a readable autosave
/// next to it, that autosave is offered back. A clean exit removes the lock
/// file, so nothing is offered then, and nothing without an autosave.
pub fn detect_recovery(lock_present: bool, autosave_is_file: bool, autosave_path: String) -> (r: RecoveryOffer)
    ensures
        lock_present && autosave_is_file ==> (r.0 matches Some(p) && p@ == autosave_path@),
        !(lock_present && autosave_is_file) ==> r.0 is None,
{
    if lock_present && autosave_is_file {
        RecoveryOffer(Some(autosave_path))
    } else {
        RecoveryOffer(None)
    }
}

/// The path of the autosave offered back, if any.
pub fn get_recovery_offer(offer: &RecoveryOffer) -> (r: Option<String>)
    ensures
        match offer.0 {
            Some(p) => r matches Some(q) && q@ == p@,
            None => r is None,
        },
{
    match &offer.0 {
        Some(p) => Some(p.clone()),
        None => None,
    }
}

} // verus!
