//! Idempotent patching of compose-style service manifests.
//!
//! The library models a manifest document as a table of named services and a
//! table of named networks, merges routing directives into a service's labels
//! with set-if-absent semantics, ensures the routed network exists and is
//! marked external, and attaches it to the service without duplication.

use vstd::prelude::*;

pub mod dns;
pub mod document;
pub mod keys;
pub mod labels;
pub mod laws;
pub mod port;

verus! {

/// Errors of the manifest patching flow.
#[derive(Clone, Copy, Debug, PartialEq, Eq, Structural)]
pub enum PatchError {
    /// The named service is absent from the document, or present only as an
    /// empty placeholder.
    MissingService,
    /// No manifest file was given and none of the conventional names exists.
    MissingManifestFile,
    /// The manifest file does not parse as a structured document.
    InvalidDocumentSyntax,
    /// A directive value meant as a port does not parse as a 16-bit integer.
    InvalidPortValue,
}

} // verus!
