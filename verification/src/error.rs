//! What can go wrong.
use vstd::prelude::*;

verus! {

/// Why no recipe fragments could be made.
#[derive(Debug, PartialEq, Eq)]
pub enum RecipeError {
    /// `cargo metadata` failed; what it printed.
    MetadataFailed { stderr: String },
    /// Cargo does not tell the target triple of the host.
    NoHost,
    /// The metadata lacks the dependency graph.
    NoResolve,
    /// No package has the name that was asked for.
    NoPackage { name: String },
    /// No directory up from the start has a lock file; the start, quoted.
    LockNotFound { start: String },
    /// The lock file cannot be read; why.
    BadLockfile { reason: String },
    /// A registry crate has no checksum in the lock file.
    MissingChecksum { name: String, version: String },
}

impl RecipeError {
    /// The message for the user.
    pub open spec fn text(&self) -> Seq<char> {
        match self {
            RecipeError::MetadataFailed { stderr } => "cargo metadata failed: "@ + stderr@,
            RecipeError::NoHost => "cargo does not tell its host"@,
            RecipeError::NoResolve => "metadata missing resolve graph"@,
            RecipeError::NoPackage { name } => "no package named "@ + name@ + " in cargo metadata"@,
            RecipeError::LockNotFound { start } => "Cargo.lock not found (walked up from "@ + start@
                + ")"@,
            RecipeError::BadLockfile { reason } => reason@,
            RecipeError::MissingChecksum { name, version } => "missing checksum for "@ + name@ + " "@
                + version@ + " (not in Cargo.lock?)"@,
        }
    }

    /// The message for the user.
    pub fn message(&self) -> (r: String)
        ensures
            r@ == self.text(),
    {
        let mut out: String = String::new();
        match self {
            RecipeError::MetadataFailed { stderr } => {
                out.append("cargo metadata failed: ");
                out.append(stderr.as_str());
            },
            RecipeError::NoHost => {
                out.append("cargo does not tell its host");
            },
            RecipeError::NoResolve => {
                out.append("metadata missing resolve graph");
            },
            RecipeError::NoPackage { name } => {
                out.append("no package named ");
                out.append(name.as_str());
                out.append(" in cargo metadata");
            },
            RecipeError::LockNotFound { start } => {
                out.append("Cargo.lock not found (walked up from ");
                out.append(start.as_str());
                out.append(")");
            },
            RecipeError::BadLockfile { reason } => {
                out.append(reason.as_str());
            },
            RecipeError::MissingChecksum { name, version } => {
                out.append("missing checksum for ");
                out.append(name.as_str());
                out.append(" ");
                out.append(version.as_str());
                out.append(" (not in Cargo.lock?)");
            },
        }
        assert(out@ =~= self.text());
        out
    }
}

} // verus!
