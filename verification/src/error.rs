//! Why a patch cannot be applied.
use vstd::prelude::*;

use crate::parser::{parse_error_text, ParseError, ParseErrorModel};
use crate::text::{append_str, chars_of, string_of};

verus! {

/// A failure of the file system.
#[derive(Debug, PartialEq, Eq)]
pub struct IoError {
    /// What was tried.
    pub context: String,
    /// What the file system said.
    pub source: String,
}

/// Why a patch cannot be applied.
#[derive(Debug, PartialEq)]
pub enum ApplyPatchError {
    ParseError(ParseError),
    IoError(IoError),
    /// The lines to replace were not found.
    ComputeReplacements(String),
    /// A patch was given without a call of `apply_patch`.
    ImplicitInvocation,
}

/// What an error holds.
#[verifier::ext_equal]
pub ghost enum ApplyErrorModel {
    Parse(ParseErrorModel),
    Io { context: Seq<char>, source: Seq<char> },
    ComputeReplacements(Seq<char>),
    ImplicitInvocation,
}

impl View for ApplyPatchError {
    type V = ApplyErrorModel;

    open spec fn view(&self) -> ApplyErrorModel {
        match self {
            ApplyPatchError::ParseError(e) => ApplyErrorModel::Parse(e@),
            ApplyPatchError::IoError(e) => ApplyErrorModel::Io {
                context: e.context@,
                source: e.source@,
            },
            ApplyPatchError::ComputeReplacements(message) => ApplyErrorModel::ComputeReplacements(
                message@,
            ),
            ApplyPatchError::ImplicitInvocation => ApplyErrorModel::ImplicitInvocation,
        }
    }
}

/// The text of an error.
pub open spec fn apply_error_text(e: ApplyErrorModel) -> Seq<char> {
    match e {
        ApplyErrorModel::Parse(e) => parse_error_text(e),
        ApplyErrorModel::Io { context, source } => context + ": "@ + source,
        ApplyErrorModel::ComputeReplacements(message) => message,
        ApplyErrorModel::ImplicitInvocation =>
            "patch detected without explicit call to apply_patch. Rerun as [\"apply_patch\", \"<patch>\"]"@,
    }
}

/// The error for a failure of the file system of which nothing more is known.
pub open spec fn io_error(source: Seq<char>) -> ApplyErrorModel {
    ApplyErrorModel::Io { context: "I/O error"@, source }
}

impl IoError {
    /// The text of the failure.
    pub fn to_text(&self) -> (r: String)
        ensures
            r@ == self.context@ + ": "@ + self.source@,
    {
        let mut out: Vec<char> = chars_of(self.context.as_str());
        append_str(&mut out, ": ");
        append_str(&mut out, self.source.as_str());
        string_of(out.as_slice())
    }
}

impl ApplyPatchError {
    /// The error for what the file system said.
    pub fn from_io(source: &str) -> (r: Self)
        ensures
            r@ == io_error(source@),
    {
        ApplyPatchError::IoError(
            IoError { context: "I/O error".to_string(), source: source.to_string() },
        )
    }

    /// The text of the error.
    pub fn to_text(&self) -> (r: String)
        ensures
            r@ == apply_error_text(self@),
    {
        match self {
            ApplyPatchError::ParseError(e) => e.to_text(),
            ApplyPatchError::IoError(e) => e.to_text(),
            ApplyPatchError::ComputeReplacements(message) => message.clone(),
            ApplyPatchError::ImplicitInvocation =>
                "patch detected without explicit call to apply_patch. Rerun as [\"apply_patch\", \"<patch>\"]".to_string(),
        }
    }
}

} // verus!
