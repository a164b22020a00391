//! The error taxonomy of the engine.

use vstd::prelude::*;

verus! {

/// Every failure the engine reports.  All errors are returned as values;
/// no operation of the library panics.
#[derive(Clone, Copy, Debug, PartialEq, Eq, Structural)]
pub enum TokError {
    /// `create` was given a model family outside the supported set.
    UnsupportedModelKind,
    /// A serialized configuration could not be parsed or is inconsistent.
    MalformedConfig,
    /// The bytes of a configuration could not be obtained from its source.
    UnreadableSource,
    /// The input of `encode` is not valid UTF-8, or an unknown fragment was
    /// met while the unknown token itself is absent from the vocabulary.
    EncodeError,
    /// `decode` met an id that has no vocabulary entry.
    UnknownTokenId,
    /// A handle is outside the registry or was already disposed.
    InvalidHandle,
}

impl TokError {
    /// A short diagnostic name for the error.
    pub fn name(&self) -> (r: &'static str)
        ensures
            r@.len() > 0,
    {
        proof {
            reveal_strlit("unsupported model kind");
            reveal_strlit("malformed config");
            reveal_strlit("unreadable source");
            reveal_strlit("encode error");
            reveal_strlit("unknown token id");
            reveal_strlit("invalid handle");
        }
        match self {
            TokError::UnsupportedModelKind => "unsupported model kind",
            TokError::MalformedConfig => "malformed config",
            TokError::UnreadableSource => "unreadable source",
            TokError::EncodeError => "encode error",
            TokError::UnknownTokenId => "unknown token id",
            TokError::InvalidHandle => "invalid handle",
        }
    }
}

} // verus!
