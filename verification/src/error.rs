//! The ways in which an operation of the engine fails.
use vstd::prelude::*;
use vstd::string::StringExecFns;

verus! {

/// Why an operation gave no result. An operation hands one of these back to its
/// caller; none of them ends the process, and none is retried by the engine.
#[derive(Clone, Debug, PartialEq, Eq)]
pub enum EngineError {
    /// A descriptor was asked of no points at all.
    EmptyInput,
    /// A ranking was asked against no selected image.
    EmptySelection,
    /// A ranking was asked before any cache existed.
    CacheUninitialized,
    /// A selected image has no descriptor in the cache; the identifier is the
    /// first one of the selection of which this is true.
    MissingFeatures(String),
    /// Vectors that must agree in length do not: the cache is inconsistent, or
    /// the caller handed in values that do not fit it.
    LengthMismatch,
    /// The shared cache could not be locked. The engine itself holds no lock
    /// and never gives this error; it is here for the code that guards the
    /// engine, so that callers handle one closed set of errors.
    LockError,
}

impl EngineError {
    /// The words of the message.
    pub open spec fn text(self) -> Seq<char> {
        match self {
            EngineError::EmptyInput => "No points provided"@,
            EngineError::EmptySelection => "No selected images provided"@,
            EngineError::CacheUninitialized => "Cache not initialized"@,
            EngineError::MissingFeatures(id) => "Features not found for selected image: "@ + id@,
            EngineError::LengthMismatch => "Feature vectors have different sizes"@,
            EngineError::LockError => "Failed to lock cache"@,
        }
    }

    /// The error in words, for the user. A missing image is named.
    pub fn message(&self) -> (words: String)
        ensures
            words@ == self.text(),
    {
        match self {
            EngineError::EmptyInput => String::from_str("No points provided"),
            EngineError::EmptySelection => String::from_str("No selected images provided"),
            EngineError::CacheUninitialized => String::from_str("Cache not initialized"),
            EngineError::MissingFeatures(id) => String::from_str(
                "Features not found for selected image: ",
            ).concat(id.as_str()),
            EngineError::LengthMismatch => String::from_str("Feature vectors have different sizes"),
            EngineError::LockError => String::from_str("Failed to lock cache"),
        }
    }
}

} // verus!
