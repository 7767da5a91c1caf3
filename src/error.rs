use vstd::prelude::*;

verus! {

/// The kinds of failure that the store reports, each with a stable tag.
#[derive(Debug, Clone, Copy, PartialEq, Eq, Structural)]
pub enum StowrError {
    NotFound,
    AlreadyExists,
    InvalidInput,
    DecodeCorrupt,
    DeltaCorrupt,
    MissingBase,
    NotImplemented,
    IoError,
    IndexError,
    UnknownKey,
}

impl StowrError {
    /// The stable tag of this error kind.
    pub fn tag(&self) -> (r: &'static str)
        ensures
            r@ == self.spec_tag(),
    {
        match self {
            StowrError::NotFound => "NotFound",
            StowrError::AlreadyExists => "AlreadyExists",
            StowrError::InvalidInput => "InvalidInput",
            StowrError::DecodeCorrupt => "DecodeCorrupt",
            StowrError::DeltaCorrupt => "DeltaCorrupt",
            StowrError::MissingBase => "MissingBase",
            StowrError::NotImplemented => "NotImplemented",
            StowrError::IoError => "IoError",
            StowrError::IndexError => "IndexError",
            StowrError::UnknownKey => "UnknownKey",
        }
    }

    /// The tag of each kind, as text.
    pub open spec fn spec_tag(&self) -> Seq<char> {
        match self {
            StowrError::NotFound => "NotFound"@,
            StowrError::AlreadyExists => "AlreadyExists"@,
            StowrError::InvalidInput => "InvalidInput"@,
            StowrError::DecodeCorrupt => "DecodeCorrupt"@,
            StowrError::DeltaCorrupt => "DeltaCorrupt"@,
            StowrError::MissingBase => "MissingBase"@,
            StowrError::NotImplemented => "NotImplemented"@,
            StowrError::IoError => "IoError"@,
            StowrError::IndexError => "IndexError"@,
            StowrError::UnknownKey => "UnknownKey"@,
        }
    }
}

} // verus!
