use vstd::prelude::*;

verus! {

/// The failure conditions of the formatting core.
///
/// `UnknownDocument` and `DocumentAlreadyExists` come from the document
/// store; `UnsupportedConstruct` is reported when the renderer meets a
/// structural element outside the supported set; `MalformedEventStream` is
/// reported when the event stream breaks the renderer's invariants (for
/// example a paragraph end without a paragraph start), which no well-formed
/// parse can produce.
#[derive(Clone, Copy, Debug, PartialEq, Eq, Structural)]
pub enum Error {
    UnknownDocument,
    DocumentAlreadyExists,
    UnsupportedConstruct,
    MalformedEventStream,
}

impl Error {
    /// The spec-level text of each error.
    pub open spec fn spec_message(self) -> Seq<char> {
        match self {
            Error::UnknownDocument => "unknown document uri"@,
            Error::DocumentAlreadyExists => "document already exists"@,
            Error::UnsupportedConstruct => "unsupported markdown construct"@,
            Error::MalformedEventStream => "malformed event stream"@,
        }
    }

    /// A human-readable description of the error.
    pub fn message(&self) -> (r: &'static str)
        ensures
            r@ == self.spec_message(),
    {
        match self {
            Error::UnknownDocument => "unknown document uri",
            Error::DocumentAlreadyExists => "document already exists",
            Error::UnsupportedConstruct => "unsupported markdown construct",
            Error::MalformedEventStream => "malformed event stream",
        }
    }
}

} // verus!
