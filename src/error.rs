use vstd::prelude::*;

verus! {

/// Errors of the decoder.
#[derive(Debug, Clone, Copy, PartialEq, Eq, Structural)]
pub enum Error {
    /// The input ended before the stream did.
    IO,
    /// The stream is corrupted.
    Corrupted,
    /// Invalid model values.
    InvalidProperties,
    /// The EOS marker is missing.
    MissingMarker,
    /// The stream has more data but the uncompressed size has been reached.
    HasMoreData,
    /// The stream has finished but the uncompressed size has not been reached.
    NeedMoreData,
    /// The stream has finished unexpectedly with a marker.
    FinishedWithMarker,
}

impl Error {
    /// A sentence that describes the error.
    pub fn description(&self) -> (r: &'static str)
        ensures
            *self == Error::IO ==> r@ == "The input ended before the LZMA stream did."@,
            *self == Error::Corrupted ==> r@ == "The LZMA stream is corrupted."@,
            *self == Error::InvalidProperties ==> r@ == "Invalid model values."@,
            *self == Error::MissingMarker ==> r@ == "The EOS marker is missing."@,
            *self == Error::HasMoreData ==> r@ == "The stream has more data but the uncompressed size has been reached."@,
            *self == Error::NeedMoreData ==> r@ == "The stream has finished but the uncompressed size has not been reached."@,
            *self == Error::FinishedWithMarker ==> r@ == "The stream has finished unexpectedly with a marker."@,
    {
        match self {
            Error::IO => "The input ended before the LZMA stream did.",
            Error::Corrupted => "The LZMA stream is corrupted.",
            Error::InvalidProperties => "Invalid model values.",
            Error::MissingMarker => "The EOS marker is missing.",
            Error::HasMoreData => "The stream has more data but the uncompressed size has been reached.",
            Error::NeedMoreData => "The stream has finished but the uncompressed size has not been reached.",
            Error::FinishedWithMarker => "The stream has finished unexpectedly with a marker.",
        }
    }
}

} // verus!
