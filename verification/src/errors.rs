//! Failure values returned by the codec and by thin callers around it.
//!
//! Every failure carries a human-readable description; none is retried and
//! none is logged internally.

use vstd::prelude::*;

verus! {

/// Input text is not a valid document for this schema: malformed layout, a
/// missing key, an extra or ambiguous step key set, or a value of the wrong
/// shape.
#[derive(Debug)]
pub struct DecodingError {
    description: String,
}

impl View for DecodingError {
    type V = Seq<char>;

    /// The description the error carries, as a character sequence.
    closed spec fn view(&self) -> Seq<char> {
        self.description@
    }
}

impl DecodingError {
    /// Builds an error carrying the given description.
    pub fn new(msg: &str) -> (r: DecodingError)
        ensures
            r@ == msg@,
    {
        DecodingError { description: msg.to_owned() }
    }

    /// The human-readable description this error carries.
    pub fn description(&self) -> (r: &str)
        ensures
            r@ == self@,
    {
        self.description.as_str()
    }
}

/// An in-memory value cannot be rendered to text: one of its strings holds a
/// character the line-oriented document format cannot carry.
#[derive(Debug)]
pub struct EncodingError {
    description: String,
}

impl View for EncodingError {
    type V = Seq<char>;

    /// The description the error carries, as a character sequence.
    closed spec fn view(&self) -> Seq<char> {
        self.description@
    }
}

impl EncodingError {
    /// Builds an error carrying the given description.
    pub fn new(msg: &str) -> (r: EncodingError)
        ensures
            r@ == msg@,
    {
        EncodingError { description: msg.to_owned() }
    }

    /// The human-readable description this error carries.
    pub fn description(&self) -> (r: &str)
        ensures
            r@ == self@,
    {
        self.description.as_str()
    }
}

/// A failure surfaced by a thin file-handling caller around the codec.
#[derive(Debug)]
pub struct FileError {
    description: String,
}

impl View for FileError {
    type V = Seq<char>;

    /// The description the error carries, as a character sequence.
    closed spec fn view(&self) -> Seq<char> {
        self.description@
    }
}

impl FileError {
    /// Builds an error carrying the given description.
    pub fn new(msg: &str) -> (r: FileError)
        ensures
            r@ == msg@,
    {
        FileError { description: msg.to_owned() }
    }

    /// The human-readable description this error carries.
    pub fn description(&self) -> (r: &str)
        ensures
            r@ == self@,
    {
        self.description.as_str()
    }
}

impl From<DecodingError> for FileError {
    /// Carries a decoding failure's description over unchanged.
    fn from(e: DecodingError) -> (r: FileError) {
        FileError { description: e.description }
    }
}

impl vstd::std_specs::convert::FromSpecImpl<DecodingError> for FileError {
    open spec fn obeys_from_spec() -> bool {
        true
    }

    closed spec fn from_spec(e: DecodingError) -> FileError {
        (FileError { description: e.description })
    }
}

/// Converting a [`DecodingError`] into a [`FileError`] keeps its description.
pub proof fn lemma_from_decoding_error(e: DecodingError)
    ensures
        <FileError as vstd::std_specs::convert::FromSpec<DecodingError>>::from_spec(e)@ == e@,
{
}

impl From<EncodingError> for FileError {
    /// Carries an encoding failure's description over unchanged.
    fn from(e: EncodingError) -> (r: FileError) {
        FileError { description: e.description }
    }
}

impl vstd::std_specs::convert::FromSpecImpl<EncodingError> for FileError {
    open spec fn obeys_from_spec() -> bool {
        true
    }

    closed spec fn from_spec(e: EncodingError) -> FileError {
        (FileError { description: e.description })
    }
}

/// Converting an [`EncodingError`] into a [`FileError`] keeps its description.
pub proof fn lemma_from_encoding_error(e: EncodingError)
    ensures
        <FileError as vstd::std_specs::convert::FromSpec<EncodingError>>::from_spec(e)@ == e@,
{
}

} // verus!
