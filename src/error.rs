//! What can go wrong when encoding or decoding VICI data.
use vstd::prelude::*;

verus! {

#[verifier::external_type_specification]
#[verifier::external_body]
pub struct ExIoError(std::io::Error);

/// The broad class of an [`Error`].
#[derive(Clone, Copy, Debug, PartialEq, Eq, Structural)]
pub enum Category {
    /// Reading or writing bytes on a stream failed.
    Io,
    /// The data is not valid VICI, or does not fit the value it is read into.
    Data,
    /// The input ended before the message was complete.
    Eof,
}

/// What exactly went wrong.
#[derive(Debug)]
pub enum ErrorCode {
    /// The underlying byte source or sink failed.
    Io(std::io::Error),
    /// An error raised while a value was built or taken apart.
    Message(String),
    /// The input ended where an element tag was expected.
    EofWhileParsingElementType,
    /// The input ended inside a key.
    EofWhileParsingKey,
    /// The input ended inside a value.
    EofWhileParsingValue,
    /// A key or value is not valid UTF-8.
    InvalidUnicodeCodePoint,
    /// A tag byte is none of the six element types.
    InvalidElementType,
    /// A valid tag stands where the grammar does not allow it.
    UnexpectedElementType,
    /// A boolean value is neither `yes` nor `no`.
    InvalidBool,
    /// The operation does not fit the current position in the message.
    UnexpectedState,
    /// A key longer than 255 bytes or a value longer than 65535 bytes.
    LengthOverflow,
    /// A value that the wire format cannot hold: a top level that is not a
    /// map, a list that mixes scalars and sections, or a nested list.
    Unsupported,
}

/// The category of an error code.
pub open spec fn category_of(code: ErrorCode) -> Category {
    match code {
        ErrorCode::Io(_) => Category::Io,
        ErrorCode::EofWhileParsingElementType
        | ErrorCode::EofWhileParsingKey
        | ErrorCode::EofWhileParsingValue => Category::Eof,
        _ => Category::Data,
    }
}

/// An error of the codec: its code, the offending input byte where there is
/// one, and the zero-based byte offset at which it was detected.
#[derive(Debug)]
pub struct Error {
    pub code: ErrorCode,
    pub input: Option<u8>,
    pub pos: Option<usize>,
}

/// A result whose error is an [`Error`].
pub type Result<T> = core::result::Result<T, Error>;

/// The short text that names an error code.
pub open spec fn description_of(code: ErrorCode) -> Seq<char> {
    match code {
        ErrorCode::Io(_) => "IO error"@,
        ErrorCode::Message(_) => "invalid data"@,
        ErrorCode::EofWhileParsingElementType => "EOF while parsing element type"@,
        ErrorCode::EofWhileParsingKey => "EOF while parsing key"@,
        ErrorCode::EofWhileParsingValue => "EOF while parsing value"@,
        ErrorCode::InvalidUnicodeCodePoint => "invalid unicode code point"@,
        ErrorCode::InvalidElementType => "invalid element type"@,
        ErrorCode::UnexpectedElementType => "unexpected element type"@,
        ErrorCode::InvalidBool => "invalid boolean"@,
        ErrorCode::UnexpectedState => "operation not valid here"@,
        ErrorCode::LengthOverflow => "key or value too long"@,
        ErrorCode::Unsupported => "value not supported"@,
    }
}

impl ErrorCode {
    /// A short text that names the code.
    pub fn description(&self) -> (r: &'static str)
        ensures
            r@ == description_of(*self),
    {
        match self {
            ErrorCode::Io(_) => "IO error",
            ErrorCode::Message(_) => "invalid data",
            ErrorCode::EofWhileParsingElementType => "EOF while parsing element type",
            ErrorCode::EofWhileParsingKey => "EOF while parsing key",
            ErrorCode::EofWhileParsingValue => "EOF while parsing value",
            ErrorCode::InvalidUnicodeCodePoint => "invalid unicode code point",
            ErrorCode::InvalidElementType => "invalid element type",
            ErrorCode::UnexpectedElementType => "unexpected element type",
            ErrorCode::InvalidBool => "invalid boolean",
            ErrorCode::UnexpectedState => "operation not valid here",
            ErrorCode::LengthOverflow => "key or value too long",
            ErrorCode::Unsupported => "value not supported",
        }
    }
}

impl Error {
    /// Zero-based byte index at which the error was detected.
    pub fn position(&self) -> (r: Option<usize>)
        ensures
            r == self.pos,
    {
        self.pos
    }

    /// The offending input byte, where there is one.
    pub fn input(&self) -> (r: Option<u8>)
        ensures
            r == self.input,
    {
        self.input
    }

    /// What exactly went wrong.
    pub fn code(&self) -> (r: &ErrorCode)
        ensures
            r == &self.code,
    {
        &self.code
    }

    /// Categorizes the cause of this error.
    pub fn classify(&self) -> (r: Category)
        ensures
            r == category_of(self.code),
    {
        match self.code {
            ErrorCode::Io(_) => Category::Io,
            ErrorCode::EofWhileParsingElementType
            | ErrorCode::EofWhileParsingKey
            | ErrorCode::EofWhileParsingValue => Category::Eof,
            _ => Category::Data,
        }
    }

    /// Whether reading or writing bytes on a stream failed.
    pub fn is_io(&self) -> (r: bool)
        ensures
            r == (category_of(self.code) == Category::Io),
    {
        self.classify() == Category::Io
    }

    /// Whether the data was invalid.
    pub fn id_data(&self) -> (r: bool)
        ensures
            r == (category_of(self.code) == Category::Data),
    {
        self.classify() == Category::Data
    }

    /// Whether the input ended too early.
    pub fn is_eof(&self) -> (r: bool)
        ensures
            r == (category_of(self.code) == Category::Eof),
    {
        self.classify() == Category::Eof
    }

    /// An error of the byte source or sink.
    pub fn io(e: std::io::Error, pos: Option<usize>) -> (r: Error)
        ensures
            r.code matches ErrorCode::Io(_),
            r.input.is_none(),
            r.pos == pos,
    {
        Error { code: ErrorCode::Io(e), input: None, pos }
    }

    /// An error of the data.
    pub fn data(code: ErrorCode, input: Option<u8>, pos: Option<usize>) -> (r: Error)
        ensures
            r == (Error { code, input, pos }),
    {
        Error { code, input, pos }
    }
}

/// An error that carries a message of the value being built or taken apart.
pub fn make_error(msg: String, pos: Option<usize>) -> (r: Error)
    ensures
        r.code == ErrorCode::Message(msg),
        r.input.is_none(),
        r.pos == pos,
{
    let input = None;
    let code = ErrorCode::Message(msg);
    Error { code, input, pos }
}

} // verus!
