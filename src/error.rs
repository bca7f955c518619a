use vstd::prelude::*;

verus! {

/// Failures produced while decoding or encoding transaction records.
///
/// Payload strings name what went wrong: the reason of a structural
/// violation, the offending token, or the missing key.
#[derive(Debug, Clone)]
pub enum ParseError {
    /// A read or write on the underlying byte stream failed, or the stream
    /// ended inside a record.
    Io(String),
    /// Bytes that must hold text are not valid UTF-8.
    Utf8,
    /// A field that must hold a base-10 integer does not; the payload is the field's text.
    ParseInt(String),
    /// The input breaks the layout of the format.
    InvalidFormat(String),
    /// An unknown transaction type token or code.
    InvalidTransactionType(String),
    /// An unknown transaction status token or code.
    InvalidTransactionStatus(String),
    /// A binary record does not start with the magic bytes.
    InvalidMagic,
    /// Reserved for a record whose declared size disagrees with its content.
    RecordSizeMismatch,
    /// A required key is absent from a text block.
    MissingField(String),
}

/// The mathematical value of a [`ParseError`]: the same variants over character sequences.
pub enum ErrorView {
    Io(Seq<char>),
    Utf8,
    ParseInt(Seq<char>),
    InvalidFormat(Seq<char>),
    InvalidTransactionType(Seq<char>),
    InvalidTransactionStatus(Seq<char>),
    InvalidMagic,
    RecordSizeMismatch,
    MissingField(Seq<char>),
}

impl View for ParseError {
    type V = ErrorView;

    open spec fn view(&self) -> ErrorView {
        match self {
            ParseError::Io(s) => ErrorView::Io(s@),
            ParseError::Utf8 => ErrorView::Utf8,
            ParseError::ParseInt(s) => ErrorView::ParseInt(s@),
            ParseError::InvalidFormat(s) => ErrorView::InvalidFormat(s@),
            ParseError::InvalidTransactionType(s) => ErrorView::InvalidTransactionType(s@),
            ParseError::InvalidTransactionStatus(s) => ErrorView::InvalidTransactionStatus(s@),
            ParseError::InvalidMagic => ErrorView::InvalidMagic,
            ParseError::RecordSizeMismatch => ErrorView::RecordSizeMismatch,
            ParseError::MissingField(s) => ErrorView::MissingField(s@),
        }
    }
}

/// Result type of the decoding and encoding operations.
pub type ParseResult<T> = Result<T, ParseError>;

} // verus!
