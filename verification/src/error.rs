//! Error types shared across oxenDB.

use vstd::prelude::*;
use vstd::string::*;

verus! {

/// Convenience alias for results returned by oxenDB.
pub type Result<T> = std::result::Result<T, Error>;

/// The operating system's error. Nothing is known of its contents; it is
/// carried from the call that failed to the caller.
#[verifier::external_type_specification]
#[verifier::external_body]
pub struct ExIoError(std::io::Error);

/// Errors produced by oxenDB.
///
/// Variants describe *what kind* of failure happened so callers can react to
/// it (retry an I/O error, refuse to open a corrupt file). The attached
/// message is for humans and carries the specifics.
#[derive(Debug)]
#[non_exhaustive]
pub enum Error {
    /// An operating system I/O call failed.
    Io(std::io::Error),
    /// On-disk data failed validation: bad checksum, bad magic number,
    /// impossible field value. The file should not be trusted.
    Corruption(String),
    /// The file was written by an incompatible version of oxenDB.
    UnsupportedFormat(String),
    /// The caller passed an argument that violates an API contract.
    InvalidArgument(String),
    /// A fixed-size resource (for example, buffer pool frames) is exhausted.
    ResourceExhausted(String),
    /// An earlier failure left the state unknown; reopening recovers.
    Poisoned(String),
}

/// An [`Error`] with its message as a sequence of characters.
pub enum ErrorView {
    Io(std::io::Error),
    Corruption(Seq<char>),
    UnsupportedFormat(Seq<char>),
    InvalidArgument(Seq<char>),
    ResourceExhausted(Seq<char>),
    Poisoned(Seq<char>),
}

impl View for Error {
    type V = ErrorView;

    open spec fn view(&self) -> ErrorView {
        match *self {
            Error::Io(err) => ErrorView::Io(err),
            Error::Corruption(msg) => ErrorView::Corruption(msg@),
            Error::UnsupportedFormat(msg) => ErrorView::UnsupportedFormat(msg@),
            Error::InvalidArgument(msg) => ErrorView::InvalidArgument(msg@),
            Error::ResourceExhausted(msg) => ErrorView::ResourceExhausted(msg@),
            Error::Poisoned(msg) => ErrorView::Poisoned(msg@),
        }
    }
}

/// Writes an operating system error as text with its `Display` impl. The
/// text depends on the operating system and its locale, so nothing is
/// claimed of it.
#[verifier::external_body]
fn io_error_text(err: &std::io::Error) -> (text: String)
{
    format!("{}", err)
}

/// The text of an error, given the text of the operating system error it
/// holds, if it holds one.
pub open spec fn display_chars(err: ErrorView, io_text: Seq<char>) -> Seq<char> {
    match err {
        ErrorView::Io(_) => "I/O error: "@ + io_text,
        ErrorView::Corruption(msg) => "data corruption detected: "@ + msg,
        ErrorView::UnsupportedFormat(msg) => "unsupported file format: "@ + msg,
        ErrorView::InvalidArgument(msg) => "invalid argument: "@ + msg,
        ErrorView::ResourceExhausted(msg) => "resource exhausted: "@ + msg,
        ErrorView::Poisoned(msg) => "poisoned: "@ + msg,
    }
}

impl Error {
    /// Builds a [`Error::Corruption`] from a message.
    pub fn corruption(msg: &str) -> (err: Self)
        ensures
            err@ == ErrorView::Corruption(msg@),
    {
        Error::Corruption(msg.to_owned())
    }

    /// The error as text, with `io_text` standing for the operating system
    /// error if there is one.
    pub fn display_with(&self, io_text: &str) -> (text: String)
        ensures
            text@ == display_chars(self@, io_text@),
    {
        let kind: &str;
        let detail: &str;
        match self {
            Error::Io(_) => {
                kind = "I/O error: ";
                detail = io_text;
            },
            Error::Corruption(msg) => {
                kind = "data corruption detected: ";
                detail = msg.as_str();
            },
            Error::UnsupportedFormat(msg) => {
                kind = "unsupported file format: ";
                detail = msg.as_str();
            },
            Error::InvalidArgument(msg) => {
                kind = "invalid argument: ";
                detail = msg.as_str();
            },
            Error::ResourceExhausted(msg) => {
                kind = "resource exhausted: ";
                detail = msg.as_str();
            },
            Error::Poisoned(msg) => {
                kind = "poisoned: ";
                detail = msg.as_str();
            },
        }
        let mut text = kind.to_owned();
        text.append(detail);
        text
    }

    /// The error as text: its kind, then the details.
    pub fn to_string(&self) -> (text: String)
        ensures
            self !is Io ==> text@ == display_chars(self@, Seq::empty()),
            exists|io_text: Seq<char>| text@ == #[trigger] display_chars(self@, io_text),
    {
        match self {
            Error::Io(err) => {
                let io_text = io_error_text(err);
                self.display_with(io_text.as_str())
            },
            _ => self.display_with(""),
        }
    }

    /// The operating system error behind this one, if there is one.
    pub fn source(&self) -> (source: Option<&std::io::Error>)
        ensures
            match self {
                Error::Io(err) => source == Some(err),
                _ => source is None,
            },
    {
        match self {
            Error::Io(err) => Some(err),
            _ => None,
        }
    }
}

impl From<std::io::Error> for Error {
    fn from(err: std::io::Error) -> (r: Self) {
        Error::Io(err)
    }
}

impl vstd::std_specs::convert::FromSpecImpl<std::io::Error> for Error {
    open spec fn obeys_from_spec() -> bool {
        true
    }

    open spec fn from_spec(err: std::io::Error) -> Self {
        Error::Io(err)
    }
}

/// The message of an error; of an operating system error, its text.
pub open spec fn detail(err: ErrorView, io_text: Seq<char>) -> Seq<char> {
    match err {
        ErrorView::Io(_) => io_text,
        ErrorView::Corruption(msg) => msg,
        ErrorView::UnsupportedFormat(msg) => msg,
        ErrorView::InvalidArgument(msg) => msg,
        ErrorView::ResourceExhausted(msg) => msg,
        ErrorView::Poisoned(msg) => msg,
    }
}

/// The text of an error ends with its message, and its first character tells
/// the kind.
pub proof fn lemma_display_tells_kind_and_detail(err: ErrorView, io_text: Seq<char>)
    ensures
        ({
            let text = display_chars(err, io_text);
            let start = text.len() - detail(err, io_text).len();
            &&& start > 0
            &&& text.skip(start) == detail(err, io_text)
            &&& text[0] == match err {
                ErrorView::Io(_) => 'I',
                ErrorView::Corruption(_) => 'd',
                ErrorView::UnsupportedFormat(_) => 'u',
                ErrorView::InvalidArgument(_) => 'i',
                ErrorView::ResourceExhausted(_) => 'r',
                ErrorView::Poisoned(_) => 'p',
            }
        }),
{
    reveal_strlit("I/O error: ");
    reveal_strlit("data corruption detected: ");
    reveal_strlit("unsupported file format: ");
    reveal_strlit("invalid argument: ");
    reveal_strlit("resource exhausted: ");
    reveal_strlit("poisoned: ");
    let text = display_chars(err, io_text);
    let start = text.len() - detail(err, io_text).len();
    assert(text.skip(start) =~= detail(err, io_text));
}

} // verus!
