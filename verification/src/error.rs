//! The error of a scan, and the ways in which one comes about.

use id3::Error as Id3Error;
use metaflac::Error as FlacError;
use vstd::prelude::*;
use vstd::string::StringExecFns;
use vstd::utf8::{decode_utf8, valid_utf8};

verus! {

/// `std::io::Error`. Nothing of what it holds is read here.
#[verifier::external_type_specification]
#[verifier::external_body]
pub struct ExIoError(std::io::Error);

/// `metaflac::Error`. Nothing of what it holds is read here.
#[verifier::external_type_specification]
#[verifier::external_body]
pub struct ExFlacError(FlacError);

/// `id3::Error`. Nothing of what it holds is read here.
#[verifier::external_type_specification]
#[verifier::external_body]
pub struct ExId3Error(Id3Error);

/// What went wrong, and at which path.
#[derive(Clone, Debug, PartialEq, Eq)]
pub struct Error {
    what: &'static str,
    path: String,
}

/// An `Error` as a mathematical value.
pub ghost struct ErrorView {
    pub what: Seq<char>,
    pub path: Seq<char>,
}

impl View for Error {
    type V = ErrorView;

    closed spec fn view(&self) -> ErrorView {
        ErrorView { what: self.what@, path: self.path@ }
    }
}

/// The text that `String::from_utf8_lossy` makes of a byte string.
pub uninterp spec fn utf8_lossy(bytes: Seq<u8>) -> Seq<char>;

/// The text that the `Debug` format of `str` makes of a text: the text in
/// double quotes, with escapes.
pub uninterp spec fn debug_quoted(text: Seq<char>) -> Seq<char>;

/// The error for a failure of the file system. It names no path.
pub open spec fn io_failure() -> ErrorView {
    ErrorView { what: "i/o error"@, path: Seq::empty() }
}

/// The error for `what` having gone wrong at `path`.
pub open spec fn failure_at(what: Seq<char>, path: Seq<u8>) -> ErrorView {
    ErrorView { what, path: utf8_lossy(path) }
}

/// Calls `String::from_utf8_lossy`. Well-formed UTF-8 is decoded as it is;
/// of other input the contract only names the result.
#[verifier::external_body]
fn lossy_text(bytes: &[u8]) -> (text: String)
    ensures
        text@ == utf8_lossy(bytes@),
        valid_utf8(bytes@) ==> text@ == decode_utf8(bytes@),
{
    String::from_utf8_lossy(bytes).into_owned()
}

/// Formats a text with `{:?}`. The contract names the result.
#[verifier::external_body]
fn quoted(text: &str) -> (out: String)
    ensures
        out@ == debug_quoted(text@),
{
    format!("{:?}", text)
}

impl ErrorView {
    /// The one-line rendering of an error.
    pub open spec fn rendered(self) -> Seq<char> {
        "Error { what: "@ + debug_quoted(self.what) + ", path: "@ + debug_quoted(self.path)
            + " }"@
    }
}

impl Error {
    pub fn what(&self) -> (what: &'static str)
        ensures
            what@ == self@.what,
    {
        self.what
    }

    pub fn path(&self) -> (path: &str)
        ensures
            path@ == self@.path,
    {
        self.path.as_str()
    }

    /// A fixed summary, the same for every error.
    pub fn description(&self) -> (text: &'static str)
        ensures
            text@ == "missing some metadata"@,
    {
        "missing some metadata"
    }

    /// The error on one line, both fields quoted as `Debug` quotes a string.
    pub fn to_text(&self) -> (text: String)
        ensures
            text@ == self@.rendered(),
    {
        let mut text = String::from_str("Error { what: ");
        let what = quoted(self.what);
        text.append(what.as_str());
        text.append(", path: ");
        let path = quoted(self.path.as_str());
        text.append(path.as_str());
        text.append(" }");
        text
    }
}

impl From<std::io::Error> for Error {
    /// The path that the failure concerns is not kept.
    fn from(cause: std::io::Error) -> (e: Error)
        ensures
            e@ == io_failure(),
    {
        Error { what: "i/o error", path: String::new() }
    }
}

/// What `from` returns is stated over the view, in its own `ensures`: of two
/// errors with the same view it is not known that they are one value, so no
/// value can be named here that `from` would provably return.
impl vstd::std_specs::convert::FromSpecImpl<std::io::Error> for Error {
    open spec fn obeys_from_spec() -> bool {
        false
    }

    open spec fn from_spec(cause: std::io::Error) -> Error {
        choose|e: Error| e@ == io_failure()
    }
}

/// Prepares the error for a tag that lacks `what`, at `path`.
pub fn missing(what: &'static str, path: &[u8]) -> (make: impl FnOnce() -> Error)
    ensures
        call_requires(make, ()),
        forall|e: Error| call_ensures(make, (), e) ==> e@ == failure_at(what@, path@),
{
    let path = lossy_text(path);
    move || -> (e: Error)
        ensures
            e@ == (ErrorView { what: what@, path: path@ }),
        { Error { what, path } }
}

/// Prepares the error for a FLAC file at `path` whose tag could not be read.
pub fn failed_flac(path: &[u8]) -> (make: impl FnOnce(FlacError) -> Error)
    ensures
        forall|cause: FlacError| call_requires(make, (cause,)),
        forall|cause: FlacError, e: Error| call_ensures(make, (cause,), e)
            ==> e@ == failure_at("failed to read flac tags"@, path@),
{
    let what = "failed to read flac tags";
    let path = lossy_text(path);
    move |cause: FlacError| -> (e: Error)
        ensures
            e@ == (ErrorView { what: what@, path: path@ }),
        { Error { what, path } }
}

/// Prepares the error for an MP3 file at `path` whose tag could not be read.
pub fn failed_id3(path: &[u8]) -> (make: impl FnOnce(Id3Error) -> Error)
    ensures
        forall|cause: Id3Error| call_requires(make, (cause,)),
        forall|cause: Id3Error, e: Error| call_ensures(make, (cause,), e)
            ==> e@ == failure_at("failed to read id3 tags"@, path@),
{
    let what = "failed to read id3 tags";
    let path = lossy_text(path);
    move |cause: Id3Error| -> (e: Error)
        ensures
            e@ == (ErrorView { what: what@, path: path@ }),
        { Error { what, path } }
}

} // verus!
