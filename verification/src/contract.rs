//! The vocabulary a content contract speaks: what it is called, what it
//! reads, the issues it names and the errors that stop it.

use vstd::prelude::*;

verus! {

/// What an optional text reads as characters.
pub open spec fn opt_text(o: Option<String>) -> Option<Seq<char>> {
    match o {
        Some(s) => Some(s@),
        None => None,
    }
}

/// An error that stops a contract: it could not be bound, or a Stream
/// could not be read at all.
#[derive(Clone, Debug)]
pub struct ContractError {
    pub message: String,
}

impl ContractError {
    /// An error that says `message`.
    pub fn new(message: String) -> (e: Self)
        ensures
            e.message@ == message@,
    {
        ContractError { message }
    }
}

/// An issue as the contracts speak of it: a code, a message, and the place
/// in the document it concerns, if it has one.
pub struct Issue {
    pub code: Seq<char>,
    pub message: Seq<char>,
    pub path: Option<Seq<char>>,
}

/// One way a Stream departs from the contract.
#[derive(Clone, Debug)]
pub struct ValidationIssue {
    pub code: String,
    pub message: String,
    pub path: Option<String>,
}

impl View for ValidationIssue {
    type V = Issue;

    open spec fn view(&self) -> Issue {
        Issue { code: self.code@, message: self.message@, path: opt_text(self.path) }
    }
}

impl ValidationIssue {
    /// An issue with the given code, message and path.
    pub fn new(code: &str, message: &str, path: Option<String>) -> (i: Self)
        ensures
            i@ == (Issue { code: code@, message: message@, path: opt_text(path) }),
    {
        ValidationIssue { code: code.to_owned(), message: message.to_owned(), path }
    }
}

/// The issues of `v`, as the contracts speak of them.
pub open spec fn issues_view(v: Seq<ValidationIssue>) -> Seq<Issue> {
    v.map_values(|i: ValidationIssue| i@)
}

/// What validating a Stream found: every issue, and whether there were none.
#[derive(Clone, Debug)]
pub struct ValidationResult {
    pub valid: bool,
    pub issues: Vec<ValidationIssue>,
}

impl ValidationResult {
    /// The result that `issues` make: valid exactly when there are none.
    pub fn of(issues: Vec<ValidationIssue>) -> (r: Self)
        ensures
            r.valid == (issues@.len() == 0),
            r.issues@ == issues@,
    {
        let valid = issues.len() == 0;
        ValidationResult { valid, issues }
    }
}

/// The name under which a contract is known.
#[derive(Clone, Debug)]
pub struct ContractId(pub String);

/// What a contract is: its id, its version and the representation it holds
/// Streams to.
#[derive(Clone, Debug)]
pub struct ContractDescriptor {
    pub id: ContractId,
    pub version: String,
    pub representation: String,
}

/// A unit of content in transit: its bytes, and the media type it was
/// declared with, if any.
#[derive(Clone, Debug)]
pub struct Stream {
    bytes: Vec<u8>,
    media_type: Option<String>,
}

impl Stream {
    /// A Stream of `bytes`, declared as `media_type`.
    pub fn new(bytes: Vec<u8>, media_type: Option<String>) -> (s: Self)
        ensures
            s.spec_bytes() == bytes@,
            s.spec_media_type() == opt_text(media_type),
    {
        Stream { bytes, media_type }
    }

    /// The bytes the Stream carries.
    pub closed spec fn spec_bytes(&self) -> Seq<u8> {
        self.bytes@
    }

    /// The media type the Stream was declared with.
    pub closed spec fn spec_media_type(&self) -> Option<Seq<char>> {
        opt_text(self.media_type)
    }

    /// The bytes the Stream carries.
    pub fn bytes(&self) -> (b: &[u8])
        ensures
            b@ == self.spec_bytes(),
    {
        self.bytes.as_slice()
    }

    /// The media type the Stream was declared with.
    pub fn media_type(&self) -> (m: Option<&str>)
        ensures
            match m {
                Some(t) => self.spec_media_type() == Some(t@),
                None => self.spec_media_type() is None,
            },
    {
        match &self.media_type {
            Some(t) => Some(t.as_str()),
            None => None,
        }
    }
}

} // verus!
