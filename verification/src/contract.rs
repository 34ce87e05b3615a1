//! What a content contract works with: the stream it is held against, the
//! descriptor that names it, and the result of validating a stream.

use vstd::prelude::*;

verus! {

/// The identifier of a contract, such as `wsdl:OrderService`.
#[derive(Debug)]
pub struct ContractId(pub String);

/// What names a contract: its identifier, version and the representation
/// that it holds streams to.
#[derive(Debug)]
pub struct ContractDescriptor {
    pub id: ContractId,
    pub version: String,
    pub representation: String,
}

/// A contract could not be loaded or applied.
#[derive(Debug)]
pub struct ContractError {
    pub message: String,
}

/// One way in which a stream does not hold to a contract.
#[derive(Debug)]
pub struct ValidationIssue {
    pub code: String,
    pub message: String,
    /// Where in the stream, when that can be said.
    pub path: Option<String>,
}

/// Whether a stream holds to a contract, and if not, why not.
#[derive(Debug)]
pub struct ValidationResult {
    pub valid: bool,
    pub issues: Vec<ValidationIssue>,
}

/// A stream of content: its bytes, and its media type when it is known.
#[derive(Debug)]
pub struct Stream {
    bytes: Vec<u8>,
    media_type: Option<String>,
}

/// A descriptor as mathematical values.
pub struct DescriptorModel {
    pub id: Seq<char>,
    pub version: Seq<char>,
    pub representation: Seq<char>,
}

/// An issue as mathematical values.
pub struct IssueModel {
    pub code: Seq<char>,
    pub message: Seq<char>,
    pub path: Option<Seq<char>>,
}

/// A validation result as mathematical values.
pub struct ValidationModel {
    pub valid: bool,
    pub issues: Seq<IssueModel>,
}

/// A stream as mathematical values.
pub struct StreamModel {
    pub bytes: Seq<u8>,
    pub media_type: Option<Seq<char>>,
}

impl View for ContractDescriptor {
    type V = DescriptorModel;

    open spec fn view(&self) -> DescriptorModel {
        DescriptorModel {
            id: self.id.0@,
            version: self.version@,
            representation: self.representation@,
        }
    }
}

impl View for ContractError {
    type V = Seq<char>;

    open spec fn view(&self) -> Seq<char> {
        self.message@
    }
}

impl View for ValidationIssue {
    type V = IssueModel;

    open spec fn view(&self) -> IssueModel {
        IssueModel { code: self.code@, message: self.message@, path: self.path.deep_view() }
    }
}

impl View for ValidationResult {
    type V = ValidationModel;

    open spec fn view(&self) -> ValidationModel {
        ValidationModel {
            valid: self.valid,
            issues: self.issues@.map_values(|issue: ValidationIssue| issue@),
        }
    }
}

impl View for Stream {
    type V = StreamModel;

    closed spec fn view(&self) -> StreamModel {
        StreamModel { bytes: self.bytes@, media_type: self.media_type.deep_view() }
    }
}

/// The result that `issues` make: valid exactly when there are none.
pub open spec fn judged(issues: Seq<IssueModel>) -> ValidationModel {
    ValidationModel { valid: issues.len() == 0, issues }
}

impl Stream {
    /// A stream of `bytes`, of media type `media_type` when it is known.
    pub fn new(bytes: Vec<u8>, media_type: Option<String>) -> (stream: Stream)
        ensures
            stream@ == (StreamModel { bytes: bytes@, media_type: media_type.deep_view() }),
    {
        Stream { bytes, media_type }
    }

    /// The stream's bytes.
    pub fn bytes(&self) -> (bytes: &[u8])
        ensures
            bytes@ == self@.bytes,
    {
        self.bytes.as_slice()
    }

    /// The stream's media type, when it is known.
    pub fn media_type(&self) -> (media_type: Option<&str>)
        ensures
            match media_type {
                Some(m) => self@.media_type == Some(m@),
                None => self@.media_type is None,
            },
    {
        match &self.media_type {
            Some(m) => Some(m.as_str()),
            None => None,
        }
    }
}

impl ValidationIssue {
    /// An issue with `code`, `message` and, where it can be said, `path`.
    pub fn new(code: &str, message: String, path: Option<String>) -> (issue: ValidationIssue)
        ensures
            issue@ == (IssueModel { code: code@, message: message@, path: path.deep_view() }),
    {
        ValidationIssue { code: code.to_owned(), message, path }
    }
}

impl ValidationResult {
    /// The result that `issues` make: valid exactly when there are none.
    pub fn of(issues: Vec<ValidationIssue>) -> (result: ValidationResult)
        ensures
            result@ == judged(issues@.map_values(|issue: ValidationIssue| issue@)),
    {
        ValidationResult { valid: issues.len() == 0, issues }
    }
}

} // verus!
