//! Errors of the decoders.

use vstd::prelude::*;

use crate::varint::Leb128Error;

verus! {

/// Why the value of a reserved tag could not be parsed.
#[derive(Clone, Copy, Debug, PartialEq, Eq)]
pub enum TagParseError {
    /// An integer tag holds the empty string.
    Empty,
    /// An integer tag holds a character other than a decimal digit.
    InvalidDigit,
    /// An integer tag holds a number too large for its type.
    PosOverflow,
    /// A boolean tag holds something other than `true` or `false`.
    InvalidBool,
}

/// What was being read when decoding failed.
#[derive(Clone, Copy, Debug, PartialEq, Eq)]
pub enum ErrorContext {
    LeafIndex,
    ChildRefHash,
    Version,
    ChildrenMask,
    LeafCount,
    TagKey,
    TagValue,
}

/// What went wrong while decoding.
#[derive(Clone, Debug, PartialEq, Eq)]
pub enum DeserializeErrorKind {
    /// The input ended too early.
    UnexpectedEof,
    /// A LEB128 integer could not be read.
    Leb128(Leb128Error),
    /// A string is not valid UTF-8.
    Utf8,
    /// A slot of an internal node's bitmap holds `11`.
    InvalidChildKind,
    /// An internal node's bitmap is zero.
    EmptyInternalNode,
    /// A reserved tag's value could not be parsed.
    MalformedTag { name: &'static str, err: TagParseError },
    /// A required tag is absent.
    MissingTag(&'static str),
    /// A tag key is neither reserved nor custom.
    UnknownTag(String),
}

/// A decoding error: its kind and, where known, what was being read.
#[derive(Clone, Debug, PartialEq, Eq)]
pub struct DeserializeError {
    pub kind: DeserializeErrorKind,
    pub context: Option<ErrorContext>,
}

/// The view of an error kind: strings as character sequences.
pub enum KindView {
    UnexpectedEof,
    Leb128(Leb128Error),
    Utf8,
    InvalidChildKind,
    EmptyInternalNode,
    MalformedTag { name: Seq<char>, err: TagParseError },
    MissingTag(Seq<char>),
    UnknownTag(Seq<char>),
}

/// The view of an error.
pub struct ErrorView {
    pub kind: KindView,
    pub context: Option<ErrorContext>,
}

impl View for DeserializeErrorKind {
    type V = KindView;

    open spec fn view(&self) -> KindView {
        match self {
            DeserializeErrorKind::UnexpectedEof => KindView::UnexpectedEof,
            DeserializeErrorKind::Leb128(e) => KindView::Leb128(*e),
            DeserializeErrorKind::Utf8 => KindView::Utf8,
            DeserializeErrorKind::InvalidChildKind => KindView::InvalidChildKind,
            DeserializeErrorKind::EmptyInternalNode => KindView::EmptyInternalNode,
            DeserializeErrorKind::MalformedTag { name, err } => KindView::MalformedTag {
                name: name@,
                err: *err,
            },
            DeserializeErrorKind::MissingTag(name) => KindView::MissingTag(name@),
            DeserializeErrorKind::UnknownTag(key) => KindView::UnknownTag(key@),
        }
    }
}

impl View for DeserializeError {
    type V = ErrorView;

    open spec fn view(&self) -> ErrorView {
        ErrorView { kind: self.kind@, context: self.context }
    }
}

/// An error of the given kind, with no context.
pub open spec fn error(kind: KindView) -> ErrorView {
    ErrorView { kind, context: None }
}

/// An error of the given kind, read in the given context.
pub open spec fn error_in(kind: KindView, context: ErrorContext) -> ErrorView {
    ErrorView { kind, context: Some(context) }
}

impl DeserializeErrorKind {
    /// This kind, with no context.
    pub fn into_error(self) -> (r: DeserializeError)
        ensures
            r@ == error(self@),
    {
        DeserializeError { kind: self, context: None }
    }

    /// This kind, read in `context`.
    pub fn with_context(self, context: ErrorContext) -> (r: DeserializeError)
        ensures
            r@ == error_in(self@, context),
    {
        DeserializeError { kind: self, context: Some(context) }
    }
}

/// The text of a context.
pub open spec fn context_text(c: ErrorContext) -> Seq<char> {
    match c {
        ErrorContext::LeafIndex => "failed deserializing leaf index"@,
        ErrorContext::ChildRefHash => "failed deserializing child ref hash"@,
        ErrorContext::Version => "failed deserializing child ref version"@,
        ErrorContext::ChildrenMask => "failed deserializing children mask"@,
        ErrorContext::LeafCount => "failed deserializing root leaf count"@,
        ErrorContext::TagKey => "failed deserializing tag key"@,
        ErrorContext::TagValue => "failed deserializing tag value"@,
    }
}

/// The text of a LEB128 failure.
pub open spec fn leb128_text(e: Leb128Error) -> Seq<char> {
    match e {
        Leb128Error::IoError => "input ended inside the integer"@,
        Leb128Error::Overflow => "the integer does not fit in 64 bits"@,
    }
}

/// The text of a tag value's parse failure.
pub open spec fn tag_parse_text(e: TagParseError) -> Seq<char> {
    match e {
        TagParseError::Empty => "cannot parse integer from empty string"@,
        TagParseError::InvalidDigit => "invalid digit found in string"@,
        TagParseError::PosOverflow => "number too large to fit in target type"@,
        TagParseError::InvalidBool => "provided string was not `true` or `false`"@,
    }
}

/// The text of an error kind.
pub open spec fn kind_text(k: KindView) -> Seq<char> {
    match k {
        KindView::UnexpectedEof => "unexpected end of input"@,
        KindView::Leb128(e) => "failed reading LEB128-encoded value: "@ + leb128_text(e),
        KindView::Utf8 => "failed decoding UTF-8 string"@,
        KindView::InvalidChildKind => "invalid child kind"@,
        KindView::EmptyInternalNode => "empty internal node"@,
        KindView::MalformedTag { name, err } => "failed parsing tag `"@ + name + "`: "@
            + tag_parse_text(err),
        KindView::MissingTag(name) => "missing required tag `"@ + name + "` in tree manifest"@,
        KindView::UnknownTag(name) => "unknown tag `"@ + name + "` in tree manifest"@,
    }
}

/// The message of an error: its context, where there is one, then its kind.
pub open spec fn error_message(e: ErrorView) -> Seq<char> {
    match e.context {
        Some(c) => context_text(c) + ": "@ + kind_text(e.kind),
        None => kind_text(e.kind),
    }
}

impl ErrorContext {
    /// What was being read, in words.
    pub fn text(&self) -> (r: &'static str)
        ensures
            r@ == context_text(*self),
    {
        match self {
            ErrorContext::LeafIndex => "failed deserializing leaf index",
            ErrorContext::ChildRefHash => "failed deserializing child ref hash",
            ErrorContext::Version => "failed deserializing child ref version",
            ErrorContext::ChildrenMask => "failed deserializing children mask",
            ErrorContext::LeafCount => "failed deserializing root leaf count",
            ErrorContext::TagKey => "failed deserializing tag key",
            ErrorContext::TagValue => "failed deserializing tag value",
        }
    }
}

impl Leb128Error {
    /// The failure, in words.
    pub fn text(&self) -> (r: &'static str)
        ensures
            r@ == leb128_text(*self),
    {
        match self {
            Leb128Error::IoError => "input ended inside the integer",
            Leb128Error::Overflow => "the integer does not fit in 64 bits",
        }
    }
}

impl TagParseError {
    /// The failure, in words.
    pub fn text(&self) -> (r: &'static str)
        ensures
            r@ == tag_parse_text(*self),
    {
        match self {
            TagParseError::Empty => "cannot parse integer from empty string",
            TagParseError::InvalidDigit => "invalid digit found in string",
            TagParseError::PosOverflow => "number too large to fit in target type",
            TagParseError::InvalidBool => "provided string was not `true` or `false`",
        }
    }
}

impl DeserializeErrorKind {
    /// What went wrong, in words.
    pub fn message(&self) -> (r: String)
        ensures
            r@ == kind_text(self@),
    {
        match self {
            DeserializeErrorKind::UnexpectedEof => "unexpected end of input".to_owned(),
            DeserializeErrorKind::Leb128(e) => {
                let mut r = "failed reading LEB128-encoded value: ".to_owned();
                r.append(e.text());
                r
            },
            DeserializeErrorKind::Utf8 => "failed decoding UTF-8 string".to_owned(),
            DeserializeErrorKind::InvalidChildKind => "invalid child kind".to_owned(),
            DeserializeErrorKind::EmptyInternalNode => "empty internal node".to_owned(),
            DeserializeErrorKind::MalformedTag { name, err } => {
                let mut r = "failed parsing tag `".to_owned();
                r.append(name);
                r.append("`: ");
                r.append(err.text());
                r
            },
            DeserializeErrorKind::MissingTag(name) => {
                let mut r = "missing required tag `".to_owned();
                r.append(name);
                r.append("` in tree manifest");
                r
            },
            DeserializeErrorKind::UnknownTag(name) => {
                let mut r = "unknown tag `".to_owned();
                r.append(name.as_str());
                r.append("` in tree manifest");
                r
            },
        }
    }
}

impl DeserializeError {
    /// The message of this error: its context, where there is one, then its kind.
    pub fn to_string(&self) -> (r: String)
        ensures
            r@ == error_message(self@),
    {
        match &self.context {
            Some(context) => {
                let mut r = context.text().to_owned();
                r.append(": ");
                r.append(self.kind.message().as_str());
                r
            },
            None => self.kind.message(),
        }
    }
}

} // verus!
