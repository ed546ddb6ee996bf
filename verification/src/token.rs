//! Document tokens and the ways a key token can be decoded twice.
use vstd::prelude::*;

verus! {

/// One unit read from a document's cursor: a key, a scalar value, or a
/// bracket of a composite value.
///
/// The borrowed variants stand for data that aliases the document's backing
/// storage; the owned variants stand for independently owned buffers.
#[derive(Debug, PartialEq, Eq)]
pub enum Token {
    /// Text that aliases the document's storage.
    BorrowedText(String),
    /// Text in a buffer of its own.
    OwnedText(String),
    /// Bytes that alias the document's storage.
    BorrowedBytes(Vec<u8>),
    /// Bytes in a buffer of their own.
    OwnedBytes(Vec<u8>),
    Bool(bool),
    Signed(i64),
    Unsigned(u64),
    /// A binary64 number, held by its IEEE 754 bit pattern.
    Real(u64),
    Char(char),
    Unit,
    /// Opens a sequence; closed by the matching `End`.
    SeqStart,
    /// Opens a map; closed by the matching `End`.
    MapStart,
    /// Closes the innermost open sequence or map.
    End,
}

/// How a token is represented, without its payload.
#[derive(Debug, PartialEq, Eq, Clone, Copy)]
pub enum Representation {
    BorrowedText,
    OwnedText,
    BorrowedBytes,
    OwnedBytes,
    /// Bool, integer, real, char or unit.
    Scalar,
    /// A value made of other values. Among tokens it is the opening bracket
    /// of a sequence or a map; a reader of another kind has it where it
    /// presents an optional, a newtype or an enum as a key.
    Composite,
    End,
}

/// How a key of a given representation can be decoded twice: once by the
/// outer schema's classifier and, if the key is not the outer schema's, once
/// more by the consumer of the absorbing field.
#[derive(Debug, PartialEq, Eq, Clone, Copy)]
pub enum DecodePath {
    /// Both decodes read the same borrowed slice; nothing is allocated.
    Reuse,
    /// The key is staged in an intermediate form that is good for exactly two
    /// decodes; an allocation is accepted on this path.
    Stage,
    /// The classifier can decode the key through a view of the buffer, but no
    /// path hands the buffer itself on to a second decoder.
    ClassifyOnly,
    /// No decode of the key can be repeated.
    Undefined,
}

impl Token {
    /// The representation of this token.
    pub open spec fn repr(self) -> Representation {
        match self {
            Token::BorrowedText(_) => Representation::BorrowedText,
            Token::OwnedText(_) => Representation::OwnedText,
            Token::BorrowedBytes(_) => Representation::BorrowedBytes,
            Token::OwnedBytes(_) => Representation::OwnedBytes,
            Token::Bool(_) | Token::Signed(_) | Token::Unsigned(_) | Token::Real(_) | Token::Char(
                _,
            ) | Token::Unit => Representation::Scalar,
            Token::SeqStart | Token::MapStart => Representation::Composite,
            Token::End => Representation::End,
        }
    }

    /// Whether this token opens a sequence or a map.
    pub open spec fn opens(self) -> bool {
        self is SeqStart || self is MapStart
    }

    pub fn representation(&self) -> (r: Representation)
        ensures
            r == self.repr(),
    {
        match self {
            Token::BorrowedText(_) => Representation::BorrowedText,
            Token::OwnedText(_) => Representation::OwnedText,
            Token::BorrowedBytes(_) => Representation::BorrowedBytes,
            Token::OwnedBytes(_) => Representation::OwnedBytes,
            Token::Bool(_) => Representation::Scalar,
            Token::Signed(_) => Representation::Scalar,
            Token::Unsigned(_) => Representation::Scalar,
            Token::Real(_) => Representation::Scalar,
            Token::Char(_) => Representation::Scalar,
            Token::Unit => Representation::Scalar,
            Token::SeqStart => Representation::Composite,
            Token::MapStart => Representation::Composite,
            Token::End => Representation::End,
        }
    }
}

/// The decode path of each representation.
pub open spec fn path_of(repr: Representation) -> DecodePath {
    match repr {
        Representation::BorrowedText | Representation::BorrowedBytes => DecodePath::Reuse,
        Representation::OwnedText | Representation::Scalar => DecodePath::Stage,
        Representation::OwnedBytes => DecodePath::ClassifyOnly,
        Representation::Composite | Representation::End => DecodePath::Undefined,
    }
}

/// Picks the decode path for a key of the given representation.
///
/// Borrowed text and borrowed bytes are reused as they are. Owned text and
/// scalars are staged. An owned byte buffer can only be classified. A
/// composite key, or an end marker, cannot be decoded twice at all.
pub fn decode_path(repr: Representation) -> (p: DecodePath)
    ensures
        p == path_of(repr),
{
    match repr {
        Representation::BorrowedText => DecodePath::Reuse,
        Representation::BorrowedBytes => DecodePath::Reuse,
        Representation::OwnedText => DecodePath::Stage,
        Representation::Scalar => DecodePath::Stage,
        Representation::OwnedBytes => DecodePath::ClassifyOnly,
        Representation::Composite => DecodePath::Undefined,
        Representation::End => DecodePath::Undefined,
    }
}

} // verus!
