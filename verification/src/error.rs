//! What can go wrong while decoding a descriptor or a tracker's reply.

use vstd::prelude::*;
use vstd::string::{is_ascii_spec_bytes, StringExecFns};
use vstd::utf8::is_ascii_chars;
use crate::text::ascii_bytes;

verus! {

/// A field that the decoders look up by its key.
#[derive(Debug, Clone, Copy, PartialEq, Eq)]
pub enum Field {
    /// The value at the top of the buffer.
    Root,
    Announce,
    Info,
    Name,
    PieceLength,
    Pieces,
    Length,
    Interval,
    Peers,
}

impl Field {
    /// The key of this field as text; the root has none.
    pub open spec fn key_text(self) -> Seq<char> {
        match self {
            Field::Root => ""@,
            Field::Announce => "announce"@,
            Field::Info => "info"@,
            Field::Name => "name"@,
            Field::PieceLength => "piece length"@,
            Field::Pieces => "pieces"@,
            Field::Length => "length"@,
            Field::Interval => "interval"@,
            Field::Peers => "peers"@,
        }
    }

    /// The key under which a dictionary holds this field.
    pub open spec fn key(self) -> Seq<u8> {
        ascii_bytes(self.key_text())
    }

    /// The key of this field as text.
    pub fn name(self) -> (r: &'static str)
        ensures
            r@ == self.key_text(),
            is_ascii_chars(r@),
    {
        proof {
            reveal_strlit("");
            reveal_strlit("announce");
            reveal_strlit("info");
            reveal_strlit("name");
            reveal_strlit("piece length");
            reveal_strlit("pieces");
            reveal_strlit("length");
            reveal_strlit("interval");
            reveal_strlit("peers");
        }
        match self {
            Field::Root => "",
            Field::Announce => "announce",
            Field::Info => "info",
            Field::Name => "name",
            Field::PieceLength => "piece length",
            Field::Pieces => "pieces",
            Field::Length => "length",
            Field::Interval => "interval",
            Field::Peers => "peers",
        }
    }

    /// The name of this field in a message.
    pub open spec fn label_text(self) -> Seq<char> {
        match self {
            Field::Root => "root"@,
            _ => self.key_text(),
        }
    }

    /// The name of this field in a message.
    pub fn label(self) -> (r: &'static str)
        ensures
            r@ == self.label_text(),
    {
        match self {
            Field::Root => "root",
            _ => self.name(),
        }
    }

    /// The key under which a dictionary holds this field.
    pub fn key_bytes(self) -> (r: &'static [u8])
        ensures
            r@ == self.key(),
    {
        let text = self.name();
        proof {
            is_ascii_spec_bytes(text);
        }
        let bytes = text.as_bytes();
        proof {
            assert(bytes@ =~= ascii_bytes(text@));
        }
        bytes
    }
}

/// The shape that a field is expected to have.
#[derive(Debug, Clone, Copy, PartialEq, Eq)]
pub enum Expected {
    Integer,
    ByteString,
    /// A byte string that holds UTF-8 text.
    Text,
    Dictionary,
}

impl Expected {
    /// The name of this shape in a message.
    pub open spec fn word_text(self) -> Seq<char> {
        match self {
            Expected::Integer => "integer"@,
            Expected::ByteString => "bytes"@,
            Expected::Text => "string"@,
            Expected::Dictionary => "dict"@,
        }
    }

    /// The name of this shape in a message.
    pub fn word(self) -> (r: &'static str)
        ensures
            r@ == self.word_text(),
    {
        match self {
            Expected::Integer => "integer",
            Expected::ByteString => "bytes",
            Expected::Text => "string",
            Expected::Dictionary => "dict",
        }
    }
}

/// A rule that a correctly typed field has broken.
#[derive(Debug, Clone, Copy, PartialEq, Eq)]
pub enum Reason {
    /// The announce field holds no absolute URL.
    InvalidAnnounceUrl,
    /// The info dictionary is too long for a digest to be taken of it.
    InfoTooLarge,
    /// The piece hashes are not a whole number of 20-byte hashes.
    PiecesNotMultipleOf20,
    NonPositivePieceLength,
    NonPositiveLength,
    /// There is not exactly one hash for each piece of the content.
    PieceCountMismatch,
    NonPositiveInterval,
    /// The compact peer list is not a whole number of 6-byte records.
    MalformedPeerList,
}

impl Reason {
    /// What this rule says in a message.
    pub open spec fn message_text(self) -> Seq<char> {
        match self {
            Reason::InvalidAnnounceUrl => "announce is not an absolute URL"@,
            Reason::InfoTooLarge => "info is too large to take a digest of"@,
            Reason::PiecesNotMultipleOf20 => "pieces is not a multiple of 20 bytes long"@,
            Reason::NonPositivePieceLength => "piece length is not positive"@,
            Reason::NonPositiveLength => "length is not positive"@,
            Reason::PieceCountMismatch => "pieces does not hold one hash for each piece"@,
            Reason::NonPositiveInterval => "interval is not positive"@,
            Reason::MalformedPeerList => "peers is not a multiple of 6 bytes long"@,
        }
    }

    /// What this rule says in a message.
    pub fn message(self) -> (r: &'static str)
        ensures
            r@ == self.message_text(),
    {
        match self {
            Reason::InvalidAnnounceUrl => "announce is not an absolute URL",
            Reason::InfoTooLarge => "info is too large to take a digest of",
            Reason::PiecesNotMultipleOf20 => "pieces is not a multiple of 20 bytes long",
            Reason::NonPositivePieceLength => "piece length is not positive",
            Reason::NonPositiveLength => "length is not positive",
            Reason::PieceCountMismatch => "pieces does not hold one hash for each piece",
            Reason::NonPositiveInterval => "interval is not positive",
            Reason::MalformedPeerList => "peers is not a multiple of 6 bytes long",
        }
    }
}

/// The kind of a decoding failure.
#[derive(Debug, Clone, Copy, PartialEq, Eq)]
pub enum ErrorKind {
    /// The bytes are no encoding of a value: the grammar is broken, a length
    /// reaches past the buffer, the nesting is too deep, or bytes are left over.
    MalformedEncoding,
    FieldMissing(Field),
    FieldTypeMismatch(Field, Expected),
    ValidationFailed(Reason),
}

/// A decoding failure.
#[derive(Debug, Clone, Copy, PartialEq, Eq)]
pub struct DecodingError {
    pub kind: ErrorKind,
}

impl DecodingError {
    /// What this failure says in words.
    pub open spec fn message(self) -> Seq<char> {
        match self.kind {
            ErrorKind::MalformedEncoding => "malformed encoding"@,
            ErrorKind::FieldMissing(field) => field.label_text() + " field not found"@,
            ErrorKind::FieldTypeMismatch(field, expected) => "failed to parse "@
                + field.label_text() + " field into "@ + expected.word_text(),
            ErrorKind::ValidationFailed(reason) => reason.message_text(),
        }
    }

    /// What this failure says in words.
    pub fn to_string(&self) -> (r: String)
        ensures
            r@ == self.message(),
    {
        match self.kind {
            ErrorKind::MalformedEncoding => String::from_str("malformed encoding"),
            ErrorKind::FieldMissing(field) => {
                let mut text = String::from_str(field.label());
                text.append(" field not found");
                text
            },
            ErrorKind::FieldTypeMismatch(field, expected) => {
                let mut text = String::from_str("failed to parse ");
                text.append(field.label());
                text.append(" field into ");
                text.append(expected.word());
                text
            },
            ErrorKind::ValidationFailed(reason) => String::from_str(reason.message()),
        }
    }
}

/// The failure of kind `MalformedEncoding`.
pub open spec fn malformed() -> DecodingError {
    DecodingError { kind: ErrorKind::MalformedEncoding }
}

/// The failure that reports `field` as absent.
pub open spec fn missing(field: Field) -> DecodingError {
    DecodingError { kind: ErrorKind::FieldMissing(field) }
}

/// The failure that reports `field` as not having the shape `expected`.
pub open spec fn mismatch(field: Field, expected: Expected) -> DecodingError {
    DecodingError { kind: ErrorKind::FieldTypeMismatch(field, expected) }
}

/// The failure that reports the broken rule `reason`.
pub open spec fn invalid(reason: Reason) -> DecodingError {
    DecodingError { kind: ErrorKind::ValidationFailed(reason) }
}

} // verus!
