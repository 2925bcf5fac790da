//! Errors of the encoders and decoders.
use crate::constraints::Bounded;
use crate::integer::Integer;
use crate::tag::Tag;
use vstd::prelude::*;

verus! {

/// Why a value could not be encoded.
#[derive(Debug, Clone, PartialEq)]
pub enum EncodeError {
    /// The value lies outside its value constraint.
    IntegerOutOfRange { value: Integer, expected: Bounded<i128> },
    /// The length lies outside its size constraint.
    NotInSizeConstraintRange { length: usize },
    /// The value takes more octets than its fixed width.
    MoreBytesThanExpected { value: usize, expected: usize },
    /// A fixed integer width past eight octets was asked for.
    UnexpectedIntegerWidth { octets: i128 },
    /// A negative value was to be encoded as unsigned.
    NegativeUnsigned,
    /// The arcs do not form an object identifier.
    InvalidObjectIdentifier,
    /// Two fields of a set carry the same tag.
    DuplicateSetTag,
}

/// Why input could not be decoded.
#[derive(Debug, Clone, PartialEq)]
pub enum DecodeError {
    /// The input ended while `needed` more bytes were expected.
    Incomplete { needed: usize },
    /// Content that may not be empty was empty.
    UnexpectedEmptyInput,
    /// A length does not fit the platform's addressing.
    ExceedsMaxLength,
    /// A length determinant that the rules do not allow.
    InvalidLength,
    /// An indefinite length where a definite one is required.
    IndefiniteLengthNotAllowed,
    /// The tag on the wire is not the expected one.
    MismatchedTag { expected: Tag, actual: Tag },
    /// A primitive encoding where a constructed one is required.
    InvalidConstructedIdentifier,
    /// A constructed encoding that the rules do not allow.
    ConstructedEncodingNotAllowed,
    /// Bytes were left over inside a definite length.
    UnexpectedExtraData { length: usize },
    /// A boolean octet other than `0x00` or `0xFF` under strict rules.
    InvalidBool { value: u8 },
    /// The content has the wrong length for its type.
    MismatchedLength { expected: usize, actual: usize },
    /// The number does not fit the requested width.
    IntegerOverflow { max_width: u32 },
    /// The number lies outside its value constraint.
    ValueOutOfRange,
    /// The length lies outside its size constraint.
    NotInSizeConstraintRange { length: usize },
    /// An unused-bit count past seven, or one that an empty string cannot have.
    InvalidBitString { bits: u8 },
    /// The arcs do not form an object identifier.
    InvalidObjectIdentifier,
    /// A date or time string that the rules do not accept.
    InvalidDate { msg: String },
    /// Content that is not UTF-8.
    InvalidUtf8,
    /// A character outside the string type's alphabet.
    PermittedAlphabet,
    /// No end-of-contents marker closed an indefinite length.
    MissingEndOfContents,
    /// Real numbers are not supported.
    RealNotSupported,
}

/// Violations of constraints between the components of a constructed value.
#[derive(Debug, Clone, PartialEq)]
pub enum InnerSubtypeConstraintError {
    /// An invalid combination of components.
    InvalidCombination { type_label: String, details: String },
    /// A required component is missing.
    MissingRequiredComponent { type_label: String, components: Vec<String> },
    /// None of the components of which one must be present is present.
    MissingAtLeastOneComponent { type_label: String, components: Vec<String> },
    /// Components that exclude each other are present together.
    MutuallyExclusiveViolation { type_label: String, components: Vec<String> },
    /// A component holds an invalid value.
    InvalidComponentValue { type_label: String, component_name: String, details: String },
}

} // verus!
