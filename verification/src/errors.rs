//! The error type shared by the fallible entry points of the crate, and its
//! specification-level view.
//!
//! Parsing, encoding and decoding are total and never return an error; the
//! validator and the configuration constructors are the only places that do.

use vstd::prelude::*;

verus! {

/// The specification-level shape of an [`Hl7Error`]: the same variants, with
/// every string seen as its sequence of characters.
pub ghost enum Hl7ErrorV {
    InvalidFormat { message: Seq<char> },
    EmptyMessage,
    InvalidSegment { message: Seq<char> },
    ParsingError { line: int, message: Seq<char> },
    ValidationError { message: Seq<char> },
    ValidationFailed { details: Seq<char> },
    FieldError { segment: Seq<char>, field: int, message: Seq<char> },
    ComponentError { segment: Seq<char>, field: int, component: int, message: Seq<char> },
    InvalidEscapeSequence { sequence: Seq<char>, position: int },
    FieldTooLong { length: int, max_length: int },
    ComponentTooLong { length: int, max_length: int },
    MissingRequiredSegment { segment: Seq<char> },
    InvalidSegmentName { name: Seq<char> },
    InvalidFieldSeparators { separators: Seq<char> },
    UnsupportedVersion { version: Seq<char>, supported_versions: Seq<char> },
    EncodingError { message: Seq<char> },
    ConfigurationError { message: Seq<char> },
}

/// The distinguishable error kinds surfaced to callers. Every variant carries
/// enough detail (offending value, coordinates, limits) to be actionable
/// without re-parsing the original text.
#[derive(Debug)]
pub enum Hl7Error {
    InvalidFormat(String),
    EmptyMessage,
    InvalidSegment(String),
    ParsingError { line: usize, message: String },
    ValidationError(String),
    ValidationFailed { details: String },
    FieldError { segment: String, field: usize, message: String },
    ComponentError { segment: String, field: usize, component: usize, message: String },
    InvalidEscapeSequence { sequence: String, position: usize },
    FieldTooLong { length: usize, max_length: usize },
    ComponentTooLong { length: usize, max_length: usize },
    MissingRequiredSegment { segment: String },
    InvalidSegmentName { name: String },
    InvalidFieldSeparators { separators: String },
    UnsupportedVersion { version: String, supported_versions: String },
    EncodingError(String),
    ConfigurationError(String),
}

impl View for Hl7Error {
    type V = Hl7ErrorV;

    open spec fn view(&self) -> Hl7ErrorV {
        match self {
            Hl7Error::InvalidFormat(m) => Hl7ErrorV::InvalidFormat { message: m@ },
            Hl7Error::EmptyMessage => Hl7ErrorV::EmptyMessage,
            Hl7Error::InvalidSegment(m) => Hl7ErrorV::InvalidSegment { message: m@ },
            Hl7Error::ParsingError { line, message } => Hl7ErrorV::ParsingError {
                line: *line as int,
                message: message@,
            },
            Hl7Error::ValidationError(m) => Hl7ErrorV::ValidationError { message: m@ },
            Hl7Error::ValidationFailed { details } => Hl7ErrorV::ValidationFailed {
                details: details@,
            },
            Hl7Error::FieldError { segment, field, message } => Hl7ErrorV::FieldError {
                segment: segment@,
                field: *field as int,
                message: message@,
            },
            Hl7Error::ComponentError { segment, field, component, message } => {
                Hl7ErrorV::ComponentError {
                    segment: segment@,
                    field: *field as int,
                    component: *component as int,
                    message: message@,
                }
            },
            Hl7Error::InvalidEscapeSequence { sequence, position } => {
                Hl7ErrorV::InvalidEscapeSequence { sequence: sequence@, position: *position as int }
            },
            Hl7Error::FieldTooLong { length, max_length } => Hl7ErrorV::FieldTooLong {
                length: *length as int,
                max_length: *max_length as int,
            },
            Hl7Error::ComponentTooLong { length, max_length } => Hl7ErrorV::ComponentTooLong {
                length: *length as int,
                max_length: *max_length as int,
            },
            Hl7Error::MissingRequiredSegment { segment } => Hl7ErrorV::MissingRequiredSegment {
                segment: segment@,
            },
            Hl7Error::InvalidSegmentName { name } => Hl7ErrorV::InvalidSegmentName { name: name@ },
            Hl7Error::InvalidFieldSeparators { separators } => {
                Hl7ErrorV::InvalidFieldSeparators { separators: separators@ }
            },
            Hl7Error::UnsupportedVersion { version, supported_versions } => {
                Hl7ErrorV::UnsupportedVersion {
                    version: version@,
                    supported_versions: supported_versions@,
                }
            },
            Hl7Error::EncodingError(m) => Hl7ErrorV::EncodingError { message: m@ },
            Hl7Error::ConfigurationError(m) => Hl7ErrorV::ConfigurationError { message: m@ },
        }
    }
}

/// The comma-separated text of the supported header versions, as carried by
/// the unsupported-version error.
pub open spec fn spec_supported_versions_text() -> Seq<char> {
    "2.1, 2.2, 2.3, 2.4, 2.5, 2.5.1, 2.6, 2.7, 2.8, 2.9"@
}

pub(crate) fn supported_versions_text() -> (r: String)
    ensures
        r@ == spec_supported_versions_text(),
{
    String::from_str("2.1, 2.2, 2.3, 2.4, 2.5, 2.5.1, 2.6, 2.7, 2.8, 2.9")
}

impl Hl7Error {
    pub fn validation_failed(details: &str) -> (r: Self)
        ensures
            r@ == (Hl7ErrorV::ValidationFailed { details: details@ }),
    {
        Hl7Error::ValidationFailed { details: details.to_owned() }
    }

    pub fn field_error(segment: &str, field: usize, message: &str) -> (r: Self)
        ensures
            r@ == (Hl7ErrorV::FieldError {
                segment: segment@,
                field: field as int,
                message: message@,
            }),
    {
        Hl7Error::FieldError {
            segment: segment.to_owned(),
            field,
            message: message.to_owned(),
        }
    }

    pub fn component_error(segment: &str, field: usize, component: usize, message: &str) -> (r:
        Self)
        ensures
            r@ == (Hl7ErrorV::ComponentError {
                segment: segment@,
                field: field as int,
                component: component as int,
                message: message@,
            }),
    {
        Hl7Error::ComponentError {
            segment: segment.to_owned(),
            field,
            component,
            message: message.to_owned(),
        }
    }

    pub fn parsing_error(line: usize, message: &str) -> (r: Self)
        ensures
            r@ == (Hl7ErrorV::ParsingError { line: line as int, message: message@ }),
    {
        Hl7Error::ParsingError { line, message: message.to_owned() }
    }

    pub fn unsupported_version(version: &str) -> (r: Self)
        ensures
            r@ == (Hl7ErrorV::UnsupportedVersion {
                version: version@,
                supported_versions: spec_supported_versions_text(),
            }),
    {
        Hl7Error::UnsupportedVersion {
            version: version.to_owned(),
            supported_versions: supported_versions_text(),
        }
    }
}

} // verus!
