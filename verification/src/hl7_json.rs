//! The message-to-flat-map driver: holds the normalized message text and
//! its conversion settings, validates on demand, and encodes each segment
//! line as a flat mapping.

use vstd::prelude::*;

use crate::errors::Hl7Error;
use crate::escape::{create_default_escape_handler, spec_default_handler, Hl7EscapeHandler};
use crate::json_hl7::maps_view;
use crate::segments::{opt_handler, pairs_view, spec_encode_segment, spec_parse_segment,
    Hl7Segment, SegV};
use crate::text::spec_split;
use crate::utils::{replace_eof, spec_normalize_eol, split_segments};
use crate::validation::{segs_view, spec_validate, Hl7Validator};

verus! {

pub open spec fn opt_bool(o: Option<bool>, default: bool) -> bool {
    match o {
        Some(b) => b,
        None => default,
    }
}

/// The segment lines of a message text.
pub open spec fn spec_message_lines(text: Seq<char>) -> Seq<Seq<char>> {
    spec_split(text, '\n')
}

/// The views of every line parsed, purely syntactically (no escape
/// handling), as the validator sees them.
pub open spec fn spec_parsed_lines(text: Seq<char>) -> Seq<SegV> {
    spec_message_lines(text).map_values(
        |l: Seq<char>| spec_parse_segment(None::<Hl7EscapeHandler>, l),
    )
}

/// The flat mapping of every line, parsed with or without escape handling.
pub open spec fn spec_encoded_lines(ho: Option<Hl7EscapeHandler>, text: Seq<char>) -> Seq<
    Seq<(Seq<char>, Seq<char>)>,
> {
    spec_message_lines(text).map_values(
        |l: Seq<char>| spec_encode_segment(spec_parse_segment(ho, l)),
    )
}

/// Converts message text to one flat mapping per segment line, optionally
/// validating first.
pub struct Hl7Json {
    pub hl7_string: String,
    pub validation_enabled: bool,
    pub strict_validation: bool,
    pub escaping_enabled: bool,
    pub escape_handler: Hl7EscapeHandler,
}

impl Hl7Json {
    /// Stores the message with line endings normalized. Validation is off
    /// and strict by default; escape handling is off by default.
    pub fn new(
        hl7_string: String,
        validation_enabled: Option<bool>,
        strict_validation: Option<bool>,
        escaping_enabled: Option<bool>,
    ) -> (r: Self)
        ensures
            r.hl7_string@ == spec_normalize_eol(hl7_string@),
            r.validation_enabled == opt_bool(validation_enabled, false),
            r.strict_validation == opt_bool(strict_validation, true),
            r.escaping_enabled == opt_bool(escaping_enabled, false),
            r.escape_handler == spec_default_handler(),
    {
        Hl7Json {
            hl7_string: replace_eof(hl7_string),
            validation_enabled: match validation_enabled {
                Some(b) => b,
                None => false,
            },
            strict_validation: match strict_validation {
                Some(b) => b,
                None => true,
            },
            escaping_enabled: match escaping_enabled {
                Some(b) => b,
                None => false,
            },
            escape_handler: create_default_escape_handler(),
        }
    }

    /// Encodes one segment line without escape handling.
    pub fn _split_hl7_seg_to_json(&self, seg: &str) -> (r: Vec<(String, String)>)
        ensures
            pairs_view(r@) == spec_encode_segment(
                spec_parse_segment(None::<Hl7EscapeHandler>, seg@),
            ),
    {
        let segment = Hl7Segment::from_string(seg, None);
        segment.to_json()
    }

    /// Encodes one segment line with this converter's escape handler.
    pub fn _split_hl7_seg_to_json_with_escaping(&self, seg: &str) -> (r: Vec<(String, String)>)
        ensures
            pairs_view(r@) == spec_encode_segment(
                spec_parse_segment(Some(self.escape_handler), seg@),
            ),
    {
        let segment = Hl7Segment::from_string(seg, Some(&self.escape_handler));
        proof {
            assert(opt_handler(Some(&self.escape_handler)) == Some(self.escape_handler));
        }
        segment.to_json()
    }

    /// Converts the whole message: when validation is enabled, the first
    /// violation is returned instead; otherwise one flat mapping per
    /// segment line, in line order.
    pub fn _convert_hl7_to_json(&self) -> (r: Result<Vec<Vec<(String, String)>>, Hl7Error>)
        ensures
            match r {
                Ok(v) => (self.validation_enabled ==> spec_validate(
                    self.strict_validation,
                    true,
                    spec_parsed_lines(self.hl7_string@),
                ) is None) && maps_view(v@) == spec_encoded_lines(
                    if self.escaping_enabled {
                        Some(self.escape_handler)
                    } else {
                        None
                    },
                    self.hl7_string@,
                ),
                Err(e) => self.validation_enabled && spec_validate(
                    self.strict_validation,
                    true,
                    spec_parsed_lines(self.hl7_string@),
                ) == Some(e@),
            },
    {
        if self.validation_enabled {
            match self.validate(Some(self.strict_validation), Some(true)) {
                Ok(_) => (),
                Err(e) => {
                    return Err(e);
                },
            }
        }
        let ghost ho = if self.escaping_enabled {
            Some(self.escape_handler)
        } else {
            None
        };
        let lines = split_segments(self.hl7_string.clone());
        let mut message_json: Vec<Vec<(String, String)>> = Vec::new();
        let mut i: usize = 0;
        while i < lines.len()
            invariant
                ho == (if self.escaping_enabled {
                    Some(self.escape_handler)
                } else {
                    None::<Hl7EscapeHandler>
                }),
                lines.deep_view() == spec_message_lines(self.hl7_string@),
                i <= lines@.len(),
                message_json@.len() == i,
                forall|k: int|
                    0 <= k < i ==> pairs_view((#[trigger] message_json@[k])@) == spec_encode_segment(
                        spec_parse_segment(ho, lines.deep_view()[k]),
                    ),
            decreases lines@.len() - i,
        {
            let line: &String = &lines[i];
            proof {
                assert(line@ == lines.deep_view()[i as int]);
            }
            let seg_json = if self.escaping_enabled {
                self._split_hl7_seg_to_json_with_escaping(line.as_str())
            } else {
                self._split_hl7_seg_to_json(line.as_str())
            };
            message_json.push(seg_json);
            i += 1;
        }
        proof {
            assert(maps_view(message_json@) =~= spec_encoded_lines(ho, self.hl7_string@));
        }
        Ok(message_json)
    }

    /// The flat mappings of the message; see `_convert_hl7_to_json`.
    pub fn hl7_json(&self) -> (r: Result<Vec<Vec<(String, String)>>, Hl7Error>)
        ensures
            match r {
                Ok(v) => (self.validation_enabled ==> spec_validate(
                    self.strict_validation,
                    true,
                    spec_parsed_lines(self.hl7_string@),
                ) is None) && maps_view(v@) == spec_encoded_lines(
                    if self.escaping_enabled {
                        Some(self.escape_handler)
                    } else {
                        None
                    },
                    self.hl7_string@,
                ),
                Err(e) => self.validation_enabled && spec_validate(
                    self.strict_validation,
                    true,
                    spec_parsed_lines(self.hl7_string@),
                ) == Some(e@),
            },
    {
        self._convert_hl7_to_json()
    }

    /// Validates the message as parsed line by line (without escape
    /// handling): `strict_mode` defaults to this converter's setting,
    /// `validate_required_fields` to on.
    pub fn validate(&self, strict_mode: Option<bool>, validate_required_fields: Option<bool>) -> (
        r: Result<(), Hl7Error>)
        ensures
            match r {
                Ok(_) => spec_validate(
                    opt_bool(strict_mode, self.strict_validation),
                    opt_bool(validate_required_fields, true),
                    spec_parsed_lines(self.hl7_string@),
                ) is None,
                Err(e) => spec_validate(
                    opt_bool(strict_mode, self.strict_validation),
                    opt_bool(validate_required_fields, true),
                    spec_parsed_lines(self.hl7_string@),
                ) == Some(e@),
            },
    {
        let lines = split_segments(self.hl7_string.clone());
        let mut segments: Vec<Hl7Segment> = Vec::new();
        let mut i: usize = 0;
        while i < lines.len()
            invariant
                lines.deep_view() == spec_message_lines(self.hl7_string@),
                i <= lines@.len(),
                segments@.len() == i,
                forall|k: int|
                    0 <= k < i ==> (#[trigger] segments@[k])@ == spec_parse_segment(
                        None::<Hl7EscapeHandler>,
                        lines.deep_view()[k],
                    ) && segments@[k].wf(),
            decreases lines@.len() - i,
        {
            let line: &String = &lines[i];
            proof {
                assert(line@ == lines.deep_view()[i as int]);
            }
            let seg = Hl7Segment::from_string(line.as_str(), None);
            segments.push(seg);
            i += 1;
        }
        let use_strict_mode = match strict_mode {
            Some(b) => b,
            None => self.strict_validation,
        };
        let use_required = match validate_required_fields {
            Some(b) => b,
            None => true,
        };
        let validator = Hl7Validator::new().with_strict_mode(use_strict_mode)
            .with_required_fields_validation(use_required);
        let result = validator.validate_message(&segments);
        proof {
            assert(segs_view(segments@) =~= spec_parsed_lines(self.hl7_string@));
        }
        result
    }
}

} // verus!
