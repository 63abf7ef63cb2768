//! The validator: a fixed checklist of structural rules evaluated over a
//! parsed message, failing fast on the first violation.

use vstd::prelude::*;

use crate::errors::{spec_supported_versions_text, supported_versions_text, Hl7Error, Hl7ErrorV};
use crate::segments::{Hl7Field, Hl7Segment, SegV};
use crate::text::{spec_decimal, spec_split, split_chars, str_eq, usize_to_string};

verus! {

/// The length cap on every field value and component value.
pub const MAX_FIELD_LENGTH: usize = 65536;

/// The versions accepted by the strict-mode header check.
pub open spec fn is_supported_version(v: Seq<char>) -> bool {
    ||| v == "2.1"@
    ||| v == "2.2"@
    ||| v == "2.3"@
    ||| v == "2.4"@
    ||| v == "2.5"@
    ||| v == "2.5.1"@
    ||| v == "2.6"@
    ||| v == "2.7"@
    ||| v == "2.8"@
    ||| v == "2.9"@
}

pub open spec fn is_ascii_alpha(c: char) -> bool {
    ('A' <= c && c <= 'Z') || ('a' <= c && c <= 'z')
}

/// The first violation of the header checks, if any: the first segment must
/// be the header, hold at least 12 fields, a 4-character encoding-characters
/// field, a version (supported, in strict mode) and a message type (with at
/// least 3 components, in strict mode).
pub open spec fn spec_msh_error(strict: bool, msh: SegV) -> Option<Hl7ErrorV> {
    if msh.name != "MSH"@ {
        Some(Hl7ErrorV::MissingRequiredSegment { segment: "MSH (Message Header)"@ })
    } else if msh.fields.len() < 12 {
        Some(
            Hl7ErrorV::ValidationFailed { details: "MSH segment must have at least 12 fields"@ },
        )
    } else if msh.fields[0].value.len() != 4 {
        Some(Hl7ErrorV::InvalidFieldSeparators { separators: msh.fields[0].value })
    } else if strict && !is_supported_version(msh.fields[11].value) {
        Some(
            Hl7ErrorV::UnsupportedVersion {
                version: msh.fields[11].value,
                supported_versions: spec_supported_versions_text(),
            },
        )
    } else if strict && spec_split(msh.fields[7].value, '^').len() < 3 {
        Some(
            Hl7ErrorV::ValidationFailed {
                details: "Message type (field 8) must have at least 3 components: event^structure^version"@,
            },
        )
    } else {
        None
    }
}

/// Whether some segment carries the patient-identification name.
pub open spec fn spec_has_pid(segs: Seq<SegV>) -> bool {
    exists|i: int| 0 <= i < segs.len() && (#[trigger] segs[i]).name == "PID"@
}

pub open spec fn spec_required_error(segs: Seq<SegV>) -> Option<Hl7ErrorV> {
    if spec_has_pid(segs) {
        None
    } else {
        Some(Hl7ErrorV::MissingRequiredSegment { segment: "PID (Patient Identification)"@ })
    }
}

/// The first over-long component at or after index `j`, if any.
pub open spec fn spec_comps_error(cs: Seq<Seq<char>>, j: int) -> Option<Hl7ErrorV>
    decreases cs.len() - j when 0 <= j <= cs.len()
{
    if j >= cs.len() {
        None
    } else if cs[j].len() > MAX_FIELD_LENGTH {
        Some(
            Hl7ErrorV::ComponentTooLong {
                length: cs[j].len() as int,
                max_length: MAX_FIELD_LENGTH as int,
            },
        )
    } else {
        spec_comps_error(cs, j + 1)
    }
}

/// The length violation of one field, if any: its value first, then its
/// components in order.
pub open spec fn spec_field_error(f: crate::segments::FieldV) -> Option<Hl7ErrorV> {
    if f.value.len() > MAX_FIELD_LENGTH {
        Some(
            Hl7ErrorV::FieldTooLong {
                length: f.value.len() as int,
                max_length: MAX_FIELD_LENGTH as int,
            },
        )
    } else {
        match f.components {
            Some(cs) => spec_comps_error(cs, 0),
            None => None,
        }
    }
}

/// The first field violation at or after index `j`, fields in index order.
pub open spec fn spec_fields_error(fs: Seq<crate::segments::FieldV>, j: int) -> Option<Hl7ErrorV>
    decreases fs.len() - j when 0 <= j <= fs.len()
{
    if j >= fs.len() {
        None
    } else {
        match spec_field_error(fs[j]) {
            Some(e) => Some(e),
            None => spec_fields_error(fs, j + 1),
        }
    }
}

/// The first violation of one segment, `i` its 0-based position: its name
/// must be exactly 3 ASCII alphabetic characters, and every field within
/// the length cap.
pub open spec fn spec_segment_error(seg: SegV, i: int) -> Option<Hl7ErrorV> {
    if seg.name.len() == 0 {
        Some(
            Hl7ErrorV::ValidationFailed {
                details: "Segment "@ + spec_decimal((i + 1) as nat)
                    + " has empty segment name"@,
            },
        )
    } else if seg.name.len() != 3 {
        Some(Hl7ErrorV::InvalidSegmentName { name: seg.name })
    } else if !(forall|k: int| 0 <= k < seg.name.len() ==> is_ascii_alpha(#[trigger] seg.name[k])) {
        Some(Hl7ErrorV::InvalidSegmentName { name: seg.name })
    } else {
        spec_fields_error(seg.fields, 0)
    }
}

/// The first per-segment violation at or after position `i`.
pub open spec fn spec_segments_error(segs: Seq<SegV>, i: int) -> Option<Hl7ErrorV>
    decreases segs.len() - i when 0 <= i <= segs.len()
{
    if i >= segs.len() {
        None
    } else {
        match spec_segment_error(segs[i], i) {
            Some(e) => Some(e),
            None => spec_segments_error(segs, i + 1),
        }
    }
}

/// The outcome of the whole checklist, in its fixed order: non-empty
/// message, header checks, required segments (when asked for), then every
/// segment in order.
pub open spec fn spec_validate(strict: bool, required: bool, segs: Seq<SegV>) -> Option<
    Hl7ErrorV,
> {
    if segs.len() == 0 {
        Some(Hl7ErrorV::ValidationError { message: "Message contains no segments"@ })
    } else if spec_msh_error(strict, segs[0]) is Some {
        spec_msh_error(strict, segs[0])
    } else if required && spec_required_error(segs) is Some {
        spec_required_error(segs)
    } else {
        spec_segments_error(segs, 0)
    }
}

/// The views of a list of segments.
pub open spec fn segs_view(v: Seq<Hl7Segment>) -> Seq<SegV> {
    v.map_values(|s: Hl7Segment| s@)
}

fn is_supported(v: &str) -> (r: bool)
    ensures
        r == is_supported_version(v@),
{
    str_eq(v, "2.1") || str_eq(v, "2.2") || str_eq(v, "2.3") || str_eq(v, "2.4") || str_eq(
        v,
        "2.5",
    ) || str_eq(v, "2.5.1") || str_eq(v, "2.6") || str_eq(v, "2.7") || str_eq(v, "2.8") || str_eq(
        v,
        "2.9",
    )
}

/// The rule-based validator: `strict_mode` governs the version and
/// message-type checks, `validate_required_fields` the required-segment
/// check. Both default to on.
#[derive(Debug, Clone, Copy)]
pub struct Hl7Validator {
    pub strict_mode: bool,
    pub validate_required_fields: bool,
}

impl Default for Hl7Validator {
    fn default() -> (r: Self)
        ensures
            r.strict_mode,
            r.validate_required_fields,
    {
        Hl7Validator { strict_mode: true, validate_required_fields: true }
    }
}

impl Hl7Validator {
    pub fn new() -> (r: Self)
        ensures
            r.strict_mode,
            r.validate_required_fields,
    {
        Hl7Validator::default()
    }

    pub fn with_strict_mode(self, strict: bool) -> (r: Self)
        ensures
            r.strict_mode == strict,
            r.validate_required_fields == self.validate_required_fields,
    {
        Hl7Validator { strict_mode: strict, validate_required_fields: self.validate_required_fields }
    }

    pub fn with_required_fields_validation(self, validate: bool) -> (r: Self)
        ensures
            r.strict_mode == self.strict_mode,
            r.validate_required_fields == validate,
    {
        Hl7Validator { strict_mode: self.strict_mode, validate_required_fields: validate }
    }

    /// Runs the whole checklist and returns the first violation, `Ok` when
    /// every rule holds.
    pub fn validate_message(&self, segments: &Vec<Hl7Segment>) -> (r: Result<(), Hl7Error>)
        requires
            forall|i: int| 0 <= i < segments@.len() ==> (#[trigger] segments@[i]).wf(),
        ensures
            match r {
                Ok(_) => spec_validate(
                    self.strict_mode,
                    self.validate_required_fields,
                    segs_view(segments@),
                ) is None,
                Err(e) => spec_validate(
                    self.strict_mode,
                    self.validate_required_fields,
                    segs_view(segments@),
                ) == Some(e@),
            },
    {
        let ghost gsegs = segs_view(segments@);
        if segments.len() == 0 {
            return Err(
                Hl7Error::ValidationError(String::from_str("Message contains no segments")),
            );
        }
        match self.validate_msh_segment(&segments[0]) {
            Ok(_) => (),
            Err(e) => {
                return Err(e);
            },
        }
        if self.validate_required_fields {
            match self.validate_required_segments(segments) {
                Ok(_) => (),
                Err(e) => {
                    return Err(e);
                },
            }
        }
        let mut i: usize = 0;
        while i < segments.len()
            invariant
                gsegs == segs_view(segments@),
                forall|k: int| 0 <= k < segments@.len() ==> (#[trigger] segments@[k]).wf(),
                i <= segments@.len(),
                spec_validate(self.strict_mode, self.validate_required_fields, gsegs)
                    == spec_segments_error(gsegs, i as int),
            decreases segments@.len() - i,
        {
            match self.validate_segment(&segments[i], i) {
                Ok(_) => (),
                Err(e) => {
                    return Err(e);
                },
            }
            i += 1;
        }
        Ok(())
    }

    /// Checks the header segment: name, field count, encoding characters,
    /// version and message type.
    fn validate_msh_segment(&self, msh: &Hl7Segment) -> (r: Result<(), Hl7Error>)
        requires
            msh.wf(),
        ensures
            match r {
                Ok(_) => spec_msh_error(self.strict_mode, msh@) is None,
                Err(e) => spec_msh_error(self.strict_mode, msh@) == Some(e@),
            },
    {
        if !str_eq(msh.segment_name.as_str(), "MSH") {
            return Err(
                Hl7Error::MissingRequiredSegment {
                    segment: String::from_str("MSH (Message Header)"),
                },
            );
        }
        if msh.fields.len() < 12 {
            return Err(
                Hl7Error::ValidationFailed {
                    details: String::from_str("MSH segment must have at least 12 fields"),
                },
            );
        }
        match self.validate_field_separators(msh) {
            Ok(_) => (),
            Err(e) => {
                return Err(e);
            },
        }
        match self.validate_hl7_version(msh) {
            Ok(_) => (),
            Err(e) => {
                return Err(e);
            },
        }
        self.validate_message_type(msh)
    }

    /// Checks that the encoding-characters field (field 1) holds exactly 4
    /// characters.
    fn validate_field_separators(&self, msh: &Hl7Segment) -> (r: Result<(), Hl7Error>)
        requires
            msh.wf(),
            msh@.fields.len() >= 12,
        ensures
            match r {
                Ok(_) => msh@.fields[0].value.len() == 4,
                Err(e) => msh@.fields[0].value.len() != 4 && e@
                    == (Hl7ErrorV::InvalidFieldSeparators { separators: msh@.fields[0].value }),
            },
    {
        proof {
            assert(msh.fields@.dom().contains(1usize));
        }
        match msh.fields.get(&1) {
            Some(field_1) => {
                proof {
                    assert(msh.fields@[1usize] == *field_1);
                    assert(msh@.fields[0int] == field_1@);
                }
                if field_1.value.as_str().unicode_len() != 4 {
                    Err(Hl7Error::InvalidFieldSeparators { separators: field_1.value.clone() })
                } else {
                    Ok(())
                }
            },
            None => {
                proof {
                    assert(false);
                }
                Err(
                    Hl7Error::ValidationFailed {
                        details: String::from_str("Field separators (field 1) are required"),
                    },
                )
            },
        }
    }

    /// Checks the version field (field 12): present, and one of the
    /// supported versions in strict mode.
    fn validate_hl7_version(&self, msh: &Hl7Segment) -> (r: Result<(), Hl7Error>)
        requires
            msh.wf(),
            msh@.fields.len() >= 12,
        ensures
            match r {
                Ok(_) => !(self.strict_mode && !is_supported_version(msh@.fields[11].value)),
                Err(e) => self.strict_mode && !is_supported_version(msh@.fields[11].value) && e@
                    == (Hl7ErrorV::UnsupportedVersion {
                    version: msh@.fields[11].value,
                    supported_versions: spec_supported_versions_text(),
                }),
            },
    {
        proof {
            assert(msh.fields@.dom().contains(12usize));
        }
        match msh.fields.get(&12) {
            Some(field_12) => {
                proof {
                    assert(msh.fields@[12usize] == *field_12);
                    assert(msh@.fields[11int] == field_12@);
                }
                if self.strict_mode && !is_supported(field_12.value.as_str()) {
                    Err(
                        Hl7Error::UnsupportedVersion {
                            version: field_12.value.clone(),
                            supported_versions: supported_versions_text(),
                        },
                    )
                } else {
                    Ok(())
                }
            },
            None => {
                proof {
                    assert(false);
                }
                Err(
                    Hl7Error::ValidationFailed {
                        details: String::from_str("HL7 version (field 12) is required"),
                    },
                )
            },
        }
    }

    /// Checks the message-type field (field 8): present, and of at least 3
    /// components in strict mode.
    fn validate_message_type(&self, msh: &Hl7Segment) -> (r: Result<(), Hl7Error>)
        requires
            msh.wf(),
            msh@.fields.len() >= 12,
        ensures
            match r {
                Ok(_) => !(self.strict_mode && spec_split(msh@.fields[7].value, '^').len() < 3),
                Err(e) => self.strict_mode && spec_split(msh@.fields[7].value, '^').len() < 3
                    && e@ == (Hl7ErrorV::ValidationFailed {
                    details: "Message type (field 8) must have at least 3 components: event^structure^version"@,
                }),
            },
    {
        proof {
            assert(msh.fields@.dom().contains(8usize));
        }
        match msh.fields.get(&8) {
            Some(field_8) => {
                proof {
                    assert(msh.fields@[8usize] == *field_8);
                    assert(msh@.fields[7int] == field_8@);
                }
                if self.strict_mode {
                    let parts = split_chars(field_8.value.as_str(), '^');
                    if parts.len() < 3 {
                        proof {
                            assert(parts@.len() == parts.deep_view().len());
                        }
                        return Err(
                            Hl7Error::ValidationFailed {
                                details: String::from_str(
                                    "Message type (field 8) must have at least 3 components: event^structure^version",
                                ),
                            },
                        );
                    }
                    proof {
                        assert(parts@.len() == parts.deep_view().len());
                    }
                }
                Ok(())
            },
            None => {
                proof {
                    assert(false);
                }
                Err(
                    Hl7Error::ValidationFailed {
                        details: String::from_str("Message type (field 8) is required"),
                    },
                )
            },
        }
    }

    /// Checks that a patient-identification segment is present.
    fn validate_required_segments(&self, segments: &Vec<Hl7Segment>) -> (r: Result<(), Hl7Error>)
        ensures
            match r {
                Ok(_) => spec_required_error(segs_view(segments@)) is None,
                Err(e) => spec_required_error(segs_view(segments@)) == Some(e@),
            },
    {
        let mut has_pid = false;
        let mut i: usize = 0;
        while i < segments.len()
            invariant
                i <= segments@.len(),
                has_pid == spec_has_pid(segs_view(segments@).take(i as int)),
            decreases segments@.len() - i,
        {
            let ghost gsegs = segs_view(segments@);
            if str_eq(segments[i].segment_name.as_str(), "PID") {
                has_pid = true;
                proof {
                    assert(gsegs.take(i + 1)[i as int].name == "PID"@);
                }
            } else {
                proof {
                    assert(forall|k: int|
                        0 <= k < i + 1 ==> gsegs.take(i + 1)[k] == #[trigger] gsegs.take(
                            i as int,
                        ).push(gsegs[i as int])[k]);
                    assert(gsegs.take(i + 1) =~= gsegs.take(i as int).push(gsegs[i as int]));
                    if !has_pid {
                        assert(!spec_has_pid(gsegs.take(i + 1))) by {
                            assert(forall|k: int|
                                0 <= k < i ==> (#[trigger] gsegs.take(i + 1)[k]) == gsegs.take(
                                    i as int,
                                )[k]);
                        }
                    }
                }
            }
            i += 1;
        }
        proof {
            assert(segs_view(segments@).take(segments@.len() as int) =~= segs_view(segments@));
        }
        if !has_pid {
            Err(
                Hl7Error::MissingRequiredSegment {
                    segment: String::from_str("PID (Patient Identification)"),
                },
            )
        } else {
            Ok(())
        }
    }

    /// Checks one segment's name and the length of its field and component
    /// values; `index` is the segment's 0-based position.
    fn validate_segment(&self, segment: &Hl7Segment, index: usize) -> (r: Result<(), Hl7Error>)
        requires
            segment.wf(),
            index < usize::MAX,
        ensures
            match r {
                Ok(_) => spec_segment_error(segment@, index as int) is None,
                Err(e) => spec_segment_error(segment@, index as int) == Some(e@),
            },
    {
        let name_len = segment.segment_name.as_str().unicode_len();
        if name_len == 0 {
            let mut details = String::from_str("Segment ");
            let num = usize_to_string(index + 1);
            details.append(num.as_str());
            details.append(" has empty segment name");
            return Err(Hl7Error::ValidationFailed { details });
        }
        if name_len != 3 {
            return Err(
                Hl7Error::InvalidSegmentName { name: segment.segment_name.clone() },
            );
        }
        let mut k: usize = 0;
        while k < 3
            invariant
                name_len == segment.segment_name@.len(),
                name_len == 3,
                k <= 3,
                forall|q: int| 0 <= q < k ==> is_ascii_alpha(#[trigger] segment.segment_name@[q]),
            decreases 3 - k,
        {
            let c = segment.segment_name.as_str().get_char(k);
            let u = c as u32;
            if !((65 <= u && u <= 90) || (97 <= u && u <= 122)) {
                assert(!is_ascii_alpha(segment.segment_name@[k as int]));
                return Err(
                    Hl7Error::InvalidSegmentName { name: segment.segment_name.clone() },
                );
            }
            k += 1;
        }
        let n = segment.fields.len();
        proof {
            assert(n == segment@.fields.len());
        }
        let mut i: usize = 0;
        while i < n
            invariant
                segment.wf(),
                n == segment.fields@.len(),
                i <= n,
                spec_segment_error(segment@, index as int) == spec_fields_error(
                    segment@.fields,
                    i as int,
                ),
            decreases n - i,
        {
            let idx = i + 1;
            proof {
                assert(segment.fields@.dom().contains(idx));
            }
            match segment.fields.get(&idx) {
                Some(f) => {
                    proof {
                        assert(segment.fields@[idx] == *f);
                        assert(segment@.fields[i as int] == f@);
                    }
                    match self.validate_field(segment, idx, f) {
                        Ok(_) => (),
                        Err(e) => {
                            return Err(e);
                        },
                    }
                },
                None => {
                    proof {
                        assert(false);
                    }
                },
            }
            i += 1;
        }
        Ok(())
    }

    /// Checks one field's value and component lengths against the cap.
    fn validate_field(&self, _segment: &Hl7Segment, _field_index: usize, field: &Hl7Field) -> (r:
        Result<(), Hl7Error>)
        ensures
            match r {
                Ok(_) => spec_field_error(field@) is None,
                Err(e) => spec_field_error(field@) == Some(e@),
            },
    {
        let vlen = field.value.as_str().unicode_len();
        if vlen > MAX_FIELD_LENGTH {
            return Err(
                Hl7Error::FieldTooLong { length: vlen, max_length: MAX_FIELD_LENGTH },
            );
        }
        match &field.components {
            Some(components) => {
                let mut j: usize = 0;
                while j < components.len()
                    invariant
                        field@.components == Some(components.deep_view()),
                        field@.value.len() <= MAX_FIELD_LENGTH,
                        j <= components@.len(),
                        spec_comps_error(components.deep_view(), 0) == spec_comps_error(
                            components.deep_view(),
                            j as int,
                        ),
                    decreases components@.len() - j,
                {
                    let clen = components[j].as_str().unicode_len();
                    proof {
                        assert(components.deep_view()[j as int] == components@[j as int]@);
                    }
                    if clen > MAX_FIELD_LENGTH {
                        return Err(
                            Hl7Error::ComponentTooLong {
                                length: clen,
                                max_length: MAX_FIELD_LENGTH,
                            },
                        );
                    }
                    j += 1;
                }
                Ok(())
            },
            None => Ok(()),
        }
    }
}

} // verus!
