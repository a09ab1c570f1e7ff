//! Values of the STIX model and their validation.

use vstd::prelude::*;

verus! {

/// Why a STIX value could not be made.
#[derive(Debug, PartialEq, Eq)]
#[non_exhaustive]
pub enum ModelError {
    /// An external reference has no `source_name`.
    ExternalReferenceMissingSourceName,
    /// An external reference sets none of `description`, `url` and `external_id`.
    ExternalReferenceMissingDetail,
    /// A granular marking sets both of `marking_ref` and `lang`, or none.
    GranularMarkingExclusivity,
    /// A granular marking names no selector.
    GranularMarkingEmptySelectors,
    /// An extension definition has no `created_by_ref`.
    ExtensionDefinitionMissingCreatedByRef,
    /// The `type` of an object is not the one that is read.
    UnexpectedObjectType { expected: &'static str, actual: String },
    /// A relationship type has a character outside `[a-z0-9-]`.
    RelationshipTypeInvalid,
    /// A relationship stops before it starts.
    RelationshipStopTimeBeforeStartTime,
    /// The count of a sighting is out of range.
    SightingCountOutOfRange,
    /// A sighting was last seen before it was first seen.
    SightingLastSeenBeforeFirstSeen,
    /// A sighting was made at something that is neither an identity nor a location.
    SightingWhereSightedRefInvalid,
}

/// An error in words.
pub open spec fn error_text(e: ModelError) -> Seq<char> {
    match e {
        ModelError::ExternalReferenceMissingSourceName =>
            "external reference requires a non-empty source_name"@,
        ModelError::ExternalReferenceMissingDetail =>
            "external reference requires at least one of description, url, or external_id"@,
        ModelError::GranularMarkingExclusivity =>
            "granular marking must set exactly one of marking_ref or lang"@,
        ModelError::GranularMarkingEmptySelectors =>
            "granular marking requires at least one selector"@,
        ModelError::ExtensionDefinitionMissingCreatedByRef =>
            "extension definition requires created_by_ref"@,
        ModelError::UnexpectedObjectType { expected, actual } => "expected STIX type `"@
            + expected@ + "`, got `"@ + actual@ + "`"@,
        ModelError::RelationshipTypeInvalid =>
            "relationship type must contain only lowercase ASCII letters, digits, and hyphens"@,
        ModelError::RelationshipStopTimeBeforeStartTime =>
            "relationship stop_time must be later than start_time"@,
        ModelError::SightingCountOutOfRange =>
            "sighting count must be between 0 and 999_999_999 inclusive"@,
        ModelError::SightingLastSeenBeforeFirstSeen =>
            "sighting last_seen must be greater than or equal to first_seen"@,
        ModelError::SightingWhereSightedRefInvalid =>
            "where_sighted_refs must reference identity or location objects"@,
    }
}

impl ModelError {
    /// The error in words.
    pub fn to_text(&self) -> (res: String)
        ensures
            res@ == error_text(*self),
    {
        match self {
            ModelError::ExternalReferenceMissingSourceName =>
                "external reference requires a non-empty source_name".to_owned(),
            ModelError::ExternalReferenceMissingDetail =>
                "external reference requires at least one of description, url, or external_id".to_owned(),
            ModelError::GranularMarkingExclusivity =>
                "granular marking must set exactly one of marking_ref or lang".to_owned(),
            ModelError::GranularMarkingEmptySelectors =>
                "granular marking requires at least one selector".to_owned(),
            ModelError::ExtensionDefinitionMissingCreatedByRef =>
                "extension definition requires created_by_ref".to_owned(),
            ModelError::UnexpectedObjectType { expected, actual } => {
                let mut out: String = "expected STIX type `".to_owned();
                out.append(expected);
                out.append("`, got `");
                out.append(actual.as_str());
                out.append("`");
                out
            },
            ModelError::RelationshipTypeInvalid =>
                "relationship type must contain only lowercase ASCII letters, digits, and hyphens".to_owned(),
            ModelError::RelationshipStopTimeBeforeStartTime =>
                "relationship stop_time must be later than start_time".to_owned(),
            ModelError::SightingCountOutOfRange =>
                "sighting count must be between 0 and 999_999_999 inclusive".to_owned(),
            ModelError::SightingLastSeenBeforeFirstSeen =>
                "sighting last_seen must be greater than or equal to first_seen".to_owned(),
            ModelError::SightingWhereSightedRefInvalid =>
                "where_sighted_refs must reference identity or location objects".to_owned(),
        }
    }
}

/// How sure a statement is, from 0 to 100.
#[derive(Clone, Copy, PartialEq, Eq, Structural, Debug)]
pub struct Confidence {
    value: u8,
}

/// A number that is no confidence.
#[derive(Clone, Copy, PartialEq, Eq, Structural, Debug)]
pub struct ConfidenceOutOfRange {
    pub value: u8,
}

impl View for Confidence {
    type V = int;

    closed spec fn view(&self) -> int {
        self.value as int
    }
}

impl Confidence {
    #[verifier::type_invariant]
    spec fn valid(&self) -> bool {
        self.value <= 100
    }

    /// The confidence of that value, if it is at most 100.
    pub fn new(value: u8) -> (res: Result<Confidence, ConfidenceOutOfRange>)
        ensures
            match res {
                Ok(confidence) => value <= 100 && confidence@ == value,
                Err(e) => value > 100 && e.value == value,
            },
    {
        if value <= 100 {
            Ok(Confidence { value })
        } else {
            Err(ConfidenceOutOfRange { value })
        }
    }

    /// The value, which makes the same confidence again.
    pub fn get(&self) -> (res: u8)
        ensures
            res == self@,
            res <= 100,
    {
        proof {
            use_type_invariant(self);
        }
        self.value
    }
}

} // verus!
