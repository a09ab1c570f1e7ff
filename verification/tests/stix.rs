//! STIX values.

use rsigma::stix::Confidence;
use rsigma::stix::ModelError;

#[test]
fn a_confidence_is_at_most_one_hundred() {
    assert_eq!(Confidence::new(85).unwrap().get(), 85);
    assert_eq!(Confidence::new(0).unwrap().get(), 0);
    assert_eq!(Confidence::new(100).unwrap().get(), 100);
    assert_eq!(Confidence::new(101).unwrap_err().value, 101);
}

#[test]
fn a_confidence_is_made_again_from_its_value() {
    let confidence = Confidence::new(42).unwrap();
    assert_eq!(Confidence::new(confidence.get()).unwrap(), confidence);
}

#[test]
fn model_errors_in_words() {
    let cases = vec![
        (
            ModelError::ExternalReferenceMissingSourceName,
            "external reference requires a non-empty source_name",
        ),
        (
            ModelError::ExternalReferenceMissingDetail,
            "external reference requires at least one of description, url, or external_id",
        ),
        (
            ModelError::GranularMarkingExclusivity,
            "granular marking must set exactly one of marking_ref or lang",
        ),
        (
            ModelError::GranularMarkingEmptySelectors,
            "granular marking requires at least one selector",
        ),
        (
            ModelError::ExtensionDefinitionMissingCreatedByRef,
            "extension definition requires created_by_ref",
        ),
        (
            ModelError::RelationshipTypeInvalid,
            "relationship type must contain only lowercase ASCII letters, digits, and hyphens",
        ),
        (
            ModelError::RelationshipStopTimeBeforeStartTime,
            "relationship stop_time must be later than start_time",
        ),
        (
            ModelError::SightingCountOutOfRange,
            "sighting count must be between 0 and 999_999_999 inclusive",
        ),
        (
            ModelError::SightingLastSeenBeforeFirstSeen,
            "sighting last_seen must be greater than or equal to first_seen",
        ),
        (
            ModelError::SightingWhereSightedRefInvalid,
            "where_sighted_refs must reference identity or location objects",
        ),
    ];
    for (error, words) in cases {
        assert_eq!(error.to_text(), words);
    }
}

#[test]
fn model_errors_are_compared() {
    let unexpected = |actual: &str| ModelError::UnexpectedObjectType {
        expected: "indicator",
        actual: actual.to_string(),
    };
    assert_eq!(unexpected("malware"), unexpected("malware"));
    assert_ne!(unexpected("malware"), unexpected("tool"));
    assert_ne!(unexpected("tool"), ModelError::SightingCountOutOfRange);
}
