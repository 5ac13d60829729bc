use anim_splice::model::{GroupKind, Version};
use anim_splice::validate::{
    validate, RunTotals, SafetyRating, UnsafeReason, WarningReason,
};
use anim_splice::values::{
    TrackValues, TransformSample, ValueContainer, ValueGroup, ValueNode,
};

fn sample(tag: u32) -> TransformSample {
    TransformSample {
        scale_x: 1.0f32.to_bits(),
        scale_y: 1.0f32.to_bits(),
        scale_z: 1.0f32.to_bits(),
        rotation_x: 0,
        rotation_y: 0,
        rotation_z: 0,
        rotation_w: 1.0f32.to_bits(),
        translation_x: tag,
        translation_y: 0,
        translation_z: 0,
    }
}

fn transform_bone(name: &str, samples: Vec<TransformSample>) -> ValueNode {
    ValueNode { name: name.to_string(), tracks: vec![TrackValues::Transform(samples)] }
}

fn with_transform_group(nodes: Vec<ValueNode>) -> ValueContainer {
    ValueContainer {
        version: Version::V20,
        final_frame_index: 60.0f32.to_bits(),
        groups: vec![ValueGroup { kind: GroupKind::Transform, nodes }],
    }
}

fn empty_container() -> ValueContainer {
    ValueContainer { version: Version::V20, final_frame_index: 60.0f32.to_bits(), groups: vec![] }
}

#[test]
fn identical_containers_are_safe() {
    let r = with_transform_group(vec![
        transform_bone("A", vec![sample(1), sample(2)]),
        transform_bone("B", vec![sample(3)]),
    ]);
    let c = with_transform_group(vec![
        transform_bone("A", vec![sample(1), sample(2)]),
        transform_bone("B", vec![sample(3)]),
    ]);
    assert_eq!(validate(&r, &c), SafetyRating::Safe);
}

#[test]
fn changed_frame_names_bone_frame_and_values() {
    let r = with_transform_group(vec![
        transform_bone("A", vec![sample(10)]),
        transform_bone("B", vec![sample(20)]),
    ]);
    let c = with_transform_group(vec![
        transform_bone("A", vec![sample(10)]),
        transform_bone("B", vec![sample(21)]),
    ]);
    assert_eq!(
        validate(&r, &c),
        SafetyRating::Unsafe(UnsafeReason::FrameValueMismatch {
            bone: "B".to_string(),
            frame: 0,
            reference_value: sample(20),
            candidate_value: sample(21),
        })
    );
}

#[test]
fn later_frame_mismatch_reports_its_index() {
    let r = with_transform_group(vec![transform_bone("A", vec![sample(1), sample(2), sample(3)])]);
    let c = with_transform_group(vec![transform_bone("A", vec![sample(1), sample(2), sample(9)])]);
    assert_eq!(
        validate(&r, &c),
        SafetyRating::Unsafe(UnsafeReason::FrameValueMismatch {
            bone: "A".to_string(),
            frame: 2,
            reference_value: sample(3),
            candidate_value: sample(9),
        })
    );
}

#[test]
fn missing_bone_is_unsafe() {
    let r = with_transform_group(vec![transform_bone("C", vec![sample(1)])]);
    let c = with_transform_group(vec![transform_bone("Other", vec![sample(1)])]);
    assert_eq!(
        validate(&r, &c),
        SafetyRating::Unsafe(UnsafeReason::MissingBone { bone: "C".to_string() })
    );
}

#[test]
fn frame_count_mismatch_reports_both_lengths() {
    let ten: Vec<TransformSample> = (0..10).map(sample).collect();
    let eight: Vec<TransformSample> = (0..8).map(sample).collect();
    let r = with_transform_group(vec![transform_bone("D", ten)]);
    let c = with_transform_group(vec![transform_bone("D", eight)]);
    assert_eq!(
        validate(&r, &c),
        SafetyRating::Unsafe(UnsafeReason::FrameCountMismatch {
            bone: "D".to_string(),
            reference_frames: 10,
            candidate_frames: 8,
        })
    );
}

#[test]
fn legacy_candidate_is_a_warning() {
    let r = empty_container();
    let mut c = empty_container();
    c.version = Version::V12;
    assert_eq!(validate(&r, &c), SafetyRating::Warning(WarningReason::LegacyCandidate));
}

#[test]
fn legacy_reference_is_unsafe() {
    let mut r = empty_container();
    r.version = Version::V12;
    let c = empty_container();
    assert_eq!(validate(&r, &c), SafetyRating::Unsafe(UnsafeReason::LegacyReference));
}

#[test]
fn legacy_on_both_sides_is_a_warning() {
    let mut r = empty_container();
    r.version = Version::V12;
    let mut c = empty_container();
    c.version = Version::V12;
    assert_eq!(validate(&r, &c), SafetyRating::Warning(WarningReason::LegacyCandidate));
}

#[test]
fn final_frame_index_mismatch_is_unsafe() {
    let r = empty_container();
    let mut c = empty_container();
    c.final_frame_index = 30.0f32.to_bits();
    assert_eq!(
        validate(&r, &c),
        SafetyRating::Unsafe(UnsafeReason::FinalFrameIndexMismatch {
            reference_bits: 60.0f32.to_bits(),
            candidate_bits: 30.0f32.to_bits(),
        })
    );
}

#[test]
fn candidate_without_transform_group_is_unsafe() {
    let r = with_transform_group(vec![transform_bone("A", vec![sample(1)])]);
    let c = empty_container();
    assert_eq!(validate(&r, &c), SafetyRating::Unsafe(UnsafeReason::MissingTransformGroup));
}

#[test]
fn candidate_only_transform_group_is_a_warning() {
    let r = empty_container();
    let c = with_transform_group(vec![transform_bone("A", vec![sample(1)])]);
    assert_eq!(validate(&r, &c), SafetyRating::Warning(WarningReason::CandidateTransformOnly));
}

#[test]
fn neither_side_with_transform_group_is_safe() {
    assert_eq!(validate(&empty_container(), &empty_container()), SafetyRating::Safe);
}

#[test]
fn reference_bone_without_track_is_skipped() {
    let r = with_transform_group(vec![
        ValueNode { name: "Broken".to_string(), tracks: vec![] },
        transform_bone("A", vec![sample(1)]),
    ]);
    let c = with_transform_group(vec![transform_bone("A", vec![sample(1)])]);
    assert_eq!(validate(&r, &c), SafetyRating::Safe);
}

#[test]
fn mistyped_reference_track_is_skipped() {
    let r = with_transform_group(vec![ValueNode {
        name: "Odd".to_string(),
        tracks: vec![TrackValues::Visibility],
    }]);
    let c = with_transform_group(vec![]);
    assert_eq!(validate(&r, &c), SafetyRating::Safe);
}

#[test]
fn candidate_bone_without_track_is_unsafe() {
    let r = with_transform_group(vec![transform_bone("A", vec![sample(1)])]);
    let c = with_transform_group(vec![ValueNode { name: "A".to_string(), tracks: vec![] }]);
    assert_eq!(
        validate(&r, &c),
        SafetyRating::Unsafe(UnsafeReason::MissingTransformTrack { bone: "A".to_string() })
    );
}

#[test]
fn mistyped_candidate_track_is_unsafe() {
    let r = with_transform_group(vec![transform_bone("A", vec![sample(1)])]);
    let c = with_transform_group(vec![ValueNode {
        name: "A".to_string(),
        tracks: vec![TrackValues::Material],
    }]);
    assert_eq!(
        validate(&r, &c),
        SafetyRating::Unsafe(UnsafeReason::MistypedTransformTrack { bone: "A".to_string() })
    );
}

#[test]
fn first_unsafe_bone_wins() {
    // Bone order matters: the first discrepancy in reference order is the
    // one reported.
    let r = with_transform_group(vec![
        transform_bone("A", vec![sample(1)]),
        transform_bone("B", vec![sample(2)]),
    ]);
    let c = with_transform_group(vec![transform_bone("B", vec![sample(9)])]);
    assert_eq!(
        validate(&r, &c),
        SafetyRating::Unsafe(UnsafeReason::MissingBone { bone: "A".to_string() })
    );
}

#[test]
fn run_totals_count_each_verdict() {
    let mut totals = RunTotals::new();
    totals.record(&SafetyRating::Safe);
    totals.record(&SafetyRating::Unsafe(UnsafeReason::MissingTransformGroup));
    totals.record(&SafetyRating::Warning(WarningReason::LegacyCandidate));
    totals.record(&SafetyRating::Safe);
    totals.record_skip();
    assert_eq!(totals, RunTotals { safe: 2, unsafe_count: 1, warning: 1, skipped: 1 });
}
