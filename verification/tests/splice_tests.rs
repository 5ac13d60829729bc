use anim_splice::model::{Container, Group, GroupKind, Node, Track, VendorData, VendorItem, VendorNamedItem, VendorSpan, Version};
use anim_splice::splice::{get_anim_group_and_buffer_with_fallback, splice, AnimTransformNodeData, Side, SpliceError};

fn track(name: &str, offset: u32, size: u64) -> Track {
    Track {
        name: name.to_string(),
        track_type: 1,
        compression_type: 2,
        transform_flags: 0,
        frame_count: 1,
        data_offset: offset,
        data_size: size,
    }
}

fn bone(name: &str, offset: u32, size: u64) -> Node {
    Node { name: name.to_string(), tracks: vec![track("Transform", offset, size)] }
}

fn group(kind: GroupKind, nodes: Vec<Node>) -> Group {
    Group { kind, nodes }
}

fn container(groups: Vec<Group>, buffer: Vec<u8>) -> Container {
    Container {
        version: Version::V20,
        final_frame_index: 60.0f32.to_bits(),
        unk1: 1,
        unk2: 3,
        name: "model.nuanmb".to_string(),
        vendor_data: None,
        groups,
        buffer,
    }
}

#[test]
fn splice_with_self_keeps_transform_bytes() {
    let c = container(
        vec![
            group(GroupKind::Transform, vec![bone("ArmL", 0, 2), bone("ArmR", 2, 3)]),
            group(GroupKind::Visibility, vec![Node {
                name: "body".to_string(),
                tracks: vec![track("Visibility", 5, 2)],
            }]),
        ],
        vec![10, 11, 12, 13, 14, 15, 16],
    );
    let out = splice(&c, &c).unwrap();
    let t = &out.groups[0];
    assert_eq!(t.kind, GroupKind::Transform);
    assert_eq!(t.nodes.len(), 2);
    assert_eq!(t.nodes[0].name, "ArmL");
    assert_eq!(t.nodes[1].name, "ArmR");
    // Payload bytes are identical to the input's, offsets recomputed.
    let a = &t.nodes[0].tracks[0];
    let b = &t.nodes[1].tracks[0];
    assert_eq!(
        &out.buffer[a.data_offset as usize..(a.data_offset as u64 + a.data_size) as usize],
        &[10, 11]
    );
    assert_eq!(
        &out.buffer[b.data_offset as usize..(b.data_offset as u64 + b.data_size) as usize],
        &[12, 13, 14]
    );
    let v = &out.groups[1];
    assert_eq!(v.kind, GroupKind::Visibility);
    assert_eq!(v.nodes[0].name, "body");
    let vt = &v.nodes[0].tracks[0];
    assert_eq!(
        &out.buffer[vt.data_offset as usize..(vt.data_offset as u64 + vt.data_size) as usize],
        &[15, 16]
    );
    assert_eq!(out.buffer.len(), 7);
}

#[test]
fn reference_bone_wins_over_modified_edit() {
    let reference = container(
        vec![group(GroupKind::Transform, vec![bone("Hip", 0, 3)])],
        vec![1, 2, 3],
    );
    let modified = container(
        vec![group(GroupKind::Transform, vec![bone("Hip", 0, 3)])],
        vec![9, 9, 9],
    );
    let out = splice(&reference, &modified).unwrap();
    let t = &out.groups[0];
    assert_eq!(t.nodes.len(), 1);
    assert_eq!(t.nodes[0].name, "Hip");
    assert_eq!(out.buffer, vec![1, 2, 3]);
}

#[test]
fn new_bone_from_modified_is_appended() {
    let reference = container(
        vec![group(GroupKind::Transform, vec![bone("Hip", 0, 2)])],
        vec![1, 2],
    );
    let modified = container(
        vec![group(GroupKind::Transform, vec![bone("Hip", 0, 1), bone("Tail", 1, 2)])],
        vec![7, 8, 9],
    );
    let out = splice(&reference, &modified).unwrap();
    let t = &out.groups[0];
    assert_eq!(t.nodes.len(), 2);
    assert_eq!(t.nodes[0].name, "Hip");
    assert_eq!(t.nodes[1].name, "Tail");
    // The reference's bytes for Hip, the modified file's bytes for Tail.
    assert_eq!(out.buffer, vec![1, 2, 8, 9]);
    assert_eq!(t.nodes[1].tracks[0].data_offset, 2);
    assert_eq!(t.nodes[1].tracks[0].data_size, 2);
}

#[test]
fn name_comparison_is_case_sensitive() {
    let reference = container(
        vec![group(GroupKind::Transform, vec![bone("hip", 0, 1)])],
        vec![1],
    );
    let modified = container(
        vec![group(GroupKind::Transform, vec![bone("Hip", 0, 1)])],
        vec![9],
    );
    let out = splice(&reference, &modified).unwrap();
    // "Hip" is a different bone than "hip": both are kept.
    let t = &out.groups[0];
    assert_eq!(t.nodes.len(), 2);
    assert_eq!(t.nodes[0].name, "hip");
    assert_eq!(t.nodes[1].name, "Hip");
    assert_eq!(out.buffer, vec![1, 9]);
}

#[test]
fn visibility_falls_back_to_reference() {
    let reference = container(
        vec![group(GroupKind::Visibility, vec![Node {
            name: "body".to_string(),
            tracks: vec![track("Visibility", 0, 2)],
        }])],
        vec![4, 5],
    );
    let modified = container(vec![], vec![]);
    let out = splice(&reference, &modified).unwrap();
    assert_eq!(out.groups.len(), 1);
    assert_eq!(out.groups[0].kind, GroupKind::Visibility);
    assert_eq!(out.groups[0].nodes[0].name, "body");
    assert_eq!(out.buffer, vec![4, 5]);
}

#[test]
fn visibility_prefers_modified() {
    let reference = container(
        vec![group(GroupKind::Visibility, vec![Node {
            name: "old".to_string(),
            tracks: vec![track("Visibility", 0, 1)],
        }])],
        vec![4],
    );
    let modified = container(
        vec![group(GroupKind::Visibility, vec![Node {
            name: "new".to_string(),
            tracks: vec![track("Visibility", 0, 2)],
        }])],
        vec![6, 7],
    );
    let out = splice(&reference, &modified).unwrap();
    assert_eq!(out.groups.len(), 1);
    assert_eq!(out.groups[0].nodes[0].name, "new");
    assert_eq!(out.buffer, vec![6, 7]);
}

#[test]
fn offsets_are_packed_across_groups() {
    let reference = container(
        vec![
            group(GroupKind::Transform, vec![bone("A", 0, 2), bone("B", 2, 1)]),
            group(GroupKind::Visibility, vec![Node {
                name: "V1".to_string(),
                tracks: vec![track("Visibility", 3, 2)],
            }]),
        ],
        vec![10, 11, 12, 13, 14],
    );
    let modified = container(
        vec![
            group(GroupKind::Transform, vec![bone("B", 0, 1), bone("C", 1, 2)]),
            group(GroupKind::Material, vec![Node {
                name: "M1".to_string(),
                tracks: vec![track("CustomVector31", 3, 1)],
            }]),
        ],
        vec![20, 21, 22, 23],
    );
    let out = splice(&reference, &modified).unwrap();
    assert_eq!(out.buffer, vec![10, 11, 12, 21, 22, 13, 14, 23]);
    assert_eq!(out.groups.len(), 3);
    let t = &out.groups[0];
    assert_eq!(t.kind, GroupKind::Transform);
    let names: Vec<&str> = t.nodes.iter().map(|n| n.name.as_str()).collect();
    assert_eq!(names, vec!["A", "B", "C"]);
    // Each offset is the sum of all earlier sizes; no gaps, no overlap.
    let mut expected_offset: u64 = 0;
    let mut total: u64 = 0;
    for g in &out.groups {
        for n in &g.nodes {
            for tr in &n.tracks {
                assert_eq!(tr.data_offset as u64, expected_offset);
                expected_offset += tr.data_size;
                total += tr.data_size;
            }
        }
    }
    assert_eq!(out.buffer.len() as u64, total);
    assert_eq!(out.groups[1].kind, GroupKind::Visibility);
    assert_eq!(out.groups[2].kind, GroupKind::Material);
    assert_eq!(out.groups[1].nodes[0].tracks[0].data_offset, 5);
    assert_eq!(out.groups[2].nodes[0].tracks[0].data_offset, 7);
}

#[test]
fn metadata_comes_from_reference() {
    let mut reference = container(vec![], vec![]);
    reference.version = Version::V21;
    reference.final_frame_index = 100.5f32.to_bits();
    reference.unk1 = 1;
    reference.unk2 = 3;
    reference.name = "ref_name".to_string();
    reference.vendor_data = Some(VendorData {
        items: vec![VendorItem { unk1: 2, spans: vec![VendorSpan { unk1: 0, unk2: 100 }] }],
        named_items: vec![VendorNamedItem {
            name: "Hip".to_string(),
            spans: vec![VendorSpan { unk1: 0, unk2: 100 }],
        }],
    });
    let mut modified = container(vec![], vec![]);
    modified.version = Version::V21;
    modified.final_frame_index = 1.0f32.to_bits();
    modified.name = "mod_name".to_string();
    let out = splice(&reference, &modified).unwrap();
    assert_eq!(out.version, Version::V21);
    assert_eq!(out.final_frame_index, 100.5f32.to_bits());
    assert_eq!(out.unk1, 1);
    assert_eq!(out.unk2, 3);
    assert_eq!(out.name, "ref_name");
    let vendor = out.vendor_data.unwrap();
    assert_eq!(vendor.items.len(), 1);
    assert_eq!(vendor.items[0].unk1, 2);
    assert_eq!(vendor.items[0].spans[0], VendorSpan { unk1: 0, unk2: 100 });
    assert_eq!(vendor.named_items[0].name, "Hip");
    assert!(out.groups.is_empty());
    assert!(out.buffer.is_empty());
}

#[test]
fn legacy_reference_is_rejected() {
    let mut reference = container(vec![], vec![]);
    reference.version = Version::V12;
    let modified = container(vec![], vec![]);
    let err = match splice(&reference, &modified) {
        Err(e) => e,
        Ok(_) => panic!("expected an error"),
    };
    assert_eq!(err, SpliceError::UnsupportedVersion { which: Side::Reference });
}

#[test]
fn legacy_modified_is_rejected() {
    let reference = container(vec![], vec![]);
    let mut modified = container(vec![], vec![]);
    modified.version = Version::V12;
    let err = match splice(&reference, &modified) {
        Err(e) => e,
        Ok(_) => panic!("expected an error"),
    };
    assert_eq!(err, SpliceError::UnsupportedVersion { which: Side::Modified });
}

#[test]
fn legacy_on_both_sides_names_the_reference() {
    let mut reference = container(vec![], vec![]);
    reference.version = Version::V12;
    let mut modified = container(vec![], vec![]);
    modified.version = Version::V12;
    let err = match splice(&reference, &modified) {
        Err(e) => e,
        Ok(_) => panic!("expected an error"),
    };
    assert_eq!(err, SpliceError::UnsupportedVersion { which: Side::Reference });
}

#[test]
fn transform_node_without_track_is_malformed() {
    let reference = container(
        vec![group(GroupKind::Transform, vec![Node { name: "Hip".to_string(), tracks: vec![] }])],
        vec![],
    );
    let modified = container(vec![], vec![]);
    let err = match splice(&reference, &modified) {
        Err(e) => e,
        Ok(_) => panic!("expected an error"),
    };
    assert_eq!(err, SpliceError::MalformedSource);
}

#[test]
fn track_range_outside_buffer_is_malformed() {
    let reference = container(
        vec![group(GroupKind::Transform, vec![bone("Hip", 2, 4)])],
        vec![1, 2, 3],
    );
    let modified = container(vec![], vec![]);
    let err = match splice(&reference, &modified) {
        Err(e) => e,
        Ok(_) => panic!("expected an error"),
    };
    assert_eq!(err, SpliceError::MalformedSource);
}

#[test]
fn shadowed_malformed_modified_bone_is_ignored() {
    // The modified file's node for an existing bone is discarded without
    // being read, so its bogus descriptor does not fail the splice.
    let reference = container(
        vec![group(GroupKind::Transform, vec![bone("Hip", 0, 1)])],
        vec![5],
    );
    let modified = container(
        vec![group(GroupKind::Transform, vec![Node { name: "Hip".to_string(), tracks: vec![] }])],
        vec![],
    );
    let out = splice(&reference, &modified).unwrap();
    assert_eq!(out.buffer, vec![5]);
}

#[test]
fn empty_transform_groups_are_omitted() {
    let reference = container(vec![group(GroupKind::Transform, vec![])], vec![]);
    let modified = container(vec![], vec![]);
    let out = splice(&reference, &modified).unwrap();
    assert!(out.groups.is_empty());
}

#[test]
fn track_metadata_is_preserved() {
    let mut t = track("Transform", 0, 2);
    t.track_type = 1;
    t.compression_type = 4;
    t.transform_flags = 0x0000_0005;
    t.frame_count = 42;
    let reference = container(
        vec![group(GroupKind::Transform, vec![Node { name: "Hip".to_string(), tracks: vec![t] }])],
        vec![8, 9],
    );
    let modified = container(vec![], vec![]);
    let out = splice(&reference, &modified).unwrap();
    let ot = &out.groups[0].nodes[0].tracks[0];
    assert_eq!(ot.name, "Transform");
    assert_eq!(ot.track_type, 1);
    assert_eq!(ot.compression_type, 4);
    assert_eq!(ot.transform_flags, 0x0000_0005);
    assert_eq!(ot.frame_count, 42);
    assert_eq!(ot.data_size, 2);
    assert_eq!(ot.data_offset, 0);
}

#[test]
fn anim_transform_node_data_copies_payload() {
    let node = bone("Hip", 1, 3);
    let buffer = vec![9, 10, 11, 12, 13];
    let data = AnimTransformNodeData::from(&node, &buffer);
    assert_eq!(data.name, "Hip");
    assert_eq!(data.buffer, vec![10, 11, 12]);
    assert_eq!(data.track.data_offset, 1);
    assert_eq!(data.track.data_size, 3);
}

#[test]
fn fallback_helper_prefers_priority_side() {
    let pg = vec![group(GroupKind::Visibility, vec![])];
    let pb = vec![1u8];
    let fg = vec![group(GroupKind::Visibility, vec![]), group(GroupKind::Material, vec![])];
    let fb = vec![2u8];
    let hit = get_anim_group_and_buffer_with_fallback(&pg, &pb, &fg, &fb, GroupKind::Visibility);
    let (g, b) = hit.unwrap();
    assert_eq!(g.kind, GroupKind::Visibility);
    assert_eq!(b, &vec![1u8]);
    let fallback = get_anim_group_and_buffer_with_fallback(&pg, &pb, &fg, &fb, GroupKind::Material);
    let (g2, b2) = fallback.unwrap();
    assert_eq!(g2.kind, GroupKind::Material);
    assert_eq!(b2, &vec![2u8]);
    let none = get_anim_group_and_buffer_with_fallback(&pg, &pb, &fg, &fb, GroupKind::Transform);
    assert!(none.is_none());
}

#[test]
fn modified_only_transform_group_is_taken_whole() {
    let reference = container(vec![], vec![]);
    let modified = container(
        vec![group(GroupKind::Transform, vec![bone("Hip", 0, 1), bone("Tail", 1, 2)])],
        vec![7, 8, 9],
    );
    let out = splice(&reference, &modified).unwrap();
    let t = &out.groups[0];
    assert_eq!(t.nodes.len(), 2);
    assert_eq!(t.nodes[0].name, "Hip");
    assert_eq!(t.nodes[1].name, "Tail");
    assert_eq!(out.buffer, vec![7, 8, 9]);
}

#[test]
fn only_the_first_track_of_a_transform_node_is_emitted() {
    let reference = container(
        vec![group(GroupKind::Transform, vec![Node {
            name: "Hip".to_string(),
            tracks: vec![track("Transform", 0, 2), track("Extra", 2, 1)],
        }])],
        vec![1, 2, 3],
    );
    let modified = container(vec![], vec![]);
    let out = splice(&reference, &modified).unwrap();
    let t = &out.groups[0];
    assert_eq!(t.nodes[0].tracks.len(), 1);
    assert_eq!(t.nodes[0].tracks[0].name, "Transform");
    assert_eq!(out.buffer, vec![1, 2]);
}
