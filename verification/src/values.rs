//! The decoded value view of a container: per-frame track values instead
//! of raw payload bytes.  This is the form the validation engine compares.

use vstd::prelude::*;

use crate::model::{GroupKind, Version};

verus! {

/// One frame of a transform track: the raw bit patterns of the ten stored
/// floating-point components, so that equality of samples is equality of
/// the stored bytes.
#[derive(Clone, Copy, PartialEq, Eq, Structural, Debug)]
pub struct TransformSample {
    pub scale_x: u32,
    pub scale_y: u32,
    pub scale_z: u32,
    pub rotation_x: u32,
    pub rotation_y: u32,
    pub rotation_z: u32,
    pub rotation_w: u32,
    pub translation_x: u32,
    pub translation_y: u32,
    pub translation_z: u32,
}

/// The decoded per-frame values of one track.  Validation inspects only
/// transform values; visibility and material payloads are carried as bare
/// category tags.
pub enum TrackValues {
    Transform(Vec<TransformSample>),
    Visibility,
    Material,
}

/// Mathematical image of a [`TrackValues`].
#[verifier::ext_equal]
pub enum TrackValuesView {
    Transform(Seq<TransformSample>),
    Visibility,
    Material,
}

impl View for TrackValues {
    type V = TrackValuesView;

    open spec fn view(&self) -> TrackValuesView {
        match self {
            TrackValues::Transform(v) => TrackValuesView::Transform(v@),
            TrackValues::Visibility => TrackValuesView::Visibility,
            TrackValues::Material => TrackValuesView::Material,
        }
    }
}

/// Element-wise view of a sequence of track values.
pub open spec fn track_values_view(ts: Seq<TrackValues>) -> Seq<TrackValuesView> {
    Seq::new(ts.len(), |i: int| ts[i]@)
}

/// A named entity of the value view, holding the decoded values of its
/// tracks.
pub struct ValueNode {
    pub name: String,
    pub tracks: Vec<TrackValues>,
}

/// Mathematical image of a [`ValueNode`].
#[verifier::ext_equal]
pub struct ValueNodeView {
    pub name: Seq<char>,
    pub tracks: Seq<TrackValuesView>,
}

impl View for ValueNode {
    type V = ValueNodeView;

    open spec fn view(&self) -> ValueNodeView {
        ValueNodeView { name: self.name@, tracks: track_values_view(self.tracks@) }
    }
}

/// Element-wise view of a sequence of value nodes.
pub open spec fn value_nodes_view(ns: Seq<ValueNode>) -> Seq<ValueNodeView> {
    Seq::new(ns.len(), |i: int| ns[i]@)
}

/// A category partition of the value view.
pub struct ValueGroup {
    pub kind: GroupKind,
    pub nodes: Vec<ValueNode>,
}

/// Mathematical image of a [`ValueGroup`].
#[verifier::ext_equal]
pub struct ValueGroupView {
    pub kind: GroupKind,
    pub nodes: Seq<ValueNodeView>,
}

impl View for ValueGroup {
    type V = ValueGroupView;

    open spec fn view(&self) -> ValueGroupView {
        ValueGroupView { kind: self.kind, nodes: value_nodes_view(self.nodes@) }
    }
}

/// Element-wise view of a sequence of value groups.
pub open spec fn value_groups_view(gs: Seq<ValueGroup>) -> Seq<ValueGroupView> {
    Seq::new(gs.len(), |i: int| gs[i]@)
}

/// Decoded value form of one animation container file.
///
/// As in the byte-level model, `final_frame_index` keeps the raw bit
/// pattern of the file's floating-point frame index.
pub struct ValueContainer {
    pub version: Version,
    pub final_frame_index: u32,
    pub groups: Vec<ValueGroup>,
}

/// Mathematical image of a [`ValueContainer`].
#[verifier::ext_equal]
pub struct ValueContainerView {
    pub version: Version,
    pub final_frame_index: u32,
    pub groups: Seq<ValueGroupView>,
}

impl View for ValueContainer {
    type V = ValueContainerView;

    open spec fn view(&self) -> ValueContainerView {
        ValueContainerView {
            version: self.version,
            final_frame_index: self.final_frame_index,
            groups: value_groups_view(self.groups@),
        }
    }
}

} // verus!
