//! The in-memory container model: format version, groups, nodes, tracks and
//! the byte buffer that track payloads address by offset and size.

use vstd::prelude::*;

verus! {

/// Format version of a container file.  `V20` and `V21` are the two current
/// variants; `V12` is the legacy variant that neither engine supports.
#[derive(Clone, Copy, PartialEq, Eq, Structural, Debug)]
pub enum Version {
    V12,
    V20,
    V21,
}

/// Category of a group.  A container holds at most one group per category.
#[derive(Clone, Copy, PartialEq, Eq, Structural, Debug)]
pub enum GroupKind {
    Transform,
    Visibility,
    Material,
}

/// A named animation channel.  Scalar metadata is carried through splicing
/// unchanged; `data_offset` and `data_size` locate the payload bytes inside
/// the owning container's buffer.
pub struct Track {
    pub name: String,
    /// Raw tag of the track's value type.
    pub track_type: u8,
    /// Raw tag of the payload compression scheme.
    pub compression_type: u8,
    /// Raw override-flag bits.
    pub transform_flags: u32,
    pub frame_count: u32,
    pub data_offset: u32,
    pub data_size: u64,
}

/// Mathematical image of a [`Track`].
#[verifier::ext_equal]
pub struct TrackView {
    pub name: Seq<char>,
    pub track_type: u8,
    pub compression_type: u8,
    pub transform_flags: u32,
    pub frame_count: u32,
    pub data_offset: u32,
    pub data_size: u64,
}

impl View for Track {
    type V = TrackView;

    open spec fn view(&self) -> TrackView {
        TrackView {
            name: self.name@,
            track_type: self.track_type,
            compression_type: self.compression_type,
            transform_flags: self.transform_flags,
            frame_count: self.frame_count,
            data_offset: self.data_offset,
            data_size: self.data_size,
        }
    }
}

/// A named entity (typically a skeleton bone or a target object) within a
/// group, holding an ordered sequence of tracks.
pub struct Node {
    pub name: String,
    pub tracks: Vec<Track>,
}

/// Mathematical image of a [`Node`].
#[verifier::ext_equal]
pub struct NodeView {
    pub name: Seq<char>,
    pub tracks: Seq<TrackView>,
}

/// Element-wise view of a sequence of tracks.
pub open spec fn tracks_view(ts: Seq<Track>) -> Seq<TrackView> {
    Seq::new(ts.len(), |i: int| ts[i]@)
}

impl View for Node {
    type V = NodeView;

    open spec fn view(&self) -> NodeView {
        NodeView { name: self.name@, tracks: tracks_view(self.tracks@) }
    }
}

/// A category partition of a container's animation data.
pub struct Group {
    pub kind: GroupKind,
    pub nodes: Vec<Node>,
}

/// Mathematical image of a [`Group`].
#[verifier::ext_equal]
pub struct GroupView {
    pub kind: GroupKind,
    pub nodes: Seq<NodeView>,
}

/// Element-wise view of a sequence of nodes.
pub open spec fn nodes_view(ns: Seq<Node>) -> Seq<NodeView> {
    Seq::new(ns.len(), |i: int| ns[i]@)
}

impl View for Group {
    type V = GroupView;

    open spec fn view(&self) -> GroupView {
        GroupView { kind: self.kind, nodes: nodes_view(self.nodes@) }
    }
}

/// Element-wise view of a sequence of groups.
pub open spec fn groups_view(gs: Seq<Group>) -> Seq<GroupView> {
    Seq::new(gs.len(), |i: int| gs[i]@)
}

/// A pair of frame indices inside the vendor metadata.
#[derive(Clone, Copy, PartialEq, Eq, Structural, Debug)]
pub struct VendorSpan {
    pub unk1: u32,
    pub unk2: u32,
}

/// Opaque vendor metadata entry keyed by a numeric tag.
pub struct VendorItem {
    pub unk1: u64,
    pub spans: Vec<VendorSpan>,
}

/// Mathematical image of a [`VendorItem`].
#[verifier::ext_equal]
pub struct VendorItemView {
    pub unk1: u64,
    pub spans: Seq<VendorSpan>,
}

impl View for VendorItem {
    type V = VendorItemView;

    open spec fn view(&self) -> VendorItemView {
        VendorItemView { unk1: self.unk1, spans: self.spans@ }
    }
}

/// Opaque vendor metadata entry keyed by a name.
pub struct VendorNamedItem {
    pub name: String,
    pub spans: Vec<VendorSpan>,
}

/// Mathematical image of a [`VendorNamedItem`].
#[verifier::ext_equal]
pub struct VendorNamedItemView {
    pub name: Seq<char>,
    pub spans: Seq<VendorSpan>,
}

impl View for VendorNamedItem {
    type V = VendorNamedItemView;

    open spec fn view(&self) -> VendorNamedItemView {
        VendorNamedItemView { name: self.name@, spans: self.spans@ }
    }
}

/// Opaque vendor metadata that the `V21` variant carries and a splice passes
/// through unchanged.
pub struct VendorData {
    pub items: Vec<VendorItem>,
    pub named_items: Vec<VendorNamedItem>,
}

/// Mathematical image of a [`VendorData`].
#[verifier::ext_equal]
pub struct VendorDataView {
    pub items: Seq<VendorItemView>,
    pub named_items: Seq<VendorNamedItemView>,
}

/// Element-wise view of a sequence of numeric vendor entries.
pub open spec fn vendor_items_view(xs: Seq<VendorItem>) -> Seq<VendorItemView> {
    Seq::new(xs.len(), |i: int| xs[i]@)
}

/// Element-wise view of a sequence of named vendor entries.
pub open spec fn vendor_named_items_view(xs: Seq<VendorNamedItem>) -> Seq<VendorNamedItemView> {
    Seq::new(xs.len(), |i: int| xs[i]@)
}

impl View for VendorData {
    type V = VendorDataView;

    open spec fn view(&self) -> VendorDataView {
        VendorDataView {
            items: vendor_items_view(self.items@),
            named_items: vendor_named_items_view(self.named_items@),
        }
    }
}

/// Decoded in-memory form of one animation container file.
///
/// `final_frame_index` keeps the raw bit pattern of the file's floating-point
/// frame index, so that equality of the field is equality of the stored
/// bytes.
pub struct Container {
    pub version: Version,
    pub final_frame_index: u32,
    pub unk1: u16,
    pub unk2: u16,
    pub name: String,
    pub vendor_data: Option<VendorData>,
    pub groups: Vec<Group>,
    pub buffer: Vec<u8>,
}

/// Mathematical image of a [`Container`].
#[verifier::ext_equal]
pub struct ContainerView {
    pub version: Version,
    pub final_frame_index: u32,
    pub unk1: u16,
    pub unk2: u16,
    pub name: Seq<char>,
    pub vendor_data: Option<VendorDataView>,
    pub groups: Seq<GroupView>,
    pub buffer: Seq<u8>,
}

impl View for Container {
    type V = ContainerView;

    open spec fn view(&self) -> ContainerView {
        ContainerView {
            version: self.version,
            final_frame_index: self.final_frame_index,
            unk1: self.unk1,
            unk2: self.unk2,
            name: self.name@,
            vendor_data: match self.vendor_data {
                Some(v) => Some(v@),
                None => None,
            },
            groups: groups_view(self.groups@),
            buffer: self.buffer@,
        }
    }
}

/// A version the engines accept.
pub open spec fn supported(v: Version) -> bool {
    v != Version::V12
}

/// The track's payload range lies inside `buf`.
pub open spec fn track_in_bounds(t: TrackView, buf: Seq<u8>) -> bool {
    t.data_offset + t.data_size <= buf.len()
}

/// The payload bytes that `t` addresses inside `buf`.
pub open spec fn payload_of(t: TrackView, buf: Seq<u8>) -> Seq<u8>
    recommends
        track_in_bounds(t, buf),
{
    buf.subrange(t.data_offset as int, t.data_offset + t.data_size)
}

/// Every track of every node of `g` addresses a valid range of `buf`.
pub open spec fn group_in_bounds(g: GroupView, buf: Seq<u8>) -> bool {
    forall|i: int, j: int|
        0 <= i < g.nodes.len() && 0 <= j < g.nodes[i].tracks.len() ==> track_in_bounds(
            g.nodes[i].tracks[j],
            buf,
        )
}

/// An element-wise copy of a span list.
fn copy_spans(src: &Vec<VendorSpan>) -> (r: Vec<VendorSpan>)
    ensures
        r@ == src@,
{
    let mut out: Vec<VendorSpan> = Vec::new();
    let mut i: usize = 0;
    while i < src.len()
        invariant
            i <= src.len(),
            out@ == src@.take(i as int),
        decreases src.len() - i,
    {
        out.push(src[i]);
        proof {
            assert(src@.take(i as int + 1) =~= src@.take(i as int).push(src@[i as int]));
        }
        i = i + 1;
    }
    proof {
        assert(src@.take(src.len() as int) =~= src@);
    }
    out
}

impl VendorItem {
    /// An explicit deep copy whose image equals the original's.
    pub fn duplicate(&self) -> (r: VendorItem)
        ensures
            r@ == self@,
    {
        VendorItem { unk1: self.unk1, spans: copy_spans(&self.spans) }
    }
}

impl VendorNamedItem {
    /// An explicit deep copy whose image equals the original's.
    pub fn duplicate(&self) -> (r: VendorNamedItem)
        ensures
            r@ == self@,
    {
        VendorNamedItem { name: self.name.clone(), spans: copy_spans(&self.spans) }
    }
}

impl VendorData {
    /// An explicit deep copy whose image equals the original's.
    pub fn duplicate(&self) -> (r: VendorData)
        ensures
            r@ == self@,
    {
        let mut items: Vec<VendorItem> = Vec::new();
        let mut i: usize = 0;
        while i < self.items.len()
            invariant
                i <= self.items.len(),
                items@.len() == i,
                forall|k: int| 0 <= k < i ==> items@[k]@ == self.items@[k]@,
            decreases self.items.len() - i,
        {
            items.push(self.items[i].duplicate());
            i = i + 1;
        }
        let mut named_items: Vec<VendorNamedItem> = Vec::new();
        let mut j: usize = 0;
        while j < self.named_items.len()
            invariant
                j <= self.named_items.len(),
                named_items@.len() == j,
                items@.len() == self.items@.len(),
                forall|k: int| 0 <= k < self.items@.len() ==> items@[k]@ == self.items@[k]@,
                forall|k: int| 0 <= k < j ==> named_items@[k]@ == self.named_items@[k]@,
            decreases self.named_items.len() - j,
        {
            named_items.push(self.named_items[j].duplicate());
            j = j + 1;
        }
        let r = VendorData { items, named_items };
        proof {
            assert(vendor_items_view(r.items@) =~= vendor_items_view(self.items@));
            assert(vendor_named_items_view(r.named_items@) =~= vendor_named_items_view(
                self.named_items@,
            ));
            assert(r@ =~~= self@);
        }
        r
    }
}

impl Track {
    /// An explicit deep copy whose image equals the original's.
    pub fn duplicate(&self) -> (r: Track)
        ensures
            r@ == self@,
    {
        Track {
            name: self.name.clone(),
            track_type: self.track_type,
            compression_type: self.compression_type,
            transform_flags: self.transform_flags,
            frame_count: self.frame_count,
            data_offset: self.data_offset,
            data_size: self.data_size,
        }
    }
}

} // verus!
