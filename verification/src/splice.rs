//! The splice engine: merges a reference container and a modified container
//! into a new container whose track payloads are repacked into a fresh
//! buffer with recomputed offsets.
//!
//! The merge keeps every transform node of the reference untouched, appends
//! transform nodes that only the modified container names, and takes the
//! visibility and material groups from the modified container when it has
//! them, falling back to the reference's otherwise.  Scalar metadata comes
//! from the reference.  [`splice_spec`] states the whole behaviour,
//! including exactly when each error is returned.

use vstd::prelude::*;

use crate::model::{
    track_in_bounds, group_in_bounds, supported, Container, ContainerView, Group, GroupKind,
    GroupView, Node, NodeView, Track, TrackView, Version,
};

verus! {

/// Which of the two input containers an error speaks of.
#[derive(Clone, Copy, PartialEq, Eq, Structural, Debug)]
pub enum Side {
    Reference,
    Modified,
}

/// Why a splice failed.
#[derive(Clone, Copy, PartialEq, Eq, Structural, Debug)]
pub enum SpliceError {
    /// The named input is of the legacy, unsupported format variant.
    UnsupportedVersion { which: Side },
    /// An emitted track of a source container addresses bytes outside that
    /// container's buffer, or a transform node to be emitted has no track.
    MalformedSource,
    /// The packed payloads would not fit below the maximum byte offset a
    /// track descriptor can store.
    OversizedOutput,
}

/// First group of kind `k`, if any.
pub open spec fn find_group(gs: Seq<GroupView>, k: GroupKind) -> Option<GroupView>
    decreases gs.len(),
{
    if gs.len() == 0 {
        None
    } else if gs[0].kind == k {
        Some(gs[0])
    } else {
        find_group(gs.drop_first(), k)
    }
}

/// The nodes of the container's transform group, or the empty sequence when
/// it has none.
pub open spec fn transform_nodes(c: ContainerView) -> Seq<NodeView> {
    match find_group(c.groups, GroupKind::Transform) {
        Some(g) => g.nodes,
        None => Seq::empty(),
    }
}

/// Some node in `ns` bears exactly the name `name`.
pub open spec fn has_node_named(ns: Seq<NodeView>, name: Seq<char>) -> bool {
    exists|i: int| 0 <= i < ns.len() && ns[i].name == name
}

/// The nodes of `ms`, in order, whose names do not occur in `rs`.
pub open spec fn added_nodes(ms: Seq<NodeView>, rs: Seq<NodeView>) -> Seq<NodeView>
    decreases ms.len(),
{
    if ms.len() == 0 {
        Seq::empty()
    } else {
        let rest = added_nodes(ms.drop_first(), rs);
        if has_node_named(rs, ms[0].name) {
            rest
        } else {
            seq![ms[0]] + rest
        }
    }
}

/// The group of kind `k` from the priority side when present, else from the
/// fallback side, paired with the buffer its payloads live in.
pub open spec fn with_fallback(
    priority_groups: Seq<GroupView>,
    priority_buffer: Seq<u8>,
    fallback_groups: Seq<GroupView>,
    fallback_buffer: Seq<u8>,
    k: GroupKind,
) -> Option<(GroupView, Seq<u8>)> {
    match find_group(priority_groups, k) {
        Some(g) => Some((g, priority_buffer)),
        None => match find_group(fallback_groups, k) {
            Some(g) => Some((g, fallback_buffer)),
            None => None,
        },
    }
}

/// The visibility or material group a splice emits: the modified
/// container's, with the reference's as fallback.
pub open spec fn chosen_group(r: ContainerView, m: ContainerView, k: GroupKind) -> Option<
    (GroupView, Seq<u8>),
> {
    with_fallback(m.groups, m.buffer, r.groups, r.buffer, k)
}

/// One transform node prepared for emission: its name, its single track's
/// metadata, and a private copy of that track's payload bytes.
pub struct AnimTransformNodeData {
    pub name: String,
    pub buffer: Vec<u8>,
    pub track: Track,
}

/// Mathematical image of an [`AnimTransformNodeData`].
#[verifier::ext_equal]
pub struct AnimTransformNodeDataView {
    pub name: Seq<char>,
    pub buffer: Seq<u8>,
    pub track: TrackView,
}

impl View for AnimTransformNodeData {
    type V = AnimTransformNodeDataView;

    open spec fn view(&self) -> AnimTransformNodeDataView {
        AnimTransformNodeDataView { name: self.name@, buffer: self.buffer@, track: self.track@ }
    }
}

/// The emission record for a transform node backed by `buf`.
pub open spec fn entry_of(n: NodeView, buf: Seq<u8>) -> AnimTransformNodeDataView
    recommends
        transform_node_wf(n, buf),
{
    AnimTransformNodeDataView {
        name: n.name,
        buffer: buf.subrange(
            n.tracks[0].data_offset as int,
            n.tracks[0].data_offset + n.tracks[0].data_size,
        ),
        track: n.tracks[0],
    }
}

/// The emission records for a sequence of transform nodes backed by `buf`.
pub open spec fn entries_of(ns: Seq<NodeView>, buf: Seq<u8>) -> Seq<AnimTransformNodeDataView> {
    Seq::new(ns.len(), |i: int| entry_of(ns[i], buf))
}

/// The full emission order of transform nodes: every reference node first,
/// then the modified container's nodes whose names are new.
pub open spec fn splice_entries(r: ContainerView, m: ContainerView) -> Seq<
    AnimTransformNodeDataView,
> {
    entries_of(transform_nodes(r), r.buffer) + entries_of(
        added_nodes(transform_nodes(m), transform_nodes(r)),
        m.buffer,
    )
}

/// A transform node fit for emission: it has a track, and that track's
/// payload range lies inside the source buffer.
pub open spec fn transform_node_wf(n: NodeView, buf: Seq<u8>) -> bool {
    &&& n.tracks.len() >= 1
    &&& track_in_bounds(n.tracks[0], buf)
}

/// Every byte range the splice will read exists in its source container:
/// all emitted transform nodes are well-formed, and every track of the
/// chosen visibility and material groups is in bounds.
pub open spec fn sources_wf(r: ContainerView, m: ContainerView) -> bool {
    &&& forall|i: int|
        0 <= i < transform_nodes(r).len() ==> transform_node_wf(
            #[trigger] transform_nodes(r)[i],
            r.buffer,
        )
    &&& forall|i: int|
        0 <= i < added_nodes(transform_nodes(m), transform_nodes(r)).len()
            ==> transform_node_wf(
            #[trigger] added_nodes(transform_nodes(m), transform_nodes(r))[i],
            m.buffer,
        )
    &&& match chosen_group(r, m, GroupKind::Visibility) {
        Some((g, b)) => group_in_bounds(g, b),
        None => true,
    }
    &&& match chosen_group(r, m, GroupKind::Material) {
        Some((g, b)) => group_in_bounds(g, b),
        None => true,
    }
}

/// Total payload bytes of a sequence of emission records.
pub open spec fn entries_total(es: Seq<AnimTransformNodeDataView>) -> int
    decreases es.len(),
{
    if es.len() == 0 {
        0
    } else {
        es[0].track.data_size + entries_total(es.drop_first())
    }
}

/// Concatenation of the payload bytes of a sequence of emission records.
pub open spec fn entries_payload(es: Seq<AnimTransformNodeDataView>) -> Seq<u8>
    decreases es.len(),
{
    if es.len() == 0 {
        Seq::empty()
    } else {
        es[0].buffer + entries_payload(es.drop_first())
    }
}

/// The track `t` re-addressed to offset `off`.
pub open spec fn track_at(t: TrackView, off: int) -> TrackView {
    TrackView {
        name: t.name,
        track_type: t.track_type,
        compression_type: t.compression_type,
        transform_flags: t.transform_flags,
        frame_count: t.frame_count,
        data_offset: off as u32,
        data_size: t.data_size,
    }
}

/// The output transform nodes for the emission records `es`, packed one
/// after another starting at byte offset `off`.  Each output node carries
/// exactly one track.
pub open spec fn packed_transform_nodes(es: Seq<AnimTransformNodeDataView>, off: int) -> Seq<
    NodeView,
>
    decreases es.len(),
{
    if es.len() == 0 {
        Seq::empty()
    } else {
        seq![NodeView { name: es[0].name, tracks: seq![track_at(es[0].track, off)] }]
            + packed_transform_nodes(es.drop_first(), off + es[0].track.data_size)
    }
}

/// Total payload bytes of a sequence of tracks.
pub open spec fn tracks_total(ts: Seq<TrackView>) -> int
    decreases ts.len(),
{
    if ts.len() == 0 {
        0
    } else {
        ts[0].data_size + tracks_total(ts.drop_first())
    }
}

/// The tracks `ts` re-addressed to consecutive offsets starting at `off`.
pub open spec fn repacked_tracks(ts: Seq<TrackView>, off: int) -> Seq<TrackView>
    decreases ts.len(),
{
    if ts.len() == 0 {
        Seq::empty()
    } else {
        seq![track_at(ts[0], off)] + repacked_tracks(ts.drop_first(), off + ts[0].data_size)
    }
}

/// Concatenation of the payload bytes the tracks `ts` address in `buf`.
pub open spec fn tracks_payload(ts: Seq<TrackView>, buf: Seq<u8>) -> Seq<u8>
    decreases ts.len(),
{
    if ts.len() == 0 {
        Seq::empty()
    } else {
        crate::model::payload_of(ts[0], buf) + tracks_payload(ts.drop_first(), buf)
    }
}

/// Total payload bytes of all tracks of all nodes of `ns`.
pub open spec fn nodes_total(ns: Seq<NodeView>) -> int
    decreases ns.len(),
{
    if ns.len() == 0 {
        0
    } else {
        tracks_total(ns[0].tracks) + nodes_total(ns.drop_first())
    }
}

/// The nodes `ns` with every track re-addressed to consecutive offsets
/// starting at `off`, in node-then-track order.
pub open spec fn repacked_nodes(ns: Seq<NodeView>, off: int) -> Seq<NodeView>
    decreases ns.len(),
{
    if ns.len() == 0 {
        Seq::empty()
    } else {
        seq![NodeView { name: ns[0].name, tracks: repacked_tracks(ns[0].tracks, off) }]
            + repacked_nodes(ns.drop_first(), off + tracks_total(ns[0].tracks))
    }
}

/// Concatenation of the payload bytes of all tracks of all nodes of `ns`.
pub open spec fn nodes_payload(ns: Seq<NodeView>, buf: Seq<u8>) -> Seq<u8>
    decreases ns.len(),
{
    if ns.len() == 0 {
        Seq::empty()
    } else {
        tracks_payload(ns[0].tracks, buf) + nodes_payload(ns.drop_first(), buf)
    }
}

/// Total number of payload bytes a splice of `r` and `m` emits.
pub open spec fn output_size(r: ContainerView, m: ContainerView) -> int {
    entries_total(splice_entries(r, m)) + (match chosen_group(r, m, GroupKind::Visibility) {
        Some((g, _)) => nodes_total(g.nodes),
        None => 0,
    }) + (match chosen_group(r, m, GroupKind::Material) {
        Some((g, _)) => nodes_total(g.nodes),
        None => 0,
    })
}

/// The groups of a successful splice: the packed transform group when any
/// transform node is emitted, then the chosen visibility group, then the
/// chosen material group, with offsets running on across the parts.
pub open spec fn spliced_groups(r: ContainerView, m: ContainerView) -> Seq<GroupView> {
    let es = splice_entries(r, m);
    let t_part: Seq<GroupView> = if es.len() == 0 {
        Seq::empty()
    } else {
        seq![GroupView { kind: GroupKind::Transform, nodes: packed_transform_nodes(es, 0) }]
    };
    let off_v = entries_total(es);
    let v_part: Seq<GroupView> = match chosen_group(r, m, GroupKind::Visibility) {
        Some((g, _)) => seq![
            GroupView { kind: GroupKind::Visibility, nodes: repacked_nodes(g.nodes, off_v) },
        ],
        None => Seq::empty(),
    };
    let off_m = off_v + (match chosen_group(r, m, GroupKind::Visibility) {
        Some((g, _)) => nodes_total(g.nodes),
        None => 0,
    });
    let m_part: Seq<GroupView> = match chosen_group(r, m, GroupKind::Material) {
        Some((g, _)) => seq![
            GroupView { kind: GroupKind::Material, nodes: repacked_nodes(g.nodes, off_m) },
        ],
        None => Seq::empty(),
    };
    t_part + v_part + m_part
}

/// The buffer of a successful splice: every emitted payload, concatenated
/// in emission order.
pub open spec fn spliced_buffer(r: ContainerView, m: ContainerView) -> Seq<u8> {
    entries_payload(splice_entries(r, m)) + (match chosen_group(r, m, GroupKind::Visibility) {
        Some((g, b)) => nodes_payload(g.nodes, b),
        None => Seq::empty(),
    }) + (match chosen_group(r, m, GroupKind::Material) {
        Some((g, b)) => nodes_payload(g.nodes, b),
        None => Seq::empty(),
    })
}

/// The container a successful splice returns: the reference's scalar
/// metadata around the merged groups and the freshly packed buffer.
pub open spec fn spec_splice(r: ContainerView, m: ContainerView) -> ContainerView {
    ContainerView {
        version: r.version,
        final_frame_index: r.final_frame_index,
        unk1: r.unk1,
        unk2: r.unk2,
        name: r.name,
        vendor_data: r.vendor_data,
        groups: spliced_groups(r, m),
        buffer: spliced_buffer(r, m),
    }
}

/// The complete behaviour of [`splice`]: which error it returns on which
/// inputs, and the exact output container otherwise.
pub open spec fn splice_spec(r: ContainerView, m: ContainerView) -> Result<
    ContainerView,
    SpliceError,
> {
    if !supported(r.version) {
        Err(SpliceError::UnsupportedVersion { which: Side::Reference })
    } else if !supported(m.version) {
        Err(SpliceError::UnsupportedVersion { which: Side::Modified })
    } else if !sources_wf(r, m) {
        Err(SpliceError::MalformedSource)
    } else if output_size(r, m) > u32::MAX {
        Err(SpliceError::OversizedOutput)
    } else {
        Ok(spec_splice(r, m))
    }
}

/// Element-wise view of a sequence of emission records.
pub open spec fn entries_view(es: Seq<AnimTransformNodeData>) -> Seq<AnimTransformNodeDataView> {
    Seq::new(es.len(), |i: int| es[i]@)
}

/// `find_group` returns the first group whose kind matches.
pub proof fn lemma_find_group_at(gs: Seq<GroupView>, k: GroupKind, i: int)
    requires
        0 <= i < gs.len(),
        gs[i].kind == k,
        forall|j: int| 0 <= j < i ==> gs[j].kind != k,
    ensures
        find_group(gs, k) == Some(gs[i]),
    decreases i,
{
    if i > 0 {
        lemma_find_group_at(gs.drop_first(), k, i - 1);
    }
}

/// `find_group` finds nothing when no group has the kind.
pub proof fn lemma_find_group_none(gs: Seq<GroupView>, k: GroupKind)
    requires
        forall|j: int| 0 <= j < gs.len() ==> gs[j].kind != k,
    ensures
        find_group(gs, k) is None,
    decreases gs.len(),
{
    if gs.len() > 0 {
        lemma_find_group_none(gs.drop_first(), k);
    }
}

/// Whatever `find_group` returns has the kind that was asked for.
pub proof fn lemma_find_group_kind(gs: Seq<GroupView>, k: GroupKind)
    requires
        find_group(gs, k) is Some,
    ensures
        find_group(gs, k)->Some_0.kind == k,
    decreases gs.len(),
{
    if gs.len() > 0 && gs[0].kind != k {
        lemma_find_group_kind(gs.drop_first(), k);
    }
}

pub proof fn lemma_entries_total_push(es: Seq<AnimTransformNodeDataView>, e: AnimTransformNodeDataView)
    ensures
        entries_total(es.push(e)) == entries_total(es) + e.track.data_size,
    decreases es.len(),
{
    if es.len() == 0 {
        assert(es.push(e).drop_first() =~= es);
    } else {
        assert(es.push(e).drop_first() =~= es.drop_first().push(e));
        lemma_entries_total_push(es.drop_first(), e);
    }
}

pub proof fn lemma_entries_total_nonneg(es: Seq<AnimTransformNodeDataView>)
    ensures
        entries_total(es) >= 0,
    decreases es.len(),
{
    if es.len() > 0 {
        lemma_entries_total_nonneg(es.drop_first());
    }
}

pub proof fn lemma_entries_total_split(es: Seq<AnimTransformNodeDataView>, i: int)
    requires
        0 <= i <= es.len(),
    ensures
        entries_total(es) == entries_total(es.take(i)) + entries_total(es.skip(i)),
    decreases i,
{
    if i == 0 {
        assert(es.take(0) =~= Seq::empty());
        assert(es.skip(0) =~= es);
    } else {
        lemma_entries_total_split(es, i - 1);
        lemma_entries_total_push(es.take(i - 1), es[i - 1]);
        assert(es.take(i) =~= es.take(i - 1).push(es[i - 1]));
        assert(es.skip(i - 1).drop_first() =~= es.skip(i));
        assert(es.skip(i - 1)[0] == es[i - 1]);
    }
}

pub proof fn lemma_entries_payload_push(
    es: Seq<AnimTransformNodeDataView>,
    e: AnimTransformNodeDataView,
)
    ensures
        entries_payload(es.push(e)) == entries_payload(es) + e.buffer,
    decreases es.len(),
{
    if es.len() == 0 {
        assert(es.push(e).drop_first() =~= es);
        assert(entries_payload(es.push(e)) =~= entries_payload(es) + e.buffer);
    } else {
        assert(es.push(e).drop_first() =~= es.drop_first().push(e));
        lemma_entries_payload_push(es.drop_first(), e);
        assert(entries_payload(es.push(e)) =~= entries_payload(es) + e.buffer);
    }
}

pub proof fn lemma_packed_transform_nodes_push(
    es: Seq<AnimTransformNodeDataView>,
    e: AnimTransformNodeDataView,
    off: int,
)
    ensures
        packed_transform_nodes(es.push(e), off) == packed_transform_nodes(es, off).push(
            NodeView { name: e.name, tracks: seq![track_at(e.track, off + entries_total(es))] },
        ),
    decreases es.len(),
{
    let appended = NodeView { name: e.name, tracks: seq![track_at(e.track, off + entries_total(es))] };
    if es.len() == 0 {
        assert(packed_transform_nodes(es, off) =~= Seq::<NodeView>::empty());
        assert(es.push(e)[0] == e);
        assert(es.push(e).drop_first() =~= es);
        assert(packed_transform_nodes(es.push(e), off) == seq![
            NodeView { name: e.name, tracks: seq![track_at(e.track, off)] },
        ] + packed_transform_nodes(es, off + e.track.data_size));
        assert(entries_total(es) == 0);
        assert(packed_transform_nodes(es.push(e), off) =~= packed_transform_nodes(es, off).push(
            appended,
        ));
    } else {
        let rest = es.drop_first();
        assert(es.push(e)[0] == es[0]);
        assert(es.push(e).drop_first() =~= rest.push(e));
        lemma_packed_transform_nodes_push(rest, e, off + es[0].track.data_size);
        let head = NodeView { name: es[0].name, tracks: seq![track_at(es[0].track, off)] };
        assert(packed_transform_nodes(es.push(e), off) == seq![head] + packed_transform_nodes(
            rest.push(e),
            off + es[0].track.data_size,
        ));
        assert(entries_total(es) == es[0].track.data_size + entries_total(rest));
        assert(packed_transform_nodes(rest.push(e), off + es[0].track.data_size)
            == packed_transform_nodes(rest, off + es[0].track.data_size).push(appended));
        assert(seq![head] + packed_transform_nodes(rest, off + es[0].track.data_size).push(appended)
            =~= (seq![head] + packed_transform_nodes(rest, off + es[0].track.data_size)).push(
            appended,
        ));
        assert(packed_transform_nodes(es, off) == seq![head] + packed_transform_nodes(
            rest,
            off + es[0].track.data_size,
        ));
    }
}

/// When every record's payload has exactly its track's size, the packed
/// payload length is the running total.
pub proof fn lemma_entries_payload_len(es: Seq<AnimTransformNodeDataView>)
    requires
        forall|i: int| 0 <= i < es.len() ==> (#[trigger] es[i]).buffer.len() == es[i].track.data_size,
    ensures
        entries_payload(es).len() == entries_total(es),
    decreases es.len(),
{
    if es.len() > 0 {
        assert(forall|i: int|
            0 <= i < es.drop_first().len() ==> (#[trigger] es.drop_first()[i]).buffer.len()
                == es.drop_first()[i].track.data_size);
        lemma_entries_payload_len(es.drop_first());
    }
}

pub proof fn lemma_tracks_total_push(ts: Seq<TrackView>, t: TrackView)
    ensures
        tracks_total(ts.push(t)) == tracks_total(ts) + t.data_size,
    decreases ts.len(),
{
    if ts.len() == 0 {
        assert(ts.push(t).drop_first() =~= ts);
    } else {
        assert(ts.push(t).drop_first() =~= ts.drop_first().push(t));
        lemma_tracks_total_push(ts.drop_first(), t);
    }
}

pub proof fn lemma_tracks_total_nonneg(ts: Seq<TrackView>)
    ensures
        tracks_total(ts) >= 0,
    decreases ts.len(),
{
    if ts.len() > 0 {
        lemma_tracks_total_nonneg(ts.drop_first());
    }
}

pub proof fn lemma_tracks_total_split(ts: Seq<TrackView>, i: int)
    requires
        0 <= i <= ts.len(),
    ensures
        tracks_total(ts) == tracks_total(ts.take(i)) + tracks_total(ts.skip(i)),
    decreases i,
{
    if i == 0 {
        assert(ts.take(0) =~= Seq::empty());
        assert(ts.skip(0) =~= ts);
    } else {
        lemma_tracks_total_split(ts, i - 1);
        lemma_tracks_total_push(ts.take(i - 1), ts[i - 1]);
        assert(ts.take(i) =~= ts.take(i - 1).push(ts[i - 1]));
        assert(ts.skip(i - 1).drop_first() =~= ts.skip(i));
        assert(ts.skip(i - 1)[0] == ts[i - 1]);
    }
}

pub proof fn lemma_repacked_tracks_push(ts: Seq<TrackView>, t: TrackView, off: int)
    ensures
        repacked_tracks(ts.push(t), off) == repacked_tracks(ts, off).push(
            track_at(t, off + tracks_total(ts)),
        ),
    decreases ts.len(),
{
    let appended = track_at(t, off + tracks_total(ts));
    if ts.len() == 0 {
        assert(repacked_tracks(ts, off) =~= Seq::<TrackView>::empty());
        assert(ts.push(t)[0] == t);
        assert(ts.push(t).drop_first() =~= ts);
        assert(repacked_tracks(ts.push(t), off) == seq![track_at(t, off)] + repacked_tracks(
            ts,
            off + t.data_size,
        ));
        assert(tracks_total(ts) == 0);
        assert(repacked_tracks(ts.push(t), off) =~= repacked_tracks(ts, off).push(appended));
    } else {
        let rest = ts.drop_first();
        assert(ts.push(t)[0] == ts[0]);
        assert(ts.push(t).drop_first() =~= rest.push(t));
        lemma_repacked_tracks_push(rest, t, off + ts[0].data_size);
        assert(repacked_tracks(ts.push(t), off) == seq![track_at(ts[0], off)] + repacked_tracks(
            rest.push(t),
            off + ts[0].data_size,
        ));
        assert(tracks_total(ts) == ts[0].data_size + tracks_total(rest));
        assert(repacked_tracks(rest.push(t), off + ts[0].data_size) == repacked_tracks(
            rest,
            off + ts[0].data_size,
        ).push(appended));
        assert(seq![track_at(ts[0], off)] + repacked_tracks(rest, off + ts[0].data_size).push(
            appended,
        ) =~= (seq![track_at(ts[0], off)] + repacked_tracks(rest, off + ts[0].data_size)).push(
            appended,
        ));
        assert(repacked_tracks(ts, off) == seq![track_at(ts[0], off)] + repacked_tracks(
            rest,
            off + ts[0].data_size,
        ));
    }
}

pub proof fn lemma_tracks_payload_push(ts: Seq<TrackView>, t: TrackView, buf: Seq<u8>)
    ensures
        tracks_payload(ts.push(t), buf) == tracks_payload(ts, buf) + crate::model::payload_of(
            t,
            buf,
        ),
    decreases ts.len(),
{
    if ts.len() == 0 {
        assert(ts.push(t).drop_first() =~= ts);
        assert(tracks_payload(ts.push(t), buf) =~= tracks_payload(ts, buf)
            + crate::model::payload_of(t, buf));
    } else {
        assert(ts.push(t).drop_first() =~= ts.drop_first().push(t));
        lemma_tracks_payload_push(ts.drop_first(), t, buf);
        assert(tracks_payload(ts.push(t), buf) =~= tracks_payload(ts, buf)
            + crate::model::payload_of(t, buf));
    }
}

/// When every track's range lies inside `buf`, the concatenated payload
/// length is the running total.
pub proof fn lemma_tracks_payload_len(ts: Seq<TrackView>, buf: Seq<u8>)
    requires
        forall|i: int| 0 <= i < ts.len() ==> track_in_bounds(#[trigger] ts[i], buf),
    ensures
        tracks_payload(ts, buf).len() == tracks_total(ts),
    decreases ts.len(),
{
    if ts.len() > 0 {
        assert(forall|i: int|
            0 <= i < ts.drop_first().len() ==> track_in_bounds(
                #[trigger] ts.drop_first()[i],
                buf,
            ));
        lemma_tracks_payload_len(ts.drop_first(), buf);
    }
}

pub proof fn lemma_nodes_total_push(ns: Seq<NodeView>, n: NodeView)
    ensures
        nodes_total(ns.push(n)) == nodes_total(ns) + tracks_total(n.tracks),
    decreases ns.len(),
{
    if ns.len() == 0 {
        assert(ns.push(n).drop_first() =~= ns);
    } else {
        assert(ns.push(n).drop_first() =~= ns.drop_first().push(n));
        lemma_nodes_total_push(ns.drop_first(), n);
    }
}

pub proof fn lemma_nodes_total_nonneg(ns: Seq<NodeView>)
    ensures
        nodes_total(ns) >= 0,
    decreases ns.len(),
{
    if ns.len() > 0 {
        lemma_tracks_total_nonneg(ns[0].tracks);
        lemma_nodes_total_nonneg(ns.drop_first());
    }
}

pub proof fn lemma_nodes_total_split(ns: Seq<NodeView>, i: int)
    requires
        0 <= i <= ns.len(),
    ensures
        nodes_total(ns) == nodes_total(ns.take(i)) + nodes_total(ns.skip(i)),
    decreases i,
{
    if i == 0 {
        assert(ns.take(0) =~= Seq::empty());
        assert(ns.skip(0) =~= ns);
    } else {
        lemma_nodes_total_split(ns, i - 1);
        lemma_nodes_total_push(ns.take(i - 1), ns[i - 1]);
        assert(ns.take(i) =~= ns.take(i - 1).push(ns[i - 1]));
        assert(ns.skip(i - 1).drop_first() =~= ns.skip(i));
        assert(ns.skip(i - 1)[0] == ns[i - 1]);
    }
}

pub proof fn lemma_repacked_nodes_push(ns: Seq<NodeView>, n: NodeView, off: int)
    ensures
        repacked_nodes(ns.push(n), off) == repacked_nodes(ns, off).push(
            NodeView { name: n.name, tracks: repacked_tracks(n.tracks, off + nodes_total(ns)) },
        ),
    decreases ns.len(),
{
    let appended = NodeView {
        name: n.name,
        tracks: repacked_tracks(n.tracks, off + nodes_total(ns)),
    };
    if ns.len() == 0 {
        assert(repacked_nodes(ns, off) =~= Seq::<NodeView>::empty());
        assert(ns.push(n)[0] == n);
        assert(ns.push(n).drop_first() =~= ns);
        assert(repacked_nodes(ns.push(n), off) == seq![
            NodeView { name: n.name, tracks: repacked_tracks(n.tracks, off) },
        ] + repacked_nodes(ns, off + tracks_total(n.tracks)));
        assert(nodes_total(ns) == 0);
        assert(repacked_nodes(ns.push(n), off) =~= repacked_nodes(ns, off).push(appended));
    } else {
        let rest = ns.drop_first();
        assert(ns.push(n)[0] == ns[0]);
        assert(ns.push(n).drop_first() =~= rest.push(n));
        lemma_repacked_nodes_push(rest, n, off + tracks_total(ns[0].tracks));
        let head = NodeView { name: ns[0].name, tracks: repacked_tracks(ns[0].tracks, off) };
        assert(repacked_nodes(ns.push(n), off) == seq![head] + repacked_nodes(
            rest.push(n),
            off + tracks_total(ns[0].tracks),
        ));
        assert(nodes_total(ns) == tracks_total(ns[0].tracks) + nodes_total(rest));
        assert(repacked_nodes(rest.push(n), off + tracks_total(ns[0].tracks)) == repacked_nodes(
            rest,
            off + tracks_total(ns[0].tracks),
        ).push(appended));
        assert(seq![head] + repacked_nodes(rest, off + tracks_total(ns[0].tracks)).push(appended)
            =~= (seq![head] + repacked_nodes(rest, off + tracks_total(ns[0].tracks))).push(
            appended,
        ));
        assert(repacked_nodes(ns, off) == seq![head] + repacked_nodes(
            rest,
            off + tracks_total(ns[0].tracks),
        ));
    }
}

pub proof fn lemma_nodes_payload_push(ns: Seq<NodeView>, n: NodeView, buf: Seq<u8>)
    ensures
        nodes_payload(ns.push(n), buf) == nodes_payload(ns, buf) + tracks_payload(n.tracks, buf),
    decreases ns.len(),
{
    if ns.len() == 0 {
        assert(ns.push(n).drop_first() =~= ns);
        assert(nodes_payload(ns.push(n), buf) =~= nodes_payload(ns, buf) + tracks_payload(
            n.tracks,
            buf,
        ));
    } else {
        assert(ns.push(n).drop_first() =~= ns.drop_first().push(n));
        lemma_nodes_payload_push(ns.drop_first(), n, buf);
        assert(nodes_payload(ns.push(n), buf) =~= nodes_payload(ns, buf) + tracks_payload(
            n.tracks,
            buf,
        ));
    }
}

/// When every track of every node lies inside `buf`, the concatenated
/// payload length is the running total.
pub proof fn lemma_nodes_payload_len(ns: Seq<NodeView>, buf: Seq<u8>)
    requires
        forall|i: int, j: int|
            0 <= i < ns.len() && 0 <= j < ns[i].tracks.len() ==> track_in_bounds(
                ns[i].tracks[j],
                buf,
            ),
    ensures
        nodes_payload(ns, buf).len() == nodes_total(ns),
    decreases ns.len(),
{
    if ns.len() > 0 {
        assert(forall|j: int|
            0 <= j < ns[0].tracks.len() ==> track_in_bounds(#[trigger] ns[0].tracks[j], buf));
        lemma_tracks_payload_len(ns[0].tracks, buf);
        assert(forall|i: int, j: int|
            0 <= i < ns.drop_first().len() && 0 <= j < ns.drop_first()[i].tracks.len()
                ==> track_in_bounds(ns.drop_first()[i].tracks[j], buf));
        lemma_nodes_payload_len(ns.drop_first(), buf);
    }
}

pub proof fn lemma_added_nodes_push(ms: Seq<NodeView>, n: NodeView, rs: Seq<NodeView>)
    ensures
        added_nodes(ms.push(n), rs) == added_nodes(ms, rs) + (if has_node_named(rs, n.name) {
            Seq::<NodeView>::empty()
        } else {
            seq![n]
        }),
    decreases ms.len(),
{
    let tail: Seq<NodeView> = if has_node_named(rs, n.name) {
        Seq::empty()
    } else {
        seq![n]
    };
    if ms.len() == 0 {
        assert(ms.push(n).drop_first() =~= ms);
        assert(added_nodes(ms.push(n), rs) =~= added_nodes(ms, rs) + tail);
    } else {
        assert(ms.push(n).drop_first() =~= ms.drop_first().push(n));
        lemma_added_nodes_push(ms.drop_first(), n, rs);
        assert(added_nodes(ms.push(n), rs) =~= added_nodes(ms, rs) + tail);
    }
}

/// Appends `size` bytes of `src`, starting at `off`, to `dst`.
fn append_range(dst: &mut Vec<u8>, src: &Vec<u8>, off: u32, size: u64)
    requires
        off + size <= src@.len(),
    ensures
        final(dst)@ == old(dst)@ + src@.subrange(off as int, off + size),
{
    let n: usize = src.len();
    proof {
        assert(off + size <= n);
    }
    let end: usize = (off as u64 + size) as usize;
    let mut i: usize = off as usize;
    proof {
        assert(dst@ =~= old(dst)@ + src@.subrange(off as int, off as int));
    }
    while i < end
        invariant
            off + size <= src@.len(),
            end == off + size,
            off <= i <= end,
            dst@ == old(dst)@ + src@.subrange(off as int, i as int),
        decreases end - i,
    {
        let b = src[i];
        dst.push(b);
        proof {
            assert(src@.subrange(off as int, i as int + 1) =~= src@.subrange(
                off as int,
                i as int,
            ).push(src@[i as int]));
            assert(dst@ =~= old(dst)@ + src@.subrange(off as int, i as int + 1));
        }
        i = i + 1;
    }
}

/// First group of the kind, as a borrow, mirroring [`find_group`].
pub fn find_group_in<'a>(groups: &'a Vec<Group>, k: GroupKind) -> (r: Option<&'a Group>)
    ensures
        match r {
            Some(g) => find_group(crate::model::groups_view(groups@), k) == Some(g@),
            None => find_group(crate::model::groups_view(groups@), k) is None,
        },
{
    let mut i: usize = 0;
    while i < groups.len()
        invariant
            i <= groups.len(),
            forall|j: int|
                0 <= j < i ==> crate::model::groups_view(groups@)[j].kind != k,
        decreases groups.len() - i,
    {
        if groups[i].kind == k {
            proof {
                lemma_find_group_at(crate::model::groups_view(groups@), k, i as int);
            }
            return Some(&groups[i]);
        }
        i = i + 1;
    }
    proof {
        lemma_find_group_none(crate::model::groups_view(groups@), k);
    }
    None
}

/// Whether some node of `ns` bears exactly the name `name`.
pub fn contains_node_named(ns: &Vec<Node>, name: &String) -> (b: bool)
    ensures
        b == has_node_named(crate::model::nodes_view(ns@), name@),
{
    let mut i: usize = 0;
    while i < ns.len()
        invariant
            i <= ns.len(),
            forall|j: int|
                0 <= j < i ==> crate::model::nodes_view(ns@)[j].name != name@,
        decreases ns.len() - i,
    {
        if ns[i].name == *name {
            proof {
                assert(crate::model::nodes_view(ns@)[i as int].name == name@);
                assert(has_node_named(crate::model::nodes_view(ns@), name@));
            }
            return true;
        }
        i = i + 1;
    }
    false
}

impl AnimTransformNodeData {
    /// Captures the node's name, its first track's metadata, and a copy of
    /// that track's payload bytes from the owning container's buffer.
    pub fn from(node: &Node, buffer: &Vec<u8>) -> (r: AnimTransformNodeData)
        requires
            transform_node_wf(node@, buffer@),
        ensures
            r@ == entry_of(node@, buffer@),
    {
        let track = &node.tracks[0];
        let mut payload: Vec<u8> = Vec::new();
        append_range(&mut payload, buffer, track.data_offset, track.data_size);
        let r = AnimTransformNodeData {
            name: node.name.clone(),
            buffer: payload,
            track: track.duplicate(),
        };
        proof {
            assert(r@.buffer =~= entry_of(node@, buffer@).buffer);
            assert(r@ =~~= entry_of(node@, buffer@));
        }
        r
    }
}

/// The group of the given kind from the priority container's groups when
/// present, else from the fallback container's, with the matching buffer.
pub fn get_anim_group_and_buffer_with_fallback<'a>(
    priority_groups: &'a Vec<Group>,
    priority_buffer: &'a Vec<u8>,
    fallback_groups: &'a Vec<Group>,
    fallback_buffer: &'a Vec<u8>,
    group_type: GroupKind,
) -> (r: Option<(&'a Group, &'a Vec<u8>)>)
    ensures
        match r {
            Some(gb) => with_fallback(
                crate::model::groups_view(priority_groups@),
                priority_buffer@,
                crate::model::groups_view(fallback_groups@),
                fallback_buffer@,
                group_type,
            ) == Some((gb.0@, gb.1@)),
            None => with_fallback(
                crate::model::groups_view(priority_groups@),
                priority_buffer@,
                crate::model::groups_view(fallback_groups@),
                fallback_buffer@,
                group_type,
            ) is None,
        },
{
    match find_group_in(priority_groups, group_type) {
        Some(g) => Some((g, priority_buffer)),
        None => match find_group_in(fallback_groups, group_type) {
            Some(g) => Some((g, fallback_buffer)),
            None => None,
        },
    }
}

/// Whether every track of every node of `g` addresses a valid range of
/// `buf`.
fn group_tracks_in_bounds(g: &Group, buf: &Vec<u8>) -> (ok: bool)
    ensures
        ok == group_in_bounds(g@, buf@),
{
    let n: usize = buf.len();
    let mut i: usize = 0;
    while i < g.nodes.len()
        invariant
            i <= g.nodes.len(),
            n == buf@.len(),
            forall|i2: int, j2: int|
                0 <= i2 < i && 0 <= j2 < g@.nodes[i2].tracks.len() ==> track_in_bounds(
                    g@.nodes[i2].tracks[j2],
                    buf@,
                ),
        decreases g.nodes.len() - i,
    {
        let node = &g.nodes[i];
        let mut j: usize = 0;
        while j < node.tracks.len()
            invariant
                i < g.nodes.len(),
                j <= node.tracks.len(),
                n == buf@.len(),
                node@ == g@.nodes[i as int],
                forall|i2: int, j2: int|
                    0 <= i2 < i && 0 <= j2 < g@.nodes[i2].tracks.len() ==> track_in_bounds(
                        g@.nodes[i2].tracks[j2],
                        buf@,
                    ),
                forall|j2: int| 0 <= j2 < j ==> track_in_bounds(node@.tracks[j2], buf@),
            decreases node.tracks.len() - j,
        {
            let t = &node.tracks[j];
            if t.data_size > u64::MAX - (t.data_offset as u64) {
                proof {
                    assert(buf@.len() <= usize::MAX);
                    assert(!track_in_bounds(node@.tracks[j as int], buf@));
                }
                return false;
            }
            if (t.data_offset as u64) + t.data_size > (n as u64) {
                proof {
                    assert(!track_in_bounds(node@.tracks[j as int], buf@));
                }
                return false;
            }
            proof {
                assert(track_in_bounds(node@.tracks[j as int], buf@));
            }
            j = j + 1;
        }
        i = i + 1;
    }
    true
}

/// Adds the payload total of the emission records to `total`, refusing a
/// sum that exceeds the largest storable offset.
fn add_entries_total(entries: &Vec<AnimTransformNodeData>, total: u64) -> (r: Option<u64>)
    requires
        total <= u32::MAX,
    ensures
        match r {
            Some(t) => t == total + entries_total(entries_view(entries@)) && t <= u32::MAX,
            None => total + entries_total(entries_view(entries@)) > u32::MAX,
        },
{
    let ghost es = entries_view(entries@);
    let mut acc: u64 = total;
    let mut i: usize = 0;
    proof {
        assert(es.take(0) =~= Seq::empty());
    }
    while i < entries.len()
        invariant
            i <= entries.len(),
            es == entries_view(entries@),
            acc == total + entries_total(es.take(i as int)),
            acc <= u32::MAX,
        decreases entries.len() - i,
    {
        let size = entries[i].track.data_size;
        proof {
            lemma_entries_total_split(es, i as int);
            assert(es.skip(i as int)[0] == es[i as int]);
            assert(es.skip(i as int).drop_first() =~= es.skip(i as int + 1));
            lemma_entries_total_nonneg(es.skip(i as int + 1));
            lemma_entries_total_push(es.take(i as int), es[i as int]);
            assert(es.take(i as int + 1) =~= es.take(i as int).push(es[i as int]));
        }
        if size > (u32::MAX as u64) - acc {
            return None;
        }
        acc = acc + size;
        i = i + 1;
    }
    proof {
        assert(es.take(entries@.len() as int) =~= es);
    }
    Some(acc)
}

/// Adds the payload total of every track of the group to `total`, refusing
/// a sum that exceeds the largest storable offset.
fn add_group_total(g: &Group, total: u64) -> (r: Option<u64>)
    requires
        total <= u32::MAX,
    ensures
        match r {
            Some(t) => t == total + nodes_total(g@.nodes) && t <= u32::MAX,
            None => total + nodes_total(g@.nodes) > u32::MAX,
        },
{
    let ghost ns = g@.nodes;
    let mut acc: u64 = total;
    let mut i: usize = 0;
    proof {
        assert(ns.take(0) =~= Seq::empty());
    }
    while i < g.nodes.len()
        invariant
            i <= g.nodes.len(),
            ns == g@.nodes,
            total <= u32::MAX,
            acc == total + nodes_total(ns.take(i as int)),
            acc <= u32::MAX,
        decreases g.nodes.len() - i,
    {
        let node = &g.nodes[i];
        proof {
            lemma_nodes_total_split(ns, i as int);
            assert(ns.skip(i as int)[0] == ns[i as int]);
            assert(ns.skip(i as int).drop_first() =~= ns.skip(i as int + 1));
            lemma_nodes_total_nonneg(ns.skip(i as int + 1));
            lemma_nodes_total_push(ns.take(i as int), ns[i as int]);
            assert(ns.take(i as int + 1) =~= ns.take(i as int).push(ns[i as int]));
        }
        let ghost ts = ns[i as int].tracks;
        let mut node_acc: u64 = 0;
        let mut j: usize = 0;
        proof {
            assert(ts.take(0) =~= Seq::empty());
        }
        while j < node.tracks.len()
            invariant
                i < g.nodes.len(),
                j <= node.tracks.len(),
                ns == g@.nodes,
                node@ == ns[i as int],
                ts == ns[i as int].tracks,
                acc == total + nodes_total(ns.take(i as int)),
                total <= u32::MAX,
                acc <= u32::MAX,
                node_acc == tracks_total(ts.take(j as int)),
                acc + node_acc <= u32::MAX,
            decreases node.tracks.len() - j,
        {
            let size = node.tracks[j].data_size;
            proof {
                lemma_tracks_total_split(ts, j as int);
                assert(ts.skip(j as int)[0] == ts[j as int]);
                assert(ts.skip(j as int).drop_first() =~= ts.skip(j as int + 1));
                lemma_tracks_total_nonneg(ts.skip(j as int + 1));
                lemma_tracks_total_push(ts.take(j as int), ts[j as int]);
                assert(ts.take(j as int + 1) =~= ts.take(j as int).push(ts[j as int]));
                lemma_tracks_total_nonneg(ts.take(j as int));
            }
            if size > (u32::MAX as u64) - acc - node_acc {
                proof {
                    lemma_nodes_total_split(ns, i as int);
                    assert(ns.skip(i as int)[0] == ns[i as int]);
                    assert(ns.skip(i as int).drop_first() =~= ns.skip(i as int + 1));
                    lemma_nodes_total_nonneg(ns.skip(i as int + 1));
                    assert(tracks_total(ts) >= tracks_total(ts.take(j as int)) + size);
                }
                return None;
            }
            node_acc = node_acc + size;
            j = j + 1;
        }
        proof {
            assert(ts.take(node.tracks@.len() as int) =~= ts);
        }
        acc = acc + node_acc;
        i = i + 1;
    }
    proof {
        assert(ns.take(g.nodes@.len() as int) =~= ns);
    }
    Some(acc)
}

/// Re-emits every track of `g`, appending the payload bytes to `out_buf`
/// and re-addressing each track to the offset at which its payload lands.
fn repack_group_append(g: &Group, src: &Vec<u8>, out_buf: &mut Vec<u8>) -> (ng: Group)
    requires
        group_in_bounds(g@, src@),
        old(out_buf)@.len() + nodes_total(g@.nodes) <= u32::MAX,
    ensures
        ng@ == (GroupView {
            kind: g@.kind,
            nodes: repacked_nodes(g@.nodes, old(out_buf)@.len() as int),
        }),
        final(out_buf)@ == old(out_buf)@ + nodes_payload(g@.nodes, src@),
{
    let ghost orig = old(out_buf)@;
    let ghost ns = g@.nodes;
    let mut new_nodes: Vec<Node> = Vec::new();
    let mut i: usize = 0;
    proof {
        assert(ns.take(0) =~= Seq::<NodeView>::empty());
        assert(out_buf@ =~= orig + nodes_payload(ns.take(0), src@));
        assert(crate::model::nodes_view(new_nodes@) =~= repacked_nodes(
            ns.take(0),
            orig.len() as int,
        ));
    }
    while i < g.nodes.len()
        invariant
            i <= g.nodes.len(),
            ns == g@.nodes,
            group_in_bounds(g@, src@),
            orig.len() + nodes_total(ns) <= u32::MAX,
            crate::model::nodes_view(new_nodes@) == repacked_nodes(
                ns.take(i as int),
                orig.len() as int,
            ),
            out_buf@ == orig + nodes_payload(ns.take(i as int), src@),
            out_buf@.len() == orig.len() + nodes_total(ns.take(i as int)),
        decreases g.nodes.len() - i,
    {
        let node = &g.nodes[i];
        let ghost ts = ns[i as int].tracks;
        let ghost nbase = out_buf@.len() as int;
        proof {
            assert(node@ == ns[i as int]);
            lemma_nodes_total_split(ns, i as int);
            assert(ns.skip(i as int)[0] == ns[i as int]);
            assert(ns.skip(i as int).drop_first() =~= ns.skip(i as int + 1));
            lemma_nodes_total_nonneg(ns.skip(i as int + 1));
            lemma_tracks_total_nonneg(ts);
        }
        let mut new_tracks: Vec<Track> = Vec::new();
        let mut j: usize = 0;
        proof {
            assert(ts.take(0) =~= Seq::<TrackView>::empty());
            assert(crate::model::tracks_view(new_tracks@) =~= repacked_tracks(ts.take(0), nbase));
            assert(tracks_payload(ts.take(0), src@) =~= Seq::<u8>::empty());
            assert(out_buf@ =~= orig + nodes_payload(ns.take(i as int), src@) + tracks_payload(
                ts.take(0),
                src@,
            ));
        }
        while j < node.tracks.len()
            invariant
                i < g.nodes.len(),
                j <= node.tracks.len(),
                ns == g@.nodes,
                node@ == ns[i as int],
                ts == ns[i as int].tracks,
                group_in_bounds(g@, src@),
                nbase + tracks_total(ts) <= u32::MAX,
                nbase == orig.len() + nodes_total(ns.take(i as int)),
                crate::model::tracks_view(new_tracks@) == repacked_tracks(ts.take(j as int), nbase),
                out_buf@ == orig + nodes_payload(ns.take(i as int), src@) + tracks_payload(
                    ts.take(j as int),
                    src@,
                ),
                out_buf@.len() == nbase + tracks_total(ts.take(j as int)),
            decreases node.tracks.len() - j,
        {
            let t = &node.tracks[j];
            let ghost prev_tracks = new_tracks@;
            let ghost prev_buf = out_buf@;
            proof {
                assert(t@ == ts[j as int]);
                assert(track_in_bounds(g@.nodes[i as int].tracks[j as int], src@));
                lemma_tracks_total_split(ts, j as int);
                assert(ts.skip(j as int)[0] == ts[j as int]);
                assert(ts.skip(j as int).drop_first() =~= ts.skip(j as int + 1));
                lemma_tracks_total_nonneg(ts.skip(j as int + 1));
                lemma_tracks_total_nonneg(ts.take(j as int));
            }
            let off: u32 = out_buf.len() as u32;
            let mut nt = t.duplicate();
            nt.data_offset = off;
            append_range(out_buf, src, t.data_offset, t.data_size);
            new_tracks.push(nt);
            proof {
                assert(nt@ =~~= track_at(ts[j as int], nbase + tracks_total(ts.take(j as int))));
                lemma_repacked_tracks_push(ts.take(j as int), ts[j as int], nbase);
                assert(ts.take(j as int + 1) =~= ts.take(j as int).push(ts[j as int]));
                assert(forall|k: int|
                    0 <= k < prev_tracks.len() ==> crate::model::tracks_view(prev_tracks)[k]
                        == repacked_tracks(ts.take(j as int), nbase)[k]);
                assert(crate::model::tracks_view(new_tracks@) =~= repacked_tracks(
                    ts.take(j as int + 1),
                    nbase,
                ));
                lemma_tracks_payload_push(ts.take(j as int), ts[j as int], src@);
                assert(crate::model::payload_of(ts[j as int], src@) =~= src@.subrange(
                    t@.data_offset as int,
                    t@.data_offset + t@.data_size,
                ));
                assert(out_buf@ =~= orig + nodes_payload(ns.take(i as int), src@)
                    + tracks_payload(ts.take(j as int + 1), src@));
                lemma_tracks_total_push(ts.take(j as int), ts[j as int]);
            }
            j = j + 1;
        }
        proof {
            assert(ts.take(node.tracks@.len() as int) =~= ts);
        }
        let ghost prev_nodes = new_nodes@;
        new_nodes.push(Node { name: node.name.clone(), tracks: new_tracks });
        proof {
            lemma_repacked_nodes_push(ns.take(i as int), ns[i as int], orig.len() as int);
            assert(ns.take(i as int + 1) =~= ns.take(i as int).push(ns[i as int]));
            assert(forall|k: int|
                0 <= k < prev_nodes.len() ==> crate::model::nodes_view(prev_nodes)[k]
                    == repacked_nodes(ns.take(i as int), orig.len() as int)[k]);
            assert(crate::model::nodes_view(new_nodes@) =~~= repacked_nodes(
                ns.take(i as int + 1),
                orig.len() as int,
            ));
            lemma_nodes_payload_push(ns.take(i as int), ns[i as int], src@);
            assert(out_buf@ =~= orig + nodes_payload(ns.take(i as int + 1), src@));
            lemma_nodes_total_push(ns.take(i as int), ns[i as int]);
        }
        i = i + 1;
    }
    proof {
        assert(ns.take(g.nodes@.len() as int) =~= ns);
    }
    let ng = Group { kind: g.kind, nodes: new_nodes };
    proof {
        assert(ng@ =~~= (GroupView { kind: g@.kind, nodes: repacked_nodes(ns, orig.len() as int) }));
    }
    ng
}

/// Whatever `with_fallback` returns has the kind that was asked for.
pub proof fn lemma_with_fallback_kind(
    pg: Seq<GroupView>,
    pb: Seq<u8>,
    fg: Seq<GroupView>,
    fb: Seq<u8>,
    k: GroupKind,
)
    requires
        with_fallback(pg, pb, fg, fb, k) is Some,
    ensures
        with_fallback(pg, pb, fg, fb, k)->Some_0.0.kind == k,
{
    if find_group(pg, k) is Some {
        lemma_find_group_kind(pg, k);
    } else {
        lemma_find_group_kind(fg, k);
    }
}

/// Collects the emission records of a splice of the two containers: every
/// reference transform node first, then each modified transform node whose
/// name is new, failing on the first node that has no track or whose track
/// addresses bytes outside its source buffer.
fn collect_transform_entries(reference: &Container, modified: &Container) -> (res: Result<
    Vec<AnimTransformNodeData>,
    SpliceError,
>)
    ensures
        (match res {
            Ok(v) => {
                &&& entries_view(v@) == splice_entries(reference@, modified@)
                &&& forall|k: int|
                    0 <= k < transform_nodes(reference@).len() ==> transform_node_wf(
                        #[trigger] transform_nodes(reference@)[k],
                        reference@.buffer,
                    )
                &&& forall|k: int|
                    0 <= k < added_nodes(transform_nodes(modified@), transform_nodes(reference@)).len()
                        ==> transform_node_wf(
                        #[trigger] added_nodes(
                            transform_nodes(modified@),
                            transform_nodes(reference@),
                        )[k],
                        modified@.buffer,
                    )
            },
            Err(e) => e == SpliceError::MalformedSource && !sources_wf(reference@, modified@),
        }),
{
    let ghost rv = reference@;
    let ghost mv = modified@;
    let ref_transform = find_group_in(&reference.groups, GroupKind::Transform);
    let mod_transform = find_group_in(&modified.groups, GroupKind::Transform);
    let ghost rt = transform_nodes(rv);
    let ghost mt = transform_nodes(mv);

    let mut entries: Vec<AnimTransformNodeData> = Vec::new();
    if let Some(rg) = ref_transform {
        proof {
            assert(rt == rg@.nodes);
            assert(rt.take(0) =~= Seq::<NodeView>::empty());
            assert(entries_view(entries@) =~= entries_of(rt.take(0), rv.buffer));
        }
        let mut i: usize = 0;
        while i < rg.nodes.len()
            invariant
                i <= rg.nodes.len(),
                rv == reference@,
                mv == modified@,
                rt == rg@.nodes,
                rt == transform_nodes(rv),
                entries_view(entries@) == entries_of(rt.take(i as int), rv.buffer),
                entries@.len() == i,
                forall|k: int| 0 <= k < i ==> transform_node_wf(#[trigger] rt[k], rv.buffer),
            decreases rg.nodes.len() - i,
        {
            let node = &rg.nodes[i];
            proof {
                assert(node@ == rt[i as int]);
            }
            if node.tracks.len() == 0 {
                proof {
                    assert(!transform_node_wf(transform_nodes(rv)[i as int], rv.buffer));
                    assert(!sources_wf(rv, mv));
                }
                return Err(SpliceError::MalformedSource);
            }
            let t = &node.tracks[0];
            let blen: usize = reference.buffer.len();
            if t.data_size > u64::MAX - (t.data_offset as u64) || (t.data_offset as u64)
                + t.data_size > (blen as u64) {
                proof {
                    assert(rv.buffer.len() <= usize::MAX);
                    assert(t@ == rt[i as int].tracks[0]);
                    assert(!transform_node_wf(transform_nodes(rv)[i as int], rv.buffer));
                    assert(!sources_wf(rv, mv));
                }
                return Err(SpliceError::MalformedSource);
            }
            proof {
                assert(t@ == rt[i as int].tracks[0]);
                assert(transform_node_wf(rt[i as int], rv.buffer));
            }
            let e = AnimTransformNodeData::from(node, &reference.buffer);
            let ghost ev = e@;
            let ghost prev = entries@;
            entries.push(e);
            proof {
                let esv = entries_view(entries@);
                let target = entries_of(rt.take(i as int + 1), rv.buffer);
                assert(esv.len() == target.len());
                assert forall|k: int| 0 <= k < esv.len() implies esv[k] == target[k] by {
                    assert(esv[k] == entries@[k]@);
                    assert(target[k] == entry_of(rt.take(i as int + 1)[k], rv.buffer));
                    assert(rt.take(i as int + 1)[k] == rt[k]);
                    if k < i {
                        assert(entries@[k] == prev[k]);
                        assert(entries_view(prev)[k] == entries_of(rt.take(i as int), rv.buffer)[k]);
                        assert(entries_of(rt.take(i as int), rv.buffer)[k] == entry_of(
                            rt.take(i as int)[k],
                            rv.buffer,
                        ));
                        assert(rt.take(i as int)[k] == rt[k]);
                    } else {
                        assert(entries@[k] == e);
                        assert(ev == entry_of(rt[i as int], rv.buffer));
                    }
                }
                assert(esv =~= target);
            }
            i = i + 1;
        }
        proof {
            assert(rt.take(rg.nodes@.len() as int) =~= rt);
        }
    } else {
        proof {
            assert(rt =~= Seq::<NodeView>::empty());
            assert(entries_view(entries@) =~= entries_of(rt, rv.buffer));
        }
    }
    proof {
        assert(entries_view(entries@) == entries_of(rt, rv.buffer));
        assert(forall|k: int| 0 <= k < rt.len() ==> transform_node_wf(#[trigger] rt[k], rv.buffer));
    }

    if let Some(mg) = mod_transform {
        proof {
            assert(mt == mg@.nodes);
            assert(mt.take(0) =~= Seq::<NodeView>::empty());
            assert(added_nodes(mt.take(0), rt) =~= Seq::<NodeView>::empty());
            assert(entries_view(entries@) =~= entries_of(rt, rv.buffer) + entries_of(
                added_nodes(mt.take(0), rt),
                mv.buffer,
            ));
        }
        let mut i: usize = 0;
        while i < mg.nodes.len()
            invariant
                i <= mg.nodes.len(),
                rv == reference@,
                mv == modified@,
                rt == transform_nodes(rv),
                mt == mg@.nodes,
                mt == transform_nodes(mv),
                ref_transform matches Some(rg2) ==> rt == crate::model::nodes_view(rg2.nodes@),
                ref_transform is None ==> rt == Seq::<NodeView>::empty(),
                forall|k: int| 0 <= k < rt.len() ==> transform_node_wf(#[trigger] rt[k], rv.buffer),
                entries_view(entries@) == entries_of(rt, rv.buffer) + entries_of(
                    added_nodes(mt.take(i as int), rt),
                    mv.buffer,
                ),
                entries@.len() == rt.len() + added_nodes(mt.take(i as int), rt).len(),
                forall|k: int|
                    0 <= k < added_nodes(mt.take(i as int), rt).len() ==> transform_node_wf(
                        #[trigger] added_nodes(mt.take(i as int), rt)[k],
                        mv.buffer,
                    ),
            decreases mg.nodes.len() - i,
        {
            let node = &mg.nodes[i];
            proof {
                assert(node@ == mt[i as int]);
            }
            let present: bool = match ref_transform {
                Some(rg) => contains_node_named(&rg.nodes, &node.name),
                None => false,
            };
            proof {
                assert(present == has_node_named(rt, mt[i as int].name));
                assert(mt.take(i as int + 1) =~= mt.take(i as int).push(mt[i as int]));
                lemma_added_nodes_push(mt.take(i as int), mt[i as int], rt);
            }
            if present {
                proof {
                    assert(added_nodes(mt.take(i as int + 1), rt) =~= added_nodes(
                        mt.take(i as int),
                        rt,
                    ));
                }
            } else {
                let ghost added_prev = added_nodes(mt.take(i as int), rt);
                let ghost added_new = added_nodes(mt.take(i as int + 1), rt);
                proof {
                    assert(added_new =~= added_prev.push(mt[i as int]));
                }
                if node.tracks.len() == 0 {
                    proof {
                        lemma_added_nodes_split(mt, rt, i as int);
                        assert(mt.skip(i as int)[0] == mt[i as int]);
                        assert(mt.skip(i as int).drop_first() =~= mt.skip(i as int + 1));
                        let bad = added_prev.len() as int;
                        assert(added_nodes(mt, rt)[bad] == mt[i as int]);
                        assert(!transform_node_wf(
                            added_nodes(transform_nodes(mv), transform_nodes(rv))[bad],
                            mv.buffer,
                        ));
                        assert(!sources_wf(rv, mv));
                    }
                    return Err(SpliceError::MalformedSource);
                }
                let t = &node.tracks[0];
                let blen: usize = modified.buffer.len();
                if t.data_size > u64::MAX - (t.data_offset as u64) || (t.data_offset as u64)
                    + t.data_size > (blen as u64) {
                    proof {
                        assert(mv.buffer.len() <= usize::MAX);
                        assert(t@ == mt[i as int].tracks[0]);
                        lemma_added_nodes_split(mt, rt, i as int);
                        assert(mt.skip(i as int)[0] == mt[i as int]);
                        assert(mt.skip(i as int).drop_first() =~= mt.skip(i as int + 1));
                        let bad = added_prev.len() as int;
                        assert(added_nodes(mt, rt)[bad] == mt[i as int]);
                        assert(!transform_node_wf(
                            added_nodes(transform_nodes(mv), transform_nodes(rv))[bad],
                            mv.buffer,
                        ));
                        assert(!sources_wf(rv, mv));
                    }
                    return Err(SpliceError::MalformedSource);
                }
                proof {
                    assert(t@ == mt[i as int].tracks[0]);
                    assert(transform_node_wf(mt[i as int], mv.buffer));
                }
                let e = AnimTransformNodeData::from(node, &modified.buffer);
                let ghost ev = e@;
                let ghost prev = entries@;
                entries.push(e);
                proof {
                    let esv = entries_view(entries@);
                    let target = entries_of(rt, rv.buffer) + entries_of(added_new, mv.buffer);
                    assert(esv.len() == target.len());
                    assert forall|k: int| 0 <= k < esv.len() implies esv[k] == target[k] by {
                        assert(esv[k] == entries@[k]@);
                        if k < prev.len() {
                            assert(entries@[k] == prev[k]);
                            assert(entries_view(prev)[k] == (entries_of(rt, rv.buffer)
                                + entries_of(added_prev, mv.buffer))[k]);
                            if k < rt.len() {
                                assert(target[k] == entries_of(rt, rv.buffer)[k]);
                            } else {
                                assert(added_new[k - rt.len()] == added_prev[k - rt.len()]);
                                assert(target[k] == entries_of(added_new, mv.buffer)[k - rt.len()]);
                                assert((entries_of(rt, rv.buffer) + entries_of(
                                    added_prev,
                                    mv.buffer,
                                ))[k] == entries_of(added_prev, mv.buffer)[k - rt.len()]);
                            }
                        } else {
                            assert(entries@[k] == e);
                            assert(added_new[k - rt.len()] == mt[i as int]);
                            assert(target[k] == entry_of(mt[i as int], mv.buffer));
                            assert(ev == entry_of(mt[i as int], mv.buffer));
                        }
                    }
                    assert(esv =~= target);
                    assert forall|k: int| 0 <= k < added_new.len() implies transform_node_wf(
                        #[trigger] added_new[k],
                        mv.buffer,
                    ) by {
                        if k < added_prev.len() {
                            assert(added_new[k] == added_prev[k]);
                        } else {
                            assert(added_new[k] == mt[i as int]);
                        }
                    }
                }
            }
            i = i + 1;
        }
        proof {
            assert(mt.take(mg.nodes@.len() as int) =~= mt);
        }
    } else {
        proof {
            assert(mt =~= Seq::<NodeView>::empty());
            assert(added_nodes(mt, rt) =~= Seq::<NodeView>::empty());
            assert(entries_view(entries@) =~= entries_of(rt, rv.buffer) + entries_of(
                added_nodes(mt, rt),
                mv.buffer,
            ));
        }
    }
    Ok(entries)
}

/// Packs the emission records: one single-track node per record, payloads
/// appended to `out_buf` in order, each track re-addressed to the offset
/// its payload lands at.
fn build_transform_nodes(entries: &Vec<AnimTransformNodeData>, out_buf: &mut Vec<u8>) -> (nodes:
    Vec<Node>)
    requires
        old(out_buf)@.len() == 0,
        forall|k: int|
            0 <= k < entries@.len() ==> (#[trigger] entries_view(entries@)[k]).buffer.len()
                == entries_view(entries@)[k].track.data_size,
        entries_total(entries_view(entries@)) <= u32::MAX,
    ensures
        crate::model::nodes_view(nodes@) == packed_transform_nodes(entries_view(entries@), 0),
        final(out_buf)@ == entries_payload(entries_view(entries@)),
{
    let ghost es = entries_view(entries@);
    let mut new_nodes: Vec<Node> = Vec::new();
    let mut i: usize = 0;
    proof {
        assert(es.take(0) =~= Seq::<AnimTransformNodeDataView>::empty());
        assert(crate::model::nodes_view(new_nodes@) =~= packed_transform_nodes(es.take(0), 0));
        assert(out_buf@ =~= entries_payload(es.take(0)));
    }
    while i < entries.len()
        invariant
            i <= entries.len(),
            es == entries_view(entries@),
            forall|k: int|
                0 <= k < es.len() ==> (#[trigger] es[k]).buffer.len() == es[k].track.data_size,
            entries_total(es) <= u32::MAX,
            crate::model::nodes_view(new_nodes@) == packed_transform_nodes(es.take(i as int), 0),
            out_buf@ == entries_payload(es.take(i as int)),
            out_buf@.len() == entries_total(es.take(i as int)),
        decreases entries.len() - i,
    {
        let e = &entries[i];
        proof {
            assert(e@ == es[i as int]);
            lemma_entries_total_split(es, i as int);
            assert(es.skip(i as int)[0] == es[i as int]);
            assert(es.skip(i as int).drop_first() =~= es.skip(i as int + 1));
            lemma_entries_total_nonneg(es.skip(i as int + 1));
            lemma_entries_total_nonneg(es.take(i as int));
        }
        let off: u32 = out_buf.len() as u32;
        let mut nt = e.track.duplicate();
        nt.data_offset = off;
        let ghost ntv = nt@;
        let ghost prev_nodes = new_nodes@;
        append_range(out_buf, &e.buffer, 0, e.buffer.len() as u64);
        new_nodes.push(Node { name: e.name.clone(), tracks: vec![nt] });
        proof {
            assert(e.buffer@.subrange(0, e.buffer@.len() as int) =~= e.buffer@);
            lemma_packed_transform_nodes_push(es.take(i as int), es[i as int], 0);
            assert(es.take(i as int + 1) =~= es.take(i as int).push(es[i as int]));
            assert(ntv =~~= track_at(es[i as int].track, entries_total(es.take(i as int))));
            assert(forall|k: int|
                0 <= k < prev_nodes.len() ==> crate::model::nodes_view(prev_nodes)[k]
                    == packed_transform_nodes(es.take(i as int), 0)[k]);
            assert(crate::model::nodes_view(new_nodes@) =~~= packed_transform_nodes(
                es.take(i as int + 1),
                0,
            ));
            lemma_entries_payload_push(es.take(i as int), es[i as int]);
            assert(out_buf@ =~= entries_payload(es.take(i as int + 1)));
            lemma_entries_total_push(es.take(i as int), es[i as int]);
        }
        i = i + 1;
    }
    proof {
        assert(es.take(entries@.len() as int) =~= es);
    }
    new_nodes
}

/// Merges the reference and the modified containers: reference transform
/// nodes are kept byte-for-byte, transform nodes only the modified
/// container names are appended, the visibility and material groups are
/// taken from the modified container with the reference's as fallback, and
/// every payload is repacked gaplessly into a fresh buffer with recomputed
/// offsets.  The reference's scalar metadata is carried over unchanged.
pub fn splice(reference: &Container, modified: &Container) -> (res: Result<Container, SpliceError>)
    ensures
        (match res {
            Ok(out) => splice_spec(reference@, modified@) == Ok::<ContainerView, SpliceError>(out@),
            Err(e) => splice_spec(reference@, modified@) == Err::<ContainerView, SpliceError>(e),
        }),
{
    let ghost rv = reference@;
    let ghost mv = modified@;
    if reference.version == Version::V12 {
        return Err(SpliceError::UnsupportedVersion { which: Side::Reference });
    }
    if modified.version == Version::V12 {
        return Err(SpliceError::UnsupportedVersion { which: Side::Modified });
    }
    let ghost rt = transform_nodes(rv);
    let ghost mt = transform_nodes(mv);
    let entries: Vec<AnimTransformNodeData> = match collect_transform_entries(reference, modified) {
        Ok(v) => v,
        Err(e) => {
            return Err(e);
        },
    };
    let ghost es = splice_entries(rv, mv);
    proof {
        assert(entries_view(entries@) == es);
    }

    // Choose the visibility and material groups and check that every track
    // they carry addresses a valid range of its source buffer.
    let vis = get_anim_group_and_buffer_with_fallback(
        &modified.groups,
        &modified.buffer,
        &reference.groups,
        &reference.buffer,
        GroupKind::Visibility,
    );
    let mat = get_anim_group_and_buffer_with_fallback(
        &modified.groups,
        &modified.buffer,
        &reference.groups,
        &reference.buffer,
        GroupKind::Material,
    );
    if let Some((vg, vbuf)) = vis {
        if !group_tracks_in_bounds(vg, vbuf) {
            proof {
                assert(!sources_wf(rv, mv));
            }
            return Err(SpliceError::MalformedSource);
        }
    }
    if let Some((mgrp, mbuf)) = mat {
        if !group_tracks_in_bounds(mgrp, mbuf) {
            proof {
                assert(!sources_wf(rv, mv));
            }
            return Err(SpliceError::MalformedSource);
        }
    }
    proof {
        assert(sources_wf(rv, mv));
    }

    // Check that the packed payloads fit below the largest storable offset.
    let ghost v_total: int = match chosen_group(rv, mv, GroupKind::Visibility) {
        Some((g, _)) => nodes_total(g.nodes),
        None => 0,
    };
    let ghost m_total: int = match chosen_group(rv, mv, GroupKind::Material) {
        Some((g, _)) => nodes_total(g.nodes),
        None => 0,
    };
    proof {
        match chosen_group(rv, mv, GroupKind::Visibility) {
            Some((g, _)) => lemma_nodes_total_nonneg(g.nodes),
            None => (),
        }
        match chosen_group(rv, mv, GroupKind::Material) {
            Some((g, _)) => lemma_nodes_total_nonneg(g.nodes),
            None => (),
        }
        lemma_entries_total_nonneg(es);
    }
    let total_e: u64 = match add_entries_total(&entries, 0) {
        Some(t) => t,
        None => {
            proof {
                assert(output_size(rv, mv) > u32::MAX);
            }
            return Err(SpliceError::OversizedOutput);
        },
    };
    let total_v: u64 = match vis {
        Some((vg, _)) => match add_group_total(vg, total_e) {
            Some(t) => t,
            None => {
                proof {
                    assert(output_size(rv, mv) > u32::MAX);
                }
                return Err(SpliceError::OversizedOutput);
            },
        },
        None => total_e,
    };
    let total_all: u64 = match mat {
        Some((mgrp, _)) => match add_group_total(mgrp, total_v) {
            Some(t) => t,
            None => {
                proof {
                    assert(output_size(rv, mv) > u32::MAX);
                }
                return Err(SpliceError::OversizedOutput);
            },
        },
        None => total_v,
    };
    proof {
        assert(total_all == output_size(rv, mv));
        assert(output_size(rv, mv) <= u32::MAX);
    }

    // Emit: the packed transform group first, then the chosen visibility
    // and material groups, with one running offset across all parts.
    let ghost t_part: Seq<GroupView> = if es.len() == 0 {
        Seq::empty()
    } else {
        seq![GroupView { kind: GroupKind::Transform, nodes: packed_transform_nodes(es, 0) }]
    };
    let mut new_buffer: Vec<u8> = Vec::new();
    let mut new_groups: Vec<Group> = Vec::new();
    proof {
        assert forall|k: int| 0 <= k < es.len() implies (#[trigger] es[k]).buffer.len()
            == es[k].track.data_size by {
            if k < rt.len() {
                assert(es[k] == entries_of(rt, rv.buffer)[k]);
                assert(es[k] == entry_of(rt[k], rv.buffer));
                assert(transform_node_wf(rt[k], rv.buffer));
            } else {
                let a = added_nodes(mt, rt);
                assert(es[k] == entries_of(a, mv.buffer)[k - rt.len()]);
                assert(es[k] == entry_of(a[k - rt.len()], mv.buffer));
                assert(transform_node_wf(a[k - rt.len()], mv.buffer));
            }
        }
    }
    if entries.len() > 0 {
        let new_nodes = build_transform_nodes(&entries, &mut new_buffer);
        new_groups.push(Group { kind: GroupKind::Transform, nodes: new_nodes });
        proof {
            assert(crate::model::groups_view(new_groups@) =~~= t_part);
        }
    } else {
        proof {
            assert(es.len() == 0);
            assert(t_part =~= Seq::<GroupView>::empty());
            assert(crate::model::groups_view(new_groups@) =~= t_part);
            assert(new_buffer@ =~= entries_payload(es));
        }
    }
    proof {
        assert(crate::model::groups_view(new_groups@) == t_part);
        assert(new_buffer@ == entries_payload(es));
        lemma_entries_payload_len(es);
        assert(new_buffer@.len() == entries_total(es));
    }

    let ghost v_part: Seq<GroupView> = match chosen_group(rv, mv, GroupKind::Visibility) {
        Some((g, _)) => seq![
            GroupView {
                kind: GroupKind::Visibility,
                nodes: repacked_nodes(g.nodes, entries_total(es)),
            },
        ],
        None => Seq::empty(),
    };
    if let Some((vg, vbuf)) = vis {
        proof {
            lemma_with_fallback_kind(mv.groups, mv.buffer, rv.groups, rv.buffer,
                GroupKind::Visibility);
            assert(vg@.kind == GroupKind::Visibility);
            assert(group_in_bounds(vg@, vbuf@));
        }
        let ghost prev_groups = new_groups@;
        let ng = repack_group_append(vg, vbuf, &mut new_buffer);
        new_groups.push(ng);
        proof {
            assert(forall|k: int|
                0 <= k < prev_groups.len() ==> crate::model::groups_view(prev_groups)[k]
                    == t_part[k]);
            assert(crate::model::groups_view(new_groups@) =~~= t_part + v_part);
            lemma_nodes_payload_len(vg@.nodes, vbuf@);
        }
    } else {
        proof {
            assert(v_part =~= Seq::<GroupView>::empty());
            assert(crate::model::groups_view(new_groups@) =~= t_part + v_part);
        }
    }
    proof {
        assert(crate::model::groups_view(new_groups@) == t_part + v_part);
        assert(new_buffer@ == entries_payload(es) + (match chosen_group(
            rv,
            mv,
            GroupKind::Visibility,
        ) {
            Some((g, b)) => nodes_payload(g.nodes, b),
            None => Seq::<u8>::empty(),
        }));
        assert(new_buffer@.len() == entries_total(es) + v_total);
    }

    let ghost m_part: Seq<GroupView> = match chosen_group(rv, mv, GroupKind::Material) {
        Some((g, _)) => seq![
            GroupView {
                kind: GroupKind::Material,
                nodes: repacked_nodes(g.nodes, entries_total(es) + v_total),
            },
        ],
        None => Seq::empty(),
    };
    if let Some((mgrp, mbuf)) = mat {
        proof {
            lemma_with_fallback_kind(mv.groups, mv.buffer, rv.groups, rv.buffer,
                GroupKind::Material);
            assert(mgrp@.kind == GroupKind::Material);
            assert(group_in_bounds(mgrp@, mbuf@));
        }
        let ghost prev_groups = new_groups@;
        let ng = repack_group_append(mgrp, mbuf, &mut new_buffer);
        new_groups.push(ng);
        proof {
            assert(forall|k: int|
                0 <= k < prev_groups.len() ==> crate::model::groups_view(prev_groups)[k] == (t_part
                    + v_part)[k]);
            assert(crate::model::groups_view(new_groups@) =~~= t_part + v_part + m_part);
            lemma_nodes_payload_len(mgrp@.nodes, mbuf@);
        }
    } else {
        proof {
            assert(m_part =~= Seq::<GroupView>::empty());
            assert(crate::model::groups_view(new_groups@) =~= t_part + v_part + m_part);
        }
    }
    proof {
        assert(crate::model::groups_view(new_groups@) == t_part + v_part + m_part);
        assert(crate::model::groups_view(new_groups@) =~~= spliced_groups(rv, mv));
        assert(new_buffer@ =~= spliced_buffer(rv, mv));
    }

    let out = Container {
        version: reference.version,
        final_frame_index: reference.final_frame_index,
        unk1: reference.unk1,
        unk2: reference.unk2,
        name: reference.name.clone(),
        vendor_data: match &reference.vendor_data {
            Some(v) => Some(v.duplicate()),
            None => None,
        },
        groups: new_groups,
        buffer: new_buffer,
    };
    proof {
        assert(out@ =~~= spec_splice(rv, mv));
        assert(splice_spec(rv, mv) == Ok::<ContainerView, SpliceError>(out@));
    }
    Ok(out)
}

pub proof fn lemma_added_nodes_split(ms: Seq<NodeView>, rs: Seq<NodeView>, i: int)
    requires
        0 <= i <= ms.len(),
    ensures
        added_nodes(ms, rs) == added_nodes(ms.take(i), rs) + added_nodes(ms.skip(i), rs),
    decreases i,
{
    if i == 0 {
        assert(ms.take(0) =~= Seq::empty());
        assert(ms.skip(0) =~= ms);
        assert(added_nodes(ms, rs) =~= added_nodes(ms.take(0), rs) + added_nodes(ms, rs));
    } else {
        lemma_added_nodes_split(ms, rs, i - 1);
        lemma_added_nodes_push(ms.take(i - 1), ms[i - 1], rs);
        assert(ms.take(i) =~= ms.take(i - 1).push(ms[i - 1]));
        assert(ms.skip(i - 1).drop_first() =~= ms.skip(i));
        assert(ms.skip(i - 1)[0] == ms[i - 1]);
        assert(added_nodes(ms, rs) =~= added_nodes(ms.take(i), rs) + added_nodes(ms.skip(i), rs));
    }
}

} // verus!
