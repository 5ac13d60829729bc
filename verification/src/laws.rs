//! Laws of the splice engine, proved from [`crate::splice::splice_spec`]:
//! reference bones survive a splice byte-for-byte, genuinely new bones are
//! included exactly once, the visibility and material groups fall back as
//! intended, splicing a container with itself changes no content, and every
//! output is packed gaplessly.

use vstd::prelude::*;

use crate::model::{
    payload_of, track_in_bounds, ContainerView, GroupKind, GroupView, NodeView, TrackView,
};
use crate::splice::{
    added_nodes, chosen_group, entries_of, entries_payload, entries_total, entry_of, find_group,
    has_node_named, nodes_payload, nodes_total, output_size, packed_transform_nodes, repacked_nodes,
    repacked_tracks, sources_wf, spec_splice, splice_entries, splice_spec, track_at,
    tracks_payload, tracks_total, transform_node_wf, transform_nodes,
    lemma_entries_payload_push, lemma_nodes_payload_push, lemma_tracks_payload_push,
    lemma_entries_total_nonneg, lemma_nodes_total_nonneg, lemma_tracks_total_nonneg,
    lemma_entries_total_split, lemma_nodes_total_split, lemma_tracks_total_split,
    lemma_entries_payload_len, lemma_nodes_payload_len, lemma_tracks_payload_len,
    AnimTransformNodeDataView,
};

verus! {

/// All tracks of a sequence of nodes, in node-then-track order.
pub open spec fn nodes_tracks(ns: Seq<NodeView>) -> Seq<TrackView>
    decreases ns.len(),
{
    if ns.len() == 0 {
        Seq::empty()
    } else {
        ns[0].tracks + nodes_tracks(ns.drop_first())
    }
}

/// All tracks of a sequence of groups, in emission order.
pub open spec fn groups_tracks(gs: Seq<GroupView>) -> Seq<TrackView>
    decreases gs.len(),
{
    if gs.len() == 0 {
        Seq::empty()
    } else {
        nodes_tracks(gs[0].nodes) + groups_tracks(gs.drop_first())
    }
}

/// All track descriptors of a container, in the order their payloads are
/// laid out by a splice.
pub open spec fn container_tracks(c: ContainerView) -> Seq<TrackView> {
    groups_tracks(c.groups)
}

/// The tracks of a sequence of emission records.
pub open spec fn entry_tracks(es: Seq<AnimTransformNodeDataView>) -> Seq<TrackView> {
    Seq::new(es.len(), |i: int| es[i].track)
}

/// Two tracks agree on everything but the byte offset of their payload.
pub open spec fn same_track_meta(a: TrackView, b: TrackView) -> bool {
    &&& a.name == b.name
    &&& a.track_type == b.track_type
    &&& a.compression_type == b.compression_type
    &&& a.transform_flags == b.transform_flags
    &&& a.frame_count == b.frame_count
    &&& a.data_size == b.data_size
}

/// Two tracks carry the same metadata and address byte-identical payloads
/// in their respective buffers.
pub open spec fn same_track_content(a: TrackView, abuf: Seq<u8>, b: TrackView, bbuf: Seq<u8>) -> bool {
    &&& same_track_meta(a, b)
    &&& payload_of(a, abuf) == payload_of(b, bbuf)
}

/// Two nodes have the same name and pairwise content-equal tracks.
pub open spec fn same_node_content(a: NodeView, abuf: Seq<u8>, b: NodeView, bbuf: Seq<u8>) -> bool {
    &&& a.name == b.name
    &&& a.tracks.len() == b.tracks.len()
    &&& forall|j: int|
        0 <= j < a.tracks.len() ==> same_track_content(
            #[trigger] a.tracks[j],
            abuf,
            b.tracks[j],
            bbuf,
        )
}

/// Two groups have the same kind and pairwise content-equal nodes.
pub open spec fn same_group_content(a: GroupView, abuf: Seq<u8>, b: GroupView, bbuf: Seq<u8>) -> bool {
    &&& a.kind == b.kind
    &&& a.nodes.len() == b.nodes.len()
    &&& forall|i: int|
        0 <= i < a.nodes.len() ==> same_node_content(#[trigger] a.nodes[i], abuf, b.nodes[i], bbuf)
}

pub proof fn lemma_packed_len(es: Seq<AnimTransformNodeDataView>, off: int)
    ensures
        packed_transform_nodes(es, off).len() == es.len(),
    decreases es.len(),
{
    if es.len() > 0 {
        lemma_packed_len(es.drop_first(), off + es[0].track.data_size);
    }
}

pub proof fn lemma_packed_index(es: Seq<AnimTransformNodeDataView>, off: int, i: int)
    requires
        0 <= i < es.len(),
    ensures
        packed_transform_nodes(es, off).len() == es.len(),
        packed_transform_nodes(es, off)[i] == (NodeView {
            name: es[i].name,
            tracks: seq![track_at(es[i].track, off + entries_total(es.take(i)))],
        }),
    decreases i,
{
    lemma_packed_len(es, off);
    if i == 0 {
        assert(es.take(0) =~= Seq::<AnimTransformNodeDataView>::empty());
    } else {
        lemma_packed_index(es.drop_first(), off + es[0].track.data_size, i - 1);
        assert(es.take(i)[0] == es[0]);
        assert(es.take(i).drop_first() =~= es.drop_first().take(i - 1));
    }
}

pub proof fn lemma_repacked_tracks_len(ts: Seq<TrackView>, off: int)
    ensures
        repacked_tracks(ts, off).len() == ts.len(),
    decreases ts.len(),
{
    if ts.len() > 0 {
        lemma_repacked_tracks_len(ts.drop_first(), off + ts[0].data_size);
    }
}

pub proof fn lemma_repacked_tracks_index(ts: Seq<TrackView>, off: int, j: int)
    requires
        0 <= j < ts.len(),
    ensures
        repacked_tracks(ts, off).len() == ts.len(),
        repacked_tracks(ts, off)[j] == track_at(ts[j], off + tracks_total(ts.take(j))),
    decreases j,
{
    lemma_repacked_tracks_len(ts, off);
    if j == 0 {
        assert(ts.take(0) =~= Seq::<TrackView>::empty());
    } else {
        lemma_repacked_tracks_index(ts.drop_first(), off + ts[0].data_size, j - 1);
        assert(ts.take(j)[0] == ts[0]);
        assert(ts.take(j).drop_first() =~= ts.drop_first().take(j - 1));
    }
}

pub proof fn lemma_repacked_nodes_len(ns: Seq<NodeView>, off: int)
    ensures
        repacked_nodes(ns, off).len() == ns.len(),
    decreases ns.len(),
{
    if ns.len() > 0 {
        lemma_repacked_nodes_len(ns.drop_first(), off + tracks_total(ns[0].tracks));
    }
}

pub proof fn lemma_repacked_nodes_index(ns: Seq<NodeView>, off: int, i: int)
    requires
        0 <= i < ns.len(),
    ensures
        repacked_nodes(ns, off).len() == ns.len(),
        repacked_nodes(ns, off)[i] == (NodeView {
            name: ns[i].name,
            tracks: repacked_tracks(ns[i].tracks, off + nodes_total(ns.take(i))),
        }),
    decreases i,
{
    lemma_repacked_nodes_len(ns, off);
    if i == 0 {
        assert(ns.take(0) =~= Seq::<NodeView>::empty());
    } else {
        lemma_repacked_nodes_index(ns.drop_first(), off + tracks_total(ns[0].tracks), i - 1);
        assert(ns.take(i)[0] == ns[0]);
        assert(ns.take(i).drop_first() =~= ns.drop_first().take(i - 1));
    }
}

pub proof fn lemma_entries_payload_split(es: Seq<AnimTransformNodeDataView>, i: int)
    requires
        0 <= i <= es.len(),
    ensures
        entries_payload(es) == entries_payload(es.take(i)) + entries_payload(es.skip(i)),
    decreases i,
{
    if i == 0 {
        assert(es.take(0) =~= Seq::<AnimTransformNodeDataView>::empty());
        assert(es.skip(0) =~= es);
        assert(entries_payload(es) =~= entries_payload(es.take(0)) + entries_payload(es));
    } else {
        lemma_entries_payload_split(es, i - 1);
        lemma_entries_payload_push(es.take(i - 1), es[i - 1]);
        assert(es.take(i) =~= es.take(i - 1).push(es[i - 1]));
        assert(es.skip(i - 1)[0] == es[i - 1]);
        assert(es.skip(i - 1).drop_first() =~= es.skip(i));
        assert(entries_payload(es) =~= entries_payload(es.take(i)) + entries_payload(es.skip(i)));
    }
}

pub proof fn lemma_tracks_payload_split(ts: Seq<TrackView>, buf: Seq<u8>, j: int)
    requires
        0 <= j <= ts.len(),
    ensures
        tracks_payload(ts, buf) == tracks_payload(ts.take(j), buf) + tracks_payload(
            ts.skip(j),
            buf,
        ),
    decreases j,
{
    if j == 0 {
        assert(ts.take(0) =~= Seq::<TrackView>::empty());
        assert(ts.skip(0) =~= ts);
        assert(tracks_payload(ts, buf) =~= tracks_payload(ts.take(0), buf) + tracks_payload(
            ts,
            buf,
        ));
    } else {
        lemma_tracks_payload_split(ts, buf, j - 1);
        lemma_tracks_payload_push(ts.take(j - 1), ts[j - 1], buf);
        assert(ts.take(j) =~= ts.take(j - 1).push(ts[j - 1]));
        assert(ts.skip(j - 1)[0] == ts[j - 1]);
        assert(ts.skip(j - 1).drop_first() =~= ts.skip(j));
        assert(tracks_payload(ts, buf) =~= tracks_payload(ts.take(j), buf) + tracks_payload(
            ts.skip(j),
            buf,
        ));
    }
}

pub proof fn lemma_nodes_payload_split(ns: Seq<NodeView>, buf: Seq<u8>, i: int)
    requires
        0 <= i <= ns.len(),
    ensures
        nodes_payload(ns, buf) == nodes_payload(ns.take(i), buf) + nodes_payload(ns.skip(i), buf),
    decreases i,
{
    if i == 0 {
        assert(ns.take(0) =~= Seq::<NodeView>::empty());
        assert(ns.skip(0) =~= ns);
        assert(nodes_payload(ns, buf) =~= nodes_payload(ns.take(0), buf) + nodes_payload(ns, buf));
    } else {
        lemma_nodes_payload_split(ns, buf, i - 1);
        lemma_nodes_payload_push(ns.take(i - 1), ns[i - 1], buf);
        assert(ns.take(i) =~= ns.take(i - 1).push(ns[i - 1]));
        assert(ns.skip(i - 1)[0] == ns[i - 1]);
        assert(ns.skip(i - 1).drop_first() =~= ns.skip(i));
        assert(nodes_payload(ns, buf) =~= nodes_payload(ns.take(i), buf) + nodes_payload(
            ns.skip(i),
            buf,
        ));
    }
}

/// Under `sources_wf`, each emission record's payload has exactly its
/// track's size, and the records are the well-formed source nodes' records.
pub proof fn lemma_entries_shape(r: ContainerView, m: ContainerView)
    requires
        sources_wf(r, m),
    ensures
        splice_entries(r, m).len() == transform_nodes(r).len() + added_nodes(
            transform_nodes(m),
            transform_nodes(r),
        ).len(),
        forall|k: int|
            0 <= k < transform_nodes(r).len() ==> #[trigger] splice_entries(r, m)[k] == entry_of(
                transform_nodes(r)[k],
                r.buffer,
            ),
        forall|k: int|
            transform_nodes(r).len() <= k < splice_entries(r, m).len()
                ==> #[trigger] splice_entries(r, m)[k] == entry_of(
                added_nodes(transform_nodes(m), transform_nodes(r))[k - transform_nodes(r).len()],
                m.buffer,
            ),
        forall|k: int|
            0 <= k < splice_entries(r, m).len() ==> (#[trigger] splice_entries(r, m)[k]).buffer.len()
                == splice_entries(r, m)[k].track.data_size,
{
    let rt = transform_nodes(r);
    let mt = transform_nodes(m);
    let a = added_nodes(mt, rt);
    let es = splice_entries(r, m);
    assert forall|k: int| 0 <= k < es.len() implies (#[trigger] es[k]).buffer.len()
        == es[k].track.data_size by {
        if k < rt.len() {
            assert(es[k] == entries_of(rt, r.buffer)[k]);
            assert(transform_node_wf(rt[k], r.buffer));
        } else {
            assert(es[k] == entries_of(a, m.buffer)[k - rt.len()]);
            assert(transform_node_wf(a[k - rt.len()], m.buffer));
        }
    }
}

/// Content of the packed transform part: node `i` keeps the record's name,
/// carries exactly one track with unchanged metadata, and its payload in
/// `out` is the record's payload bytes.
pub proof fn lemma_packed_entries_content(es: Seq<AnimTransformNodeDataView>, out: Seq<u8>)
    requires
        forall|k: int|
            0 <= k < es.len() ==> (#[trigger] es[k]).buffer.len() == es[k].track.data_size,
        entries_total(es) <= u32::MAX,
        out.len() >= entries_total(es),
        out.subrange(0, entries_total(es)) == entries_payload(es),
    ensures
        packed_transform_nodes(es, 0).len() == es.len(),
        forall|i: int|
            0 <= i < es.len() ==> {
                let n = #[trigger] packed_transform_nodes(es, 0)[i];
                &&& n.name == es[i].name
                &&& n.tracks.len() == 1
                &&& same_track_meta(n.tracks[0], es[i].track)
                &&& track_in_bounds(n.tracks[0], out)
                &&& payload_of(n.tracks[0], out) == es[i].buffer
            },
{
    lemma_packed_len(es, 0);
    assert forall|x: int| 0 <= x < entries_total(es) implies out[x] == entries_payload(es)[x] by {
        assert(out.subrange(0, entries_total(es))[x] == out[x]);
    }
    assert forall|i: int| 0 <= i < es.len() implies {
        let n = #[trigger] packed_transform_nodes(es, 0)[i];
        &&& n.name == es[i].name
        &&& n.tracks.len() == 1
        &&& same_track_meta(n.tracks[0], es[i].track)
        &&& track_in_bounds(n.tracks[0], out)
        &&& payload_of(n.tracks[0], out) == es[i].buffer
    } by {
        lemma_packed_index(es, 0, i);
        let o = entries_total(es.take(i));
        let size = es[i].track.data_size as int;
        lemma_entries_total_split(es, i);
        assert(es.skip(i)[0] == es[i]);
        assert(es.skip(i).drop_first() =~= es.skip(i + 1));
        lemma_entries_total_nonneg(es.take(i));
        lemma_entries_total_nonneg(es.skip(i + 1));
        let n = packed_transform_nodes(es, 0)[i];
        assert(n.tracks[0] == track_at(es[i].track, o));
        assert(n.tracks[0].data_offset == o);
        lemma_entries_payload_split(es, i);
        assert(entries_payload(es.skip(i)) == es[i].buffer + entries_payload(es.skip(i + 1)));
        assert(forall|k: int|
            0 <= k < i ==> (#[trigger] es.take(i)[k]).buffer.len()
                == es.take(i)[k].track.data_size);
        lemma_entries_payload_len(es.take(i));
        assert(payload_of(n.tracks[0], out) =~= es[i].buffer);
    }
}

/// Content of a repacked group part that sits in `out` starting at `base`:
/// node `i` keeps its name, and each of its tracks keeps its metadata and
/// addresses, in `out`, the same bytes it addressed in `src`.
pub proof fn lemma_repacked_nodes_content(ns: Seq<NodeView>, src: Seq<u8>, out: Seq<u8>, base: int)
    requires
        forall|i: int, j: int|
            0 <= i < ns.len() && 0 <= j < ns[i].tracks.len() ==> track_in_bounds(
                ns[i].tracks[j],
                src,
            ),
        0 <= base,
        base + nodes_total(ns) <= u32::MAX,
        out.len() >= base + nodes_total(ns),
        out.subrange(base, base + nodes_total(ns)) == nodes_payload(ns, src),
    ensures
        repacked_nodes(ns, base).len() == ns.len(),
        forall|i: int|
            0 <= i < ns.len() ==> same_node_content(
                #[trigger] repacked_nodes(ns, base)[i],
                out,
                ns[i],
                src,
            ),
{
    lemma_repacked_nodes_len(ns, base);
    assert forall|x: int| 0 <= x < nodes_total(ns) implies out[base + x] == nodes_payload(
        ns,
        src,
    )[x] by {
        assert(out.subrange(base, base + nodes_total(ns))[x] == out[base + x]);
    }
    assert forall|i: int| 0 <= i < ns.len() implies same_node_content(
        #[trigger] repacked_nodes(ns, base)[i],
        out,
        ns[i],
        src,
    ) by {
        lemma_repacked_nodes_index(ns, base, i);
        let ts = ns[i].tracks;
        let nbase = base + nodes_total(ns.take(i));
        let rn = repacked_nodes(ns, base)[i];
        assert(rn.tracks == repacked_tracks(ts, nbase));
        lemma_repacked_tracks_len(ts, nbase);
        lemma_nodes_total_split(ns, i);
        assert(ns.skip(i)[0] == ns[i]);
        assert(ns.skip(i).drop_first() =~= ns.skip(i + 1));
        lemma_nodes_total_nonneg(ns.take(i));
        lemma_nodes_total_nonneg(ns.skip(i + 1));
        lemma_tracks_total_nonneg(ts);
        lemma_nodes_payload_split(ns, src, i);
        assert(nodes_payload(ns.skip(i), src) == tracks_payload(ts, src) + nodes_payload(
            ns.skip(i + 1),
            src,
        ));
        assert(forall|i2: int, j2: int|
            0 <= i2 < i && 0 <= j2 < ns.take(i)[i2].tracks.len() ==> track_in_bounds(
                ns.take(i)[i2].tracks[j2],
                src,
            ));
        lemma_nodes_payload_len(ns.take(i), src);
        assert forall|j: int| 0 <= j < ts.len() implies same_track_content(
            #[trigger] rn.tracks[j],
            out,
            ts[j],
            src,
        ) by {
            lemma_repacked_tracks_index(ts, nbase, j);
            assert(rn.tracks[j] == track_at(ts[j], nbase + tracks_total(ts.take(j))));
            let o = nbase + tracks_total(ts.take(j));
            let size = ts[j].data_size as int;
            lemma_tracks_total_split(ts, j);
            assert(ts.skip(j)[0] == ts[j]);
            assert(ts.skip(j).drop_first() =~= ts.skip(j + 1));
            lemma_tracks_total_nonneg(ts.take(j));
            lemma_tracks_total_nonneg(ts.skip(j + 1));
            lemma_tracks_payload_split(ts, src, j);
            assert(tracks_payload(ts.skip(j), src) == payload_of(ts[j], src) + tracks_payload(
                ts.skip(j + 1),
                src,
            ));
            assert(forall|j2: int| 0 <= j2 < j ==> track_in_bounds(#[trigger] ts.take(j)[j2], src));
            lemma_tracks_payload_len(ts.take(j), src);
            assert(track_in_bounds(ts[j], src));
            assert(payload_of(ts[j], src).len() == size);
            assert(rn.tracks[j].data_offset == o);
            assert forall|x: int| 0 <= x < size implies out[o + x] == payload_of(ts[j], src)[x] by {
                assert(out[base + (o - base + x)] == nodes_payload(ns, src)[o - base + x]);
                assert(nodes_payload(ns, src)[o - base + x] == nodes_payload(ns.skip(i), src)[
                    o - base + x - nodes_total(ns.take(i))]);
                assert(tracks_payload(ts, src)[tracks_total(ts.take(j)) + x] == tracks_payload(
                    ts.skip(j),
                    src,
                )[x]);
            }
            assert(payload_of(rn.tracks[j], out) =~= payload_of(ts[j], src));
        }
    }
}

pub proof fn lemma_tracks_total_concat(a: Seq<TrackView>, b: Seq<TrackView>)
    ensures
        tracks_total(a + b) == tracks_total(a) + tracks_total(b),
    decreases a.len(),
{
    if a.len() == 0 {
        assert(a + b =~= b);
    } else {
        assert((a + b).drop_first() =~= a.drop_first() + b);
        assert((a + b)[0] == a[0]);
        lemma_tracks_total_concat(a.drop_first(), b);
    }
}

pub proof fn lemma_repacked_tracks_concat(a: Seq<TrackView>, b: Seq<TrackView>, off: int)
    ensures
        repacked_tracks(a + b, off) == repacked_tracks(a, off) + repacked_tracks(
            b,
            off + tracks_total(a),
        ),
    decreases a.len(),
{
    if a.len() == 0 {
        assert(a + b =~= b);
        assert(repacked_tracks(a, off) =~= Seq::<TrackView>::empty());
        assert(repacked_tracks(a + b, off) =~= repacked_tracks(a, off) + repacked_tracks(
            b,
            off + tracks_total(a),
        ));
    } else {
        assert((a + b).drop_first() =~= a.drop_first() + b);
        assert((a + b)[0] == a[0]);
        lemma_repacked_tracks_concat(a.drop_first(), b, off + a[0].data_size);
        assert(repacked_tracks(a + b, off) =~= repacked_tracks(a, off) + repacked_tracks(
            b,
            off + tracks_total(a),
        ));
    }
}

pub proof fn lemma_nodes_tracks_concat(a: Seq<NodeView>, b: Seq<NodeView>)
    ensures
        nodes_tracks(a + b) == nodes_tracks(a) + nodes_tracks(b),
    decreases a.len(),
{
    if a.len() == 0 {
        assert(a + b =~= b);
        assert(nodes_tracks(a + b) =~= nodes_tracks(a) + nodes_tracks(b));
    } else {
        assert((a + b).drop_first() =~= a.drop_first() + b);
        assert((a + b)[0] == a[0]);
        lemma_nodes_tracks_concat(a.drop_first(), b);
        assert(nodes_tracks(a + b) =~= nodes_tracks(a) + nodes_tracks(b));
    }
}

pub proof fn lemma_groups_tracks_concat(a: Seq<GroupView>, b: Seq<GroupView>)
    ensures
        groups_tracks(a + b) == groups_tracks(a) + groups_tracks(b),
    decreases a.len(),
{
    if a.len() == 0 {
        assert(a + b =~= b);
        assert(groups_tracks(a + b) =~= groups_tracks(a) + groups_tracks(b));
    } else {
        assert((a + b).drop_first() =~= a.drop_first() + b);
        assert((a + b)[0] == a[0]);
        lemma_groups_tracks_concat(a.drop_first(), b);
        assert(groups_tracks(a + b) =~= groups_tracks(a) + groups_tracks(b));
    }
}

pub proof fn lemma_tracks_total_entry_tracks(es: Seq<AnimTransformNodeDataView>)
    ensures
        tracks_total(entry_tracks(es)) == entries_total(es),
    decreases es.len(),
{
    if es.len() == 0 {
    } else {
        assert(entry_tracks(es)[0] == es[0].track);
        assert(entry_tracks(es).drop_first() =~= entry_tracks(es.drop_first()));
        lemma_tracks_total_entry_tracks(es.drop_first());
    }
}

pub proof fn lemma_tracks_total_nodes_tracks(ns: Seq<NodeView>)
    ensures
        tracks_total(nodes_tracks(ns)) == nodes_total(ns),
    decreases ns.len(),
{
    if ns.len() > 0 {
        lemma_tracks_total_concat(ns[0].tracks, nodes_tracks(ns.drop_first()));
        lemma_tracks_total_nodes_tracks(ns.drop_first());
    }
}

/// The tracks of the packed transform nodes are the entry tracks repacked.
pub proof fn lemma_nodes_tracks_packed(es: Seq<AnimTransformNodeDataView>, off: int)
    ensures
        nodes_tracks(packed_transform_nodes(es, off)) == repacked_tracks(entry_tracks(es), off),
    decreases es.len(),
{
    if es.len() == 0 {
        assert(nodes_tracks(packed_transform_nodes(es, off)) =~= repacked_tracks(
            entry_tracks(es),
            off,
        ));
    } else {
        lemma_nodes_tracks_packed(es.drop_first(), off + es[0].track.data_size);
        assert(entry_tracks(es)[0] == es[0].track);
        assert(entry_tracks(es).drop_first() =~= entry_tracks(es.drop_first()));
        let packed = packed_transform_nodes(es, off);
        assert(packed[0].tracks == seq![track_at(es[0].track, off)]);
        assert(packed.drop_first() =~= packed_transform_nodes(
            es.drop_first(),
            off + es[0].track.data_size,
        ));
        assert(nodes_tracks(packed) =~= repacked_tracks(entry_tracks(es), off));
    }
}

/// The tracks of a repacked node sequence are its flattened tracks
/// repacked.
pub proof fn lemma_nodes_tracks_repacked(ns: Seq<NodeView>, off: int)
    ensures
        nodes_tracks(repacked_nodes(ns, off)) == repacked_tracks(nodes_tracks(ns), off),
    decreases ns.len(),
{
    if ns.len() == 0 {
        assert(nodes_tracks(repacked_nodes(ns, off)) =~= repacked_tracks(nodes_tracks(ns), off));
    } else {
        lemma_nodes_tracks_repacked(ns.drop_first(), off + tracks_total(ns[0].tracks));
        let rp = repacked_nodes(ns, off);
        assert(rp[0].tracks == repacked_tracks(ns[0].tracks, off));
        assert(rp.drop_first() =~= repacked_nodes(ns.drop_first(), off + tracks_total(ns[0].tracks)));
        lemma_repacked_tracks_concat(ns[0].tracks, nodes_tracks(ns.drop_first()), off);
        assert(nodes_tracks(ns) == ns[0].tracks + nodes_tracks(ns.drop_first()));
        assert(nodes_tracks(rp) =~= repacked_tracks(nodes_tracks(ns), off));
    }
}

/// Equal lengths and sizes give equal running totals.
pub proof fn lemma_tracks_total_pointwise(a: Seq<TrackView>, b: Seq<TrackView>)
    requires
        a.len() == b.len(),
        forall|i: int| 0 <= i < a.len() ==> (#[trigger] a[i]).data_size == b[i].data_size,
    ensures
        tracks_total(a) == tracks_total(b),
    decreases a.len(),
{
    if a.len() > 0 {
        assert(forall|i: int|
            0 <= i < a.drop_first().len() ==> (#[trigger] a.drop_first()[i]).data_size
                == b.drop_first()[i].data_size);
        lemma_tracks_total_pointwise(a.drop_first(), b.drop_first());
    }
}

/// `find_group` over a concatenation looks left first.
pub proof fn lemma_find_group_concat(a: Seq<GroupView>, b: Seq<GroupView>, k: GroupKind)
    ensures
        find_group(a + b, k) == (if find_group(a, k) is Some {
            find_group(a, k)
        } else {
            find_group(b, k)
        }),
    decreases a.len(),
{
    if a.len() == 0 {
        assert(a + b =~= b);
    } else {
        assert((a + b).drop_first() =~= a.drop_first() + b);
        assert((a + b)[0] == a[0]);
        lemma_find_group_concat(a.drop_first(), b, k);
    }
}

/// Every record of `added_nodes` is one of the candidate nodes, and one
/// whose name the reference lacks.
pub proof fn lemma_added_nodes_elems(ms: Seq<NodeView>, rs: Seq<NodeView>)
    ensures
        forall|k: int|
            0 <= k < added_nodes(ms, rs).len() ==> exists|j: int|
                0 <= j < ms.len() && #[trigger] added_nodes(ms, rs)[k] == ms[j] && !has_node_named(
                    rs,
                    ms[j].name,
                ),
    decreases ms.len(),
{
    if ms.len() > 0 {
        lemma_added_nodes_elems(ms.drop_first(), rs);
        let a = added_nodes(ms, rs);
        let ad = added_nodes(ms.drop_first(), rs);
        assert forall|k: int| 0 <= k < a.len() implies exists|j: int|
            0 <= j < ms.len() && #[trigger] a[k] == ms[j] && !has_node_named(rs, ms[j].name) by {
            if has_node_named(rs, ms[0].name) {
                assert(a[k] == ad[k]);
                let j0 = choose|j0: int|
                    0 <= j0 < ms.drop_first().len() && ad[k] == ms.drop_first()[j0]
                        && !has_node_named(rs, ms.drop_first()[j0].name);
                assert(ms.drop_first()[j0] == ms[j0 + 1]);
                assert(a[k] == ms[j0 + 1] && !has_node_named(rs, ms[j0 + 1].name));
            } else {
                if k == 0 {
                    assert(a[0] == ms[0]);
                } else {
                    assert(a[k] == ad[k - 1]);
                    let j0 = choose|j0: int|
                        0 <= j0 < ms.drop_first().len() && ad[k - 1] == ms.drop_first()[j0]
                            && !has_node_named(rs, ms.drop_first()[j0].name);
                    assert(ms.drop_first()[j0] == ms[j0 + 1]);
                    assert(a[k] == ms[j0 + 1] && !has_node_named(rs, ms[j0 + 1].name));
                }
            }
        }
    }
}

/// When the candidate nodes bear pairwise distinct names, so do the added
/// nodes.
pub proof fn lemma_added_nodes_distinct(ms: Seq<NodeView>, rs: Seq<NodeView>)
    requires
        forall|i: int, j: int| 0 <= i < j < ms.len() ==> ms[i].name != ms[j].name,
    ensures
        forall|k1: int, k2: int|
            0 <= k1 < k2 < added_nodes(ms, rs).len() ==> added_nodes(ms, rs)[k1].name
                != added_nodes(ms, rs)[k2].name,
    decreases ms.len(),
{
    if ms.len() > 0 {
        assert(forall|i: int, j: int|
            0 <= i < j < ms.drop_first().len() ==> ms.drop_first()[i].name
                != ms.drop_first()[j].name);
        lemma_added_nodes_distinct(ms.drop_first(), rs);
        lemma_added_nodes_elems(ms.drop_first(), rs);
        let a = added_nodes(ms, rs);
        let ad = added_nodes(ms.drop_first(), rs);
        assert forall|k1: int, k2: int| 0 <= k1 < k2 < a.len() implies a[k1].name != a[k2].name by {
            if has_node_named(rs, ms[0].name) {
                assert(a[k1] == ad[k1] && a[k2] == ad[k2]);
            } else {
                if k1 == 0 {
                    assert(a[k2] == ad[k2 - 1]);
                    let j0 = choose|j0: int|
                        0 <= j0 < ms.drop_first().len() && ad[k2 - 1] == ms.drop_first()[j0]
                            && !has_node_named(rs, ms.drop_first()[j0].name);
                    assert(ms.drop_first()[j0] == ms[j0 + 1]);
                    assert(ms[0].name != ms[j0 + 1].name);
                } else {
                    assert(a[k1] == ad[k1 - 1] && a[k2] == ad[k2 - 1]);
                }
            }
        }
    }
}

/// When every candidate name already occurs in the reference, nothing is
/// added.
pub proof fn lemma_added_nodes_all_present(ms: Seq<NodeView>, rs: Seq<NodeView>)
    requires
        forall|i: int| 0 <= i < ms.len() ==> has_node_named(rs, (#[trigger] ms[i]).name),
    ensures
        added_nodes(ms, rs) == Seq::<NodeView>::empty(),
    decreases ms.len(),
{
    if ms.len() > 0 {
        assert(forall|i: int|
            0 <= i < ms.drop_first().len() ==> has_node_named(
                rs,
                (#[trigger] ms.drop_first()[i]).name,
            ));
        lemma_added_nodes_all_present(ms.drop_first(), rs);
        assert(has_node_named(rs, ms[0].name));
    }
}

/// A candidate node whose name the reference lacks occurs among the added
/// nodes.
pub proof fn lemma_added_nodes_contains(ms: Seq<NodeView>, rs: Seq<NodeView>, j: int)
    requires
        0 <= j < ms.len(),
        !has_node_named(rs, ms[j].name),
    ensures
        exists|k: int|
            0 <= k < added_nodes(ms, rs).len() && #[trigger] added_nodes(ms, rs)[k] == ms[j],
{
    crate::splice::lemma_added_nodes_split(ms, rs, j);
    assert(ms.skip(j)[0] == ms[j]);
    assert(ms.skip(j).drop_first() =~= ms.skip(j + 1));
    let pre = added_nodes(ms.take(j), rs);
    assert(added_nodes(ms.skip(j), rs) == seq![ms[j]] + added_nodes(ms.skip(j + 1), rs));
    assert(added_nodes(ms, rs)[pre.len() as int] == ms[j]);
}

/// The shape of a successful splice's output: which group sits where in
/// the output, and which slice of the output buffer holds which part's
/// payload.
#[verifier::rlimit(80)]
pub proof fn lemma_output_layout(r: ContainerView, m: ContainerView)
    requires
        splice_spec(r, m) is Ok,
    ensures
        splice_spec(r, m)->Ok_0 == spec_splice(r, m),
        sources_wf(r, m),
        0 <= entries_total(splice_entries(r, m)),
        output_size(r, m) <= u32::MAX,
        spec_splice(r, m).buffer.len() == output_size(r, m),
        spec_splice(r, m).buffer.subrange(0, entries_total(splice_entries(r, m)))
            == entries_payload(splice_entries(r, m)),
        find_group(spec_splice(r, m).groups, GroupKind::Transform) == (if splice_entries(
            r,
            m,
        ).len() == 0 {
            None
        } else {
            Some(GroupView {
                kind: GroupKind::Transform,
                nodes: packed_transform_nodes(splice_entries(r, m), 0),
            })
        }),
        (match chosen_group(r, m, GroupKind::Visibility) {
            Some((g, b)) => {
                &&& 0 <= nodes_total(g.nodes)
                &&& crate::model::group_in_bounds(g, b)
                &&& spec_splice(r, m).buffer.subrange(
                    entries_total(splice_entries(r, m)),
                    entries_total(splice_entries(r, m)) + nodes_total(g.nodes),
                ) == nodes_payload(g.nodes, b)
                &&& find_group(spec_splice(r, m).groups, GroupKind::Visibility) == Some(
                    GroupView {
                        kind: GroupKind::Visibility,
                        nodes: repacked_nodes(g.nodes, entries_total(splice_entries(r, m))),
                    },
                )
            },
            None => find_group(spec_splice(r, m).groups, GroupKind::Visibility) is None,
        }),
        (match chosen_group(r, m, GroupKind::Material) {
            Some((g, b)) => {
                let vt = match chosen_group(r, m, GroupKind::Visibility) {
                    Some((gv, _)) => nodes_total(gv.nodes),
                    None => 0,
                };
                &&& 0 <= nodes_total(g.nodes)
                &&& 0 <= vt
                &&& crate::model::group_in_bounds(g, b)
                &&& spec_splice(r, m).buffer.subrange(
                    entries_total(splice_entries(r, m)) + vt,
                    entries_total(splice_entries(r, m)) + vt + nodes_total(g.nodes),
                ) == nodes_payload(g.nodes, b)
                &&& find_group(spec_splice(r, m).groups, GroupKind::Material) == Some(
                    GroupView {
                        kind: GroupKind::Material,
                        nodes: repacked_nodes(
                            g.nodes,
                            entries_total(splice_entries(r, m)) + vt,
                        ),
                    },
                )
            },
            None => find_group(spec_splice(r, m).groups, GroupKind::Material) is None,
        }),
{
    let es = splice_entries(r, m);
    let out = spec_splice(r, m);
    lemma_entries_shape(r, m);
    lemma_entries_total_nonneg(es);
    lemma_entries_payload_len(es);
    let te = entries_total(es);
    let vpart = match chosen_group(r, m, GroupKind::Visibility) {
        Some((g, b)) => nodes_payload(g.nodes, b),
        None => Seq::<u8>::empty(),
    };
    let mpart = match chosen_group(r, m, GroupKind::Material) {
        Some((g, b)) => nodes_payload(g.nodes, b),
        None => Seq::<u8>::empty(),
    };
    let vt = match chosen_group(r, m, GroupKind::Visibility) {
        Some((g, _)) => nodes_total(g.nodes),
        None => 0,
    };
    let mt = match chosen_group(r, m, GroupKind::Material) {
        Some((g, _)) => nodes_total(g.nodes),
        None => 0,
    };
    match chosen_group(r, m, GroupKind::Visibility) {
        Some((g, b)) => {
            lemma_nodes_total_nonneg(g.nodes);
            lemma_nodes_payload_len(g.nodes, b);
        },
        None => (),
    }
    match chosen_group(r, m, GroupKind::Material) {
        Some((g, b)) => {
            lemma_nodes_total_nonneg(g.nodes);
            lemma_nodes_payload_len(g.nodes, b);
        },
        None => (),
    }
    assert(out.buffer == entries_payload(es) + vpart + mpart);
    assert(vpart.len() == vt);
    assert(mpart.len() == mt);
    assert(out.buffer.len() == te + vt + mt);
    assert(out.buffer.subrange(0, te) =~= entries_payload(es));
    assert(out.buffer.subrange(te, te + vt) =~= vpart);
    assert(out.buffer.subrange(te + vt, te + vt + mt) =~= mpart);

    // The placement of the three group parts.
    let t_part: Seq<GroupView> = if es.len() == 0 {
        Seq::empty()
    } else {
        seq![GroupView { kind: GroupKind::Transform, nodes: packed_transform_nodes(es, 0) }]
    };
    let v_part: Seq<GroupView> = match chosen_group(r, m, GroupKind::Visibility) {
        Some((g, _)) => seq![
            GroupView { kind: GroupKind::Visibility, nodes: repacked_nodes(g.nodes, te) },
        ],
        None => Seq::empty(),
    };
    let m_part: Seq<GroupView> = match chosen_group(r, m, GroupKind::Material) {
        Some((g, _)) => seq![
            GroupView { kind: GroupKind::Material, nodes: repacked_nodes(g.nodes, te + vt) },
        ],
        None => Seq::empty(),
    };
    assert(out.groups == t_part + v_part + m_part);
    assert(out.groups =~= t_part + (v_part + m_part));
    lemma_find_group_concat(t_part, v_part + m_part, GroupKind::Transform);
    lemma_find_group_concat(v_part, m_part, GroupKind::Transform);
    lemma_find_group_concat(t_part, v_part + m_part, GroupKind::Visibility);
    lemma_find_group_concat(v_part, m_part, GroupKind::Visibility);
    lemma_find_group_concat(t_part, v_part + m_part, GroupKind::Material);
    lemma_find_group_concat(v_part, m_part, GroupKind::Material);
    if t_part.len() > 0 {
        assert(t_part.drop_first() =~= Seq::<GroupView>::empty());
        assert(find_group(t_part.drop_first(), GroupKind::Visibility) is None);
        assert(find_group(t_part.drop_first(), GroupKind::Material) is None);
        assert(find_group(t_part, GroupKind::Transform) == Some(t_part[0]));
        assert(find_group(t_part, GroupKind::Visibility) is None);
        assert(find_group(t_part, GroupKind::Material) is None);
    } else {
        assert(t_part =~= Seq::<GroupView>::empty());
        assert(find_group(t_part, GroupKind::Transform) is None);
        assert(find_group(t_part, GroupKind::Visibility) is None);
        assert(find_group(t_part, GroupKind::Material) is None);
    }
    if v_part.len() > 0 {
        assert(v_part.drop_first() =~= Seq::<GroupView>::empty());
        assert(find_group(v_part.drop_first(), GroupKind::Transform) is None);
        assert(find_group(v_part.drop_first(), GroupKind::Material) is None);
        assert(find_group(v_part, GroupKind::Visibility) == Some(v_part[0]));
        assert(find_group(v_part, GroupKind::Transform) is None);
        assert(find_group(v_part, GroupKind::Material) is None);
    } else {
        assert(v_part =~= Seq::<GroupView>::empty());
        assert(find_group(v_part, GroupKind::Transform) is None);
        assert(find_group(v_part, GroupKind::Visibility) is None);
        assert(find_group(v_part, GroupKind::Material) is None);
    }
    if m_part.len() > 0 {
        assert(m_part.drop_first() =~= Seq::<GroupView>::empty());
        assert(find_group(m_part.drop_first(), GroupKind::Transform) is None);
        assert(find_group(m_part.drop_first(), GroupKind::Visibility) is None);
        assert(find_group(m_part, GroupKind::Material) == Some(m_part[0]));
        assert(find_group(m_part, GroupKind::Transform) is None);
        assert(find_group(m_part, GroupKind::Visibility) is None);
    } else {
        assert(m_part =~= Seq::<GroupView>::empty());
        assert(find_group(m_part, GroupKind::Transform) is None);
        assert(find_group(m_part, GroupKind::Visibility) is None);
        assert(find_group(m_part, GroupKind::Material) is None);
    }
    match chosen_group(r, m, GroupKind::Visibility) {
        Some((g, b)) => {
            assert(0 <= nodes_total(g.nodes));
            assert(crate::model::group_in_bounds(g, b));
            assert(out.buffer.subrange(te, te + nodes_total(g.nodes)) == nodes_payload(g.nodes, b));
            assert(find_group(out.groups, GroupKind::Visibility) == Some(
                GroupView { kind: GroupKind::Visibility, nodes: repacked_nodes(g.nodes, te) },
            ));
        },
        None => {
            assert(find_group(out.groups, GroupKind::Visibility) is None);
        },
    }
    match chosen_group(r, m, GroupKind::Material) {
        Some((g, b)) => {
            assert(0 <= nodes_total(g.nodes));
            assert(0 <= vt);
            assert(crate::model::group_in_bounds(g, b));
            assert(out.buffer.subrange(te + vt, te + vt + nodes_total(g.nodes)) == nodes_payload(
                g.nodes,
                b,
            ));
            assert(find_group(out.groups, GroupKind::Material) == Some(
                GroupView { kind: GroupKind::Material, nodes: repacked_nodes(g.nodes, te + vt) },
            ));
        },
        None => {
            assert(find_group(out.groups, GroupKind::Material) is None);
        },
    }
}

/// Reference transform nodes survive a splice: node `i` of the output
/// transform group bears reference bone `i`'s name and its track addresses,
/// in the output buffer, exactly the bytes the reference track addressed in
/// the reference buffer.
pub proof fn lemma_bone_preservation(r: ContainerView, m: ContainerView)
    requires
        splice_spec(r, m) is Ok,
    ensures
        ({
            let out = splice_spec(r, m)->Ok_0;
            let rt = transform_nodes(r);
            rt.len() > 0 ==> {
                &&& find_group(out.groups, GroupKind::Transform) is Some
                &&& {
                    let og = find_group(out.groups, GroupKind::Transform)->Some_0;
                    &&& og.nodes.len() >= rt.len()
                    &&& forall|i: int|
                        0 <= i < rt.len() ==> {
                            &&& (#[trigger] og.nodes[i]).name == rt[i].name
                            &&& og.nodes[i].tracks.len() == 1
                            &&& same_track_meta(og.nodes[i].tracks[0], rt[i].tracks[0])
                            &&& payload_of(og.nodes[i].tracks[0], out.buffer) == payload_of(
                                rt[i].tracks[0],
                                r.buffer,
                            )
                        }
                }
            }
        }),
{
    let out = spec_splice(r, m);
    let rt = transform_nodes(r);
    let es = splice_entries(r, m);
    lemma_output_layout(r, m);
    lemma_entries_shape(r, m);
    if rt.len() > 0 {
        lemma_packed_entries_content(es, out.buffer);
        let og = find_group(out.groups, GroupKind::Transform)->Some_0;
        assert(og.nodes == packed_transform_nodes(es, 0));
        assert forall|i: int| 0 <= i < rt.len() implies {
            &&& (#[trigger] og.nodes[i]).name == rt[i].name
            &&& og.nodes[i].tracks.len() == 1
            &&& same_track_meta(og.nodes[i].tracks[0], rt[i].tracks[0])
            &&& payload_of(og.nodes[i].tracks[0], out.buffer) == payload_of(
                rt[i].tracks[0],
                r.buffer,
            )
        } by {
            assert(es[i] == entry_of(rt[i], r.buffer));
            assert(transform_node_wf(rt[i], r.buffer));
            assert(es[i].buffer == payload_of(rt[i].tracks[0], r.buffer));
        }
    }
}

/// A modified transform node whose name the reference lacks appears in the
/// output transform group exactly once, carrying the modified container's
/// payload bytes for that bone.
pub proof fn lemma_new_bone_inclusion(r: ContainerView, m: ContainerView)
    requires
        splice_spec(r, m) is Ok,
        forall|i: int, j: int|
            0 <= i < j < transform_nodes(m).len() ==> transform_nodes(m)[i].name
                != transform_nodes(m)[j].name,
    ensures
        ({
            let out = splice_spec(r, m)->Ok_0;
            let rt = transform_nodes(r);
            let mt = transform_nodes(m);
            forall|j: int|
                0 <= j < mt.len() && !has_node_named(rt, (#[trigger] mt[j]).name) ==> {
                    &&& find_group(out.groups, GroupKind::Transform) is Some
                    &&& {
                        let og = find_group(out.groups, GroupKind::Transform)->Some_0;
                        &&& exists|k: int|
                            0 <= k < og.nodes.len() && (#[trigger] og.nodes[k]).name == mt[j].name
                                && og.nodes[k].tracks.len() == 1 && same_track_meta(
                                og.nodes[k].tracks[0],
                                mt[j].tracks[0],
                            ) && payload_of(og.nodes[k].tracks[0], out.buffer) == payload_of(
                                mt[j].tracks[0],
                                m.buffer,
                            )
                        &&& forall|k1: int, k2: int|
                            0 <= k1 < og.nodes.len() && 0 <= k2 < og.nodes.len()
                                && (#[trigger] og.nodes[k1]).name == mt[j].name
                                && (#[trigger] og.nodes[k2]).name == mt[j].name ==> k1 == k2
                    }
                }
        }),
{
    let out = spec_splice(r, m);
    let rt = transform_nodes(r);
    let mt = transform_nodes(m);
    let a = added_nodes(mt, rt);
    let es = splice_entries(r, m);
    lemma_output_layout(r, m);
    lemma_entries_shape(r, m);
    lemma_packed_entries_content(es, out.buffer);
    lemma_added_nodes_elems(mt, rt);
    lemma_added_nodes_distinct(mt, rt);
    assert forall|j: int| 0 <= j < mt.len() && !has_node_named(rt, (#[trigger] mt[j]).name) implies {
        &&& find_group(out.groups, GroupKind::Transform) is Some
        &&& {
            let og = find_group(out.groups, GroupKind::Transform)->Some_0;
            &&& exists|k: int|
                0 <= k < og.nodes.len() && (#[trigger] og.nodes[k]).name == mt[j].name
                    && og.nodes[k].tracks.len() == 1 && same_track_meta(
                    og.nodes[k].tracks[0],
                    mt[j].tracks[0],
                ) && payload_of(og.nodes[k].tracks[0], out.buffer) == payload_of(
                    mt[j].tracks[0],
                    m.buffer,
                )
            &&& forall|k1: int, k2: int|
                0 <= k1 < og.nodes.len() && 0 <= k2 < og.nodes.len()
                    && (#[trigger] og.nodes[k1]).name == mt[j].name
                    && (#[trigger] og.nodes[k2]).name == mt[j].name ==> k1 == k2
        }
    } by {
        lemma_added_nodes_contains(mt, rt, j);
        let ka = choose|ka: int| 0 <= ka < a.len() && #[trigger] a[ka] == mt[j];
        let k = rt.len() + ka;
        assert(es[k] == entry_of(a[ka], m.buffer));
        assert(transform_node_wf(a[ka], m.buffer));
        assert(es.len() > 0);
        let og = find_group(out.groups, GroupKind::Transform)->Some_0;
        assert(og.nodes == packed_transform_nodes(es, 0));
        assert(og.nodes[k].name == mt[j].name);
        assert(og.nodes[k].tracks.len() == 1);
        assert(same_track_meta(og.nodes[k].tracks[0], mt[j].tracks[0]));
        assert(payload_of(og.nodes[k].tracks[0], out.buffer) == es[k].buffer);
        assert(es[k].buffer == payload_of(mt[j].tracks[0], m.buffer));
        assert forall|k1: int, k2: int|
            0 <= k1 < og.nodes.len() && 0 <= k2 < og.nodes.len()
                && (#[trigger] og.nodes[k1]).name == mt[j].name
                && (#[trigger] og.nodes[k2]).name == mt[j].name implies k1 == k2 by {
            if k1 < rt.len() {
                assert(es[k1] == entry_of(rt[k1], r.buffer));
                assert(og.nodes[k1].name == rt[k1].name);
                assert(has_node_named(rt, mt[j].name));
                assert(false);
            }
            if k2 < rt.len() {
                assert(es[k2] == entry_of(rt[k2], r.buffer));
                assert(og.nodes[k2].name == rt[k2].name);
                assert(has_node_named(rt, mt[j].name));
                assert(false);
            }
            assert(og.nodes[k1].name == a[k1 - rt.len()].name);
            assert(og.nodes[k2].name == a[k2 - rt.len()].name);
            if k1 != k2 {
                if k1 < k2 {
                    assert(a[k1 - rt.len()].name != a[k2 - rt.len()].name);
                } else {
                    assert(a[k2 - rt.len()].name != a[k1 - rt.len()].name);
                }
                assert(false);
            }
        }
    }
}

/// The modified-preferred fallback for visibility and material groups: the
/// output carries the modified container's group of that kind when it has
/// one, else the reference's, else none — in content, byte-for-byte.
pub proof fn lemma_fallback_correctness(r: ContainerView, m: ContainerView, k: GroupKind)
    requires
        splice_spec(r, m) is Ok,
        k == GroupKind::Visibility || k == GroupKind::Material,
    ensures
        ({
            let out = splice_spec(r, m)->Ok_0;
            match find_group(m.groups, k) {
                Some(g) => find_group(out.groups, k) is Some && same_group_content(
                    find_group(out.groups, k)->Some_0,
                    out.buffer,
                    g,
                    m.buffer,
                ),
                None => match find_group(r.groups, k) {
                    Some(g) => find_group(out.groups, k) is Some && same_group_content(
                        find_group(out.groups, k)->Some_0,
                        out.buffer,
                        g,
                        r.buffer,
                    ),
                    None => find_group(out.groups, k) is None,
                },
            }
        }),
{
    let out = spec_splice(r, m);
    let es = splice_entries(r, m);
    let te = entries_total(es);
    lemma_output_layout(r, m);
    match chosen_group(r, m, k) {
        Some((g, b)) => {
            let base: int = if k == GroupKind::Visibility {
                te
            } else {
                te + (match chosen_group(r, m, GroupKind::Visibility) {
                    Some((gv, _)) => nodes_total(gv.nodes),
                    None => 0,
                })
            };
            let og = find_group(out.groups, k)->Some_0;
            assert(og.nodes == repacked_nodes(g.nodes, base));
            crate::splice::lemma_with_fallback_kind(m.groups, m.buffer, r.groups, r.buffer, k);
            assert(g.kind == k);
            lemma_repacked_nodes_content(g.nodes, b, out.buffer, base);
            lemma_repacked_nodes_len(g.nodes, base);
            assert(same_group_content(og, out.buffer, g, b));
        },
        None => (),
    }
}

/// Splicing a container with itself keeps every group's content: the
/// transform group's nodes (each carrying its single track), and the
/// visibility and material groups, are content-equal to the input's, with
/// only the byte offsets recomputed.
pub proof fn lemma_splice_idempotent(c: ContainerView)
    requires
        splice_spec(c, c) is Ok,
        forall|i: int|
            0 <= i < transform_nodes(c).len() ==> (#[trigger] transform_nodes(c)[i]).tracks.len()
                == 1,
    ensures
        ({
            let out = splice_spec(c, c)->Ok_0;
            &&& match find_group(c.groups, GroupKind::Transform) {
                Some(g) => {
                    &&& g.nodes.len() > 0 ==> find_group(out.groups, GroupKind::Transform) is Some
                        && same_group_content(
                        find_group(out.groups, GroupKind::Transform)->Some_0,
                        out.buffer,
                        g,
                        c.buffer,
                    )
                    &&& g.nodes.len() == 0 ==> find_group(out.groups, GroupKind::Transform) is None
                },
                None => find_group(out.groups, GroupKind::Transform) is None,
            }
            &&& match find_group(c.groups, GroupKind::Visibility) {
                Some(g) => find_group(out.groups, GroupKind::Visibility) is Some
                    && same_group_content(
                    find_group(out.groups, GroupKind::Visibility)->Some_0,
                    out.buffer,
                    g,
                    c.buffer,
                ),
                None => find_group(out.groups, GroupKind::Visibility) is None,
            }
            &&& match find_group(c.groups, GroupKind::Material) {
                Some(g) => find_group(out.groups, GroupKind::Material) is Some
                    && same_group_content(
                    find_group(out.groups, GroupKind::Material)->Some_0,
                    out.buffer,
                    g,
                    c.buffer,
                ),
                None => find_group(out.groups, GroupKind::Material) is None,
            }
        }),
{
    let out = spec_splice(c, c);
    let ct = transform_nodes(c);
    let es = splice_entries(c, c);
    lemma_output_layout(c, c);
    lemma_entries_shape(c, c);
    assert forall|i: int| 0 <= i < ct.len() implies has_node_named(ct, (#[trigger] ct[i]).name) by {
        assert(0 <= i < ct.len() && ct[i].name == ct[i].name);
    }
    lemma_added_nodes_all_present(ct, ct);
    assert(es.len() == ct.len());
    lemma_fallback_correctness(c, c, GroupKind::Visibility);
    lemma_fallback_correctness(c, c, GroupKind::Material);
    match find_group(c.groups, GroupKind::Transform) {
        Some(g) => {
            assert(g.nodes == ct);
            crate::splice::lemma_find_group_kind(c.groups, GroupKind::Transform);
            if g.nodes.len() > 0 {
                lemma_packed_entries_content(es, out.buffer);
                let og = find_group(out.groups, GroupKind::Transform)->Some_0;
                assert(og.nodes == packed_transform_nodes(es, 0));
                assert forall|i: int| 0 <= i < ct.len() implies same_node_content(
                    #[trigger] og.nodes[i],
                    out.buffer,
                    ct[i],
                    c.buffer,
                ) by {
                    assert(es[i] == entry_of(ct[i], c.buffer));
                    assert(transform_node_wf(ct[i], c.buffer));
                    assert(es[i].buffer == payload_of(ct[i].tracks[0], c.buffer));
                    assert(og.nodes[i].tracks.len() == 1);
                    assert(ct[i].tracks.len() == 1);
                    assert(same_track_content(og.nodes[i].tracks[0], out.buffer, ct[i].tracks[0],
                        c.buffer));
                    assert forall|j: int| 0 <= j < og.nodes[i].tracks.len() implies
                        same_track_content(
                        #[trigger] og.nodes[i].tracks[j],
                        out.buffer,
                        ct[i].tracks[j],
                        c.buffer,
                    ) by {
                        assert(j == 0);
                    }
                }
                assert(same_group_content(og, out.buffer, g, c.buffer));
            }
        },
        None => {
            assert(ct =~= Seq::<NodeView>::empty());
            assert(es.len() == 0);
        },
    }
}

/// The offset packing invariant: in a splice's output, every track's
/// offset is the total size of all tracks emitted before it, and the
/// buffer holds exactly the sum of all track sizes.
#[verifier::rlimit(80)]
pub proof fn lemma_offset_packing(r: ContainerView, m: ContainerView)
    requires
        splice_spec(r, m) is Ok,
    ensures
        ({
            let out = splice_spec(r, m)->Ok_0;
            let ts = container_tracks(out);
            &&& out.buffer.len() == tracks_total(ts)
            &&& forall|i: int|
                0 <= i < ts.len() ==> (#[trigger] ts[i]).data_offset == tracks_total(ts.take(i))
            &&& forall|i: int|
                0 <= i < ts.len() ==> track_in_bounds(#[trigger] ts[i], out.buffer)
        }),
{
    let out = spec_splice(r, m);
    let es = splice_entries(r, m);
    let te = entries_total(es);
    lemma_output_layout(r, m);
    let vns: Seq<NodeView> = match chosen_group(r, m, GroupKind::Visibility) {
        Some((g, _)) => g.nodes,
        None => Seq::empty(),
    };
    let mns: Seq<NodeView> = match chosen_group(r, m, GroupKind::Material) {
        Some((g, _)) => g.nodes,
        None => Seq::empty(),
    };
    let vt = nodes_total(vns);
    let mt = nodes_total(mns);
    match chosen_group(r, m, GroupKind::Visibility) {
        Some(_) => (),
        None => assert(nodes_total(vns) == 0),
    }
    match chosen_group(r, m, GroupKind::Material) {
        Some(_) => (),
        None => assert(nodes_total(mns) == 0),
    }
    let t_part: Seq<GroupView> = if es.len() == 0 {
        Seq::empty()
    } else {
        seq![GroupView { kind: GroupKind::Transform, nodes: packed_transform_nodes(es, 0) }]
    };
    let v_part: Seq<GroupView> = match chosen_group(r, m, GroupKind::Visibility) {
        Some((g, _)) => seq![
            GroupView { kind: GroupKind::Visibility, nodes: repacked_nodes(g.nodes, te) },
        ],
        None => Seq::empty(),
    };
    let m_part: Seq<GroupView> = match chosen_group(r, m, GroupKind::Material) {
        Some((g, _)) => seq![
            GroupView { kind: GroupKind::Material, nodes: repacked_nodes(g.nodes, te + vt) },
        ],
        None => Seq::empty(),
    };
    assert(out.groups == t_part + v_part + m_part);
    assert(out.groups =~= t_part + (v_part + m_part));
    lemma_groups_tracks_concat(t_part, v_part + m_part);
    lemma_groups_tracks_concat(v_part, m_part);

    // Flatten each part to repacked track sequences.
    lemma_nodes_tracks_packed(es, 0);
    assert(groups_tracks(t_part) == repacked_tracks(entry_tracks(es), 0)) by {
        if es.len() == 0 {
            assert(entry_tracks(es) =~= Seq::<TrackView>::empty());
            assert(repacked_tracks(entry_tracks(es), 0) =~= Seq::<TrackView>::empty());
            assert(t_part =~= Seq::<GroupView>::empty());
            assert(groups_tracks(t_part) =~= Seq::<TrackView>::empty());
        } else {
            assert(t_part.drop_first() =~= Seq::<GroupView>::empty());
            assert(groups_tracks(t_part.drop_first()) =~= Seq::<TrackView>::empty());
            assert(groups_tracks(t_part) =~= nodes_tracks(packed_transform_nodes(es, 0)));
        }
    }
    lemma_nodes_tracks_repacked(vns, te);
    assert(groups_tracks(v_part) == repacked_tracks(nodes_tracks(vns), te)) by {
        match chosen_group(r, m, GroupKind::Visibility) {
            Some(_) => {
                assert(v_part.drop_first() =~= Seq::<GroupView>::empty());
                assert(groups_tracks(v_part.drop_first()) =~= Seq::<TrackView>::empty());
                assert(groups_tracks(v_part) =~= nodes_tracks(repacked_nodes(vns, te)));
            },
            None => {
                assert(vns =~= Seq::<NodeView>::empty());
                assert(nodes_tracks(vns) =~= Seq::<TrackView>::empty());
                assert(repacked_tracks(nodes_tracks(vns), te) =~= Seq::<TrackView>::empty());
                assert(v_part =~= Seq::<GroupView>::empty());
                assert(groups_tracks(v_part) =~= Seq::<TrackView>::empty());
            },
        }
    }
    lemma_nodes_tracks_repacked(mns, te + vt);
    assert(groups_tracks(m_part) == repacked_tracks(nodes_tracks(mns), te + vt)) by {
        match chosen_group(r, m, GroupKind::Material) {
            Some(_) => {
                assert(m_part.drop_first() =~= Seq::<GroupView>::empty());
                assert(groups_tracks(m_part.drop_first()) =~= Seq::<TrackView>::empty());
                assert(groups_tracks(m_part) =~= nodes_tracks(repacked_nodes(mns, te + vt)));
            },
            None => {
                assert(mns =~= Seq::<NodeView>::empty());
                assert(nodes_tracks(mns) =~= Seq::<TrackView>::empty());
                assert(repacked_tracks(nodes_tracks(mns), te + vt) =~= Seq::<TrackView>::empty());
                assert(m_part =~= Seq::<GroupView>::empty());
                assert(groups_tracks(m_part) =~= Seq::<TrackView>::empty());
            },
        }
    }

    // Combine: the output's flattened tracks are one repacked sequence.
    let bt = entry_tracks(es) + nodes_tracks(vns) + nodes_tracks(mns);
    lemma_tracks_total_entry_tracks(es);
    lemma_tracks_total_nodes_tracks(vns);
    lemma_tracks_total_nodes_tracks(mns);
    lemma_tracks_total_concat(entry_tracks(es), nodes_tracks(vns));
    lemma_tracks_total_concat(entry_tracks(es) + nodes_tracks(vns), nodes_tracks(mns));
    lemma_repacked_tracks_concat(entry_tracks(es) + nodes_tracks(vns), nodes_tracks(mns), 0);
    lemma_repacked_tracks_concat(entry_tracks(es), nodes_tracks(vns), 0);
    let ts = container_tracks(out);
    assert(ts == groups_tracks(t_part) + (groups_tracks(v_part) + groups_tracks(m_part)));
    assert(ts == repacked_tracks(entry_tracks(es), 0) + (repacked_tracks(nodes_tracks(vns), te)
        + repacked_tracks(nodes_tracks(mns), te + vt)));
    assert(repacked_tracks(nodes_tracks(vns), te) == repacked_tracks(
        nodes_tracks(vns),
        tracks_total(entry_tracks(es)),
    ));
    assert(repacked_tracks(nodes_tracks(mns), te + vt) == repacked_tracks(
        nodes_tracks(mns),
        tracks_total(entry_tracks(es) + nodes_tracks(vns)),
    ));
    assert(repacked_tracks(bt, 0) == (repacked_tracks(entry_tracks(es), 0) + repacked_tracks(
        nodes_tracks(vns),
        tracks_total(entry_tracks(es)),
    )) + repacked_tracks(nodes_tracks(mns), tracks_total(entry_tracks(es) + nodes_tracks(vns))));
    assert(ts =~= repacked_tracks(bt, 0));
    assert(out.buffer.len() == tracks_total(bt));
    lemma_repacked_tracks_len(bt, 0);

    // Sizes are preserved, so prefix totals agree, and each offset is its
    // prefix total.
    assert forall|i: int| 0 <= i < ts.len() implies (#[trigger] ts[i]).data_size
        == bt[i].data_size by {
        lemma_repacked_tracks_index(bt, 0, i);
    }
    assert(tracks_total(ts) == tracks_total(bt)) by {
        lemma_tracks_total_pointwise(ts, bt);
    }
    assert forall|i: int| 0 <= i < ts.len() implies (#[trigger] ts[i]).data_offset
        == tracks_total(ts.take(i)) && track_in_bounds(ts[i], out.buffer) by {
        lemma_repacked_tracks_index(bt, 0, i);
        lemma_tracks_total_split(bt, i);
        assert(bt.skip(i)[0] == bt[i]);
        assert(bt.skip(i).drop_first() =~= bt.skip(i + 1));
        lemma_tracks_total_nonneg(bt.take(i));
        lemma_tracks_total_nonneg(bt.skip(i + 1));
        assert(forall|x: int|
            0 <= x < i ==> (#[trigger] ts.take(i)[x]).data_size == bt.take(i)[x].data_size);
        lemma_tracks_total_pointwise(ts.take(i), bt.take(i));
        assert(ts[i] == track_at(bt[i], tracks_total(bt.take(i))));
        assert(ts[i].data_offset + ts[i].data_size <= out.buffer.len());
    }
}

} // verus!
