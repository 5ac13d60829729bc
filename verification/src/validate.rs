//! The validation engine: checks a candidate container against a reference
//! and reports whether the candidate is guaranteed to leave the reference's
//! skeletal animation untouched, with enough detail to localize any
//! discrepancy to a bone, track and frame.
//!
//! [`spec_validate`] states the verdict for every pair of inputs; the
//! executable [`validate`] returns exactly that verdict.

use vstd::prelude::*;

use crate::model::{GroupKind, Version};
use crate::values::{
    value_groups_view, value_nodes_view, TrackValues, TransformSample, ValueContainer,
    ValueContainerView, ValueGroup, ValueGroupView, ValueNode, ValueNodeView,
};

verus! {

/// Why a verdict is inconclusive rather than safe.
#[derive(Clone, Copy, PartialEq, Eq, Structural, Debug)]
pub enum WarningReason {
    /// The candidate is of the legacy variant, which this pipeline never
    /// produces; nothing can be concluded from it.
    LegacyCandidate,
    /// The candidate has a transform group while the reference has none;
    /// that cannot be proven unsafe, but deserves review.
    CandidateTransformOnly,
}

/// A concrete, localized discrepancy between candidate and reference.
#[derive(PartialEq, Debug)]
pub enum UnsafeReason {
    /// The reference is of the legacy variant while the candidate is not:
    /// a version mismatch.
    LegacyReference,
    /// The two containers disagree on the final frame index.
    FinalFrameIndexMismatch { reference_bits: u32, candidate_bits: u32 },
    /// The reference has a transform group; the candidate has none.
    MissingTransformGroup,
    /// The candidate's transform group lacks a bone the reference has.
    MissingBone { bone: String },
    /// The candidate's node for this bone has no track at all.
    MissingTransformTrack { bone: String },
    /// The candidate's track for this bone does not carry transform
    /// values.
    MistypedTransformTrack { bone: String },
    /// The two containers disagree on how many frames this bone has.
    FrameCountMismatch { bone: String, reference_frames: usize, candidate_frames: usize },
    /// The first frame at which this bone's values differ, with both
    /// values.
    FrameValueMismatch {
        bone: String,
        frame: usize,
        reference_value: TransformSample,
        candidate_value: TransformSample,
    },
}

/// The verdict of a validation.
#[derive(PartialEq, Debug)]
pub enum SafetyRating {
    Safe,
    Unsafe(UnsafeReason),
    Warning(WarningReason),
}

/// Mathematical image of an [`UnsafeReason`].
#[verifier::ext_equal]
pub enum UnsafeReasonView {
    LegacyReference,
    FinalFrameIndexMismatch { reference_bits: u32, candidate_bits: u32 },
    MissingTransformGroup,
    MissingBone { bone: Seq<char> },
    MissingTransformTrack { bone: Seq<char> },
    MistypedTransformTrack { bone: Seq<char> },
    FrameCountMismatch { bone: Seq<char>, reference_frames: int, candidate_frames: int },
    FrameValueMismatch {
        bone: Seq<char>,
        frame: int,
        reference_value: TransformSample,
        candidate_value: TransformSample,
    },
}

/// Mathematical image of a [`SafetyRating`].
#[verifier::ext_equal]
pub enum RatingView {
    Safe,
    Unsafe(UnsafeReasonView),
    Warning(WarningReason),
}

impl View for UnsafeReason {
    type V = UnsafeReasonView;

    open spec fn view(&self) -> UnsafeReasonView {
        match self {
            UnsafeReason::LegacyReference => UnsafeReasonView::LegacyReference,
            UnsafeReason::FinalFrameIndexMismatch { reference_bits, candidate_bits } => {
                UnsafeReasonView::FinalFrameIndexMismatch {
                    reference_bits: *reference_bits,
                    candidate_bits: *candidate_bits,
                }
            },
            UnsafeReason::MissingTransformGroup => UnsafeReasonView::MissingTransformGroup,
            UnsafeReason::MissingBone { bone } => UnsafeReasonView::MissingBone { bone: bone@ },
            UnsafeReason::MissingTransformTrack { bone } => {
                UnsafeReasonView::MissingTransformTrack { bone: bone@ }
            },
            UnsafeReason::MistypedTransformTrack { bone } => {
                UnsafeReasonView::MistypedTransformTrack { bone: bone@ }
            },
            UnsafeReason::FrameCountMismatch { bone, reference_frames, candidate_frames } => {
                UnsafeReasonView::FrameCountMismatch {
                    bone: bone@,
                    reference_frames: *reference_frames as int,
                    candidate_frames: *candidate_frames as int,
                }
            },
            UnsafeReason::FrameValueMismatch { bone, frame, reference_value, candidate_value } => {
                UnsafeReasonView::FrameValueMismatch {
                    bone: bone@,
                    frame: *frame as int,
                    reference_value: *reference_value,
                    candidate_value: *candidate_value,
                }
            },
        }
    }
}

impl View for SafetyRating {
    type V = RatingView;

    open spec fn view(&self) -> RatingView {
        match self {
            SafetyRating::Safe => RatingView::Safe,
            SafetyRating::Unsafe(reason) => RatingView::Unsafe(reason@),
            SafetyRating::Warning(reason) => RatingView::Warning(*reason),
        }
    }
}

/// First group of the kind, if any.
pub open spec fn find_value_group(gs: Seq<ValueGroupView>, k: GroupKind) -> Option<ValueGroupView>
    decreases gs.len(),
{
    if gs.len() == 0 {
        None
    } else if gs[0].kind == k {
        Some(gs[0])
    } else {
        find_value_group(gs.drop_first(), k)
    }
}

/// First node bearing exactly the name, if any.
pub open spec fn find_node(ns: Seq<ValueNodeView>, name: Seq<char>) -> Option<ValueNodeView>
    decreases ns.len(),
{
    if ns.len() == 0 {
        None
    } else if ns[0].name == name {
        Some(ns[0])
    } else {
        find_node(ns.drop_first(), name)
    }
}

/// Index of the first frame at which the two sample sequences differ, if
/// any index below both lengths does.
pub open spec fn mismatch_index(a: Seq<TransformSample>, b: Seq<TransformSample>) -> Option<int>
    decreases a.len(),
{
    if a.len() == 0 || b.len() == 0 {
        None
    } else if a[0] != b[0] {
        Some(0)
    } else {
        match mismatch_index(a.drop_first(), b.drop_first()) {
            None => None,
            Some(k) => Some(k + 1),
        }
    }
}

/// The verdict for one reference bone.  A reference node without a track,
/// or whose first track does not carry transform values, is a known
/// upstream data defect and is skipped.  A candidate lacking the bone, or
/// carrying no or mistyped values for it, or differing in frame count or
/// in any frame's value, is unsafe.
pub open spec fn check_bone(rn: ValueNodeView, cands: Seq<ValueNodeView>) -> RatingView {
    if rn.tracks.len() == 0 {
        RatingView::Safe
    } else if !(rn.tracks[0] is Transform) {
        RatingView::Safe
    } else {
        let rv = rn.tracks[0]->Transform_0;
        match find_node(cands, rn.name) {
            None => RatingView::Unsafe(UnsafeReasonView::MissingBone { bone: rn.name }),
            Some(cn) => {
                if cn.tracks.len() == 0 {
                    RatingView::Unsafe(UnsafeReasonView::MissingTransformTrack { bone: rn.name })
                } else if !(cn.tracks[0] is Transform) {
                    RatingView::Unsafe(UnsafeReasonView::MistypedTransformTrack { bone: rn.name })
                } else {
                    let cv = cn.tracks[0]->Transform_0;
                    if rv.len() != cv.len() {
                        RatingView::Unsafe(UnsafeReasonView::FrameCountMismatch {
                            bone: rn.name,
                            reference_frames: rv.len() as int,
                            candidate_frames: cv.len() as int,
                        })
                    } else {
                        match mismatch_index(rv, cv) {
                            Some(f) => RatingView::Unsafe(UnsafeReasonView::FrameValueMismatch {
                                bone: rn.name,
                                frame: f,
                                reference_value: rv[f],
                                candidate_value: cv[f],
                            }),
                            None => RatingView::Safe,
                        }
                    }
                }
            },
        }
    }
}

/// The verdict of the per-bone scan: the first non-safe bone verdict in
/// reference order, else safe.
pub open spec fn check_bones(rns: Seq<ValueNodeView>, cands: Seq<ValueNodeView>) -> RatingView
    decreases rns.len(),
{
    if rns.len() == 0 {
        RatingView::Safe
    } else {
        let head = check_bone(rns[0], cands);
        if head is Safe {
            check_bones(rns.drop_first(), cands)
        } else {
            head
        }
    }
}

/// The complete behaviour of [`validate`]: the verdict for every pair of
/// decoded containers, checks short-circuiting in order.
pub open spec fn spec_validate(r: ValueContainerView, c: ValueContainerView) -> RatingView {
    if c.version == Version::V12 {
        RatingView::Warning(WarningReason::LegacyCandidate)
    } else if r.version == Version::V12 {
        RatingView::Unsafe(UnsafeReasonView::LegacyReference)
    } else if r.final_frame_index != c.final_frame_index {
        RatingView::Unsafe(UnsafeReasonView::FinalFrameIndexMismatch {
            reference_bits: r.final_frame_index,
            candidate_bits: c.final_frame_index,
        })
    } else {
        match (find_value_group(r.groups, GroupKind::Transform), find_value_group(
            c.groups,
            GroupKind::Transform,
        )) {
            (Some(rg), Some(cg)) => check_bones(rg.nodes, cg.nodes),
            (Some(_), None) => RatingView::Unsafe(UnsafeReasonView::MissingTransformGroup),
            (None, Some(_)) => RatingView::Warning(WarningReason::CandidateTransformOnly),
            (None, None) => RatingView::Safe,
        }
    }
}

pub proof fn lemma_find_value_group_at(gs: Seq<ValueGroupView>, k: GroupKind, i: int)
    requires
        0 <= i < gs.len(),
        gs[i].kind == k,
        forall|j: int| 0 <= j < i ==> gs[j].kind != k,
    ensures
        find_value_group(gs, k) == Some(gs[i]),
    decreases i,
{
    if i > 0 {
        lemma_find_value_group_at(gs.drop_first(), k, i - 1);
    }
}

pub proof fn lemma_find_value_group_none(gs: Seq<ValueGroupView>, k: GroupKind)
    requires
        forall|j: int| 0 <= j < gs.len() ==> gs[j].kind != k,
    ensures
        find_value_group(gs, k) is None,
    decreases gs.len(),
{
    if gs.len() > 0 {
        lemma_find_value_group_none(gs.drop_first(), k);
    }
}

pub proof fn lemma_find_node_at(ns: Seq<ValueNodeView>, name: Seq<char>, i: int)
    requires
        0 <= i < ns.len(),
        ns[i].name == name,
        forall|j: int| 0 <= j < i ==> ns[j].name != name,
    ensures
        find_node(ns, name) == Some(ns[i]),
    decreases i,
{
    if i > 0 {
        lemma_find_node_at(ns.drop_first(), name, i - 1);
    }
}

pub proof fn lemma_find_node_none(ns: Seq<ValueNodeView>, name: Seq<char>)
    requires
        forall|j: int| 0 <= j < ns.len() ==> ns[j].name != name,
    ensures
        find_node(ns, name) is None,
    decreases ns.len(),
{
    if ns.len() > 0 {
        lemma_find_node_none(ns.drop_first(), name);
    }
}

/// The first differing index really is the mismatch index.
pub proof fn lemma_mismatch_at(a: Seq<TransformSample>, b: Seq<TransformSample>, i: int)
    requires
        0 <= i < a.len(),
        i < b.len(),
        forall|x: int| 0 <= x < i ==> a[x] == b[x],
        a[i] != b[i],
    ensures
        mismatch_index(a, b) == Some(i),
    decreases i,
{
    if i > 0 {
        assert(forall|x: int|
            0 <= x < i - 1 ==> a.drop_first()[x] == b.drop_first()[x]);
        lemma_mismatch_at(a.drop_first(), b.drop_first(), i - 1);
    }
}

/// Sequences that agree everywhere have no mismatch index.
pub proof fn lemma_mismatch_none(a: Seq<TransformSample>, b: Seq<TransformSample>)
    requires
        a.len() == b.len(),
        forall|x: int| 0 <= x < a.len() ==> a[x] == b[x],
    ensures
        mismatch_index(a, b) is None,
    decreases a.len(),
{
    if a.len() > 0 {
        assert(forall|x: int|
            0 <= x < a.drop_first().len() ==> a.drop_first()[x] == b.drop_first()[x]);
        lemma_mismatch_none(a.drop_first(), b.drop_first());
    }
}

/// First group of the kind, as a borrow, mirroring [`find_value_group`].
pub fn get_group_by_type<'a>(groups: &'a Vec<ValueGroup>, group_type: GroupKind) -> (r: Option<
    &'a ValueGroup,
>)
    ensures
        match r {
            Some(g) => find_value_group(value_groups_view(groups@), group_type) == Some(g@),
            None => find_value_group(value_groups_view(groups@), group_type) is None,
        },
{
    let mut i: usize = 0;
    while i < groups.len()
        invariant
            i <= groups.len(),
            forall|j: int| 0 <= j < i ==> value_groups_view(groups@)[j].kind != group_type,
        decreases groups.len() - i,
    {
        if groups[i].kind == group_type {
            proof {
                lemma_find_value_group_at(value_groups_view(groups@), group_type, i as int);
            }
            return Some(&groups[i]);
        }
        i = i + 1;
    }
    proof {
        lemma_find_value_group_none(value_groups_view(groups@), group_type);
    }
    None
}

/// First node of the name, as a borrow, mirroring [`find_node`].
fn find_node_in<'a>(ns: &'a Vec<ValueNode>, name: &String) -> (r: Option<&'a ValueNode>)
    ensures
        match r {
            Some(n) => find_node(value_nodes_view(ns@), name@) == Some(n@),
            None => find_node(value_nodes_view(ns@), name@) is None,
        },
{
    let mut i: usize = 0;
    while i < ns.len()
        invariant
            i <= ns.len(),
            forall|j: int| 0 <= j < i ==> value_nodes_view(ns@)[j].name != name@,
        decreases ns.len() - i,
    {
        if ns[i].name == *name {
            proof {
                lemma_find_node_at(value_nodes_view(ns@), name@, i as int);
            }
            return Some(&ns[i]);
        }
        i = i + 1;
    }
    proof {
        lemma_find_node_none(value_nodes_view(ns@), name@);
    }
    None
}

/// The verdict for one reference bone against the candidate's transform
/// nodes, mirroring [`check_bone`].
fn check_bone_exec(rn: &ValueNode, cands: &Vec<ValueNode>) -> (res: SafetyRating)
    ensures
        res@ == check_bone(rn@, value_nodes_view(cands@)),
{
    if rn.tracks.len() == 0 {
        return SafetyRating::Safe;
    }
    let rvals: &Vec<TransformSample> = match &rn.tracks[0] {
        TrackValues::Transform(v) => v,
        _ => {
            return SafetyRating::Safe;
        },
    };
    proof {
        assert(rn@.tracks[0] == rn.tracks@[0]@);
        assert(rn@.tracks[0] is Transform);
        assert(rvals@ == rn@.tracks[0]->Transform_0);
    }
    let cn: &ValueNode = match find_node_in(cands, &rn.name) {
        Some(n) => n,
        None => {
            return SafetyRating::Unsafe(UnsafeReason::MissingBone { bone: rn.name.clone() });
        },
    };
    if cn.tracks.len() == 0 {
        return SafetyRating::Unsafe(UnsafeReason::MissingTransformTrack { bone: rn.name.clone() });
    }
    let cvals: &Vec<TransformSample> = match &cn.tracks[0] {
        TrackValues::Transform(v) => v,
        _ => {
            return SafetyRating::Unsafe(UnsafeReason::MistypedTransformTrack {
                bone: rn.name.clone(),
            });
        },
    };
    proof {
        assert(cn@.tracks[0] == cn.tracks@[0]@);
        assert(cn@.tracks[0] is Transform);
        assert(cvals@ == cn@.tracks[0]->Transform_0);
    }
    if rvals.len() != cvals.len() {
        return SafetyRating::Unsafe(UnsafeReason::FrameCountMismatch {
            bone: rn.name.clone(),
            reference_frames: rvals.len(),
            candidate_frames: cvals.len(),
        });
    }
    let mut f: usize = 0;
    while f < rvals.len()
        invariant
            f <= rvals.len(),
            rn@.tracks.len() > 0,
            rn@.tracks[0] is Transform,
            rvals@ == rn@.tracks[0]->Transform_0,
            find_node(value_nodes_view(cands@), rn@.name) == Some(cn@),
            cn@.tracks.len() > 0,
            cn@.tracks[0] is Transform,
            cvals@ == cn@.tracks[0]->Transform_0,
            rvals@.len() == cvals@.len(),
            forall|x: int| 0 <= x < f ==> rvals@[x] == cvals@[x],
        decreases rvals.len() - f,
    {
        if rvals[f] != cvals[f] {
            proof {
                lemma_mismatch_at(rvals@, cvals@, f as int);
            }
            return SafetyRating::Unsafe(UnsafeReason::FrameValueMismatch {
                bone: rn.name.clone(),
                frame: f,
                reference_value: rvals[f],
                candidate_value: cvals[f],
            });
        }
        f = f + 1;
    }
    proof {
        lemma_mismatch_none(rvals@, cvals@);
    }
    SafetyRating::Safe
}

/// Checks the candidate against the reference: variant check, final frame
/// index, transform-group presence, then an exact per-bone, per-frame
/// comparison of transform values, short-circuiting on the first finding.
pub fn validate(reference: &ValueContainer, candidate: &ValueContainer) -> (res: SafetyRating)
    ensures
        res@ == spec_validate(reference@, candidate@),
{
    if candidate.version == Version::V12 {
        return SafetyRating::Warning(WarningReason::LegacyCandidate);
    }
    if reference.version == Version::V12 {
        return SafetyRating::Unsafe(UnsafeReason::LegacyReference);
    }
    if reference.final_frame_index != candidate.final_frame_index {
        return SafetyRating::Unsafe(UnsafeReason::FinalFrameIndexMismatch {
            reference_bits: reference.final_frame_index,
            candidate_bits: candidate.final_frame_index,
        });
    }
    let rg = get_group_by_type(&reference.groups, GroupKind::Transform);
    let cg = get_group_by_type(&candidate.groups, GroupKind::Transform);
    match (rg, cg) {
        (Some(rgroup), Some(cgroup)) => {
            let ghost rns = rgroup@.nodes;
            let ghost cands = cgroup@.nodes;
            proof {
                assert(rns.skip(0) =~= rns);
            }
            let mut i: usize = 0;
            while i < rgroup.nodes.len()
                invariant
                    i <= rgroup.nodes.len(),
                    rns == rgroup@.nodes,
                    cands == cgroup@.nodes,
                    candidate@.version != Version::V12,
                    reference@.version != Version::V12,
                    reference@.final_frame_index == candidate@.final_frame_index,
                    find_value_group(reference@.groups, GroupKind::Transform) == Some(rgroup@),
                    find_value_group(candidate@.groups, GroupKind::Transform) == Some(cgroup@),
                    check_bones(rns, cands) == check_bones(rns.skip(i as int), cands),
                decreases rgroup.nodes.len() - i,
            {
                let res = check_bone_exec(&rgroup.nodes[i], &cgroup.nodes);
                proof {
                    assert(rgroup.nodes@[i as int]@ == rns[i as int]);
                    assert(rns.skip(i as int)[0] == rns[i as int]);
                    assert(rns.skip(i as int).drop_first() =~= rns.skip(i as int + 1));
                }
                match res {
                    SafetyRating::Safe => {
                        proof {
                            assert(check_bone(rns[i as int], cands) is Safe);
                        }
                    },
                    _ => {
                        proof {
                            assert(check_bones(rns.skip(i as int), cands) == res@);
                        }
                        return res;
                    },
                }
                i = i + 1;
            }
            proof {
                assert(rns.skip(rgroup.nodes@.len() as int) =~= Seq::<ValueNodeView>::empty());
            }
            SafetyRating::Safe
        },
        (Some(_), None) => SafetyRating::Unsafe(UnsafeReason::MissingTransformGroup),
        (None, Some(_)) => SafetyRating::Warning(WarningReason::CandidateTransformOnly),
        (None, None) => SafetyRating::Safe,
    }
}

/// Aggregate verdict counts of a batch validation run.
#[derive(Clone, Copy, PartialEq, Eq, Structural, Debug)]
pub struct RunTotals {
    pub safe: u64,
    pub unsafe_count: u64,
    pub warning: u64,
    pub skipped: u64,
}

impl RunTotals {
    /// A fresh record with every count at zero.
    pub fn new() -> (r: RunTotals)
        ensures
            r == (RunTotals { safe: 0, unsafe_count: 0, warning: 0, skipped: 0 }),
    {
        RunTotals { safe: 0, unsafe_count: 0, warning: 0, skipped: 0 }
    }

    /// Counts one verdict.
    pub fn record(&mut self, rating: &SafetyRating)
        requires
            old(self).safe < u64::MAX,
            old(self).unsafe_count < u64::MAX,
            old(self).warning < u64::MAX,
        ensures
            *final(self) == (match rating {
                SafetyRating::Safe => RunTotals { safe: (old(self).safe + 1) as u64, ..*old(self) },
                SafetyRating::Unsafe(_) => RunTotals {
                    unsafe_count: (old(self).unsafe_count + 1) as u64,
                    ..*old(self)
                },
                SafetyRating::Warning(_) => RunTotals {
                    warning: (old(self).warning + 1) as u64,
                    ..*old(self)
                },
            }),
    {
        match rating {
            SafetyRating::Safe => {
                self.safe = self.safe + 1;
            },
            SafetyRating::Unsafe(_) => {
                self.unsafe_count = self.unsafe_count + 1;
            },
            SafetyRating::Warning(_) => {
                self.warning = self.warning + 1;
            },
        }
    }

    /// Counts one skipped file.
    pub fn record_skip(&mut self)
        requires
            old(self).skipped < u64::MAX,
        ensures
            *final(self) == (RunTotals { skipped: (old(self).skipped + 1) as u64, ..*old(self) }),
    {
        self.skipped = self.skipped + 1;
    }
}

} // verus!
