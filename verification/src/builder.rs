//! The merge pipeline builder: a pure state machine over the merge variant
//! and the distribution mode that emits the pipe sequence realizing MERGE
//! semantics, tracking the semantic port layout at every boundary.

use vstd::prelude::*;

use crate::pipeline::BuildError;
use crate::pipeline::Pipe;
use crate::pipeline::Pipeline;
use crate::pipeline::PortTag;
use crate::pipeline::StageKind;
use crate::pipeline::groups_view;
use crate::pipeline::ident_indices;
use crate::pipeline::index_range;
use crate::pipeline::is_port_partition;
use crate::pipeline::items_out_tags;
use crate::pipeline::kind_in_tag;
use crate::pipeline::kind_out_tags;
use crate::pipeline::lemma_group_multiset_push;
use crate::pipeline::lemma_index_range_multiset;
use crate::pipeline::lemma_rep_pattern_index;
use crate::pipeline::lemma_rep_pattern_len;
use crate::pipeline::pipe_stage_kinds;
use crate::pipeline::rep_pattern;
use crate::pipeline::rep_tags;

verus! {

broadcast use vstd::multiset::group_multiset_axioms, vstd::seq_lib::group_to_multiset_ensures;

/// Which merge clauses are present. Exactly one pairing of matched and
/// unmatched work is active per variant; `FullOperation` has both.
#[derive(Clone, Copy, PartialEq, Eq, Structural, Debug)]
pub enum MergeVariant {
    /// Both matched and unmatched clauses are present.
    FullOperation,
    /// Only unmatched (insert) clauses are present.
    InsertOnly,
    /// Only matched (update/delete) clauses are present.
    MatchedOnly,
}

/// Whether the merge runs on a single node or across worker nodes.
#[derive(Clone, Copy, PartialEq, Eq, Structural, Debug)]
pub enum DistributionMode {
    Local,
    Distributed,
}

/// The logical merge plan handed down by the planner.
#[derive(Clone, Copy, PartialEq, Eq, Structural, Debug)]
pub struct MergePlan {
    pub variant: MergeVariant,
    pub mode: DistributionMode,
    /// Position of the row-id column in the join output schema.
    pub row_id_idx: usize,
    /// Whether the computed-column schema differs from the default-column
    /// schema; the computed-fill pipe is emitted only when it does.
    pub computed_schema_differs: bool,
}

/// Whether the variant has matched clauses.
pub open spec fn need_match(v: MergeVariant) -> bool {
    v != MergeVariant::InsertOnly
}

/// Whether the variant has unmatched (insert) clauses.
pub open spec fn need_unmatch(v: MergeVariant) -> bool {
    v != MergeVariant::MatchedOnly
}

/// `n` identical stage bindings.
pub open spec fn rep_kinds(k: StageKind, n: nat) -> Seq<StageKind> {
    Seq::new(n, |i: int| k)
}

/// The canonical output layout of the built merge pipeline: one
/// mutation-log port where any log-producing stage exists, plus — in
/// distributed mode with unmatched clauses — one row-number port.
pub open spec fn canonical_layout(variant: MergeVariant, mode: DistributionMode) -> Seq<PortTag> {
    if mode == DistributionMode::Local {
        seq![PortTag::Log]
    } else {
        match variant {
            MergeVariant::FullOperation => seq![PortTag::Log, PortTag::RowNumber],
            MergeVariant::MatchedOnly => seq![PortTag::Log],
            MergeVariant::InsertOnly => seq![PortTag::RowNumber],
        }
    }
}

/// Law: over all six variant and mode combinations, the canonical layout
/// has exactly one port in local mode, carrying mutation logs; in
/// distributed mode it has one or two ports, the last carrying row
/// numbers exactly when unmatched clauses exist, and a leading
/// mutation-log port whenever matched clauses exist.
pub proof fn lemma_canonical_output_ports(variant: MergeVariant, mode: DistributionMode)
    ensures
        mode == DistributionMode::Local ==> canonical_layout(variant, mode) =~= seq![PortTag::Log],
        mode == DistributionMode::Distributed ==> 1 <= canonical_layout(variant, mode).len() <= 2,
        mode == DistributionMode::Distributed && need_unmatch(variant) ==> canonical_layout(
            variant,
            mode,
        ).last() == PortTag::RowNumber,
        mode == DistributionMode::Distributed && !need_unmatch(variant) ==> canonical_layout(
            variant,
            mode,
        ) =~= seq![PortTag::Log],
        mode == DistributionMode::Distributed && need_match(variant) ==> canonical_layout(
            variant,
            mode,
        ).first() == PortTag::Log,
        need_match(variant) && need_unmatch(variant) && mode == DistributionMode::Distributed
            ==> canonical_layout(variant, mode).len() == 2,
{
}

/// The port layout after lanes are regrouped by semantic role: `k` row-id
/// ports, then `k` data ports, then — on the distributed unmatched path —
/// `k` row-number ports.
pub open spec fn row_id_grouped_layout(k: nat, with_row_number: bool) -> Seq<PortTag> {
    if with_row_number {
        rep_tags(PortTag::RowId, k) + rep_tags(PortTag::Data, k) + rep_tags(PortTag::RowNumber, k)
    } else {
        rep_tags(PortTag::RowId, k) + rep_tags(PortTag::Data, k)
    }
}

/// The layout such a regrouping resizes to: one merged row-id port, the
/// data ports unchanged, and one merged row-number port if present.
pub open spec fn row_id_resized_layout(k: nat, with_row_number: bool) -> Seq<PortTag> {
    if with_row_number {
        seq![PortTag::RowId] + rep_tags(PortTag::Data, k) + seq![PortTag::RowNumber]
    } else {
        seq![PortTag::RowId] + rep_tags(PortTag::Data, k)
    }
}

/// Stage kinds that exist only on the unmatched (insert) path.
pub open spec fn unmatched_path_kind(k: StageKind) -> bool {
    match k {
        StageKind::NotMatchedCompute => true,
        StageKind::ProjectRowNumber => true,
        StageKind::RowNumberAndLogSplit => true,
        StageKind::DeduplicateRowNumber => true,
        StageKind::ExtractHashTable => true,
        StageKind::AccumulateRowNumber => true,
        _ => false,
    }
}

/// The pipe binds no stage of the unmatched path.
pub open spec fn pipe_avoids_unmatched_stages(p: Pipe) -> bool {
    forall|q: int|
        0 <= q < pipe_stage_kinds(p).len() ==> !unmatched_path_kind(
            #[trigger] pipe_stage_kinds(p)[q],
        )
}

/// The pipe binds at least one stage of the given kind.
pub open spec fn pipe_has_kind(p: Pipe, k: StageKind) -> bool {
    exists|q: int| 0 <= q < pipe_stage_kinds(p).len() && #[trigger] pipe_stage_kinds(p)[q] == k
}

/// Structural guarantees over the pipes a builder call appended: under
/// `MatchedOnly` no unmatched-path stage exists, and without a computed
/// schema no computed-fill stage exists.
pub open spec fn pipes_added_ok(
    pipes: Seq<Pipe>,
    base: int,
    allow_unmatched: bool,
    allow_fill_computed: bool,
) -> bool {
    forall|q: int|
        base <= q < pipes.len() ==> ((allow_unmatched || pipe_avoids_unmatched_stages(
            #[trigger] pipes[q],
        )) && (allow_fill_computed || !pipe_has_kind(pipes[q], StageKind::FillComputed)))
}

/// The stages bound per input lane by the splitter level.
pub open spec fn split_kind_pattern(variant: MergeVariant, distributed: bool) -> Seq<StageKind> {
    match variant {
        MergeVariant::FullOperation => seq![
            StageKind::MatchedSplit,
            if distributed {
                StageKind::ProjectRowNumber
            } else {
                StageKind::NotMatchedCompute
            },
        ],
        MergeVariant::InsertOnly => seq![
            if distributed {
                StageKind::ProjectRowNumber
            } else {
                StageKind::NotMatchedCompute
            },
        ],
        MergeVariant::MatchedOnly => seq![StageKind::MatchedSplit],
    }
}

/// The port tags each lane carries after the splitter level.
pub open spec fn split_tag_pattern(variant: MergeVariant, distributed: bool) -> Seq<PortTag> {
    match variant {
        MergeVariant::FullOperation => seq![
            PortTag::RowId,
            PortTag::Data,
            if distributed {
                PortTag::RowNumber
            } else {
                PortTag::Data
            },
        ],
        MergeVariant::InsertOnly => seq![
            if distributed {
                PortTag::RowNumber
            } else {
                PortTag::Data
            },
        ],
        MergeVariant::MatchedOnly => seq![PortTag::RowId, PortTag::Data],
    }
}

/// How many input ports the splitter level consumes per lane.
pub open spec fn merge_step(variant: MergeVariant) -> nat {
    if variant == MergeVariant::FullOperation {
        2
    } else {
        1
    }
}

/// A layout of up to three segments: a leading mutation-log port, a block
/// of mutation-log ports, and a trailing row-number port.
pub open spec fn serialized_layout(
    with_mutator: bool,
    blocks: nat,
    with_row_number: bool,
) -> Seq<PortTag> {
    (if with_mutator {
        seq![PortTag::Log]
    } else {
        Seq::empty()
    }) + rep_tags(PortTag::Log, blocks) + (if with_row_number {
        seq![PortTag::RowNumber]
    } else {
        Seq::empty()
    })
}

/// Extending a run of appended pipes by one that satisfies the structural
/// guarantees keeps the whole run satisfying them.
pub proof fn lemma_pipes_added_ok_extend(
    before: Seq<Pipe>,
    after: Seq<Pipe>,
    base: int,
    allow_unmatched: bool,
    allow_fill_computed: bool,
)
    requires
        0 <= base,
        pipes_added_ok(before, base, allow_unmatched, allow_fill_computed),
        after.len() == before.len() + 1,
        forall|q: int| 0 <= q < before.len() ==> #[trigger] after[q] == before[q],
        allow_unmatched || pipe_avoids_unmatched_stages(after.last()),
        allow_fill_computed || !pipe_has_kind(after.last(), StageKind::FillComputed),
    ensures
        pipes_added_ok(after, base, allow_unmatched, allow_fill_computed),
{
    assert forall|q: int|
        base <= q < after.len() implies ((allow_unmatched || pipe_avoids_unmatched_stages(
        #[trigger] after[q],
    )) && (allow_fill_computed || !pipe_has_kind(after[q], StageKind::FillComputed))) by {
        if q < before.len() {
            assert(after[q] == before[q]);
        } else {
            assert(after[q] == after.last());
        }
    }
}

/// The stage bindings of an optional lone slot.
pub open spec fn opt_kind_seq(o: Option<StageKind>) -> Seq<StageKind> {
    match o {
        Some(h) => seq![h],
        None => Seq::empty(),
    }
}

/// The input tags such a slot consumes.
pub open spec fn opt_in_tags(o: Option<StageKind>) -> Seq<PortTag> {
    match o {
        Some(h) => seq![kind_in_tag(h)],
        None => Seq::empty(),
    }
}

/// The output tags such a slot produces.
pub open spec fn opt_out_tags(o: Option<StageKind>) -> Seq<PortTag> {
    match o {
        Some(h) => kind_out_tags(h),
        None => Seq::empty(),
    }
}

/// Builds the main pipeline of one query, pipe by pipe.
pub struct PipelineBuilder {
    pub main_pipeline: Pipeline,
}

impl PipelineBuilder {
    /// Wraps the pipeline attached to the upstream join producer.
    pub fn create(main_pipeline: Pipeline) -> (b: PipelineBuilder)
        ensures
            b.main_pipeline == main_pipeline,
    {
        PipelineBuilder { main_pipeline }
    }

    /// Attaches the merge source level: under `FullOperation` every join
    /// lane is split into a matched and an unmatched lane, doubling the
    /// lane count; the other variants keep the lanes as they are.
    pub fn build_merge_into_source(&mut self, variant: MergeVariant) -> (r: Result<
        (),
        BuildError,
    >)
        ensures
            variant != MergeVariant::FullOperation ==> r is Ok && *final(self) == *old(self),
            variant == MergeVariant::FullOperation ==> (r is Ok <==> (
                old(self).main_pipeline.layout@.len() > 0 && old(self).main_pipeline.layout@
                    =~= rep_tags(PortTag::Data, old(self).main_pipeline.layout@.len()))),
            variant == MergeVariant::FullOperation && r is Ok ==> {
                &&& final(self).main_pipeline.layout@ =~= rep_tags(
                    PortTag::Data,
                    2 * old(self).main_pipeline.layout@.len(),
                )
                &&& final(self).main_pipeline.pipes@.len() == old(self).main_pipeline.pipes@.len() + 1
                &&& forall|q: int|
                    0 <= q < old(self).main_pipeline.pipes@.len() ==> #[trigger] final(self).main_pipeline.pipes@[q] == old(self).main_pipeline.pipes@[q]
                &&& pipe_stage_kinds(final(self).main_pipeline.pipes@.last()) == rep_kinds(
                    StageKind::MergeIntoSplit,
                    old(self).main_pipeline.layout@.len(),
                )
            },
            r is Err ==> *final(self) == *old(self),
    {
        match variant {
            MergeVariant::FullOperation => {},
            _ => {
                return Ok(());
            },
        }
        let n = self.main_pipeline.output_len();
        let mut items: Vec<StageKind> = Vec::new();
        let mut i: usize = 0;
        while i < n
            invariant
                i <= n,
                items@ == rep_kinds(StageKind::MergeIntoSplit, i as nat),
                items_out_tags(items@) == rep_tags(PortTag::Data, (2 * i) as nat),
            decreases n - i,
        {
            let ghost items0 = items@;
            items.push(StageKind::MergeIntoSplit);
            proof {
                assert(items@ =~= rep_kinds(StageKind::MergeIntoSplit, (i + 1) as nat));
                assert(items@.drop_last() =~= items0);
                assert(items_out_tags(items@) =~= rep_tags(PortTag::Data, (2 * (i + 1)) as nat));
            }
            i += 1;
        }
        let ghost l0 = self.main_pipeline.layout@;
        let res = self.main_pipeline.add_pipe(items);
        match res {
            Ok(_) => {
                proof {
                    assert forall|q: int| 0 <= q < l0.len() implies l0[q] == PortTag::Data by {
                        assert(kind_in_tag(
                            rep_kinds(StageKind::MergeIntoSplit, n as nat)[q],
                        ) == l0[q]);
                    }
                    assert(l0 =~= rep_tags(PortTag::Data, l0.len()));
                }
                Ok(())
            },
            Err(e) => {
                proof {
                    if l0.len() > 0 && l0 =~= rep_tags(PortTag::Data, l0.len()) {
                        assert(forall|q: int|
                            0 <= q < n ==> kind_in_tag(
                                #[trigger] rep_kinds(StageKind::MergeIntoSplit, n as nat)[q],
                            ) == l0[q]);
                        assert(false);
                    }
                }
                Err(e)
            },
        }
    }

    /// Adds the row-number tagging level of the distributed plan: resolves
    /// the local node's partition index in the cluster and tags every lane's
    /// rows with node-owned row numbers. A missing node id is a
    /// configuration error naming that id.
    pub fn build_add_row_number(&mut self, cluster_node_ids: &Vec<u64>, local_id: u64) -> (r:
        Result<(), BuildError>)
        requires
            cluster_node_ids@.len() <= u16::MAX,
        ensures
            !cluster_node_ids@.contains(local_id) ==> r == Err::<(), BuildError>(
                BuildError::NotFoundClusterNode(local_id),
            ) && *final(self) == *old(self),
            r is Ok <==> (cluster_node_ids@.contains(local_id)
                && old(self).main_pipeline.layout@.len() > 0 && old(self).main_pipeline.layout@
                =~= rep_tags(PortTag::Data, old(self).main_pipeline.layout@.len())),
            r is Ok ==> {
                &&& final(self).main_pipeline.layout@ == old(self).main_pipeline.layout@
                &&& final(self).main_pipeline.pipes@.len() == old(self).main_pipeline.pipes@.len() + 1
                &&& forall|q: int|
                    0 <= q < old(self).main_pipeline.pipes@.len() ==> #[trigger] final(self).main_pipeline.pipes@[q] == old(self).main_pipeline.pipes@[q]
                &&& exists|idx: int|
                    {
                        &&& 0 <= idx < cluster_node_ids@.len()
                        &&& cluster_node_ids@[idx] == local_id
                        &&& forall|jj: int| 0 <= jj < idx ==> cluster_node_ids@[jj] != local_id
                        &&& pipe_stage_kinds(#[trigger] final(self).main_pipeline.pipes@.last())
                            == rep_kinds(
                            StageKind::AddRowNumber(idx as u16),
                            old(self).main_pipeline.layout@.len(),
                        )
                    }
            },
            r is Err ==> *final(self) == *old(self),
    {
        let mut idx: usize = 0;
        let mut found = false;
        while idx < cluster_node_ids.len() && !found
            invariant
                idx <= cluster_node_ids@.len(),
                !found ==> forall|jj: int| 0 <= jj < idx ==> cluster_node_ids@[jj] != local_id,
                found ==> idx < cluster_node_ids@.len() && cluster_node_ids@[idx as int]
                    == local_id && (forall|jj: int|
                    0 <= jj < idx ==> cluster_node_ids@[jj] != local_id),
            decreases cluster_node_ids@.len() - idx + if found {
                0int
            } else {
                1int
            },
        {
            if cluster_node_ids[idx] == local_id {
                found = true;
            } else {
                idx += 1;
            }
        }
        if !found {
            proof {
                assert(!cluster_node_ids@.contains(local_id));
            }
            return Err(BuildError::NotFoundClusterNode(local_id));
        }
        let node_index = idx as u16;
        let n = self.main_pipeline.output_len();
        let mut items: Vec<StageKind> = Vec::new();
        let mut i: usize = 0;
        while i < n
            invariant
                i <= n,
                items@ == rep_kinds(StageKind::AddRowNumber(node_index), i as nat),
                items_out_tags(items@) == rep_tags(PortTag::Data, i as nat),
            decreases n - i,
        {
            let ghost items0 = items@;
            items.push(StageKind::AddRowNumber(node_index));
            proof {
                assert(items@ =~= rep_kinds(StageKind::AddRowNumber(node_index), (i + 1) as nat));
                assert(items@.drop_last() =~= items0);
                assert(items_out_tags(items@) =~= rep_tags(PortTag::Data, (i + 1) as nat));
            }
            i += 1;
        }
        let ghost l0 = self.main_pipeline.layout@;
        let res = self.main_pipeline.add_pipe(items);
        match res {
            Ok(_) => {
                proof {
                    assert forall|q: int| 0 <= q < l0.len() implies l0[q] == PortTag::Data by {
                        assert(kind_in_tag(
                            rep_kinds(StageKind::AddRowNumber(node_index), n as nat)[q],
                        ) == l0[q]);
                    }
                    assert(l0 =~= rep_tags(PortTag::Data, l0.len()));
                    assert(self.main_pipeline.layout@ =~= l0);
                    assert(cluster_node_ids@.contains(local_id)) by {
                        assert(cluster_node_ids@[idx as int] == local_id);
                    }
                }
                Ok(())
            },
            Err(e) => {
                proof {
                    assert(cluster_node_ids@.contains(local_id)) by {
                        assert(cluster_node_ids@[idx as int] == local_id);
                    }
                    if l0.len() > 0 && l0 =~= rep_tags(PortTag::Data, l0.len()) {
                        assert(forall|q: int|
                            0 <= q < n ==> kind_in_tag(
                                #[trigger] rep_kinds(StageKind::AddRowNumber(node_index), n as nat)[q],
                            ) == l0[q]);
                        assert(false);
                    }
                }
                Err(e)
            },
        }
    }
    /// Merges the row-id lanes (and, when `step == 3`, the row-number
    /// lanes) into single ports, keeping the data lanes apart, so that one
    /// row-id aggregation stage can consume every lane's row identities.
    fn resize_row_id(&mut self, step: usize) -> (r: Result<(), BuildError>)
        requires
            step == 2 || step == 3,
            old(self).main_pipeline.layout@.len() % (step as nat) == 0,
            old(self).main_pipeline.layout@.len() / (step as nat) >= 1,
            old(self).main_pipeline.layout@ == row_id_grouped_layout(
                (old(self).main_pipeline.layout@.len() / (step as nat)) as nat,
                step == 3,
            ),
        ensures
            r is Ok,
            final(self).main_pipeline.layout@ == row_id_resized_layout(
                (old(self).main_pipeline.layout@.len() / (step as nat)) as nat,
                step == 3,
            ),
            final(self).main_pipeline.pipes@.len() == old(self).main_pipeline.pipes@.len() + 1,
            forall|q: int|
                0 <= q < old(self).main_pipeline.pipes@.len() ==> #[trigger] final(self).main_pipeline.pipes@[q] == old(self).main_pipeline.pipes@[q],
            final(self).main_pipeline.pipes@.last() is Resize,
    {
        let n = self.main_pipeline.output_len();
        let k = n / step;
        let ghost kk = k as nat;
        let ghost l0 = self.main_pipeline.layout@;
        proof {
            assert(l0.len() == n);
            if step == 2 {
                assert(n == 2 * k);
            } else {
                assert(n == 3 * k);
            }
            assert(k + k <= n);
        }
        let mut group0: Vec<usize> = Vec::new();
        let mut i: usize = 0;
        proof {
            assert(group0@ =~= index_range(0, 0));
        }
        while i < k
            invariant
                k <= n <= usize::MAX,
                i <= k,
                group0@ == index_range(0, i as nat),
            decreases k - i,
        {
            group0.push(i);
            proof {
                assert(group0@ =~= index_range(0, (i + 1) as nat));
            }
            i += 1;
        }
        let mut ranges: Vec<Vec<usize>> = Vec::new();
        ranges.push(group0);
        proof {
            let gv1 = groups_view(ranges@);
            assert(gv1 =~= Seq::<Seq<usize>>::empty().push(index_range(0, kk)));
            lemma_group_multiset_push(Seq::<Seq<usize>>::empty(), index_range(0, kk));
            assert(vstd::multiset::Multiset::<usize>::empty() =~= ident_indices(0).to_multiset())
                by {
                assert(!ident_indices(0).contains(0usize));
                assert(ident_indices(0).to_multiset().len() == 0);
            }
            lemma_index_range_multiset(0, kk);
            assert(crate::pipeline::group_multiset(gv1) =~= ident_indices(kk).to_multiset());
        }
        let mut s: usize = 0;
        while s < k
            invariant
                k >= 1,
                step == 2 || step == 3,
                k + k <= n <= usize::MAX,
                s <= k,
                ranges@.len() == 1 + s,
                groups_view(ranges@)[0] == index_range(0, k as nat),
                forall|j: int|
                    1 <= j < 1 + s ==> #[trigger] groups_view(ranges@)[j] == index_range(
                        (k + j - 1) as nat,
                        1,
                    ),
                crate::pipeline::group_multiset(groups_view(ranges@)) == ident_indices(
                    (k + s) as nat,
                ).to_multiset(),
            decreases k - s,
        {
            let ghost gv_before = groups_view(ranges@);
            let mut single: Vec<usize> = Vec::new();
            single.push(k + s);
            ranges.push(single);
            proof {
                let gv_after = groups_view(ranges@);
                assert(gv_after =~= gv_before.push(seq![(k + s) as usize]));
                lemma_group_multiset_push(gv_before, seq![(k + s) as usize]);
                assert(seq![(k + s) as usize] =~= index_range((k + s) as nat, 1));
                lemma_index_range_multiset((k + s) as nat, 1);
                assert(crate::pipeline::group_multiset(gv_after) =~= ident_indices(
                    (k + s + 1) as nat,
                ).to_multiset());
            }
            s += 1;
        }
        if step == 3 {
            proof {
                assert(n == 3 * k);
            }
            let ghost gv_before = groups_view(ranges@);
            let mut group2: Vec<usize> = Vec::new();
            let mut t: usize = 0;
            proof {
                assert(group2@ =~= index_range((2 * k) as nat, 0));
            }
            while t < k
                invariant
                    k + k + k <= n <= usize::MAX,
                    t <= k,
                    group2@ == index_range((2 * k) as nat, t as nat),
                decreases k - t,
            {
                group2.push(2 * k + t);
                proof {
                    assert(group2@ =~= index_range((2 * k) as nat, (t + 1) as nat));
                }
                t += 1;
            }
            ranges.push(group2);
            proof {
                let gv_after = groups_view(ranges@);
                assert(gv_after =~= gv_before.push(index_range((2 * k) as nat, kk)));
                lemma_group_multiset_push(gv_before, index_range((2 * k) as nat, kk));
                lemma_index_range_multiset((2 * k) as nat, kk);
                assert(crate::pipeline::group_multiset(gv_after) =~= ident_indices(
                    (3 * k) as nat,
                ).to_multiset());
            }
        }
        let ghost gv = groups_view(ranges@);
        proof {
            assert(n == step * k);
            assert forall|j: int| 0 <= j < gv.len() implies (#[trigger] gv[j]).len() > 0 by {
                if j == 0 {
                    assert(gv[0] == index_range(0, kk));
                } else if j < 1 + k {
                    assert(gv[j] == index_range((k + j - 1) as nat, 1));
                } else {
                    assert(gv[j] == index_range((2 * k) as nat, kk));
                }
            }
            assert(is_port_partition(gv, n as nat));
            assert forall|j: int, c: int|
                0 <= j < gv.len() && 0 <= c < gv[j].len() implies l0[#[trigger] gv[j][c] as int]
                == l0[gv[j][0] as int] by {
                if j == 0 {
                    assert(gv[0] == index_range(0, kk));
                    assert(gv[0][c] == c as usize);
                    assert(l0[c] == PortTag::RowId);
                    assert(l0[0int] == PortTag::RowId);
                } else if j < 1 + k {
                    assert(gv[j] == index_range((k + j - 1) as nat, 1));
                    assert(c == 0);
                } else {
                    assert(gv[j] == index_range((2 * k) as nat, kk));
                    assert(gv[j][c] == (2 * k + c) as usize);
                    assert(l0[2 * k + c] == PortTag::RowNumber);
                    assert(l0[2 * k] == PortTag::RowNumber);
                }
            }
        }
        let res = self.main_pipeline.resize_partial_one(ranges);
        match res {
            Ok(_) => {
                proof {
                    let target = row_id_resized_layout(kk, step == 3);
                    assert forall|j: int|
                        0 <= j < gv.len() implies self.main_pipeline.layout@[j] == target[j] by {
                        if j == 0 {
                            assert(gv[0] == index_range(0, kk));
                            assert(gv[0][0] == 0usize);
                            assert(l0[0int] == PortTag::RowId);
                        } else if j < 1 + k {
                            assert(gv[j] == index_range((k + j - 1) as nat, 1));
                            assert(gv[j][0] == (k + j - 1) as usize);
                            assert(l0[k + j - 1] == PortTag::Data);
                        } else {
                            assert(gv[j] == index_range((2 * k) as nat, kk));
                            assert(gv[j][0] == (2 * k) as usize);
                            assert(l0[2 * k] == PortTag::RowNumber);
                        }
                    }
                    assert(self.main_pipeline.layout@ =~= target);
                }
                Ok(())
            },
            Err(e) => {
                proof {
                    assert(false);
                }
                Err(e)
            },
        }
    }
    /// Appends the matched/unmatched splitter level: one matched-split
    /// stage per lane when matched clauses exist, and per unmatched lane a
    /// not-matched compute stage (local) or a row-number projection
    /// (distributed).
    fn add_split_pipe(&mut self, variant: MergeVariant, distributed: bool, lanes: usize) -> (r:
        Result<(), BuildError>)
        requires
            lanes >= 1,
            old(self).main_pipeline.layout@ == rep_tags(
                PortTag::Data,
                (lanes * merge_step(variant)) as nat,
            ),
        ensures
            r is Ok,
            final(self).main_pipeline.layout@ == rep_pattern(
                split_tag_pattern(variant, distributed),
                lanes as nat,
            ),
            final(self).main_pipeline.pipes@.len() == old(self).main_pipeline.pipes@.len() + 1,
            forall|q: int|
                0 <= q < old(self).main_pipeline.pipes@.len() ==> #[trigger] final(self).main_pipeline.pipes@[q] == old(self).main_pipeline.pipes@[q],
            pipe_stage_kinds(final(self).main_pipeline.pipes@.last()) == rep_pattern(
                split_kind_pattern(variant, distributed),
                lanes as nat,
            ),
            !need_unmatch(variant) ==> pipe_avoids_unmatched_stages(
                final(self).main_pipeline.pipes@.last(),
            ),
            !pipe_has_kind(final(self).main_pipeline.pipes@.last(), StageKind::FillComputed),
    {
        let ghost kpat = split_kind_pattern(variant, distributed);
        let ghost tpat = split_tag_pattern(variant, distributed);
        let ghost l0 = self.main_pipeline.layout@;
        let mut items: Vec<StageKind> = Vec::new();
        let mut i: usize = 0;
        while i < lanes
            invariant
                i <= lanes,
                kpat == split_kind_pattern(variant, distributed),
                tpat == split_tag_pattern(variant, distributed),
                items@ == rep_pattern(kpat, i as nat),
                items@.len() == i * merge_step(variant),
                items_out_tags(items@) == rep_pattern(tpat, i as nat),
                forall|q: int|
                    0 <= q < items@.len() ==> kind_in_tag(#[trigger] items@[q]) == PortTag::Data,
                forall|q: int|
                    0 <= q < items@.len() ==> (unmatched_path_kind(#[trigger] items@[q])
                        ==> need_unmatch(variant)),
                forall|q: int|
                    0 <= q < items@.len() ==> #[trigger] items@[q] != StageKind::FillComputed,
            decreases lanes - i,
        {
            let ghost items0 = items@;
            match variant {
                MergeVariant::FullOperation => {
                    items.push(StageKind::MatchedSplit);
                    if distributed {
                        items.push(StageKind::ProjectRowNumber);
                    } else {
                        items.push(StageKind::NotMatchedCompute);
                    }
                },
                MergeVariant::InsertOnly => {
                    if distributed {
                        items.push(StageKind::ProjectRowNumber);
                    } else {
                        items.push(StageKind::NotMatchedCompute);
                    }
                },
                MergeVariant::MatchedOnly => {
                    items.push(StageKind::MatchedSplit);
                },
            }
            proof {
                assert(items@ =~= items0 + kpat);
                assert(items@ =~= rep_pattern(kpat, (i + 1) as nat));
                crate::pipeline::lemma_items_out_tags_concat(items0, kpat);
                assert(items_out_tags(Seq::<StageKind>::empty()) =~= Seq::<PortTag>::empty());
                if kpat.len() == 2 {
                    assert(kpat.drop_last() =~= seq![kpat[0]]);
                    assert(seq![kpat[0]].drop_last() =~= Seq::<StageKind>::empty());
                    assert(items_out_tags(seq![kpat[0]]) =~= kind_out_tags(kpat[0]));
                    assert(items_out_tags(kpat) =~= kind_out_tags(kpat[0]) + kind_out_tags(
                        kpat[1],
                    ));
                } else {
                    assert(kpat.drop_last() =~= Seq::<StageKind>::empty());
                    assert(items_out_tags(kpat) =~= kind_out_tags(kpat[0]));
                }
                assert(items_out_tags(kpat) =~= tpat);
                assert(items_out_tags(items@) =~= rep_pattern(tpat, (i + 1) as nat));
                assert((i + 1) * merge_step(variant) == i * merge_step(variant) + merge_step(
                    variant,
                )) by (nonlinear_arith);
            }
            i += 1;
        }
        let res = self.main_pipeline.add_pipe(items);
        match res {
            Ok(_) => {
                proof {
                    let last = self.main_pipeline.pipes@.last();
                    if !need_unmatch(variant) {
                        assert(pipe_avoids_unmatched_stages(last));
                    }
                    assert(!pipe_has_kind(last, StageKind::FillComputed));
                }
                Ok(())
            },
            Err(e) => {
                proof {
                    assert(false);
                }
                Err(e)
            },
        }
    }

    /// Merges each lane's matched-update port with its unmatched-insert
    /// port: both carry data bound for the same downstream schema, so one
    /// serializer per lane can consume them.
    fn merge_update_insert_lanes(&mut self, lanes: usize) -> (r: Result<(), BuildError>)
        requires
            lanes >= 1,
            old(self).main_pipeline.layout@ == rep_pattern(
                seq![PortTag::RowId, PortTag::Data, PortTag::Data],
                lanes as nat,
            ),
        ensures
            r is Ok,
            final(self).main_pipeline.layout@ == rep_pattern(
                seq![PortTag::RowId, PortTag::Data],
                lanes as nat,
            ),
            final(self).main_pipeline.pipes@.len() == old(self).main_pipeline.pipes@.len() + 1,
            forall|q: int|
                0 <= q < old(self).main_pipeline.pipes@.len() ==> #[trigger] final(self).main_pipeline.pipes@[q] == old(self).main_pipeline.pipes@[q],
            final(self).main_pipeline.pipes@.last() is Resize,
    {
        let ghost pat3 = seq![PortTag::RowId, PortTag::Data, PortTag::Data];
        let ghost pat2 = seq![PortTag::RowId, PortTag::Data];
        let ghost l0 = self.main_pipeline.layout@;
        let n = self.main_pipeline.output_len();
        proof {
            lemma_rep_pattern_len(pat3, lanes as nat);
            assert(pat3.len() == 3);
            assert(n == lanes * 3);
            assert(n == 3 * lanes) by (nonlinear_arith)
                requires
                    n == lanes * 3,
            ;
        }
        let mut ranges: Vec<Vec<usize>> = Vec::new();
        let mut i: usize = 0;
        while i < lanes
            invariant
                3 * lanes == n <= usize::MAX,
                i <= lanes,
                ranges@.len() == 2 * i,
                forall|j: int|
                    0 <= j < 2 * i ==> #[trigger] groups_view(ranges@)[j] == (if j % 2 == 0 {
                        index_range((3 * (j / 2)) as nat, 1)
                    } else {
                        index_range((3 * (j / 2) + 1) as nat, 2)
                    }),
                crate::pipeline::group_multiset(groups_view(ranges@)) == ident_indices(
                    (3 * i) as nat,
                ).to_multiset(),
            decreases lanes - i,
        {
            let ghost gv0 = groups_view(ranges@);
            let mut single: Vec<usize> = Vec::new();
            single.push(3 * i);
            ranges.push(single);
            proof {
                let gv1 = groups_view(ranges@);
                assert(gv1 =~= gv0.push(seq![(3 * i) as usize]));
                lemma_group_multiset_push(gv0, seq![(3 * i) as usize]);
                assert(seq![(3 * i) as usize] =~= index_range((3 * i) as nat, 1));
                lemma_index_range_multiset((3 * i) as nat, 1);
                assert(crate::pipeline::group_multiset(gv1) =~= ident_indices(
                    (3 * i + 1) as nat,
                ).to_multiset());
            }
            let ghost gv1 = groups_view(ranges@);
            let mut pair: Vec<usize> = Vec::new();
            pair.push(3 * i + 1);
            pair.push(3 * i + 2);
            ranges.push(pair);
            proof {
                let gv2 = groups_view(ranges@);
                assert(gv2.last() =~= seq![(3 * i + 1) as usize, (3 * i + 2) as usize]);
                assert(gv2 =~= gv1.push(seq![(3 * i + 1) as usize, (3 * i + 2) as usize]));
                lemma_group_multiset_push(
                    gv1,
                    seq![(3 * i + 1) as usize, (3 * i + 2) as usize],
                );
                assert(seq![(3 * i + 1) as usize, (3 * i + 2) as usize] =~= index_range(
                    (3 * i + 1) as nat,
                    2,
                ));
                lemma_index_range_multiset((3 * i + 1) as nat, 2);
                assert(crate::pipeline::group_multiset(gv2) =~= ident_indices(
                    (3 * i + 3) as nat,
                ).to_multiset());
                assert forall|j: int|
                    0 <= j < 2 * (i + 1) implies #[trigger] gv2[j] == (if j % 2 == 0 {
                    index_range((3 * (j / 2)) as nat, 1)
                } else {
                    index_range((3 * (j / 2) + 1) as nat, 2)
                }) by {
                    if j < 2 * i {
                        assert(gv2[j] == gv0[j]);
                    } else if j == 2 * i {
                        assert(gv2[j] == seq![(3 * i) as usize]);
                    } else {
                        assert(gv2[j] == seq![(3 * i + 1) as usize, (3 * i + 2) as usize]);
                    }
                }
            }
            i += 1;
        }
        let ghost gv = groups_view(ranges@);
        proof {
            assert forall|j: int| 0 <= j < gv.len() implies (#[trigger] gv[j]).len() > 0 by {
                assert(gv[j] == (if j % 2 == 0 {
                    index_range((3 * (j / 2)) as nat, 1)
                } else {
                    index_range((3 * (j / 2) + 1) as nat, 2)
                }));
            }
            assert(is_port_partition(gv, n as nat));
            assert forall|j: int, c: int|
                0 <= j < gv.len() && 0 <= c < gv[j].len() implies l0[#[trigger] gv[j][c] as int]
                == l0[gv[j][0] as int] by {
                if j % 2 == 1 {
                    let q = j / 2;
                    lemma_rep_pattern_index(pat3, lanes as nat, q as nat, 1);
                    lemma_rep_pattern_index(pat3, lanes as nat, q as nat, 2);
                    assert(gv[j] == index_range((3 * q + 1) as nat, 2));
                    assert(l0[3 * q + 1] == PortTag::Data);
                    assert(l0[3 * q + 2] == PortTag::Data);
                }
            }
        }
        let res = self.main_pipeline.resize_partial_one(ranges);
        match res {
            Ok(_) => {
                proof {
                    lemma_rep_pattern_len(pat2, lanes as nat);
                    assert(rep_pattern(pat2, lanes as nat).len() == lanes * 2);
                    assert(lanes * 2 == 2 * lanes) by (nonlinear_arith);
                    assert forall|j: int|
                        0 <= j < 2 * lanes implies self.main_pipeline.layout@[j] == rep_pattern(
                        pat2,
                        lanes as nat,
                    )[j] by {
                        assert(j == 2 * (j / 2) + (j % 2) && 0 <= j % 2 < 2);
                        let q = j / 2;
                        let c = j % 2;
                        lemma_rep_pattern_index(pat2, lanes as nat, q as nat, c as nat);
                        if c == 0 {
                            assert(gv[j] == index_range((3 * q) as nat, 1));
                            lemma_rep_pattern_index(pat3, lanes as nat, q as nat, 0);
                            assert(l0[3 * q] == PortTag::RowId);
                        } else {
                            assert(gv[j] == index_range((3 * q + 1) as nat, 2));
                            lemma_rep_pattern_index(pat3, lanes as nat, q as nat, 1);
                            assert(l0[3 * q + 1] == PortTag::Data);
                        }
                    }
                    assert(self.main_pipeline.layout@ =~= rep_pattern(pat2, lanes as nat));
                }
                Ok(())
            },
            Err(e) => {
                proof {
                    assert(false);
                }
                Err(e)
            },
        }
    }

    /// Relabels the splitter's position-interleaved lanes by semantic
    /// role: all row-id ports first, then all data ports, then — on the
    /// distributed unmatched path — all row-number ports.
    #[verifier::rlimit(100)]
    fn regroup_lanes(&mut self, lanes: usize, with_row_number: bool) -> (r: Result<
        (),
        BuildError,
    >)
        requires
            lanes >= 1,
            old(self).main_pipeline.layout@ == rep_pattern(
                if with_row_number {
                    seq![PortTag::RowId, PortTag::Data, PortTag::RowNumber]
                } else {
                    seq![PortTag::RowId, PortTag::Data]
                },
                lanes as nat,
            ),
        ensures
            r is Ok,
            final(self).main_pipeline.layout@ == row_id_grouped_layout(
                lanes as nat,
                with_row_number,
            ),
            final(self).main_pipeline.pipes@.len() == old(self).main_pipeline.pipes@.len() + 1,
            forall|q: int|
                0 <= q < old(self).main_pipeline.pipes@.len() ==> #[trigger] final(self).main_pipeline.pipes@[q] == old(self).main_pipeline.pipes@[q],
            final(self).main_pipeline.pipes@.last() is Reorder,
    {
        let ghost pat = if with_row_number {
            seq![PortTag::RowId, PortTag::Data, PortTag::RowNumber]
        } else {
            seq![PortTag::RowId, PortTag::Data]
        };
        let ghost l0 = self.main_pipeline.layout@;
        let sw: usize = if with_row_number {
            3
        } else {
            2
        };
        let n = self.main_pipeline.output_len();
        proof {
            lemma_rep_pattern_len(pat, lanes as nat);
            assert(n == lanes * (sw as int));
            assert(n == sw * lanes) by (nonlinear_arith)
                requires
                    n == lanes * (sw as int),
            ;
        }
        let mut rules: Vec<usize> = Vec::new();
        let mut i: usize = 0;
        while i < lanes
            invariant
                2 <= sw <= 3,
                sw * lanes == n <= usize::MAX,
                i <= lanes,
                rules@.len() == sw * i,
                forall|j: int|
                    0 <= j < sw * i ==> (#[trigger] rules@[j] as int) == (j % (sw as int)) * lanes
                        + j / (sw as int),
            decreases lanes - i,
        {
            proof {
                assert(sw * i + sw <= sw * lanes && lanes + i < sw * lanes) by (nonlinear_arith)
                    requires
                        i < lanes,
                        2 <= sw <= 3,
                        1 <= lanes,
                ;
                if sw == 3 {
                    assert(2 * lanes + i < sw * lanes) by (nonlinear_arith)
                        requires
                            i < lanes,
                            sw == 3,
                            1 <= lanes,
                    ;
                }
            }
            let ghost r0 = rules@;
            rules.push(i);
            rules.push(lanes + i);
            if sw == 3 {
                rules.push(2 * lanes + i);
            }
            proof {
                assert forall|j: int|
                    0 <= j < sw * (i + 1) implies (#[trigger] rules@[j] as int) == (j % (
                    sw as int)) * lanes + j / (sw as int) by {
                    assert(sw * (i + 1) == sw * i + sw) by (nonlinear_arith);
                    if j < sw * i {
                        assert(rules@[j] == r0[j]);
                        assert((r0[j] as int) == (j % (sw as int)) * lanes + j / (sw as int));
                    } else {
                        let c = j - sw * i;
                        assert(0 <= c < sw);
                        assert(j / (sw as int) == i && j % (sw as int) == c) by (nonlinear_arith)
                            requires
                                j == sw * i + c,
                                0 <= c < sw,
                                2 <= sw,
                                0 <= i,
                        ;
                        if c == 0 {
                            assert(rules@[j] == i as usize);
                            assert(c * lanes + i == i) by (nonlinear_arith)
                                requires
                                    c == 0,
                            ;
                        } else if c == 1 {
                            assert(rules@[j] == (lanes + i) as usize);
                            assert(c * lanes + i == lanes + i) by (nonlinear_arith)
                                requires
                                    c == 1,
                            ;
                        } else {
                            assert(rules@[j] == (2 * lanes + i) as usize);
                            assert(c * lanes + i == 2 * lanes + i) by (nonlinear_arith)
                                requires
                                    c == 2,
                            ;
                        }
                    }
                }
            }
            i += 1;
        }
        proof {
            assert(crate::pipeline::is_permutation(rules@, n as nat)) by {
                assert forall|j: int| 0 <= j < n implies (#[trigger] rules@[j] as int) < n by {
                    assert((rules@[j] as int) == (j % (sw as int)) * lanes + j / (sw as int));
                    assert((j % (sw as int)) * lanes + j / (sw as int) < sw * lanes)
                        by (nonlinear_arith)
                        requires
                            0 <= j < sw * lanes,
                            2 <= sw <= 3,
                            1 <= lanes,
                    ;
                }
                assert forall|j1: int, j2: int|
                    0 <= j1 < n && 0 <= j2 < n && j1 != j2 implies rules@[j1] != rules@[j2] by {
                    assert((rules@[j1] as int) == (j1 % (sw as int)) * lanes + j1 / (sw as int));
                    assert((rules@[j2] as int) == (j2 % (sw as int)) * lanes + j2 / (sw as int));
                    assert((j1 % (sw as int)) * lanes + j1 / (sw as int) != (j2 % (sw as int))
                        * lanes + j2 / (sw as int)) by (nonlinear_arith)
                        requires
                            0 <= j1 < sw * lanes,
                            0 <= j2 < sw * lanes,
                            j1 != j2,
                            2 <= sw <= 3,
                            1 <= lanes,
                    ;
                }
                assert forall|p: usize| (p as int) < n implies #[trigger] rules@.contains(p) by {
                    let c = (p as int) / (lanes as int);
                    let q = (p as int) % (lanes as int);
                    assert(p == c * lanes + q && 0 <= c < sw && 0 <= q < lanes)
                        by (nonlinear_arith)
                        requires
                            0 <= (p as int) < sw * lanes,
                            c == (p as int) / (lanes as int),
                            q == (p as int) % (lanes as int),
                            1 <= lanes,
                            2 <= sw,
                    ;
                    let j = sw * q + c;
                    assert(0 <= j < sw * lanes) by (nonlinear_arith)
                        requires
                            j == sw * q + c,
                            0 <= q < lanes,
                            0 <= c < sw,
                            2 <= sw,
                    ;
                    assert((rules@[j] as int) == (j % (sw as int)) * lanes + j / (sw as int));
                    assert(j / (sw as int) == q && j % (sw as int) == c) by (nonlinear_arith)
                        requires
                            j == sw * q + c,
                            0 <= c < sw,
                            2 <= sw,
                            0 <= q,
                    ;
                    assert(rules@[j] == p);
                }
            }
        }
        let ghost rv = rules@;
        let res = self.main_pipeline.reorder_inputs(rules);
        match res {
            Ok(_) => {
                proof {
                    let target = row_id_grouped_layout(lanes as nat, with_row_number);
                    assert(target.len() == n);
                    assert forall|pos: int|
                        0 <= pos < n implies self.main_pipeline.layout@[pos] == target[pos] by {
                        let c = pos / (lanes as int);
                        let q = pos % (lanes as int);
                        assert(pos == c * lanes + q && 0 <= c < sw && 0 <= q < lanes)
                            by (nonlinear_arith)
                            requires
                                0 <= pos < sw * lanes,
                                c == pos / (lanes as int),
                                q == pos % (lanes as int),
                                1 <= lanes,
                                2 <= sw,
                        ;
                        let j = sw * q + c;
                        assert(0 <= j < sw * lanes) by (nonlinear_arith)
                            requires
                                j == sw * q + c,
                                0 <= q < lanes,
                                0 <= c < sw,
                                2 <= sw,
                        ;
                        assert((rv[j] as int) == (j % (sw as int)) * lanes + j / (sw as int));
                        assert(j / (sw as int) == q && j % (sw as int) == c) by (nonlinear_arith)
                            requires
                                j == sw * q + c,
                                0 <= c < sw,
                                2 <= sw,
                                0 <= q,
                        ;
                        assert(rv[j] == pos as usize);
                        assert(self.main_pipeline.layout@[pos] == l0[j]);
                        lemma_rep_pattern_index(pat, lanes as nat, q as nat, c as nat);
                        assert(pat.len() == sw);
                        assert(q * (sw as int) + c == sw * q + c) by (nonlinear_arith);
                        assert(l0[j] == pat[c]);
                        if c == 0 {
                            assert(pos == q) by (nonlinear_arith)
                                requires
                                    pos == c * lanes + q,
                                    c == 0,
                            ;
                            assert(target[pos] == PortTag::RowId);
                        } else if c == 1 {
                            assert(pos == lanes + q) by (nonlinear_arith)
                                requires
                                    pos == c * lanes + q,
                                    c == 1,
                            ;
                            assert(target[pos] == PortTag::Data);
                        } else {
                            assert(pos == 2 * lanes + q) by (nonlinear_arith)
                                requires
                                    pos == c * lanes + q,
                                    c == 2,
                            ;
                            assert(target[pos] == PortTag::RowNumber);
                        }
                    }
                    assert(self.main_pipeline.layout@ =~= target);
                }
                Ok(())
            },
            Err(e) => {
                proof {
                    assert(false);
                }
                Err(e)
            },
        }
    }

    /// Appends a pipe of an optional head slot, `mid_len` identical
    /// middle stages, and an optional tail slot — the common shape of the
    /// column-fill, clustering and serialization levels, where row-id and
    /// row-number lanes pass through dummy slots.
    fn add_framed_pipe(
        &mut self,
        head: Option<StageKind>,
        mid: StageKind,
        mid_len: usize,
        tail: Option<StageKind>,
    ) -> (r: Result<(), BuildError>)
        requires
            (match head {
                Some(h) => kind_out_tags(h).len() == 1,
                None => true,
            }),
            kind_out_tags(mid).len() == 1,
            (match tail {
                Some(h) => kind_out_tags(h).len() == 1,
                None => true,
            }),
            old(self).main_pipeline.layout@ == opt_in_tags(head) + rep_tags(
                kind_in_tag(mid),
                mid_len as nat,
            ) + opt_in_tags(tail),
            old(self).main_pipeline.layout@.len() > 0,
        ensures
            r is Ok,
            final(self).main_pipeline.layout@ == opt_out_tags(head) + rep_tags(
                kind_out_tags(mid)[0],
                mid_len as nat,
            ) + opt_out_tags(tail),
            final(self).main_pipeline.pipes@.len() == old(self).main_pipeline.pipes@.len() + 1,
            forall|q: int|
                0 <= q < old(self).main_pipeline.pipes@.len() ==> #[trigger] final(self).main_pipeline.pipes@[q] == old(self).main_pipeline.pipes@[q],
            pipe_stage_kinds(final(self).main_pipeline.pipes@.last()) == opt_kind_seq(head)
                + rep_kinds(mid, mid_len as nat) + opt_kind_seq(tail),
            ((match head {
                Some(h) => !unmatched_path_kind(h),
                None => true,
            }) && (mid_len > 0 ==> !unmatched_path_kind(mid)) && (match tail {
                Some(h) => !unmatched_path_kind(h),
                None => true,
            })) ==> pipe_avoids_unmatched_stages(final(self).main_pipeline.pipes@.last()),
            ((match head {
                Some(h) => h != StageKind::FillComputed,
                None => true,
            }) && (mid_len > 0 ==> mid != StageKind::FillComputed) && (match tail {
                Some(h) => h != StageKind::FillComputed,
                None => true,
            })) ==> !pipe_has_kind(final(self).main_pipeline.pipes@.last(), StageKind::FillComputed),
            mid == StageKind::FillComputed && mid_len > 0 ==> pipe_has_kind(
                final(self).main_pipeline.pipes@.last(),
                StageKind::FillComputed,
            ),
    {
        let ghost l0 = self.main_pipeline.layout@;
        let mut items: Vec<StageKind> = Vec::new();
        match head {
            Some(h) => items.push(h),
            None => {},
        }
        proof {
            assert(items@ =~= opt_kind_seq(head));
        }
        let ghost hk = opt_kind_seq(head);
        let mut i: usize = 0;
        while i < mid_len
            invariant
                i <= mid_len,
                hk == opt_kind_seq(head),
                items@ == hk + rep_kinds(mid, i as nat),
            decreases mid_len - i,
        {
            items.push(mid);
            proof {
                assert(items@ =~= hk + rep_kinds(mid, (i + 1) as nat));
            }
            i += 1;
        }
        match tail {
            Some(t) => items.push(t),
            None => {},
        }
        let ghost iv = items@;
        proof {
            assert(iv =~= hk + rep_kinds(mid, mid_len as nat) + opt_kind_seq(tail));
        }
        proof {
            // input tags line up with the current layout, port for port
            assert forall|q: int| 0 <= q < iv.len() implies kind_in_tag(#[trigger] iv[q]) == l0[q]
                by {
                let hl = hk.len() as int;
                if q < hl {
                    assert(iv[q] == hk[q]);
                } else if q < hl + mid_len {
                    assert(iv[q] == rep_kinds(mid, mid_len as nat)[q - hl]);
                    assert(l0[q] == rep_tags(kind_in_tag(mid), mid_len as nat)[q - hl]);
                } else {
                    assert(iv[q] == opt_kind_seq(tail)[q - hl - mid_len]);
                    assert(l0[q] == opt_in_tags(tail)[q - hl - mid_len]);
                }
            }
            assert(iv.len() == l0.len());
            // output tags of the whole pipe, segment by segment
            crate::pipeline::lemma_items_out_tags_concat(
                hk + rep_kinds(mid, mid_len as nat),
                opt_kind_seq(tail),
            );
            crate::pipeline::lemma_items_out_tags_concat(hk, rep_kinds(mid, mid_len as nat));
            crate::pipeline::lemma_items_out_tags_uniform(mid, mid_len as nat);
            assert(items_out_tags(Seq::<StageKind>::empty()) =~= Seq::<PortTag>::empty());
            match head {
                Some(h) => {
                    assert(hk.drop_last() =~= Seq::<StageKind>::empty());
                    assert(hk.last() == h);
                    assert(items_out_tags(hk) == items_out_tags(hk.drop_last()) + kind_out_tags(h));
                    assert(items_out_tags(hk) =~= kind_out_tags(h));
                },
                None => {
                    assert(items_out_tags(hk) =~= Seq::<PortTag>::empty());
                },
            }
            match tail {
                Some(t) => {
                    assert(opt_kind_seq(tail).drop_last() =~= Seq::<StageKind>::empty());
                    assert(opt_kind_seq(tail).last() == t);
                    assert(items_out_tags(opt_kind_seq(tail)) == items_out_tags(
                        opt_kind_seq(tail).drop_last(),
                    ) + kind_out_tags(t));
                    assert(items_out_tags(opt_kind_seq(tail)) =~= kind_out_tags(t));
                },
                None => {
                    assert(items_out_tags(opt_kind_seq(tail)) =~= Seq::<PortTag>::empty());
                },
            }
            assert(rep_kinds(mid, mid_len as nat) =~= Seq::new(mid_len as nat, |q: int| mid));
            assert(items_out_tags(iv) =~= opt_out_tags(head) + rep_tags(
                kind_out_tags(mid)[0],
                mid_len as nat,
            ) + opt_out_tags(tail));
        }
        let res = self.main_pipeline.add_pipe(items);
        match res {
            Ok(_) => {
                proof {
                    let last = self.main_pipeline.pipes@.last();
                    assert(pipe_stage_kinds(last) == iv);
                    if (match head {
                        Some(h) => !unmatched_path_kind(h),
                        None => true,
                    }) && (mid_len > 0 ==> !unmatched_path_kind(mid)) && (match tail {
                        Some(h) => !unmatched_path_kind(h),
                        None => true,
                    }) {
                        assert forall|q: int|
                            0 <= q < pipe_stage_kinds(last).len() implies !unmatched_path_kind(
                            #[trigger] pipe_stage_kinds(last)[q],
                        ) by {
                            let hl = hk.len() as int;
                            if q < hl {
                                assert(iv[q] == hk[q]);
                            } else if q < hl + mid_len {
                                assert(iv[q] == rep_kinds(mid, mid_len as nat)[q - hl]);
                            } else {
                                assert(iv[q] == opt_kind_seq(tail)[q - hl - mid_len]);
                            }
                        }
                    }
                    if (match head {
                        Some(h) => h != StageKind::FillComputed,
                        None => true,
                    }) && (mid_len > 0 ==> mid != StageKind::FillComputed) && (match tail {
                        Some(h) => h != StageKind::FillComputed,
                        None => true,
                    }) {
                        assert forall|q: int|
                            0 <= q < pipe_stage_kinds(last).len() implies #[trigger] pipe_stage_kinds(
                            last,
                        )[q] != StageKind::FillComputed by {
                            let hl = hk.len() as int;
                            if q < hl {
                                assert(iv[q] == hk[q]);
                            } else if q < hl + mid_len {
                                assert(iv[q] == rep_kinds(mid, mid_len as nat)[q - hl]);
                            } else {
                                assert(iv[q] == opt_kind_seq(tail)[q - hl - mid_len]);
                            }
                        }
                    }
                    if mid == StageKind::FillComputed && mid_len > 0 {
                        assert(pipe_stage_kinds(last)[hk.len() as int] == mid);
                    }
                }
                Ok(())
            },
            Err(e) => {
                proof {
                    assert(false);
                }
                Err(e)
            },
        }
    }
    /// Builds the whole merge pipeline for one plan: the splitter level,
    /// the lane regrouping and row-id fan-in, the column-fill levels, the
    /// clustering and serialization levels, the canonical fan-in into the
    /// output layout, and — distributed with unmatched clauses — the
    /// row-number accumulation level.
    ///
    /// Succeeds exactly when the upstream pipeline exposes at least one
    /// all-data lane, evenly split under `FullOperation`; the built
    /// pipeline then ends in the canonical output layout of the variant
    /// and mode. Under `MatchedOnly` no unmatched-path stage is emitted,
    /// and the computed-fill stage is emitted only when the computed
    /// schema differs from the default schema.
    #[verifier::rlimit(100)]
    pub fn build_merge_into(&mut self, plan: &MergePlan) -> (r: Result<(), BuildError>)
        ensures
            r is Ok <==> (old(self).main_pipeline.layout@.len() > 0 && old(
                self,
            ).main_pipeline.layout@ == rep_tags(PortTag::Data, old(self).main_pipeline.layout@.len())
                && (plan.variant == MergeVariant::FullOperation ==> old(
                self,
            ).main_pipeline.layout@.len() % 2 == 0)),
            r is Err ==> *final(self) == *old(self),
            r is Ok ==> {
                &&& final(self).main_pipeline.layout@ == canonical_layout(plan.variant, plan.mode)
                &&& final(self).main_pipeline.pipes@.len() >= old(self).main_pipeline.pipes@.len()
                &&& forall|q: int|
                    0 <= q < old(self).main_pipeline.pipes@.len() ==> #[trigger] final(self).main_pipeline.pipes@[q] == old(self).main_pipeline.pipes@[q]
                &&& pipes_added_ok(
                    final(self).main_pipeline.pipes@,
                    old(self).main_pipeline.pipes@.len() as int,
                    need_unmatch(plan.variant),
                    plan.computed_schema_differs,
                )
                &&& (plan.computed_schema_differs && !(plan.mode == DistributionMode::Distributed
                    && plan.variant == MergeVariant::InsertOnly) ==> exists|q: int|
                    old(self).main_pipeline.pipes@.len() <= q
                        < final(self).main_pipeline.pipes@.len() && pipe_has_kind(
                        #[trigger] final(self).main_pipeline.pipes@[q],
                        StageKind::FillComputed,
                    ))
            },
    {
        let variant = plan.variant;
        let distributed = matches!(plan.mode, DistributionMode::Distributed);
        let ghost nu = need_unmatch(variant);
        let ghost fc = plan.computed_schema_differs;
        let ghost base = self.main_pipeline.pipes@.len() as int;
        let n_in = self.main_pipeline.output_len();
        if n_in == 0 {
            return Err(BuildError::PortCountMismatch);
        }
        if !layout_is_uniform(&self.main_pipeline.layout, PortTag::Data) {
            return Err(BuildError::PortTagMismatch);
        }
        let (step, has_match, has_unmatch): (usize, bool, bool) = match variant {
            MergeVariant::FullOperation => (2, true, true),
            MergeVariant::InsertOnly => (1, false, true),
            MergeVariant::MatchedOnly => (1, true, false),
        };
        if step == 2 && n_in % 2 == 1 {
            return Err(BuildError::PortCountMismatch);
        }
        let lanes = n_in / step;
        proof {
            assert(lanes * merge_step(variant) == n_in);
            assert(lanes >= 1);
            assert(has_match == need_match(variant));
            assert(has_unmatch == need_unmatch(variant));
        }
        // splitter level
        let res = self.add_split_pipe(variant, distributed, lanes);
        proof {
            assert(res is Ok);
            lemma_pipes_added_ok_extend(
                old(self).main_pipeline.pipes@,
                self.main_pipeline.pipes@,
                base,
                nu,
                fc,
            );
        }
        // regroup by semantic role and merge the row-id lanes
        if !distributed {
            if has_match && has_unmatch {
                let ghost pipes0 = self.main_pipeline.pipes@;
                let r2 = self.merge_update_insert_lanes(lanes);
                proof {
                    assert(r2 is Ok);
                    lemma_pipes_added_ok_extend(pipes0, self.main_pipeline.pipes@, base, nu, fc);
                }
            }
            if has_match {
                let ghost pipes0 = self.main_pipeline.pipes@;
                let r3 = self.regroup_lanes(lanes, false);
                proof {
                    assert(r3 is Ok);
                    lemma_pipes_added_ok_extend(pipes0, self.main_pipeline.pipes@, base, nu, fc);
                }
                let ghost pipes1 = self.main_pipeline.pipes@;
                proof {
                    crate::pipeline::lemma_rep_pattern_len(
                        rep_tags(PortTag::Data, 1),
                        lanes as nat,
                    );
                    assert(self.main_pipeline.layout@.len() == 2 * lanes);
                    assert((2 * lanes) / 2 == lanes);
                    assert(self.main_pipeline.layout@.len() % 2 == 0);
                }
                let r4 = self.resize_row_id(2);
                proof {
                    assert(r4 is Ok);
                    lemma_pipes_added_ok_extend(pipes1, self.main_pipeline.pipes@, base, nu, fc);
                }
            }
        } else {
            if has_match {
                let ghost pipes0 = self.main_pipeline.pipes@;
                let r3 = self.regroup_lanes(lanes, has_unmatch);
                proof {
                    assert(r3 is Ok);
                    lemma_pipes_added_ok_extend(pipes0, self.main_pipeline.pipes@, base, nu, fc);
                }
                let ghost pipes1 = self.main_pipeline.pipes@;
                let step_rid: usize = if has_unmatch {
                    3
                } else {
                    2
                };
                proof {
                    assert(self.main_pipeline.layout@.len() == step_rid * lanes);
                    assert((step_rid * lanes) % (step_rid as int) == 0 && (step_rid * lanes) / (
                    step_rid as int) == lanes) by (nonlinear_arith)
                        requires
                            2 <= step_rid <= 3,
                            1 <= lanes,
                    ;
                }
                let r4 = self.resize_row_id(step_rid);
                proof {
                    assert(r4 is Ok);
                    lemma_pipes_added_ok_extend(pipes1, self.main_pipeline.pipes@, base, nu, fc);
                }
            } else {
                let ghost pipes0 = self.main_pipeline.pipes@;
                proof {
                    let pat1 = seq![PortTag::RowNumber];
                    crate::pipeline::lemma_rep_pattern_len(pat1, lanes as nat);
                    assert forall|q: int|
                        0 <= q < self.main_pipeline.layout@.len() implies #[trigger] self.main_pipeline.layout@[q]
                        == PortTag::RowNumber by {
                        lemma_rep_pattern_index(pat1, lanes as nat, q as nat, 0);
                    }
                }
                let r3 = self.main_pipeline.try_resize(1);
                proof {
                    assert(r3 is Ok);
                    assert(self.main_pipeline.layout@ =~= seq![PortTag::RowNumber]);
                    lemma_pipes_added_ok_extend(pipes0, self.main_pipeline.pipes@, base, nu, fc);
                }
            }
        }
        // column-fill, clustering and serialization levels
        if !distributed && !has_match {
            proof {
                let pat1 = seq![PortTag::Data];
                crate::pipeline::lemma_rep_pattern_len(pat1, lanes as nat);
                assert forall|q: int|
                    0 <= q < self.main_pipeline.layout@.len() implies #[trigger] self.main_pipeline.layout@[q]
                    == PortTag::Data by {
                    lemma_rep_pattern_index(pat1, lanes as nat, q as nat, 0);
                }
                assert(self.main_pipeline.layout@ =~= rep_tags(PortTag::Data, lanes as nat));
            }
        }
        let fill_len: usize = if distributed && !has_match {
            0
        } else {
            lanes
        };
        let head_dummy: Option<StageKind> = if has_match {
            Some(StageKind::Dummy(PortTag::RowId))
        } else {
            None
        };
        let tail_dummy: Option<StageKind> = if distributed && has_unmatch {
            Some(StageKind::Dummy(PortTag::RowNumber))
        } else {
            None
        };
        proof {
            assert(self.main_pipeline.layout@ =~= opt_in_tags(head_dummy) + rep_tags(
                PortTag::Data,
                fill_len as nat,
            ) + opt_in_tags(tail_dummy));
        }
        let ghost pipes_a = self.main_pipeline.pipes@;
        let r5 = self.add_framed_pipe(head_dummy, StageKind::FillDefault, fill_len, tail_dummy);
        proof {
            assert(r5 is Ok);
            lemma_pipes_added_ok_extend(pipes_a, self.main_pipeline.pipes@, base, nu, fc);
        }
        let ghost fill_computed_at: int = self.main_pipeline.pipes@.len() as int;
        if plan.computed_schema_differs {
            proof {
                assert(self.main_pipeline.layout@ =~= opt_in_tags(head_dummy) + rep_tags(
                    PortTag::Data,
                    fill_len as nat,
                ) + opt_in_tags(tail_dummy));
            }
            let ghost pipes_b = self.main_pipeline.pipes@;
            let r6 = self.add_framed_pipe(
                head_dummy,
                StageKind::FillComputed,
                fill_len,
                tail_dummy,
            );
            proof {
                assert(r6 is Ok);
                lemma_pipes_added_ok_extend(pipes_b, self.main_pipeline.pipes@, base, nu, fc);
            }
        }
        proof {
            assert(self.main_pipeline.layout@ =~= opt_in_tags(head_dummy) + rep_tags(
                PortTag::Data,
                fill_len as nat,
            ) + opt_in_tags(tail_dummy));
        }
        let ghost pipes_c = self.main_pipeline.pipes@;
        let r7 = self.add_framed_pipe(head_dummy, StageKind::ClusterSort, fill_len, tail_dummy);
        proof {
            assert(r7 is Ok);
            lemma_pipes_added_ok_extend(pipes_c, self.main_pipeline.pipes@, base, nu, fc);
        }
        // serialization level
        let head_ser: Option<StageKind> = if has_match {
            Some(StageKind::RowIdAggregate)
        } else {
            None
        };
        proof {
            assert(self.main_pipeline.layout@ =~= opt_in_tags(head_ser) + rep_tags(
                PortTag::Data,
                fill_len as nat,
            ) + opt_in_tags(tail_dummy));
        }
        let ghost pipes_d = self.main_pipeline.pipes@;
        let r8 = self.add_framed_pipe(head_ser, StageKind::SerializeBlock, fill_len, tail_dummy);
        proof {
            assert(r8 is Ok);
            lemma_pipes_added_ok_extend(pipes_d, self.main_pipeline.pipes@, base, nu, fc);
        }
        // merge the block-log ports
        proof {
            assert(self.main_pipeline.layout@ =~= serialized_layout(
                has_match,
                fill_len as nat,
                distributed && has_unmatch,
            ));
        }
        let ghost pipes_e = self.main_pipeline.pipes@;
        let r9 = self.merge_serialized_blocks(has_match, fill_len, distributed && has_unmatch);
        proof {
            assert(r9 is Ok);
            lemma_pipes_added_ok_extend(pipes_e, self.main_pipeline.pipes@, base, nu, fc);
        }
        // segment serialization level
        let head_seg: Option<StageKind> = if has_match {
            Some(StageKind::Dummy(PortTag::Log))
        } else {
            None
        };
        let seg_len: usize = if fill_len > 0 {
            1
        } else {
            0
        };
        proof {
            assert(self.main_pipeline.layout@ =~= opt_in_tags(head_seg) + rep_tags(
                PortTag::Log,
                seg_len as nat,
            ) + opt_in_tags(tail_dummy));
        }
        let ghost pipes_f = self.main_pipeline.pipes@;
        let r10 = self.add_framed_pipe(head_seg, StageKind::SerializeSegment, seg_len, tail_dummy);
        proof {
            assert(r10 is Ok);
            lemma_pipes_added_ok_extend(pipes_f, self.main_pipeline.pipes@, base, nu, fc);
        }
        // canonical fan-in into the output layout
        let ghost pipes_g = self.main_pipeline.pipes@;
        if distributed && has_match && has_unmatch {
            proof {
                assert(self.main_pipeline.layout@ =~= seq![
                    PortTag::Log,
                    PortTag::Log,
                    PortTag::RowNumber,
                ]);
            }
            let mut g0: Vec<usize> = Vec::new();
            g0.push(0);
            g0.push(1);
            let mut g1: Vec<usize> = Vec::new();
            g1.push(2);
            let mut ranges: Vec<Vec<usize>> = Vec::new();
            ranges.push(g0);
            ranges.push(g1);
            proof {
                let gv = groups_view(ranges@);
                assert(gv =~~= seq![seq![0usize, 1usize], seq![2usize]]);
                let e: Seq<Seq<usize>> = Seq::empty();
                assert(vstd::multiset::Multiset::<usize>::empty() =~= ident_indices(
                    0,
                ).to_multiset()) by {
                    assert(!ident_indices(0).contains(0usize));
                    assert(ident_indices(0).to_multiset().len() == 0);
                }
                assert(gv =~~= e.push(seq![0usize, 1usize]).push(seq![2usize]));
                lemma_group_multiset_push(e, seq![0usize, 1usize]);
                assert(seq![0usize, 1usize] =~= index_range(0, 2));
                lemma_index_range_multiset(0, 2);
                lemma_group_multiset_push(e.push(seq![0usize, 1usize]), seq![2usize]);
                assert(seq![2usize] =~= index_range(2, 1));
                lemma_index_range_multiset(2, 1);
                assert(crate::pipeline::group_multiset(gv) =~= ident_indices(3).to_multiset());
                assert(is_port_partition(gv, 3));
                assert(crate::pipeline::groups_same_tag(gv, self.main_pipeline.layout@)) by {
                    assert forall|j: int, c: int|
                        0 <= j < gv.len() && 0 <= c < gv[j].len() implies self.main_pipeline.layout@[#[trigger] gv[j][c] as int]
                        == self.main_pipeline.layout@[gv[j][0] as int] by {}
                }
            }
            let r11 = self.main_pipeline.resize_partial_one(ranges);
            proof {
                assert(r11 is Ok);
                assert(self.main_pipeline.layout@ =~= seq![PortTag::Log, PortTag::RowNumber]);
                lemma_pipes_added_ok_extend(pipes_g, self.main_pipeline.pipes@, base, nu, fc);
            }
        } else {
            let r11 = self.main_pipeline.try_resize(1);
            proof {
                assert(r11 is Ok);
                lemma_pipes_added_ok_extend(pipes_g, self.main_pipeline.pipes@, base, nu, fc);
            }
        }
        // row-number accumulation level
        if distributed && has_unmatch {
            let head_acc: Option<StageKind> = if has_match {
                Some(StageKind::Dummy(PortTag::Log))
            } else {
                None
            };
            proof {
                assert(self.main_pipeline.layout@ =~= opt_in_tags(head_acc) + rep_tags(
                    PortTag::RowNumber,
                    1,
                ) + opt_in_tags(None::<StageKind>));
            }
            let ghost pipes_h = self.main_pipeline.pipes@;
            let r12 = self.add_framed_pipe(head_acc, StageKind::AccumulateRowNumber, 1, None);
            proof {
                assert(r12 is Ok);
                lemma_pipes_added_ok_extend(pipes_h, self.main_pipeline.pipes@, base, nu, fc);
            }
        }
        proof {
            assert(self.main_pipeline.layout@ =~= canonical_layout(plan.variant, plan.mode));
            if fc && !(distributed && !has_match) {
                assert(pipe_has_kind(
                    self.main_pipeline.pipes@[fill_computed_at],
                    StageKind::FillComputed,
                ));
            }
        }
        Ok(())
    }

    /// Builds the coordinator-side append pipeline for unmatched rows in a
    /// distributed merge: the exchange traffic is merged into one lane and
    /// — unless the variant is matched-only, which delivers mutation logs
    /// alone — split into row numbers and logs, deduplicated, re-joined
    /// against the probe hash table, completed with default and computed
    /// columns, clustered, serialized, and merged into one mutation-log
    /// port.
    ///
    /// Succeeds exactly when the upstream exposes at least one lane, each
    /// carrying mutation logs (matched-only) or interleaved exchange
    /// traffic (otherwise); the built pipeline then ends in one
    /// mutation-log port.
    #[verifier::rlimit(100)]
    pub fn build_merge_into_append_not_matched(
        &mut self,
        variant: MergeVariant,
        computed_schema_differs: bool,
    ) -> (r: Result<(), BuildError>)
        ensures
            r is Ok <==> (old(self).main_pipeline.layout@.len() > 0 && old(
                self,
            ).main_pipeline.layout@ == rep_tags(
                if variant == MergeVariant::MatchedOnly {
                    PortTag::Log
                } else {
                    PortTag::Mixed
                },
                old(self).main_pipeline.layout@.len(),
            )),
            r is Err ==> *final(self) == *old(self),
            r is Ok ==> {
                &&& final(self).main_pipeline.layout@ == seq![PortTag::Log]
                &&& final(self).main_pipeline.pipes@.len() >= old(self).main_pipeline.pipes@.len()
                &&& forall|q: int|
                    0 <= q < old(self).main_pipeline.pipes@.len() ==> #[trigger] final(self).main_pipeline.pipes@[q] == old(self).main_pipeline.pipes@[q]
                &&& pipes_added_ok(
                    final(self).main_pipeline.pipes@,
                    old(self).main_pipeline.pipes@.len() as int,
                    need_unmatch(variant),
                    computed_schema_differs,
                )
                &&& (computed_schema_differs && variant != MergeVariant::MatchedOnly ==> exists|
                    q: int,
                |
                    old(self).main_pipeline.pipes@.len() <= q
                        < final(self).main_pipeline.pipes@.len() && pipe_has_kind(
                        #[trigger] final(self).main_pipeline.pipes@[q],
                        StageKind::FillComputed,
                    ))
            },
    {
        let matched_only = matches!(variant, MergeVariant::MatchedOnly);
        let in_tag = if matched_only {
            PortTag::Log
        } else {
            PortTag::Mixed
        };
        let ghost nu = need_unmatch(variant);
        let ghost fc = computed_schema_differs;
        let ghost base = self.main_pipeline.pipes@.len() as int;
        let n_in = self.main_pipeline.output_len();
        if n_in == 0 {
            return Err(BuildError::PortCountMismatch);
        }
        if !layout_is_uniform(&self.main_pipeline.layout, in_tag) {
            return Err(BuildError::PortTagMismatch);
        }
        // receive the exchange traffic on a single lane
        let r1 = self.main_pipeline.try_resize(1);
        proof {
            assert(r1 is Ok);
            assert(self.main_pipeline.layout@ =~= seq![in_tag]);
            lemma_pipes_added_ok_extend(
                old(self).main_pipeline.pipes@,
                self.main_pipeline.pipes@,
                base,
                nu,
                fc,
            );
        }
        if matched_only {
            // the workers already applied every change: only logs arrive
            return Ok(());
        }
        // split row numbers from mutation logs
        let mut items: Vec<StageKind> = Vec::new();
        items.push(StageKind::RowNumberAndLogSplit);
        let ghost iv = items@;
        proof {
            assert(iv =~= seq![StageKind::RowNumberAndLogSplit]);
            assert(iv.drop_last() =~= Seq::<StageKind>::empty());
            assert(items_out_tags(Seq::<StageKind>::empty()) =~= Seq::<PortTag>::empty());
            assert(items_out_tags(iv) =~= seq![PortTag::RowNumber, PortTag::Log]);
            assert(kind_in_tag(iv[0]) == PortTag::Mixed);
        }
        let ghost pipes0 = self.main_pipeline.pipes@;
        let r2 = self.main_pipeline.add_pipe(items);
        proof {
            assert(r2 is Ok);
            assert(self.main_pipeline.layout@ =~= seq![PortTag::RowNumber, PortTag::Log]);
            lemma_pipes_added_ok_extend(pipes0, self.main_pipeline.pipes@, base, nu, fc);
        }
        // keep one candidate per distinct row number
        proof {
            assert(self.main_pipeline.layout@ =~= opt_in_tags(None::<StageKind>) + rep_tags(
                PortTag::RowNumber,
                1,
            ) + opt_in_tags(Some(StageKind::Dummy(PortTag::Log))));
        }
        let ghost pipes1 = self.main_pipeline.pipes@;
        let r3 = self.add_framed_pipe(
            None,
            StageKind::DeduplicateRowNumber,
            1,
            Some(StageKind::Dummy(PortTag::Log)),
        );
        proof {
            assert(r3 is Ok);
            lemma_pipes_added_ok_extend(pipes1, self.main_pipeline.pipes@, base, nu, fc);
        }
        // recover full row content for the survivors
        proof {
            assert(self.main_pipeline.layout@ =~= opt_in_tags(None::<StageKind>) + rep_tags(
                PortTag::RowNumber,
                1,
            ) + opt_in_tags(Some(StageKind::Dummy(PortTag::Log))));
        }
        let ghost pipes2 = self.main_pipeline.pipes@;
        let r4 = self.add_framed_pipe(
            None,
            StageKind::ExtractHashTable,
            1,
            Some(StageKind::Dummy(PortTag::Log)),
        );
        proof {
            assert(r4 is Ok);
            lemma_pipes_added_ok_extend(pipes2, self.main_pipeline.pipes@, base, nu, fc);
        }
        // compute the insert rows
        let ghost pipes3 = self.main_pipeline.pipes@;
        let r5 = self.add_framed_pipe(
            None,
            StageKind::NotMatchedCompute,
            1,
            Some(StageKind::Dummy(PortTag::Log)),
        );
        proof {
            assert(r5 is Ok);
            lemma_pipes_added_ok_extend(pipes3, self.main_pipeline.pipes@, base, nu, fc);
        }
        // fill default columns
        let ghost pipes4 = self.main_pipeline.pipes@;
        let r6 = self.add_framed_pipe(
            None,
            StageKind::FillDefault,
            1,
            Some(StageKind::Dummy(PortTag::Log)),
        );
        proof {
            assert(r6 is Ok);
            lemma_pipes_added_ok_extend(pipes4, self.main_pipeline.pipes@, base, nu, fc);
        }
        // fill computed columns when the schemas differ
        let ghost fill_computed_at: int = self.main_pipeline.pipes@.len() as int;
        if computed_schema_differs {
            let ghost pipes5 = self.main_pipeline.pipes@;
            let r7 = self.add_framed_pipe(
                None,
                StageKind::FillComputed,
                1,
                Some(StageKind::Dummy(PortTag::Log)),
            );
            proof {
                assert(r7 is Ok);
                lemma_pipes_added_ok_extend(pipes5, self.main_pipeline.pipes@, base, nu, fc);
            }
        }
        // cluster sort
        let ghost pipes6 = self.main_pipeline.pipes@;
        let r8 = self.add_framed_pipe(
            None,
            StageKind::ClusterSort,
            1,
            Some(StageKind::Dummy(PortTag::Log)),
        );
        proof {
            assert(r8 is Ok);
            lemma_pipes_added_ok_extend(pipes6, self.main_pipeline.pipes@, base, nu, fc);
        }
        // serialize blocks, then segments
        let ghost pipes7 = self.main_pipeline.pipes@;
        let r9 = self.add_framed_pipe(
            None,
            StageKind::SerializeBlock,
            1,
            Some(StageKind::Dummy(PortTag::Log)),
        );
        proof {
            assert(r9 is Ok);
            lemma_pipes_added_ok_extend(pipes7, self.main_pipeline.pipes@, base, nu, fc);
        }
        let ghost pipes8 = self.main_pipeline.pipes@;
        proof {
            assert(self.main_pipeline.layout@ =~= opt_in_tags(None::<StageKind>) + rep_tags(
                PortTag::Log,
                1,
            ) + opt_in_tags(Some(StageKind::Dummy(PortTag::Log))));
        }
        let r10 = self.add_framed_pipe(
            None,
            StageKind::SerializeSegment,
            1,
            Some(StageKind::Dummy(PortTag::Log)),
        );
        proof {
            assert(r10 is Ok);
            lemma_pipes_added_ok_extend(pipes8, self.main_pipeline.pipes@, base, nu, fc);
        }
        // everything is mutation logs now: one canonical output port
        let ghost pipes9 = self.main_pipeline.pipes@;
        let r11 = self.main_pipeline.try_resize(1);
        proof {
            assert(r11 is Ok);
            assert(self.main_pipeline.layout@ =~= seq![PortTag::Log]);
            lemma_pipes_added_ok_extend(pipes9, self.main_pipeline.pipes@, base, nu, fc);
            if fc {
                assert(pipe_has_kind(
                    self.main_pipeline.pipes@[fill_computed_at],
                    StageKind::FillComputed,
                ));
            }
        }
        Ok(())
    }

    /// Merges the serialize-block ports into one, keeping the row-id
    /// aggregation port and the row-number port apart: after block and
    /// segment serialization all of them carry mutation logs.
    fn merge_serialized_blocks(
        &mut self,
        with_mutator: bool,
        serialize_len: usize,
        with_row_number: bool,
    ) -> (r: Result<(), BuildError>)
        requires
            old(self).main_pipeline.layout@ == serialized_layout(
                with_mutator,
                serialize_len as nat,
                with_row_number,
            ),
            old(self).main_pipeline.layout@.len() > 0,
        ensures
            r is Ok,
            final(self).main_pipeline.layout@ == serialized_layout(
                with_mutator,
                if serialize_len > 0 {
                    1nat
                } else {
                    0nat
                },
                with_row_number,
            ),
            final(self).main_pipeline.pipes@.len() == old(self).main_pipeline.pipes@.len() + 1,
            forall|q: int|
                0 <= q < old(self).main_pipeline.pipes@.len() ==> #[trigger] final(self).main_pipeline.pipes@[q] == old(self).main_pipeline.pipes@[q],
            final(self).main_pipeline.pipes@.last() is Resize,
    {
        let ghost l0 = self.main_pipeline.layout@;
        let n = self.main_pipeline.output_len();
        let head: usize = if with_mutator {
            1
        } else {
            0
        };
        let mut ranges: Vec<Vec<usize>> = Vec::new();
        let ghost e: Seq<Seq<usize>> = Seq::empty();
        proof {
            assert(vstd::multiset::Multiset::<usize>::empty() =~= ident_indices(0).to_multiset())
                by {
                assert(!ident_indices(0).contains(0usize));
                assert(ident_indices(0).to_multiset().len() == 0);
            }
            assert(crate::pipeline::group_multiset(e) == vstd::multiset::Multiset::<usize>::empty());
        }
        if with_mutator {
            let mut g: Vec<usize> = Vec::new();
            g.push(0);
            ranges.push(g);
            proof {
                let gv1 = groups_view(ranges@);
                assert(gv1 =~= e.push(seq![0usize]));
                lemma_group_multiset_push(e, seq![0usize]);
                assert(seq![0usize] =~= index_range(0, 1));
                lemma_index_range_multiset(0, 1);
                assert(crate::pipeline::group_multiset(gv1) =~= ident_indices(1).to_multiset());
            }
        }
        if serialize_len > 0 {
            let ghost gv_before = groups_view(ranges@);
            let mut g: Vec<usize> = Vec::new();
            let mut i: usize = 0;
            proof {
                assert(g@ =~= index_range(head as nat, 0));
            }
            while i < serialize_len
                invariant
                    head + serialize_len <= n <= usize::MAX,
                    i <= serialize_len,
                    g@ == index_range(head as nat, i as nat),
                decreases serialize_len - i,
            {
                g.push(head + i);
                proof {
                    assert(g@ =~= index_range(head as nat, (i + 1) as nat));
                }
                i += 1;
            }
            ranges.push(g);
            proof {
                let gv1 = groups_view(ranges@);
                assert(gv1 =~= gv_before.push(index_range(head as nat, serialize_len as nat)));
                lemma_group_multiset_push(
                    gv_before,
                    index_range(head as nat, serialize_len as nat),
                );
                lemma_index_range_multiset(head as nat, serialize_len as nat);
                assert(crate::pipeline::group_multiset(gv1) =~= ident_indices(
                    (head + serialize_len) as nat,
                ).to_multiset());
            }
        }
        if with_row_number {
            let ghost gv_before = groups_view(ranges@);
            let mut g: Vec<usize> = Vec::new();
            g.push(head + serialize_len);
            ranges.push(g);
            proof {
                let gv1 = groups_view(ranges@);
                assert(gv1 =~= gv_before.push(seq![(head + serialize_len) as usize]));
                lemma_group_multiset_push(gv_before, seq![(head + serialize_len) as usize]);
                assert(seq![(head + serialize_len) as usize] =~= index_range(
                    (head + serialize_len) as nat,
                    1,
                ));
                lemma_index_range_multiset((head + serialize_len) as nat, 1);
                assert(crate::pipeline::group_multiset(gv1) =~= ident_indices(
                    n as nat,
                ).to_multiset());
            }
        }
        let ghost gv = groups_view(ranges@);
        let ghost hg: int = if with_mutator {
            1
        } else {
            0
        };
        let ghost bg: int = if serialize_len > 0 {
            1
        } else {
            0
        };
        proof {
            assert(gv.len() == hg + bg + (if with_row_number {
                1int
            } else {
                0int
            }));
            if with_mutator {
                assert(gv[0] == seq![0usize]);
            }
            if serialize_len > 0 {
                assert(gv[hg] == index_range(head as nat, serialize_len as nat));
            }
            if with_row_number {
                assert(gv[hg + bg] == seq![(head + serialize_len) as usize]);
            }
            assert forall|j: int| 0 <= j < gv.len() implies (#[trigger] gv[j]).len() > 0 by {}
            assert(is_port_partition(gv, n as nat));
            assert forall|j: int, c: int|
                0 <= j < gv.len() && 0 <= c < gv[j].len() implies l0[#[trigger] gv[j][c] as int]
                == l0[gv[j][0] as int] by {
                if serialize_len > 0 && j == hg {
                    assert(gv[j][c] == (head + c) as usize);
                    assert(l0[head + c] == PortTag::Log);
                    assert(l0[head as int] == PortTag::Log);
                } else {
                    assert(gv[j].len() == 1);
                }
            }
        }
        let res = self.main_pipeline.resize_partial_one(ranges);
        match res {
            Ok(_) => {
                proof {
                    let target = serialized_layout(with_mutator, bg as nat, with_row_number);
                    assert forall|j: int|
                        0 <= j < gv.len() implies self.main_pipeline.layout@[j] == target[j] by {
                        if with_mutator && j == 0 {
                            assert(l0[0int] == PortTag::Log);
                        } else if serialize_len > 0 && j == hg {
                            assert(gv[j][0] == head as usize);
                            assert(l0[head as int] == PortTag::Log);
                        } else {
                            assert(gv[j][0] == (head + serialize_len) as usize);
                            assert(l0[head + serialize_len] == PortTag::RowNumber);
                        }
                    }
                    assert(self.main_pipeline.layout@ =~= target);
                }
                Ok(())
            },
            Err(e2) => {
                proof {
                    assert(false);
                }
                Err(e2)
            },
        }
    }
}

/// Decides whether every port of a layout carries the given tag.
pub fn layout_is_uniform(layout: &Vec<PortTag>, tag: PortTag) -> (r: bool)
    ensures
        r == (layout@ == rep_tags(tag, layout@.len())),
{
    let mut i: usize = 0;
    while i < layout.len()
        invariant
            i <= layout@.len(),
            forall|q: int| 0 <= q < i ==> #[trigger] layout@[q] == tag,
        decreases layout@.len() - i,
    {
        if layout[i] != tag {
            proof {
                assert(layout@[i as int] != rep_tags(tag, layout@.len())[i as int]);
            }
            return false;
        }
        i += 1;
    }
    proof {
        assert(layout@ =~= rep_tags(tag, layout@.len()));
    }
    true
}

} // verus!

