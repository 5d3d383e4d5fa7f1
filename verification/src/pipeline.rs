//! Pipeline structure: port tags, stage kinds, pipes, and the structural
//! operators (stage pipes, resize, reorder).
//!
//! A pipeline is an ordered sequence of pipes together with the layout of
//! its current output ports. The layout attaches an explicit semantic tag
//! to every port, and every structural operation is checked against it:
//! a stage pipe must consume exactly the tags the previous level produced,
//! a resize may only merge ports of one tag, and a reorder must be a
//! permutation. Violations are topology errors detected at build time.

use vstd::multiset::Multiset;
use vstd::prelude::*;

verus! {

broadcast use vstd::multiset::group_multiset_axioms, vstd::seq_lib::group_to_multiset_ensures;

/// Semantic role carried by one port at a pipe boundary.
#[derive(Clone, Copy, PartialEq, Eq, Structural, Debug)]
pub enum PortTag {
    /// Row-identifier stream correlating matched rows to their target-table origin.
    RowId,
    /// Columnar data rows (join output, update data or insert candidates).
    Data,
    /// Row-number stream correlating unmatched candidates across workers.
    RowNumber,
    /// Mutation-log stream: the terminal product of the pipeline.
    Log,
    /// Interleaved row-number and mutation-log traffic, as a distributed
    /// exchange delivers it before the splitter separates the two.
    Mixed,
}

/// The operator bound to one slot of a stage pipe. Every stage consumes
/// exactly one input port; its outputs are fixed by its kind.
#[derive(Clone, Copy, PartialEq, Eq, Structural, Debug)]
pub enum StageKind {
    /// Pass-through placeholder keeping sibling lanes structurally aligned.
    Dummy(PortTag),
    /// Splits join output into a matched lane and an unmatched lane.
    MergeIntoSplit,
    /// Splits a matched lane into its row-id stream and its update data.
    MatchedSplit,
    /// Computes insert rows for unmatched candidates.
    NotMatchedCompute,
    /// Projects the row-number column out of an unmatched candidate lane.
    ProjectRowNumber,
    /// Tags each row with a fresh row number owned by the given node index.
    AddRowNumber(u16),
    /// Splits interleaved exchange traffic into row numbers and logs.
    RowNumberAndLogSplit,
    /// Keeps at most one candidate per distinct row number.
    DeduplicateRowNumber,
    /// Recovers full row content for surviving row numbers from the probe
    /// hash table.
    ExtractHashTable,
    /// Fills default-valued columns absent from the projected schema.
    FillDefault,
    /// Fills computed columns absent from the default schema.
    FillComputed,
    /// Re-clusters appendable data by the clustering key.
    ClusterSort,
    /// Serializes data rows into block mutation logs.
    SerializeBlock,
    /// Aggregates block logs into segment mutation logs.
    SerializeSegment,
    /// Applies row-id correlated updates and emits mutation logs.
    RowIdAggregate,
    /// Merges surviving row-number chunks into the canonical output lane.
    AccumulateRowNumber,
}

/// A build-time failure: topology errors (port counts, tags, groupings)
/// and configuration errors (a cluster node that cannot be resolved).
#[derive(Clone, Copy, PartialEq, Eq, Structural, Debug)]
pub enum BuildError {
    /// A pipe was offered more or fewer stages than the level has ports.
    PortCountMismatch,
    /// A stage was offered a port whose tag it does not consume.
    PortTagMismatch,
    /// A resize grouping that drops, duplicates or invents a port.
    BadResizeGrouping,
    /// A reorder rule that is not a permutation of the ports.
    BadReorderPermutation,
    /// The local node id is missing from the cluster index (the payload
    /// names the node id that could not be resolved).
    NotFoundClusterNode(u64),
}

/// The tag of the single input port a stage consumes.
pub open spec fn kind_in_tag(k: StageKind) -> PortTag {
    match k {
        StageKind::Dummy(t) => t,
        StageKind::MergeIntoSplit => PortTag::Data,
        StageKind::MatchedSplit => PortTag::Data,
        StageKind::NotMatchedCompute => PortTag::Data,
        StageKind::ProjectRowNumber => PortTag::Data,
        StageKind::AddRowNumber(_) => PortTag::Data,
        StageKind::RowNumberAndLogSplit => PortTag::Mixed,
        StageKind::DeduplicateRowNumber => PortTag::RowNumber,
        StageKind::ExtractHashTable => PortTag::RowNumber,
        StageKind::FillDefault => PortTag::Data,
        StageKind::FillComputed => PortTag::Data,
        StageKind::ClusterSort => PortTag::Data,
        StageKind::SerializeBlock => PortTag::Data,
        StageKind::SerializeSegment => PortTag::Log,
        StageKind::RowIdAggregate => PortTag::RowId,
        StageKind::AccumulateRowNumber => PortTag::RowNumber,
    }
}

/// The tags of the output ports a stage produces, in port order.
pub open spec fn kind_out_tags(k: StageKind) -> Seq<PortTag> {
    match k {
        StageKind::Dummy(t) => seq![t],
        StageKind::MergeIntoSplit => seq![PortTag::Data, PortTag::Data],
        StageKind::MatchedSplit => seq![PortTag::RowId, PortTag::Data],
        StageKind::NotMatchedCompute => seq![PortTag::Data],
        StageKind::ProjectRowNumber => seq![PortTag::RowNumber],
        StageKind::AddRowNumber(_) => seq![PortTag::Data],
        StageKind::RowNumberAndLogSplit => seq![PortTag::RowNumber, PortTag::Log],
        StageKind::DeduplicateRowNumber => seq![PortTag::RowNumber],
        StageKind::ExtractHashTable => seq![PortTag::Data],
        StageKind::FillDefault => seq![PortTag::Data],
        StageKind::FillComputed => seq![PortTag::Data],
        StageKind::ClusterSort => seq![PortTag::Data],
        StageKind::SerializeBlock => seq![PortTag::Log],
        StageKind::SerializeSegment => seq![PortTag::Log],
        StageKind::RowIdAggregate => seq![PortTag::Log],
        StageKind::AccumulateRowNumber => seq![PortTag::RowNumber],
    }
}

/// Output tags of a whole stage pipe: the stages' outputs, concatenated.
pub open spec fn items_out_tags(items: Seq<StageKind>) -> Seq<PortTag>
    decreases items.len(),
{
    if items.len() == 0 {
        Seq::empty()
    } else {
        items_out_tags(items.drop_last()) + kind_out_tags(items.last())
    }
}

/// One level of the pipeline graph.
#[derive(Clone, Debug)]
pub enum Pipe {
    /// An ordered list of stage bindings, one input port each.
    Stages(Vec<StageKind>),
    /// A fan-in regrouping: output `j` merges the input ports of group `j`.
    Resize(Vec<Vec<usize>>),
    /// A relabeling of port indices: input `i` moves to position `rules[i]`.
    Reorder(Vec<usize>),
}

/// The stage kinds bound in a pipe; empty for resize and reorder levels.
pub open spec fn pipe_stage_kinds(p: Pipe) -> Seq<StageKind> {
    match p {
        Pipe::Stages(v) => v@,
        _ => Seq::empty(),
    }
}

/// The resize grouping of a pipe, as mathematical sequences.
pub open spec fn groups_view(g: Seq<Vec<usize>>) -> Seq<Seq<usize>> {
    g.map_values(|v: Vec<usize>| v@)
}

/// An ordered sequence of pipes plus the tag layout of its output ports.
#[derive(Clone, Debug)]
pub struct Pipeline {
    pub pipes: Vec<Pipe>,
    pub layout: Vec<PortTag>,
}

impl Pipeline {
    /// A pipeline attached to an upstream producer with the given port layout.
    pub fn create(layout: Vec<PortTag>) -> (p: Pipeline)
        ensures
            p.layout == layout,
            p.pipes@ == Seq::<Pipe>::empty(),
    {
        Pipeline { pipes: Vec::new(), layout }
    }

    /// Number of output ports at the current boundary.
    pub fn output_len(&self) -> (n: usize)
        ensures
            n == self.layout@.len(),
    {
        self.layout.len()
    }

    /// Appends a stage pipe. Succeeds exactly when one stage is bound per
    /// current output port and each stage consumes the tag of its port;
    /// the new layout is the concatenation of the stages' output tags.
    pub fn add_pipe(&mut self, items: Vec<StageKind>) -> (r: Result<(), BuildError>)
        ensures
            r is Ok <==> (items@.len() == old(self).layout@.len() && items@.len() > 0 && (forall|
                i: int,
            |
                0 <= i < items@.len() ==> kind_in_tag(#[trigger] items@[i])
                    == old(self).layout@[i])),
            r is Ok ==> final(self).layout@ == items_out_tags(items@) && final(self).pipes@ == old(
                self,
            ).pipes@.push(Pipe::Stages(items)),
            r is Err ==> *final(self) == *old(self),
            (items@.len() == 0 || items@.len() != old(self).layout@.len()) ==> r == Err::<
                (),
                BuildError,
            >(BuildError::PortCountMismatch),
            r is Err && items@.len() == old(self).layout@.len() && items@.len() > 0 ==> r == Err::<
                (),
                BuildError,
            >(BuildError::PortTagMismatch),
    {
        let n = self.layout.len();
        if items.len() == 0 || items.len() != n {
            return Err(BuildError::PortCountMismatch);
        }
        let mut i: usize = 0;
        while i < n
            invariant
                n == self.layout@.len(),
                items@.len() == n,
                i <= n,
                forall|k: int| 0 <= k < i ==> kind_in_tag(#[trigger] items@[k]) == self.layout@[k],
            decreases n - i,
        {
            if stage_in_tag(items[i]) != self.layout[i] {
                return Err(BuildError::PortTagMismatch);
            }
            i += 1;
        }
        let mut new_layout: Vec<PortTag> = Vec::new();
        let mut j: usize = 0;
        while j < items.len()
            invariant
                j <= items@.len(),
                new_layout@ == items_out_tags(items@.take(j as int)),
            decreases items@.len() - j,
        {
            push_out_tags(items[j], &mut new_layout);
            proof {
                assert(items@.take(j + 1).drop_last() =~= items@.take(j as int));
                assert(items@.take(j + 1).last() == items@[j as int]);
            }
            j += 1;
        }
        proof {
            assert(items@.take(items@.len() as int) =~= items@);
        }
        self.layout = new_layout;
        self.pipes.push(Pipe::Stages(items));
        Ok(())
    }
}

/// The multiset of port indices named by a grouping.
pub open spec fn group_multiset(groups: Seq<Seq<usize>>) -> Multiset<usize>
    decreases groups.len(),
{
    if groups.len() == 0 {
        Multiset::empty()
    } else {
        groups.first().to_multiset().add(group_multiset(groups.drop_first()))
    }
}

/// The identity index sequence `0, 1, ..., n - 1`.
pub open spec fn ident_indices(n: nat) -> Seq<usize> {
    Seq::new(n, |i: int| i as usize)
}

/// A grouping partitions the ports `0 .. n`: every port is named exactly
/// once, and no group is empty.
pub open spec fn is_port_partition(groups: Seq<Seq<usize>>, n: nat) -> bool {
    &&& group_multiset(groups) == ident_indices(n).to_multiset()
    &&& forall|j: int| 0 <= j < groups.len() ==> (#[trigger] groups[j]).len() > 0
}

/// Every group names ports of a single tag, so a fan-in merge is
/// semantically meaningful.
pub open spec fn groups_same_tag(groups: Seq<Seq<usize>>, layout: Seq<PortTag>) -> bool {
    forall|j: int, k: int|
        0 <= j < groups.len() && 0 <= k < groups[j].len() ==> layout[#[trigger] groups[j][k] as int]
            == layout[groups[j][0] as int]
}

/// Concatenating groupings adds their index multisets.
pub proof fn lemma_group_multiset_concat(a: Seq<Seq<usize>>, b: Seq<Seq<usize>>)
    ensures
        group_multiset(a + b) == group_multiset(a).add(group_multiset(b)),
    decreases a.len(),
{
    if a.len() == 0 {
        assert(a + b =~= b);
        assert(group_multiset(a + b) =~= group_multiset(a).add(group_multiset(b)));
    } else {
        assert((a + b).first() == a.first());
        assert((a + b).drop_first() =~= a.drop_first() + b);
        lemma_group_multiset_concat(a.drop_first(), b);
        assert(group_multiset(a + b) =~= group_multiset(a).add(group_multiset(b)));
    }
}

/// A sequence's multiset splits at any point into the multisets of its
/// prefix and its suffix.
pub proof fn lemma_to_multiset_split(s: Seq<usize>, k: int)
    requires
        0 <= k <= s.len(),
    ensures
        s.to_multiset() == s.take(k).to_multiset().add(s.skip(k).to_multiset()),
{
    assert(s =~= s.take(k) + s.skip(k));
    vstd::seq_lib::lemma_multiset_commutative(s.take(k), s.skip(k));
}

/// How often each index occurs in the identity sequence: once below `n`,
/// never at or above it.
pub proof fn lemma_ident_count(n: nat, x: usize)
    requires
        n <= usize::MAX,
    ensures
        ident_indices(n).to_multiset().count(x) == if (x as int) < n {
            1nat
        } else {
            0nat
        },
    decreases n,
{
    if n == 0 {
        assert(ident_indices(0).len() == 0);
        assert(!ident_indices(0).contains(x));
        assert(ident_indices(0).to_multiset().count(x) == 0);
    } else {
        let m = (n - 1) as nat;
        lemma_ident_count(m, x);
        assert(ident_indices(n) =~= ident_indices(m).push(m as usize));
        assert(ident_indices(m).push(m as usize).to_multiset() =~= ident_indices(
            m,
        ).to_multiset().insert(m as usize));
        if x == m as usize {
            assert(ident_indices(n).to_multiset().count(x) == ident_indices(
                m,
            ).to_multiset().count(x) + 1);
        } else {
            assert(ident_indices(n).to_multiset().count(x) == ident_indices(
                m,
            ).to_multiset().count(x));
        }
    }
}

/// Every index named by a partition of `0 .. n` lies below `n`.
pub proof fn lemma_partition_element_bound(groups: Seq<Seq<usize>>, n: nat, j: int, k: int)
    requires
        n <= usize::MAX,
        is_port_partition(groups, n),
        0 <= j < groups.len(),
        0 <= k < groups[j].len(),
    ensures
        (groups[j][k] as int) < n,
{
    let x = groups[j][k];
    assert(groups =~= groups.take(j) + groups.skip(j));
    lemma_group_multiset_concat(groups.take(j), groups.skip(j));
    assert(groups.skip(j).first() == groups[j]);
    assert(group_multiset(groups.skip(j)) == groups[j].to_multiset().add(
        group_multiset(groups.skip(j).drop_first()),
    ));
    assert(groups[j].contains(x));
    assert(groups[j].to_multiset().count(x) > 0);
    assert(group_multiset(groups).count(x) > 0);
    lemma_ident_count(n, x);
}

/// `count` consecutive port indices starting at `start`.
pub open spec fn index_range(start: nat, count: nat) -> Seq<usize> {
    Seq::new(count, |i: int| (start + i) as usize)
}

/// `n` ports of one tag.
pub open spec fn rep_tags(t: PortTag, n: nat) -> Seq<PortTag> {
    Seq::new(n, |i: int| t)
}

/// A per-lane pattern repeated over `k` lanes.
pub open spec fn rep_pattern<A>(pat: Seq<A>, k: nat) -> Seq<A>
    decreases k,
{
    if k == 0 {
        Seq::empty()
    } else {
        rep_pattern(pat, (k - 1) as nat) + pat
    }
}

/// Length of a repeated pattern.
pub proof fn lemma_rep_pattern_len<A>(pat: Seq<A>, k: nat)
    ensures
        rep_pattern(pat, k).len() == k * pat.len(),
    decreases k,
{
    if k > 0 {
        lemma_rep_pattern_len(pat, (k - 1) as nat);
        assert(rep_pattern(pat, k) == rep_pattern(pat, (k - 1) as nat) + pat);
        assert(rep_pattern(pat, k).len() == rep_pattern(pat, (k - 1) as nat).len() + pat.len());
        assert(rep_pattern(pat, (k - 1) as nat).len() == ((k - 1) as nat) * pat.len());
        assert(k * pat.len() == ((k - 1) as nat) * pat.len() + pat.len()) by (nonlinear_arith)
            requires
                k >= 1,
        ;
        assert(rep_pattern(pat, k).len() == k * pat.len());
    } else {
        assert(rep_pattern(pat, 0) == Seq::<A>::empty());
        assert(k * pat.len() == 0) by (nonlinear_arith)
            requires
                k == 0,
        ;
        assert(rep_pattern(pat, k).len() == k * pat.len());
    }
}

/// Indexing into a repeated pattern: lane `q`, offset `r`.
pub proof fn lemma_rep_pattern_index<A>(pat: Seq<A>, k: nat, q: nat, r: nat)
    requires
        q < k,
        r < pat.len(),
    ensures
        rep_pattern(pat, k).len() == k * pat.len(),
        rep_pattern(pat, k)[(q * pat.len() + r) as int] == pat[r as int],
    decreases k,
{
    lemma_rep_pattern_len(pat, k);
    if q == k - 1 {
        lemma_rep_pattern_len(pat, (k - 1) as nat);
        assert((k - 1) * pat.len() + pat.len() == k * pat.len()) by (nonlinear_arith);
        assert(rep_pattern(pat, k)[(q * pat.len() + r) as int] == pat[r as int]);
    } else {
        lemma_rep_pattern_index(pat, (k - 1) as nat, q, r);
        lemma_rep_pattern_len(pat, (k - 1) as nat);
        assert(q * pat.len() + r < (k - 1) * pat.len()) by (nonlinear_arith)
            requires
                q + 1 < k,
                r < pat.len(),
        ;
    }
}

/// Pipe output tags distribute over concatenation of the stage list.
pub proof fn lemma_items_out_tags_concat(a: Seq<StageKind>, b: Seq<StageKind>)
    ensures
        items_out_tags(a + b) == items_out_tags(a) + items_out_tags(b),
    decreases b.len(),
{
    if b.len() == 0 {
        assert(a + b =~= a);
        assert(items_out_tags(a) + items_out_tags(b) =~= items_out_tags(a));
    } else {
        lemma_items_out_tags_concat(a, b.drop_last());
        assert((a + b).drop_last() =~= a + b.drop_last());
        assert((a + b).last() == b.last());
        assert(items_out_tags(a + b) =~= items_out_tags(a) + items_out_tags(b));
    }
}

/// A pipe of `n` identical single-output stages produces `n` ports of that
/// stage's output tag.
pub proof fn lemma_items_out_tags_uniform(k: StageKind, n: nat)
    requires
        kind_out_tags(k).len() == 1,
    ensures
        items_out_tags(Seq::new(n, |i: int| k)) == Seq::new(n, |i: int| kind_out_tags(k)[0]),
    decreases n,
{
    let items = Seq::new(n, |i: int| k);
    if n == 0 {
        assert(items_out_tags(items) =~= Seq::new(0, |i: int| kind_out_tags(k)[0]));
    } else {
        lemma_items_out_tags_uniform(k, (n - 1) as nat);
        assert(items.drop_last() =~= Seq::new((n - 1) as nat, |i: int| k));
        assert(items.last() == k);
        assert(kind_out_tags(k) =~= seq![kind_out_tags(k)[0]]);
        assert(items_out_tags(items) =~= Seq::new(n, |i: int| kind_out_tags(k)[0]));
    }
}

/// Appending a group adds its indices to the grouping's multiset.
pub proof fn lemma_group_multiset_push(groups: Seq<Seq<usize>>, g: Seq<usize>)
    ensures
        group_multiset(groups.push(g)) == group_multiset(groups).add(g.to_multiset()),
{
    assert(groups.push(g) =~= groups + seq![g]);
    lemma_group_multiset_concat(groups, seq![g]);
    assert(seq![g].first() == g);
    assert(seq![g].drop_first() =~= Seq::<Seq<usize>>::empty());
    assert(group_multiset(Seq::<Seq<usize>>::empty()) == Multiset::<usize>::empty());
    assert(group_multiset(seq![g]) =~= g.to_multiset());
}

/// Consecutive indices extend the identity multiset.
pub proof fn lemma_index_range_multiset(a: nat, c: nat)
    requires
        a + c <= usize::MAX,
    ensures
        ident_indices(a).to_multiset().add(index_range(a, c).to_multiset()) == ident_indices(
            a + c,
        ).to_multiset(),
    decreases c,
{
    if c == 0 {
        assert(index_range(a, 0) =~= Seq::<usize>::empty());
        assert(!index_range(a, 0).contains((0 as usize)));
        assert(index_range(a, 0).to_multiset().len() == 0);
        assert(ident_indices(a).to_multiset().add(index_range(a, 0).to_multiset()) =~= ident_indices(
            a,
        ).to_multiset());
    } else {
        let c1 = (c - 1) as nat;
        lemma_index_range_multiset(a, c1);
        assert(index_range(a, c) =~= index_range(a, c1).push((a + c1) as usize));
        assert(index_range(a, c).to_multiset() =~= index_range(a, c1).to_multiset().insert(
            (a + c1) as usize,
        ));
        assert(ident_indices(a + c) =~= ident_indices(a + c1).push((a + c1) as usize));
        assert(ident_indices(a + c).to_multiset() =~= ident_indices(a + c1).to_multiset().insert(
            (a + c1) as usize,
        ));
        assert(ident_indices(a).to_multiset().add(index_range(a, c).to_multiset())
            =~= ident_indices(a + c).to_multiset());
    }
}

/// Decides whether a grouping partitions the ports `0 .. n`.
pub fn check_port_partition(groups: &Vec<Vec<usize>>, n: usize) -> (r: bool)
    ensures
        r == is_port_partition(groups_view(groups@), n as nat),
{
    let ghost gv = groups_view(groups@);
    let mut seen: Vec<bool> = Vec::new();
    let mut i: usize = 0;
    while i < n
        invariant
            i <= n,
            seen@.len() == i,
            forall|x: int| 0 <= x < i ==> !(#[trigger] seen@[x]),
        decreases n - i,
    {
        seen.push(false);
        i += 1;
    }
    let ghost mut ms: Multiset<usize> = Multiset::empty();
    let mut j: usize = 0;
    while j < groups.len()
        invariant
            gv == groups_view(groups@),
            gv.len() == groups@.len(),
            j <= gv.len(),
            seen@.len() == n,
            ms == group_multiset(gv.take(j as int)),
            forall|x: usize| (x as int) >= n ==> (#[trigger] ms.count(x)) == 0,
            forall|x: int|
                0 <= x < n ==> if #[trigger] seen@[x] {
                    ms.count(x as usize) == 1
                } else {
                    ms.count(x as usize) == 0
                },
            forall|jj: int| 0 <= jj < j ==> (#[trigger] gv[jj]).len() > 0,
        decreases gv.len() - j,
    {
        proof {
            assert(gv[j as int] == groups@[j as int]@);
        }
        if groups[j].len() == 0 {
            proof {
                assert(gv[j as int].len() == 0);
            }
            return false;
        }
        let glen = groups[j].len();
        let mut k: usize = 0;
        while k < glen
            invariant
                gv == groups_view(groups@),
                gv.len() == groups@.len(),
                j < gv.len(),
                gv[j as int] == groups@[j as int]@,
                glen == gv[j as int].len(),
                k <= glen,
                seen@.len() == n,
                ms == group_multiset(gv.take(j as int)).add(
                    gv[j as int].take(k as int).to_multiset(),
                ),
                forall|x: usize| (x as int) >= n ==> (#[trigger] ms.count(x)) == 0,
                forall|x: int|
                    0 <= x < n ==> if #[trigger] seen@[x] {
                        ms.count(x as usize) == 1
                    } else {
                        ms.count(x as usize) == 0
                    },
            decreases glen - k,
        {
            let idx = groups[j][k];
            proof {
                assert(gv[j as int][k as int] == idx);
                assert(gv[j as int].contains(idx));
                assert(gv =~= gv.take(j as int) + gv.skip(j as int));
                lemma_group_multiset_concat(gv.take(j as int), gv.skip(j as int));
                assert(gv.skip(j as int).first() == gv[j as int]);
                assert(group_multiset(gv.skip(j as int)) == gv[j as int].to_multiset().add(
                    group_multiset(gv.skip(j as int).drop_first()),
                ));
                lemma_to_multiset_split(gv[j as int], k as int);
                assert(gv[j as int].skip(k as int)[0] == idx);
                assert(gv[j as int].skip(k as int).contains(idx));
                assert(gv[j as int].skip(k as int).to_multiset().count(idx) > 0);
            }
            if idx >= n {
                proof {
                    assert(group_multiset(gv).count(idx) > 0);
                    if is_port_partition(gv, n as nat) {
                        lemma_ident_count(n as nat, idx);
                        assert(false);
                    }
                }
                return false;
            }
            if seen[idx] {
                proof {
                    assert(ms.count(idx) == 1);
                    assert(gv[j as int].take(k as int).to_multiset().count(idx)
                        + gv[j as int].skip(k as int).to_multiset().count(idx) == gv[
                        j as int].to_multiset().count(idx));
                    assert(group_multiset(gv).count(idx) >= 2);
                    if is_port_partition(gv, n as nat) {
                        lemma_ident_count(n as nat, idx);
                        assert(false);
                    }
                }
                return false;
            }
            seen[idx] = true;
            proof {
                assert(gv[j as int].take(k + 1) =~= gv[j as int].take(k as int).push(idx));
                assert(gv[j as int].take(k + 1).to_multiset() =~= gv[j as int].take(
                    k as int,
                ).to_multiset().insert(idx));
                ms = ms.insert(idx);
                assert(ms =~= group_multiset(gv.take(j as int)).add(
                    gv[j as int].take(k + 1).to_multiset(),
                ));
            }
            k += 1;
        }
        proof {
            assert(gv[j as int].take(glen as int) =~= gv[j as int]);
            assert(gv.take(j + 1) =~= gv.take(j as int) + seq![gv[j as int]]);
            lemma_group_multiset_concat(gv.take(j as int), seq![gv[j as int]]);
            assert(seq![gv[j as int]].first() == gv[j as int]);
            assert(seq![gv[j as int]].drop_first() =~= Seq::<Seq<usize>>::empty());
            assert(group_multiset(Seq::<Seq<usize>>::empty()) == Multiset::<usize>::empty());
            assert(group_multiset(seq![gv[j as int]]) == gv[j as int].to_multiset().add(
                Multiset::<usize>::empty(),
            ));
            assert(group_multiset(seq![gv[j as int]]) =~= gv[j as int].to_multiset());
            assert(ms =~= group_multiset(gv.take(j + 1)));
        }
        j += 1;
    }
    proof {
        assert(gv.take(gv.len() as int) =~= gv);
    }
    let mut p: usize = 0;
    while p < n
        invariant
            gv == groups_view(groups@),
            seen@.len() == n,
            p <= n,
            ms == group_multiset(gv),
            forall|x: usize| (x as int) >= n ==> (#[trigger] ms.count(x)) == 0,
            forall|x: int|
                0 <= x < n ==> if #[trigger] seen@[x] {
                    ms.count(x as usize) == 1
                } else {
                    ms.count(x as usize) == 0
                },
            forall|x: int| 0 <= x < p ==> #[trigger] seen@[x],
        decreases n - p,
    {
        if !seen[p] {
            proof {
                assert(ms.count(p) == 0);
                if is_port_partition(gv, n as nat) {
                    lemma_ident_count(n as nat, p);
                    assert(false);
                }
            }
            return false;
        }
        p += 1;
    }
    proof {
        assert forall|x: usize|
            ms.count(x) == ident_indices(n as nat).to_multiset().count(x) by {
            lemma_ident_count(n as nat, x);
            if (x as int) < n {
                assert(seen@[x as int]);
            }
        }
        assert(ms =~= ident_indices(n as nat).to_multiset());
    }
    true
}

/// Decides whether every group of a partition names ports of one tag.
pub fn check_groups_same_tag(groups: &Vec<Vec<usize>>, layout: &Vec<PortTag>) -> (r: bool)
    requires
        is_port_partition(groups_view(groups@), layout@.len() as nat),
    ensures
        r == groups_same_tag(groups_view(groups@), layout@),
{
    let ghost gv = groups_view(groups@);
    let n = layout.len();
    let mut j: usize = 0;
    while j < groups.len()
        invariant
            gv == groups_view(groups@),
            gv.len() == groups@.len(),
            n == layout@.len(),
            is_port_partition(gv, layout@.len() as nat),
            j <= gv.len(),
            forall|jj: int, kk: int|
                0 <= jj < j && 0 <= kk < gv[jj].len() ==> layout@[#[trigger] gv[jj][kk] as int]
                    == layout@[gv[jj][0] as int],
        decreases gv.len() - j,
    {
        proof {
            assert(gv[j as int] == groups@[j as int]@);
            assert(gv[j as int].len() > 0);
            lemma_partition_element_bound(gv, layout@.len() as nat, j as int, 0);
        }
        let rep = groups[j][0];
        let glen = groups[j].len();
        let mut k: usize = 0;
        while k < glen
            invariant
                gv == groups_view(groups@),
                gv.len() == groups@.len(),
                n == layout@.len(),
                is_port_partition(gv, layout@.len() as nat),
                j < gv.len(),
                gv[j as int] == groups@[j as int]@,
                glen == gv[j as int].len(),
                glen > 0,
                k <= glen,
                rep == gv[j as int][0],
                (rep as int) < layout@.len(),
                forall|kk: int|
                    0 <= kk < k ==> layout@[#[trigger] gv[j as int][kk] as int] == layout@[rep as int],
            decreases glen - k,
        {
            proof {
                lemma_partition_element_bound(gv, layout@.len() as nat, j as int, k as int);
            }
            let idx = groups[j][k];
            if stage_tag_ne(layout[idx], layout[rep]) {
                proof {
                    assert(layout@[gv[j as int][k as int] as int] != layout@[gv[j as int][0] as int]);
                }
                return false;
            }
            k += 1;
        }
        j += 1;
    }
    true
}

/// Tag inequality, as executable code.
fn stage_tag_ne(a: PortTag, b: PortTag) -> (r: bool)
    ensures
        r == (a != b),
{
    a != b
}

/// Copies a port layout.
pub fn copy_tags(layout: &Vec<PortTag>) -> (r: Vec<PortTag>)
    ensures
        r@ == layout@,
{
    let mut r: Vec<PortTag> = Vec::new();
    let mut i: usize = 0;
    while i < layout.len()
        invariant
            i <= layout@.len(),
            r@ == layout@.subrange(0, i as int),
        decreases layout@.len() - i,
    {
        r.push(layout[i]);
        proof {
            assert(r@ =~= layout@.subrange(0, i + 1));
        }
        i += 1;
    }
    proof {
        assert(r@ =~= layout@);
    }
    r
}

/// A reorder rule is a permutation: one destination below `n` per input,
/// no two inputs sharing a destination, every destination covered.
pub open spec fn is_permutation(rules: Seq<usize>, n: nat) -> bool {
    &&& rules.len() == n
    &&& forall|i: int| 0 <= i < n ==> (#[trigger] rules[i] as int) < n
    &&& forall|i1: int, i2: int|
        0 <= i1 < n && 0 <= i2 < n && i1 != i2 ==> rules[i1] != rules[i2]
    &&& forall|p: usize| (p as int) < n ==> #[trigger] rules.contains(p)
}

/// Decides whether a reorder rule is a permutation of `0 .. n`.
pub fn check_permutation(rules: &Vec<usize>, n: usize) -> (r: bool)
    ensures
        r == is_permutation(rules@, n as nat),
{
    if rules.len() != n {
        return false;
    }
    let mut seen: Vec<bool> = Vec::new();
    let mut i: usize = 0;
    while i < n
        invariant
            i <= n,
            seen@.len() == i,
            forall|x: int| 0 <= x < i ==> !(#[trigger] seen@[x]),
        decreases n - i,
    {
        seen.push(false);
        i += 1;
    }
    let mut t: usize = 0;
    while t < n
        invariant
            rules@.len() == n,
            seen@.len() == n,
            t <= n,
            forall|ii: int| 0 <= ii < t ==> (#[trigger] rules@[ii] as int) < n,
            forall|x: int|
                0 <= x < n ==> ((#[trigger] seen@[x]) <==> exists|ii: int|
                    0 <= ii < t && (#[trigger] rules@[ii] as int) == x),
            forall|i1: int, i2: int|
                0 <= i1 < t && 0 <= i2 < t && i1 != i2 ==> rules@[i1] != rules@[i2],
        decreases n - t,
    {
        let d = rules[t];
        if d >= n {
            return false;
        }
        if seen[d] {
            proof {
                let ii = choose|ii: int| 0 <= ii < t && (#[trigger] rules@[ii] as int) == d as int;
                assert(rules@[ii] == rules@[t as int]);
                assert(!is_permutation(rules@, n as nat));
            }
            return false;
        }
        seen[d] = true;
        proof {
            assert forall|x: int|
                0 <= x < n implies ((#[trigger] seen@[x]) <==> exists|ii: int|
                0 <= ii < t + 1 && (#[trigger] rules@[ii] as int) == x) by {
                if x == d as int {
                    assert(rules@[t as int] as int == x);
                } else {
                    if seen@[x] {
                        let ii = choose|ii: int|
                            0 <= ii < t && (#[trigger] rules@[ii] as int) == x;
                        assert(0 <= ii < t + 1 && rules@[ii] as int == x);
                    }
                }
            }
            assert forall|i1: int, i2: int|
                0 <= i1 < t + 1 && 0 <= i2 < t + 1 && i1 != i2 implies rules@[i1]
                != rules@[i2] by {
                if i2 == t {
                    if 0 <= i1 < t && rules@[i1] == d {
                        assert(rules@[i1] as int == d as int);
                    }
                } else if i1 == t {
                    if 0 <= i2 < t && rules@[i2] == d {
                        assert(rules@[i2] as int == d as int);
                    }
                }
            }
        }
        t += 1;
    }
    let mut p: usize = 0;
    while p < n
        invariant
            rules@.len() == n,
            seen@.len() == n,
            p <= n,
            forall|ii: int| 0 <= ii < n ==> (#[trigger] rules@[ii] as int) < n,
            forall|x: int|
                0 <= x < n ==> ((#[trigger] seen@[x]) <==> exists|ii: int|
                    0 <= ii < n && (#[trigger] rules@[ii] as int) == x),
            forall|x: int| 0 <= x < p ==> #[trigger] seen@[x],
        decreases n - p,
    {
        if !seen[p] {
            proof {
                if rules@.contains(p) {
                    let ii = choose|ii: int| 0 <= ii < rules@.len() && rules@[ii] == p;
                    assert((rules@[ii] as int) == p as int);
                    assert(seen@[p as int]);
                }
            }
            return false;
        }
        p += 1;
    }
    proof {
        assert forall|p: usize| (p as int) < n implies #[trigger] rules@.contains(p) by {
            assert(seen@[p as int]);
            let ii = choose|ii: int| 0 <= ii < n && (#[trigger] rules@[ii] as int) == p as int;
            assert(rules@[ii] == p);
        }
    }
    true
}

impl Pipeline {
    /// Appends a resize pipe: output `j` is the fan-in merge of the input
    /// ports of `ranges[j]`. Succeeds exactly when the grouping partitions
    /// the current ports and each group carries one tag; the new layout
    /// keeps each group's tag.
    pub fn resize_partial_one(&mut self, ranges: Vec<Vec<usize>>) -> (r: Result<(), BuildError>)
        ensures
            r is Ok <==> (is_port_partition(groups_view(ranges@), old(self).layout@.len() as nat)
                && groups_same_tag(groups_view(ranges@), old(self).layout@)),
            r is Ok ==> final(self).layout@ == Seq::new(
                ranges@.len() as nat,
                |j: int| old(self).layout@[groups_view(ranges@)[j][0] as int],
            ) && final(self).pipes@ == old(self).pipes@.push(Pipe::Resize(ranges)),
            r is Err ==> *final(self) == *old(self),
            !is_port_partition(groups_view(ranges@), old(self).layout@.len() as nat) ==> r == Err::<
                (),
                BuildError,
            >(BuildError::BadResizeGrouping),
            is_port_partition(groups_view(ranges@), old(self).layout@.len() as nat)
                && !groups_same_tag(groups_view(ranges@), old(self).layout@) ==> r == Err::<
                (),
                BuildError,
            >(BuildError::PortTagMismatch),
    {
        let ghost gv = groups_view(ranges@);
        let n = self.layout.len();
        if !check_port_partition(&ranges, n) {
            return Err(BuildError::BadResizeGrouping);
        }
        if !check_groups_same_tag(&ranges, &self.layout) {
            return Err(BuildError::PortTagMismatch);
        }
        let mut new_layout: Vec<PortTag> = Vec::new();
        let mut j: usize = 0;
        while j < ranges.len()
            invariant
                gv == groups_view(ranges@),
                gv.len() == ranges@.len(),
                n == self.layout@.len(),
                is_port_partition(gv, self.layout@.len() as nat),
                j <= gv.len(),
                new_layout@.len() == j,
                forall|jj: int|
                    0 <= jj < j ==> #[trigger] new_layout@[jj] == self.layout@[gv[jj][0] as int],
            decreases gv.len() - j,
        {
            proof {
                assert(gv[j as int] == ranges@[j as int]@);
                assert(gv[j as int].len() > 0);
                lemma_partition_element_bound(gv, self.layout@.len() as nat, j as int, 0);
            }
            new_layout.push(self.layout[ranges[j][0]]);
            j += 1;
        }
        proof {
            assert(new_layout@ =~= Seq::new(
                gv.len() as nat,
                |j: int| self.layout@[gv[j][0] as int],
            ));
        }
        self.layout = new_layout;
        self.pipes.push(Pipe::Resize(ranges));
        Ok(())
    }

    /// Appends a reorder pipe: input `i` is relabeled to position
    /// `rules[i]`, moving no data. Succeeds exactly when `rules` is a
    /// permutation of the current ports.
    pub fn reorder_inputs(&mut self, rules: Vec<usize>) -> (r: Result<(), BuildError>)
        ensures
            r is Ok <==> is_permutation(rules@, old(self).layout@.len() as nat),
            r is Ok ==> final(self).layout@.len() == old(self).layout@.len() && (forall|i: int|
                0 <= i < rules@.len() ==> final(self).layout@[#[trigger] rules@[i] as int] == old(
                    self,
                ).layout@[i]) && final(self).pipes@ == old(self).pipes@.push(Pipe::Reorder(rules)),
            r is Err ==> *final(self) == *old(self) && r == Err::<(), BuildError>(
                BuildError::BadReorderPermutation,
            ),
    {
        let n = self.layout.len();
        if !check_permutation(&rules, n) {
            return Err(BuildError::BadReorderPermutation);
        }
        let mut new_layout = copy_tags(&self.layout);
        let mut i: usize = 0;
        while i < n
            invariant
                n == self.layout@.len(),
                rules@.len() == n,
                is_permutation(rules@, n as nat),
                i <= n,
                new_layout@.len() == n,
                forall|ii: int|
                    0 <= ii < i ==> new_layout@[#[trigger] rules@[ii] as int] == self.layout@[ii],
            decreases n - i,
        {
            let d = rules[i];
            proof {
                assert((rules@[i as int] as int) < n);
            }
            new_layout[d] = self.layout[i];
            i += 1;
        }
        self.layout = new_layout;
        self.pipes.push(Pipe::Reorder(rules));
        Ok(())
    }

    /// Resizes to `new_count` ports by merging the leading ports into one
    /// and keeping the trailing `new_count - 1` ports. Succeeds exactly
    /// when `1 <= new_count <= ports` and the merged ports share one tag.
    pub fn try_resize(&mut self, new_count: usize) -> (r: Result<(), BuildError>)
        ensures
            r is Ok <==> (1 <= new_count <= old(self).layout@.len() && (forall|i: int|
                0 <= i <= old(self).layout@.len() - new_count ==> #[trigger] old(self).layout@[i]
                    == old(self).layout@[0])),
            r is Ok ==> final(self).layout@ == seq![old(self).layout@[0]] + old(
                self,
            ).layout@.skip(old(self).layout@.len() - new_count + 1) && final(self).pipes@.len()
                == old(self).pipes@.len() + 1 && (forall|q: int|
                0 <= q < old(self).pipes@.len() ==> #[trigger] final(self).pipes@[q] == old(
                    self,
                ).pipes@[q]) && final(self).pipes@.last() is Resize,
            r is Err ==> *final(self) == *old(self),
            (new_count == 0 || new_count > old(self).layout@.len()) ==> r == Err::<
                (),
                BuildError,
            >(BuildError::PortCountMismatch),
    {
        let n = self.layout.len();
        if new_count == 0 || new_count > n {
            return Err(BuildError::PortCountMismatch);
        }
        let m = n - new_count;
        let mut group0: Vec<usize> = Vec::new();
        let mut i: usize = 0;
        proof {
            assert(group0@ =~= ident_indices(0));
        }
        while i <= m
            invariant
                m < n <= usize::MAX,
                i <= m + 1,
                group0@ == ident_indices(i as nat),
            decreases m + 1 - i,
        {
            group0.push(i);
            proof {
                assert(group0@ =~= ident_indices((i + 1) as nat));
            }
            i += 1;
        }
        let mut ranges: Vec<Vec<usize>> = Vec::new();
        ranges.push(group0);
        proof {
            let gv0 = groups_view(ranges@);
            assert(gv0 =~= seq![ident_indices((m + 1) as nat)]);
            assert(gv0.first() == ident_indices((m + 1) as nat));
            assert(gv0.drop_first() =~= Seq::<Seq<usize>>::empty());
            assert(group_multiset(Seq::<Seq<usize>>::empty()) == Multiset::<usize>::empty());
            assert(group_multiset(gv0) == gv0.first().to_multiset().add(
                group_multiset(gv0.drop_first()),
            ));
            assert(group_multiset(gv0) =~= ident_indices((m + 1) as nat).to_multiset());
        }
        let mut s: usize = 1;
        while s < new_count
            invariant
                m + new_count == n <= usize::MAX,
                1 <= s <= new_count,
                ranges@.len() == s,
                groups_view(ranges@)[0] == ident_indices((m + 1) as nat),
                forall|j: int|
                    1 <= j < s ==> #[trigger] groups_view(ranges@)[j] =~= seq![(m + j) as usize],
                group_multiset(groups_view(ranges@)) == ident_indices((m + s) as nat).to_multiset(),
            decreases new_count - s,
        {
            let ghost gv_before = groups_view(ranges@);
            let mut single: Vec<usize> = Vec::new();
            single.push(m + s);
            ranges.push(single);
            proof {
                let gv_after = groups_view(ranges@);
                assert(gv_after =~= gv_before + seq![seq![(m + s) as usize]]);
                lemma_group_multiset_concat(gv_before, seq![seq![(m + s) as usize]]);
                assert(seq![seq![(m + s) as usize]].first() == seq![(m + s) as usize]);
                assert(seq![seq![(m + s) as usize]].drop_first() =~= Seq::<Seq<usize>>::empty());
                assert(group_multiset(Seq::<Seq<usize>>::empty()) == Multiset::<usize>::empty());
                assert(group_multiset(seq![seq![(m + s) as usize]]) == seq![(m + s) as usize]
                    .to_multiset().add(Multiset::<usize>::empty()));
                assert(seq![(m + s) as usize] =~= Seq::<usize>::empty().push((m + s) as usize));
                assert(seq![(m + s) as usize].to_multiset() =~= Multiset::<usize>::empty().insert(
                    (m + s) as usize,
                ));
                assert(ident_indices((m + s + 1) as nat) =~= ident_indices((m + s) as nat).push(
                    (m + s) as usize,
                ));
                assert(ident_indices((m + s + 1) as nat).to_multiset() =~= ident_indices(
                    (m + s) as nat,
                ).to_multiset().insert((m + s) as usize));
                assert(group_multiset(gv_after) =~= ident_indices((m + s + 1) as nat).to_multiset());
            }
            s += 1;
        }
        let ghost gv = groups_view(ranges@);
        proof {
            assert(gv.len() == new_count);
            assert forall|j: int| 0 <= j < gv.len() implies (#[trigger] gv[j]).len() > 0 by {
                if j == 0 {
                    assert(gv[0].len() == m + 1);
                } else {
                    assert(gv[j] =~= seq![(m + j) as usize]);
                }
            }
            assert(is_port_partition(gv, n as nat));
        }
        // the leading group must carry one tag; singleton groups always do
        let mut t: usize = 0;
        let mut tags_ok = true;
        while t <= m
            invariant
                m < n == self.layout@.len(),
                t <= m + 1,
                tags_ok == (forall|i: int| 0 <= i < t ==> #[trigger] self.layout@[i]
                    == self.layout@[0]),
            decreases m + 1 - t,
        {
            if stage_tag_ne(self.layout[t], self.layout[0]) {
                tags_ok = false;
            }
            t += 1;
        }
        if !tags_ok {
            proof {
                assert(!groups_same_tag(gv, self.layout@)) by {
                    let bad = choose|i: int|
                        0 <= i <= m && #[trigger] self.layout@[i] != self.layout@[0];
                    assert(gv[0][bad] == bad as usize);
                    assert(gv[0][0] == 0usize);
                }
            }
            return Err(BuildError::PortTagMismatch);
        }
        proof {
            assert forall|j: int, k: int|
                0 <= j < gv.len() && 0 <= k < gv[j].len() implies self.layout@[#[trigger] gv[j][k] as int]
                == self.layout@[gv[j][0] as int] by {
                if j == 0 {
                    assert(gv[0][k] == k as usize);
                    assert(gv[0][0] == 0usize);
                } else {
                    assert(gv[j] =~= seq![(m + j) as usize]);
                    assert(k == 0);
                }
            }
        }
        let ghost layout0 = self.layout@;
        let res = self.resize_partial_one(ranges);
        match res {
            Ok(_) => {
                proof {
                    assert(self.layout@ =~= seq![layout0[0]] + layout0.skip((m + 1) as int)) by {
                        assert forall|j: int| 0 <= j < new_count implies #[trigger] self.layout@[j]
                            == (seq![layout0[0]] + layout0.skip((m + 1) as int))[j] by {
                            if j == 0 {
                                assert(gv[0][0] == 0usize);
                            } else {
                                assert(gv[j] =~= seq![(m + j) as usize]);
                            }
                        }
                    }
                }
                Ok(())
            },
            Err(e) => {
                proof {
                    assert(false);
                }
                Err(e)
            },
        }
    }
}

/// The input tag of a stage, as executable code.
pub fn stage_in_tag(k: StageKind) -> (t: PortTag)
    ensures
        t == kind_in_tag(k),
{
    match k {
        StageKind::Dummy(t) => t,
        StageKind::MergeIntoSplit => PortTag::Data,
        StageKind::MatchedSplit => PortTag::Data,
        StageKind::NotMatchedCompute => PortTag::Data,
        StageKind::ProjectRowNumber => PortTag::Data,
        StageKind::AddRowNumber(_) => PortTag::Data,
        StageKind::RowNumberAndLogSplit => PortTag::Mixed,
        StageKind::DeduplicateRowNumber => PortTag::RowNumber,
        StageKind::ExtractHashTable => PortTag::RowNumber,
        StageKind::FillDefault => PortTag::Data,
        StageKind::FillComputed => PortTag::Data,
        StageKind::ClusterSort => PortTag::Data,
        StageKind::SerializeBlock => PortTag::Data,
        StageKind::SerializeSegment => PortTag::Log,
        StageKind::RowIdAggregate => PortTag::RowId,
        StageKind::AccumulateRowNumber => PortTag::RowNumber,
    }
}

/// Appends a stage's output tags to a layout under construction.
pub fn push_out_tags(k: StageKind, layout: &mut Vec<PortTag>)
    ensures
        final(layout)@ == old(layout)@ + kind_out_tags(k),
{
    let ghost l0 = layout@;
    match k {
        StageKind::Dummy(t) => layout.push(t),
        StageKind::MergeIntoSplit => {
            layout.push(PortTag::Data);
            layout.push(PortTag::Data);
        },
        StageKind::MatchedSplit => {
            layout.push(PortTag::RowId);
            layout.push(PortTag::Data);
        },
        StageKind::NotMatchedCompute => layout.push(PortTag::Data),
        StageKind::ProjectRowNumber => layout.push(PortTag::RowNumber),
        StageKind::AddRowNumber(_) => layout.push(PortTag::Data),
        StageKind::RowNumberAndLogSplit => {
            layout.push(PortTag::RowNumber);
            layout.push(PortTag::Log);
        },
        StageKind::DeduplicateRowNumber => layout.push(PortTag::RowNumber),
        StageKind::ExtractHashTable => layout.push(PortTag::Data),
        StageKind::FillDefault => layout.push(PortTag::Data),
        StageKind::FillComputed => layout.push(PortTag::Data),
        StageKind::ClusterSort => layout.push(PortTag::Data),
        StageKind::SerializeBlock => layout.push(PortTag::Log),
        StageKind::SerializeSegment => layout.push(PortTag::Log),
        StageKind::RowIdAggregate => layout.push(PortTag::Log),
        StageKind::AccumulateRowNumber => layout.push(PortTag::RowNumber),
    }
    proof {
        assert(layout@ =~= l0 + kind_out_tags(k));
    }
}

} // verus!
