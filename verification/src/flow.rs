//! Data movement through resize levels, and the conservation law: a
//! resize regroups lanes without losing or duplicating a single row.
//!
//! A lane is a stream of chunks; its mathematical view is the sequence of
//! the chunks' row batches, and its row content is the multiset of all
//! rows in them.

use vstd::multiset::Multiset;
use vstd::prelude::*;

use crate::chunk::Chunk;
use crate::chunk::copy_chunk;
use crate::pipeline::BuildError;
use crate::pipeline::check_port_partition;
use crate::pipeline::group_multiset;
use crate::pipeline::groups_view;
use crate::pipeline::ident_indices;
use crate::pipeline::is_port_partition;
use crate::pipeline::lemma_partition_element_bound;

verus! {

broadcast use vstd::multiset::group_multiset_axioms, vstd::seq_lib::group_to_multiset_ensures;

/// The row batches a chunk stream carries, chunk by chunk.
pub open spec fn lane_view(s: Seq<Chunk>) -> Seq<Seq<Seq<u64>>> {
    s.map_values(|c: Chunk| c.rows())
}

/// The row batches of every lane of a multi-lane stream.
pub open spec fn lanes_view(v: Seq<Vec<Chunk>>) -> Seq<Seq<Seq<Seq<u64>>>> {
    v.map_values(|lane: Vec<Chunk>| lane_view(lane@))
}

/// The multiset of all rows a lane carries.
pub open spec fn lane_rows(rs: Seq<Seq<Seq<u64>>>) -> Multiset<Seq<u64>>
    decreases rs.len(),
{
    if rs.len() == 0 {
        Multiset::empty()
    } else {
        lane_rows(rs.drop_last()).add(rs.last().to_multiset())
    }
}

/// The concatenation of the named lanes' row batches, in group order.
pub open spec fn concat_lanes(
    inputs: Seq<Seq<Seq<Seq<u64>>>>,
    idxs: Seq<usize>,
) -> Seq<Seq<Seq<u64>>>
    decreases idxs.len(),
{
    if idxs.len() == 0 {
        Seq::empty()
    } else {
        concat_lanes(inputs, idxs.drop_last()) + inputs[idxs.last() as int]
    }
}

/// The multiset of all rows the named lanes carry.
pub open spec fn group_rows(inputs: Seq<Seq<Seq<Seq<u64>>>>, idxs: Seq<usize>) -> Multiset<
    Seq<u64>,
>
    decreases idxs.len(),
{
    if idxs.len() == 0 {
        Multiset::empty()
    } else {
        group_rows(inputs, idxs.drop_last()).add(lane_rows(inputs[idxs.last() as int]))
    }
}

/// The multiset of all rows of all lanes.
pub open spec fn lanes_rows(inputs: Seq<Seq<Seq<Seq<u64>>>>) -> Multiset<Seq<u64>>
    decreases inputs.len(),
{
    if inputs.len() == 0 {
        Multiset::empty()
    } else {
        lanes_rows(inputs.drop_last()).add(lane_rows(inputs.last()))
    }
}

/// Lane rows distribute over concatenation of chunk streams.
pub proof fn lemma_lane_rows_concat(a: Seq<Seq<Seq<u64>>>, b: Seq<Seq<Seq<u64>>>)
    ensures
        lane_rows(a + b) == lane_rows(a).add(lane_rows(b)),
    decreases b.len(),
{
    if b.len() == 0 {
        assert(a + b =~= a);
        assert(lane_rows(a).add(lane_rows(b)) =~= lane_rows(a));
    } else {
        lemma_lane_rows_concat(a, b.drop_last());
        assert((a + b).drop_last() =~= a + b.drop_last());
        assert((a + b).last() == b.last());
        assert(lane_rows(a + b) =~= lane_rows(a).add(lane_rows(b)));
    }
}

/// The rows of a fan-in merged lane are the rows of its sources.
pub proof fn lemma_concat_lanes_rows(inputs: Seq<Seq<Seq<Seq<u64>>>>, idxs: Seq<usize>)
    ensures
        lane_rows(concat_lanes(inputs, idxs)) == group_rows(inputs, idxs),
    decreases idxs.len(),
{
    if idxs.len() > 0 {
        lemma_concat_lanes_rows(inputs, idxs.drop_last());
        lemma_lane_rows_concat(
            concat_lanes(inputs, idxs.drop_last()),
            inputs[idxs.last() as int],
        );
    }
}

/// Removing one index removes exactly that lane's rows from a group.
pub proof fn lemma_group_rows_remove(inputs: Seq<Seq<Seq<Seq<u64>>>>, idxs: Seq<usize>, p: int)
    requires
        0 <= p < idxs.len(),
    ensures
        group_rows(inputs, idxs) == group_rows(inputs, idxs.remove(p)).add(
            lane_rows(inputs[idxs[p] as int]),
        ),
    decreases idxs.len(),
{
    if p == idxs.len() - 1 {
        assert(idxs.remove(p) =~= idxs.drop_last());
    } else {
        lemma_group_rows_remove(inputs, idxs.drop_last(), p);
        assert(idxs.remove(p).drop_last() =~= idxs.drop_last().remove(p));
        assert(idxs.remove(p).last() == idxs.last());
        assert(group_rows(inputs, idxs) =~= group_rows(inputs, idxs.remove(p)).add(
            lane_rows(inputs[idxs[p] as int]),
        ));
    }
}

/// A group's rows depend only on which lanes it names, however often and
/// in whatever order: two index sequences with one multiset collect one
/// row multiset.
pub proof fn lemma_group_rows_permutation(
    inputs: Seq<Seq<Seq<Seq<u64>>>>,
    a: Seq<usize>,
    b: Seq<usize>,
)
    requires
        a.to_multiset() == b.to_multiset(),
    ensures
        group_rows(inputs, a) == group_rows(inputs, b),
    decreases a.len(),
{
    if a.len() == 0 {
        assert(b.to_multiset().len() == 0);
        assert(b.len() == 0);
    } else {
        let x = a.last();
        assert(a =~= a.drop_last().push(x));
        assert(a.to_multiset() =~= a.drop_last().to_multiset().insert(x));
        assert(b.to_multiset().count(x) > 0);
        assert(b.contains(x));
        let p = choose|p: int| 0 <= p < b.len() && #[trigger] b[p] == x;
        assert(b.remove(p).to_multiset() =~= b.to_multiset().remove(x));
        assert(a.drop_last().to_multiset() =~= b.remove(p).to_multiset());
        lemma_group_rows_permutation(inputs, a.drop_last(), b.remove(p));
        lemma_group_rows_remove(inputs, b, p);
    }
}

/// Lanes named below a stream's length see only those lanes.
pub proof fn lemma_group_rows_extend_lanes(
    short: Seq<Seq<Seq<Seq<u64>>>>,
    long: Seq<Seq<Seq<Seq<u64>>>>,
    idxs: Seq<usize>,
)
    requires
        short.len() <= long.len(),
        forall|k: int| 0 <= k < short.len() ==> #[trigger] long[k] == short[k],
        forall|k: int| 0 <= k < idxs.len() ==> (#[trigger] idxs[k] as int) < short.len(),
    ensures
        group_rows(long, idxs) == group_rows(short, idxs),
    decreases idxs.len(),
{
    if idxs.len() > 0 {
        lemma_group_rows_extend_lanes(short, long, idxs.drop_last());
        assert(idxs[idxs.len() - 1] == idxs.last());
        assert(long[idxs.last() as int] == short[idxs.last() as int]);
    }
}

/// All rows of all lanes are the rows of the identity group.
pub proof fn lemma_lanes_rows_ident(inputs: Seq<Seq<Seq<Seq<u64>>>>)
    requires
        inputs.len() <= usize::MAX,
    ensures
        lanes_rows(inputs) == group_rows(inputs, ident_indices(inputs.len())),
    decreases inputs.len(),
{
    if inputs.len() > 0 {
        let n = inputs.len();
        let short = inputs.drop_last();
        lemma_lanes_rows_ident(short);
        assert(ident_indices(n).drop_last() =~= ident_indices((n - 1) as nat));
        assert(ident_indices(n).last() == (n - 1) as usize);
        assert forall|k: int|
            0 <= k < ident_indices((n - 1) as nat).len() implies (#[trigger] ident_indices(
            (n - 1) as nat,
        )[k] as int) < short.len() by {}
        lemma_group_rows_extend_lanes(short, inputs, ident_indices((n - 1) as nat));
        assert(group_rows(inputs, ident_indices(n)) == group_rows(
            inputs,
            ident_indices((n - 1) as nat),
        ).add(lane_rows(inputs[n - 1])));
    }
}

/// The summed rows of every group equal the rows of the flattened group
/// list.
pub open spec fn groups_rows(inputs: Seq<Seq<Seq<Seq<u64>>>>, groups: Seq<Seq<usize>>) -> Multiset<
    Seq<u64>,
>
    decreases groups.len(),
{
    if groups.len() == 0 {
        Multiset::empty()
    } else {
        groups_rows(inputs, groups.drop_last()).add(group_rows(inputs, groups.last()))
    }
}

/// Group rows distribute over concatenation of index sequences.
pub proof fn lemma_group_rows_concat(inputs: Seq<Seq<Seq<Seq<u64>>>>, a: Seq<usize>, b: Seq<usize>)
    ensures
        group_rows(inputs, a + b) == group_rows(inputs, a).add(group_rows(inputs, b)),
    decreases b.len(),
{
    if b.len() == 0 {
        assert(a + b =~= a);
        assert(group_rows(inputs, a).add(group_rows(inputs, b)) =~= group_rows(inputs, a));
    } else {
        lemma_group_rows_concat(inputs, a, b.drop_last());
        assert((a + b).drop_last() =~= a + b.drop_last());
        assert((a + b).last() == b.last());
        assert(group_rows(inputs, a + b) =~= group_rows(inputs, a).add(group_rows(inputs, b)));
    }
}

/// The flattened index list of a grouping, group after group.
pub open spec fn flat_of_groups(groups: Seq<Seq<usize>>) -> Seq<usize>
    decreases groups.len(),
{
    if groups.len() == 0 {
        Seq::empty()
    } else {
        flat_of_groups(groups.drop_last()) + groups.last()
    }
}

/// Summed group rows are the rows of the flattened index list.
pub proof fn lemma_groups_rows_flat(inputs: Seq<Seq<Seq<Seq<u64>>>>, groups: Seq<Seq<usize>>)
    ensures
        groups_rows(inputs, groups) == group_rows(inputs, flat_of_groups(groups)),
    decreases groups.len(),
{
    if groups.len() > 0 {
        lemma_groups_rows_flat(inputs, groups.drop_last());
        lemma_group_rows_concat(inputs, flat_of_groups(groups.drop_last()), groups.last());
    }
}

/// The flattened index list carries the grouping's index multiset.
pub proof fn lemma_flat_of_groups_multiset(groups: Seq<Seq<usize>>)
    ensures
        flat_of_groups(groups).to_multiset() == group_multiset(groups),
    decreases groups.len(),
{
    if groups.len() == 0 {
        assert(flat_of_groups(groups).to_multiset().len() == 0);
        assert(flat_of_groups(groups).to_multiset() =~= group_multiset(groups));
    } else {
        lemma_flat_of_groups_multiset(groups.drop_last());
        vstd::seq_lib::lemma_multiset_commutative(
            flat_of_groups(groups.drop_last()),
            groups.last(),
        );
        assert(groups =~= groups.drop_last() + seq![groups.last()]);
        crate::pipeline::lemma_group_multiset_concat(groups.drop_last(), seq![groups.last()]);
        assert(seq![groups.last()].first() == groups.last());
        assert(seq![groups.last()].drop_first() =~= Seq::<Seq<usize>>::empty());
        assert(group_multiset(Seq::<Seq<usize>>::empty()) == Multiset::<usize>::empty());
        assert(group_multiset(seq![groups.last()]) =~= groups.last().to_multiset());
        assert(flat_of_groups(groups).to_multiset() =~= group_multiset(groups));
    }
}

/// Law: a resize over a port partition conserves rows — the multiset of
/// all rows leaving the output lanes equals the multiset of all rows
/// entering the input lanes, with no duplication and no loss.
pub proof fn lemma_resize_conserves_rows(
    inputs: Seq<Seq<Seq<Seq<u64>>>>,
    outs: Seq<Seq<Seq<Seq<u64>>>>,
    groups: Seq<Seq<usize>>,
)
    requires
        inputs.len() <= usize::MAX,
        is_port_partition(groups, inputs.len()),
        outs.len() == groups.len(),
        forall|j: int| 0 <= j < groups.len() ==> #[trigger] outs[j] == concat_lanes(
            inputs,
            groups[j],
        ),
    ensures
        lanes_rows(outs) == lanes_rows(inputs),
    decreases outs.len(),
{
    // every output lane carries exactly its group's rows
    assert forall|j: int|
        0 <= j < outs.len() implies lane_rows(#[trigger] outs[j]) == group_rows(
        inputs,
        groups[j],
    ) by {
        lemma_concat_lanes_rows(inputs, groups[j]);
    }
    // summing output lanes sums the groups
    lemma_lanes_rows_eq_groups_rows(inputs, outs, groups);
    // the groups together are a permutation of all input lanes
    lemma_groups_rows_flat(inputs, groups);
    lemma_flat_of_groups_multiset(groups);
    lemma_group_rows_permutation(
        inputs,
        flat_of_groups(groups),
        ident_indices(inputs.len()),
    );
    lemma_lanes_rows_ident(inputs);
}

/// Summing the rows of lanes that carry the groups' rows sums the groups.
proof fn lemma_lanes_rows_eq_groups_rows(
    inputs: Seq<Seq<Seq<Seq<u64>>>>,
    outs: Seq<Seq<Seq<Seq<u64>>>>,
    groups: Seq<Seq<usize>>,
)
    requires
        outs.len() == groups.len(),
        forall|j: int| 0 <= j < groups.len() ==> lane_rows(#[trigger] outs[j]) == group_rows(
            inputs,
            groups[j],
        ),
    ensures
        lanes_rows(outs) == groups_rows(inputs, groups),
    decreases outs.len(),
{
    if outs.len() > 0 {
        lemma_lanes_rows_eq_groups_rows(inputs, outs.drop_last(), groups.drop_last());
        assert(lane_rows(outs[outs.len() - 1]) == group_rows(inputs, groups.last()));
    }
}

/// Applies a resize at the data level: output lane `j` is the
/// concatenation of its group's input lanes, chunk for chunk. Succeeds
/// exactly when the grouping partitions the input lanes.
pub fn resize_exec(inputs: &Vec<Vec<Chunk>>, ranges: &Vec<Vec<usize>>) -> (r: Result<
    Vec<Vec<Chunk>>,
    BuildError,
>)
    ensures
        r is Ok <==> is_port_partition(groups_view(ranges@), inputs@.len() as nat),
        r is Err ==> r == Err::<Vec<Vec<Chunk>>, BuildError>(BuildError::BadResizeGrouping),
        r matches Ok(outs) ==> {
            &&& outs@.len() == ranges@.len()
            &&& forall|j: int|
                0 <= j < ranges@.len() ==> #[trigger] lane_view(outs@[j]@) == concat_lanes(
                    lanes_view(inputs@),
                    groups_view(ranges@)[j],
                )
        },
{
    let ghost gv = groups_view(ranges@);
    let ghost iv = lanes_view(inputs@);
    let n = inputs.len();
    if !check_port_partition(ranges, n) {
        return Err(BuildError::BadResizeGrouping);
    }
    let mut outs: Vec<Vec<Chunk>> = Vec::new();
    let mut j: usize = 0;
    while j < ranges.len()
        invariant
            gv == groups_view(ranges@),
            iv == lanes_view(inputs@),
            gv.len() == ranges@.len(),
            iv.len() == inputs@.len(),
            n == inputs@.len(),
            is_port_partition(gv, n as nat),
            j <= gv.len(),
            outs@.len() == j,
            forall|q: int|
                0 <= q < j ==> #[trigger] lane_view(outs@[q]@) == concat_lanes(iv, gv[q]),
        decreases gv.len() - j,
    {
        let mut lane: Vec<Chunk> = Vec::new();
        let glen = ranges[j].len();
        let mut k: usize = 0;
        proof {
            assert(lane_view(lane@) =~= concat_lanes(iv, gv[j as int].take(0)));
        }
        while k < glen
            invariant
                gv == groups_view(ranges@),
                iv == lanes_view(inputs@),
                gv.len() == ranges@.len(),
                iv.len() == inputs@.len(),
                n == inputs@.len(),
                is_port_partition(gv, n as nat),
                j < gv.len(),
                gv[j as int] == ranges@[j as int]@,
                glen == gv[j as int].len(),
                k <= glen,
                lane_view(lane@) == concat_lanes(iv, gv[j as int].take(k as int)),
            decreases glen - k,
        {
            proof {
                lemma_partition_element_bound(gv, n as nat, j as int, k as int);
            }
            let idx = ranges[j][k];
            let ghost lane0 = lane@;
            let mut p: usize = 0;
            while p < inputs[idx].len()
                invariant
                    iv == lanes_view(inputs@),
                    iv.len() == inputs@.len(),
                    (idx as int) < inputs@.len(),
                    p <= inputs@[idx as int]@.len(),
                    lane@.len() == lane0.len() + p,
                    forall|q: int| 0 <= q < lane0.len() ==> #[trigger] lane@[q] == lane0[q],
                    forall|q: int|
                        0 <= q < p ==> (#[trigger] lane@[lane0.len() + q]).rows()
                            == inputs@[idx as int]@[q].rows(),
                decreases inputs@[idx as int]@.len() - p,
            {
                let c = copy_chunk(&inputs[idx][p]);
                proof {
                    lemma_same_content_rows(c, inputs@[idx as int]@[p as int]);
                }
                lane.push(c);
                p += 1;
            }
            proof {
                assert(gv[j as int].take(k + 1).drop_last() =~= gv[j as int].take(k as int));
                assert(gv[j as int].take(k + 1).last() == gv[j as int][k as int]);
                assert(iv[idx as int] == lane_view(inputs@[idx as int]@));
                let target = concat_lanes(iv, gv[j as int].take(k as int)) + iv[idx as int];
                assert(target.len() == lane0.len() + inputs@[idx as int]@.len());
                assert forall|q: int|
                    0 <= q < lane@.len() implies lane_view(lane@)[q] == target[q] by {
                    assert(lane_view(lane@)[q] == lane@[q].rows());
                    if q < lane0.len() {
                        assert(lane@[q] == lane0[q]);
                        assert(lane_view(lane0)[q] == lane0[q].rows());
                    } else {
                        assert(lane@[lane0.len() + (q - lane0.len())].rows()
                            == inputs@[idx as int]@[q - lane0.len()].rows());
                        assert(iv[idx as int][q - lane0.len()] == inputs@[idx as int]@[q
                            - lane0.len()].rows());
                    }
                }
                assert(lane_view(lane@) =~= concat_lanes(iv, gv[j as int].take(k as int))
                    + iv[idx as int]);
                assert(lane_view(lane@) =~= concat_lanes(iv, gv[j as int].take(k + 1)));
            }
            k += 1;
        }
        proof {
            assert(gv[j as int].take(glen as int) =~= gv[j as int]);
        }
        outs.push(lane);
        j += 1;
    }
    Ok(outs)
}

/// Chunks of one content carry the same rows.
pub proof fn lemma_same_content_rows(a: Chunk, b: Chunk)
    requires
        a.same_content(b),
    ensures
        a.rows() == b.rows(),
{
    assert(a.columns@.len() == a.col_views().len());
    assert(b.columns@.len() == b.col_views().len());
    assert forall|i: int| 0 <= i < a.num_rows implies a.row(i) == b.row(i) by {
        assert forall|q: int|
            0 <= q < a.columns@.len() implies (#[trigger] a.columns@[q]).values@[i]
            == b.columns@[q].values@[i] by {
            assert(a.col_views()[q] == a.columns@[q].values@);
            assert(b.col_views()[q] == b.columns@[q].values@);
        }
        assert(a.row(i) =~= b.row(i));
    }
    assert(a.rows() =~= b.rows());
}

} // verus!
