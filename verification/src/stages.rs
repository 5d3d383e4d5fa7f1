//! Data-level semantics of the stages: the pass-through dummy, the
//! matched/unmatched splitter, the column-fill stages, the row-number
//! deduplicator and accumulator, and the row-number tagging and
//! projection stages.

use vstd::prelude::*;

use crate::chunk::Chunk;
use crate::chunk::Column;
use crate::chunk::DataType;
use crate::chunk::copy_chunk;
use crate::chunk::copy_values;
use crate::chunk::get_row;
use crate::chunk::new_chunk;
use crate::chunk::push_row;

verus! {

broadcast use vstd::seq_lib::group_to_multiset_ensures;

/// A row-id cell holding this value marks a row whose identity could not
/// be resolved: an insert candidate.
pub const NULL_ROW_ID: u64 = 0;

/// The rows of a batch whose row-id cell resolves to a target row.
pub open spec fn matched_rows(rows: Seq<Seq<u64>>, idx: int) -> Seq<Seq<u64>>
    decreases rows.len(),
{
    if rows.len() == 0 {
        Seq::empty()
    } else {
        matched_rows(rows.drop_last(), idx) + (if rows.last()[idx] != NULL_ROW_ID {
            seq![rows.last()]
        } else {
            Seq::empty()
        })
    }
}

/// The rows of a batch without a resolvable row id.
pub open spec fn unmatched_rows(rows: Seq<Seq<u64>>, idx: int) -> Seq<Seq<u64>>
    decreases rows.len(),
{
    if rows.len() == 0 {
        Seq::empty()
    } else {
        unmatched_rows(rows.drop_last(), idx) + (if rows.last()[idx] == NULL_ROW_ID {
            seq![rows.last()]
        } else {
            Seq::empty()
        })
    }
}

/// Law: the splitter loses and duplicates nothing — every row goes to
/// exactly one side, so the two sides' row counts sum to the input's.
pub proof fn lemma_split_conserves_rows(rows: Seq<Seq<u64>>, idx: int)
    ensures
        matched_rows(rows, idx).len() + unmatched_rows(rows, idx).len() == rows.len(),
        matched_rows(rows, idx).to_multiset().add(unmatched_rows(rows, idx).to_multiset())
            == rows.to_multiset(),
    decreases rows.len(),
{
    if rows.len() == 0 {
        assert(matched_rows(rows, idx).to_multiset().len() == 0);
        assert(unmatched_rows(rows, idx).to_multiset().len() == 0);
        assert(rows.to_multiset().len() == 0);
        assert(matched_rows(rows, idx).to_multiset().add(unmatched_rows(rows, idx).to_multiset())
            =~= rows.to_multiset());
    } else {
        let prefix = rows.drop_last();
        let r = rows.last();
        lemma_split_conserves_rows(prefix, idx);
        assert(rows =~= prefix.push(r));
        assert(rows.to_multiset() =~= prefix.to_multiset().insert(r));
        if r[idx] != NULL_ROW_ID {
            assert(matched_rows(rows, idx) =~= matched_rows(prefix, idx).push(r));
            assert(matched_rows(rows, idx).to_multiset() =~= matched_rows(
                prefix,
                idx,
            ).to_multiset().insert(r));
            assert(unmatched_rows(rows, idx) =~= unmatched_rows(prefix, idx));
        } else {
            assert(unmatched_rows(rows, idx) =~= unmatched_rows(prefix, idx).push(r));
            assert(unmatched_rows(rows, idx).to_multiset() =~= unmatched_rows(
                prefix,
                idx,
            ).to_multiset().insert(r));
            assert(matched_rows(rows, idx) =~= matched_rows(prefix, idx));
        }
        assert(matched_rows(rows, idx).to_multiset().add(unmatched_rows(rows, idx).to_multiset())
            =~= rows.to_multiset());
    }
}

/// Splits one chunk into its matched rows and its unmatched (insert
/// candidate) rows, deciding by the row-id column.
pub fn merge_into_split(c: &Chunk, row_id_idx: usize) -> (r: (Chunk, Chunk))
    requires
        c.wf(),
        row_id_idx < c.columns@.len(),
    ensures
        r.0.wf(),
        r.1.wf(),
        r.0.dtypes() == c.dtypes(),
        r.1.dtypes() == c.dtypes(),
        r.0.rows() == matched_rows(c.rows(), row_id_idx as int),
        r.1.rows() == unmatched_rows(c.rows(), row_id_idx as int),
{
    let mut dtypes: Vec<DataType> = Vec::new();
    let mut j: usize = 0;
    while j < c.columns.len()
        invariant
            j <= c.columns@.len(),
            dtypes@.len() == j,
            forall|q: int| 0 <= q < j ==> #[trigger] dtypes@[q] == c.columns@[q].data_type,
        decreases c.columns@.len() - j,
    {
        dtypes.push(c.columns[j].data_type);
        j += 1;
    }
    proof {
        assert(dtypes@ =~= c.dtypes());
    }
    let mut matched = new_chunk(&dtypes);
    let mut unmatched = new_chunk(&dtypes);
    let mut i: usize = 0;
    while i < c.num_rows
        invariant
            c.wf(),
            row_id_idx < c.columns@.len(),
            i <= c.num_rows,
            matched.wf(),
            unmatched.wf(),
            matched.dtypes() == c.dtypes(),
            unmatched.dtypes() == c.dtypes(),
            matched.columns@.len() == c.columns@.len(),
            unmatched.columns@.len() == c.columns@.len(),
            matched.num_rows <= i,
            unmatched.num_rows <= i,
            matched.rows() == matched_rows(c.rows().take(i as int), row_id_idx as int),
            unmatched.rows() == unmatched_rows(c.rows().take(i as int), row_id_idx as int),
        decreases c.num_rows - i,
    {
        let row = get_row(c, i);
        proof {
            assert(c.rows().take(i + 1).drop_last() =~= c.rows().take(i as int));
            assert(c.rows().take(i + 1).last() == c.rows()[i as int]);
            assert(c.rows()[i as int][row_id_idx as int] == c.columns@[row_id_idx as int].values@[i as int]);
        }
        if row[row_id_idx] != NULL_ROW_ID {
            push_row(&mut matched, &row);
            proof {
                assert(matched.columns@.len() == matched.dtypes().len());
                assert(c.columns@.len() == c.dtypes().len());
                assert(matched.rows() =~= matched_rows(
                    c.rows().take(i + 1),
                    row_id_idx as int,
                ));
                assert(unmatched.rows() =~= unmatched_rows(
                    c.rows().take(i + 1),
                    row_id_idx as int,
                ));
            }
        } else {
            push_row(&mut unmatched, &row);
            proof {
                assert(unmatched.columns@.len() == unmatched.dtypes().len());
                assert(c.columns@.len() == c.dtypes().len());
                assert(matched.rows() =~= matched_rows(
                    c.rows().take(i + 1),
                    row_id_idx as int,
                ));
                assert(unmatched.rows() =~= unmatched_rows(
                    c.rows().take(i + 1),
                    row_id_idx as int,
                ));
            }
        }
        i += 1;
    }
    proof {
        assert(c.rows().take(c.num_rows as int) =~= c.rows());
    }
    (matched, unmatched)
}

/// Forwards a stream of chunks unchanged: the semantics of a dummy stage.
/// The same chunks come out, with the same row counts and cell contents,
/// in the same order.
pub fn dummy_forward(input: &Vec<Chunk>) -> (out: Vec<Chunk>)
    ensures
        out@.len() == input@.len(),
        forall|i: int| 0 <= i < input@.len() ==> (#[trigger] out@[i]).same_content(input@[i]),
        forall|i: int|
            0 <= i < input@.len() ==> (input@[i].wf() ==> (#[trigger] out@[i]).wf()),
{
    let mut out: Vec<Chunk> = Vec::new();
    let mut i: usize = 0;
    while i < input.len()
        invariant
            i <= input@.len(),
            out@.len() == i,
            forall|q: int| 0 <= q < i ==> (#[trigger] out@[q]).same_content(input@[q]),
            forall|q: int| 0 <= q < i ==> (input@[q].wf() ==> (#[trigger] out@[q]).wf()),
        decreases input@.len() - i,
    {
        out.push(copy_chunk(&input[i]));
        i += 1;
    }
    out
}

/// The default cell value of a column added by the fill stages.
pub open spec fn default_cell(dt: DataType) -> u64 {
    0
}

/// Completes a chunk against a target schema: columns the chunk already
/// has stay untouched, and each missing trailing column is appended
/// filled with its type's default value. Filling an already-complete
/// chunk is a no-op, so the stage is idempotent.
pub fn fill_columns(c: &Chunk, target: &Vec<DataType>) -> (r: Chunk)
    requires
        c.wf(),
        c.columns@.len() <= target@.len(),
        c.dtypes() == target@.subrange(0, c.columns@.len() as int),
    ensures
        r.wf(),
        r.num_rows == c.num_rows,
        r.dtypes() == target@,
        r.col_views().subrange(0, c.columns@.len() as int) == c.col_views(),
        forall|j: int|
            c.columns@.len() <= j < target@.len() ==> #[trigger] r.col_views()[j] == Seq::new(
                c.num_rows as nat,
                |i: int| default_cell(target@[j]),
            ),
        c.columns@.len() == target@.len() ==> r.same_content(*c),
{
    let mut columns: Vec<Column> = Vec::new();
    let mut j: usize = 0;
    while j < c.columns.len()
        invariant
            c.wf(),
            j <= c.columns@.len(),
            columns@.len() == j,
            forall|q: int|
                0 <= q < j ==> (#[trigger] columns@[q]).data_type == c.columns@[q].data_type
                    && columns@[q].values@ == c.columns@[q].values@,
        decreases c.columns@.len() - j,
    {
        let values = copy_values(&c.columns[j].values);
        columns.push(Column { data_type: c.columns[j].data_type, values });
        j += 1;
    }
    while j < target.len()
        invariant
            c.wf(),
            c.columns@.len() <= target@.len(),
            c.columns@.len() <= j <= target@.len(),
            columns@.len() == j,
            forall|q: int|
                0 <= q < c.columns@.len() ==> (#[trigger] columns@[q]).data_type
                    == c.columns@[q].data_type && columns@[q].values@ == c.columns@[q].values@,
            forall|q: int|
                c.columns@.len() <= q < j ==> (#[trigger] columns@[q]).data_type == target@[q]
                    && columns@[q].values@ == Seq::new(
                    c.num_rows as nat,
                    |i: int| default_cell(target@[q]),
                ),
        decreases target@.len() - j,
    {
        let mut values: Vec<u64> = Vec::new();
        let mut i: usize = 0;
        while i < c.num_rows
            invariant
                i <= c.num_rows,
                values@.len() == i,
                forall|q: int| 0 <= q < i ==> #[trigger] values@[q] == 0u64,
            decreases c.num_rows - i,
        {
            values.push(0);
            i += 1;
        }
        proof {
            assert(values@ =~= Seq::new(c.num_rows as nat, |i: int| default_cell(target@[j as int])));
        }
        columns.push(Column { data_type: target[j], values });
        j += 1;
    }
    let r = Chunk { columns, num_rows: c.num_rows };
    proof {
        assert forall|q: int|
            0 <= q < r.columns@.len() implies #[trigger] r.columns@[q].values@.len()
            == r.num_rows by {
            if q < c.columns@.len() {
                assert(r.columns@[q].values@ == c.columns@[q].values@);
            } else {
                assert(r.columns@[q].values@ == Seq::new(
                    c.num_rows as nat,
                    |i: int| default_cell(target@[q]),
                ));
            }
        }
        assert forall|q: int| 0 <= q < r.columns@.len() implies #[trigger] r.dtypes()[q]
            == target@[q] by {
            if q < c.columns@.len() {
                assert(c.dtypes()[q] == target@.subrange(0, c.columns@.len() as int)[q]);
                assert(c.dtypes()[q] == c.columns@[q].data_type);
                assert(r.columns@[q].data_type == c.columns@[q].data_type);
            } else {
                assert(r.columns@[q].data_type == target@[q]);
            }
        }
        assert(r.dtypes() =~= target@);
        assert(r.col_views().subrange(0, c.columns@.len() as int) =~~= c.col_views());
        if c.columns@.len() == target@.len() {
            assert(r.col_views() =~~= c.col_views());
            assert(r.dtypes() =~= c.dtypes());
        }
    }
    r
}

/// The first-seen survivors of a candidate stream: a candidate survives
/// exactly when no earlier candidate carried the same row number.
pub open spec fn dedup_row_numbers(s: Seq<u64>) -> Seq<u64>
    decreases s.len(),
{
    if s.len() == 0 {
        Seq::empty()
    } else {
        dedup_row_numbers(s.drop_last()) + (if s.drop_last().contains(s.last()) {
            Seq::empty()
        } else {
            seq![s.last()]
        })
    }
}

/// Law: deduplication keeps exactly one candidate per distinct row number
/// — the survivors carry no duplicate, every candidate row number
/// survives, and no new row number appears.
pub proof fn lemma_dedup_row_numbers(s: Seq<u64>)
    ensures
        dedup_row_numbers(s).no_duplicates(),
        forall|x: u64| s.contains(x) <==> dedup_row_numbers(s).contains(x),
        forall|x: u64| s.contains(x) ==> dedup_row_numbers(s).to_multiset().count(x) == 1,
    decreases s.len(),
{
    broadcast use vstd::seq_lib::group_to_multiset_ensures;

    if s.len() > 0 {
        let prefix = s.drop_last();
        let x = s.last();
        lemma_dedup_row_numbers(prefix);
        if prefix.contains(x) {
            assert(dedup_row_numbers(s) =~= dedup_row_numbers(prefix));
            assert forall|y: u64| s.contains(y) implies dedup_row_numbers(s).contains(y) by {
                if y == x {
                    assert(prefix.contains(y));
                } else {
                    let w = choose|w: int| 0 <= w < s.len() && #[trigger] s[w] == y;
                    assert(prefix =~= s.take(s.len() - 1));
                    assert(w < prefix.len());
                    assert(prefix[w] == y);
                    assert(prefix.contains(y));
                }
            }
            assert forall|y: u64| dedup_row_numbers(s).contains(y) implies s.contains(y) by {
                assert(prefix.contains(y));
                let w = choose|w: int| 0 <= w < prefix.len() && #[trigger] prefix[w] == y;
                assert(prefix =~= s.take(s.len() - 1));
                assert(s[w] == y);
            }
        } else {
            assert(dedup_row_numbers(s) =~= dedup_row_numbers(prefix).push(x));
            assert(dedup_row_numbers(s).to_multiset() =~= dedup_row_numbers(
                prefix,
            ).to_multiset().insert(x));
            assert(!dedup_row_numbers(prefix).contains(x));
            assert(dedup_row_numbers(s).no_duplicates()) by {
                let d = dedup_row_numbers(prefix);
                assert forall|a: int, b: int|
                    0 <= a < d.push(x).len() && 0 <= b < d.push(x).len() && a != b implies d.push(
                    x,
                )[a] != d.push(x)[b] by {
                    if a < d.len() && b < d.len() {
                        assert(d[a] != d[b]);
                    } else if a < d.len() {
                        assert(d.push(x)[b] == x);
                        if d[a] == x {
                            assert(d.contains(x));
                        }
                    } else {
                        assert(d.push(x)[a] == x);
                        if b < d.len() && d[b] == x {
                            assert(d.contains(x));
                        }
                    }
                }
            }
            assert forall|y: u64| s.contains(y) implies dedup_row_numbers(s).contains(y) by {
                let w = choose|w: int| 0 <= w < s.len() && #[trigger] s[w] == y;
                if w < prefix.len() {
                    assert(prefix =~= s.take(s.len() - 1));
                    assert(prefix[w] == y);
                    assert(prefix.contains(y));
                    let v = choose|v: int|
                        0 <= v < dedup_row_numbers(prefix).len()
                            && #[trigger] dedup_row_numbers(prefix)[v] == y;
                    assert(dedup_row_numbers(s)[v] == y);
                } else {
                    assert(y == x);
                    assert(dedup_row_numbers(s).last() == x);
                }
            }
            assert forall|y: u64| dedup_row_numbers(s).contains(y) implies s.contains(y) by {
                let v = choose|v: int|
                    0 <= v < dedup_row_numbers(s).len() && #[trigger] dedup_row_numbers(s)[v]
                        == y;
                if v < dedup_row_numbers(prefix).len() {
                    assert(dedup_row_numbers(prefix)[v] == y);
                    assert(dedup_row_numbers(prefix).contains(y));
                    assert(prefix.contains(y));
                    let w = choose|w: int| 0 <= w < prefix.len() && #[trigger] prefix[w] == y;
                    assert(prefix =~= s.take(s.len() - 1));
                    assert(s[w] == y);
                } else {
                    assert(y == x);
                    assert(s.last() == x);
                }
            }
        }
        assert forall|y: u64|
            s.contains(y) implies dedup_row_numbers(s).to_multiset().count(y) == 1 by {
            assert(dedup_row_numbers(s).contains(y));
            assert(dedup_row_numbers(s).to_multiset().contains(y));
            dedup_row_numbers(s).lemma_multiset_has_no_duplicates();
        }
    }
}

/// Keeps the first-seen candidate of each distinct row number, dropping
/// every later duplicate.
pub fn deduplicate_row_numbers(cands: &Vec<u64>) -> (out: Vec<u64>)
    ensures
        out@ == dedup_row_numbers(cands@),
{
    let mut out: Vec<u64> = Vec::new();
    let mut i: usize = 0;
    while i < cands.len()
        invariant
            i <= cands@.len(),
            out@ == dedup_row_numbers(cands@.take(i as int)),
            forall|x: u64| out@.contains(x) <==> cands@.take(i as int).contains(x),
        decreases cands@.len() - i,
    {
        let x = cands[i];
        let mut seen = false;
        let mut k: usize = 0;
        while k < out.len()
            invariant
                k <= out@.len(),
                seen == exists|q: int| 0 <= q < k && out@[q] == x,
            decreases out@.len() - k,
        {
            if out[k] == x {
                seen = true;
            }
            k += 1;
        }
        proof {
            assert(seen == out@.contains(x));
            assert(cands@.take(i + 1).drop_last() =~= cands@.take(i as int));
            assert(cands@.take(i + 1).last() == cands@[i as int]);
        }
        let ghost out0 = out@;
        if !seen {
            out.push(x);
            proof {
                assert(out@ =~= dedup_row_numbers(cands@.take(i + 1)));
                assert forall|y: u64|
                    out@.contains(y) <==> cands@.take(i + 1).contains(y) by {
                    if out@.contains(y) {
                        let v = choose|v: int| 0 <= v < out@.len() && #[trigger] out@[v] == y;
                        if v < out0.len() {
                            assert(out0[v] == y);
                            assert(out0.contains(y));
                            assert(cands@.take(i as int).contains(y));
                            let w = choose|w: int|
                                0 <= w < i && #[trigger] cands@.take(i as int)[w] == y;
                            assert(cands@.take(i + 1)[w] == y);
                            assert(cands@.take(i + 1).contains(y));
                        } else {
                            assert(y == x);
                            assert(cands@.take(i + 1)[i as int] == x);
                            assert(cands@.take(i + 1).contains(y));
                        }
                    }
                    if cands@.take(i + 1).contains(y) {
                        let w = choose|w: int|
                            0 <= w < cands@.take(i + 1).len() && #[trigger] cands@.take(i + 1)[w]
                                == y;
                        if w < i {
                            assert(cands@.take(i as int)[w] == y);
                            assert(cands@.take(i as int).contains(y));
                            assert(out0.contains(y));
                            let v = choose|v: int| 0 <= v < out0.len() && #[trigger] out0[v] == y;
                            assert(out@[v] == y);
                            assert(out@.contains(y));
                        } else {
                            assert(y == x);
                            assert(out@.last() == x);
                            assert(out@.contains(y));
                        }
                    }
                }
            }
        } else {
            proof {
                assert(cands@.take(i as int).contains(x));
                assert(out@ =~= dedup_row_numbers(cands@.take(i + 1)));
                assert forall|y: u64|
                    out@.contains(y) <==> cands@.take(i + 1).contains(y) by {
                    if cands@.take(i + 1).contains(y) {
                        let w = choose|w: int|
                            0 <= w < cands@.take(i + 1).len() && #[trigger] cands@.take(i + 1)[w]
                                == y;
                        if w < i {
                            assert(cands@.take(i as int)[w] == y);
                            assert(cands@.take(i as int).contains(y));
                        } else {
                            assert(y == x);
                        }
                    }
                    if out@.contains(y) {
                        assert(cands@.take(i as int).contains(y));
                        let w = choose|w: int|
                            0 <= w < i && #[trigger] cands@.take(i as int)[w] == y;
                        assert(cands@.take(i + 1)[w] == y);
                    }
                }
            }
        }
        i += 1;
    }
    proof {
        assert(cands@.take(cands@.len() as int) =~= cands@);
    }
    out
}

/// How many distinct row numbers one node can issue.
pub const ROW_NUMBERS_PER_NODE: u64 = 0x1000000000000;

/// The row number a node issues for its `n`-th row: the node's partition
/// index in the high bits, the per-node counter below.
pub open spec fn row_number_encode(node_index: u16, n: u64) -> u64 {
    (((node_index as u64) * ROW_NUMBERS_PER_NODE + n) as u64)
}

/// Appends a row-number column to a chunk, tagging each row with a fresh
/// row number owned by the given node, and advances the node's counter.
pub fn add_row_number_column(c: &Chunk, node_index: u16, counter: &mut u64) -> (r: Chunk)
    requires
        c.wf(),
        *old(counter) + c.num_rows < ROW_NUMBERS_PER_NODE,
    ensures
        r.wf(),
        r.num_rows == c.num_rows,
        *final(counter) == *old(counter) + c.num_rows,
        r.columns@.len() == c.columns@.len() + 1,
        r.dtypes() == c.dtypes().push(DataType::UInt64),
        r.col_views() == c.col_views().push(
            Seq::new(
                c.num_rows as nat,
                |i: int| row_number_encode(node_index, (*old(counter) + i) as u64),
            ),
        ),
{
    let ghost counter0: u64 = *counter;
    let mut values: Vec<u64> = Vec::new();
    let mut i: usize = 0;
    while i < c.num_rows
        invariant
            counter0 + c.num_rows < ROW_NUMBERS_PER_NODE,
            *counter == counter0,
            i <= c.num_rows,
            values@.len() == i,
            forall|q: int|
                0 <= q < i ==> #[trigger] values@[q] == row_number_encode(
                    node_index,
                    (counter0 + q) as u64,
                ),
        decreases c.num_rows - i,
    {
        proof {
            assert((node_index as u64) * ROW_NUMBERS_PER_NODE + (counter0 + i)
                <= 0xffffu64 * ROW_NUMBERS_PER_NODE + ROW_NUMBERS_PER_NODE - 1)
                by (nonlinear_arith)
                requires
                    node_index <= 0xffffu64,
                    counter0 + i < ROW_NUMBERS_PER_NODE,
            ;
        }
        let v = (node_index as u64) * ROW_NUMBERS_PER_NODE + (*counter + i as u64);
        values.push(v);
        i += 1;
    }
    let mut columns: Vec<Column> = Vec::new();
    let mut j: usize = 0;
    while j < c.columns.len()
        invariant
            c.wf(),
            j <= c.columns@.len(),
            columns@.len() == j,
            forall|q: int|
                0 <= q < j ==> (#[trigger] columns@[q]).data_type == c.columns@[q].data_type
                    && columns@[q].values@ == c.columns@[q].values@,
        decreases c.columns@.len() - j,
    {
        let vals = copy_values(&c.columns[j].values);
        columns.push(Column { data_type: c.columns[j].data_type, values: vals });
        j += 1;
    }
    columns.push(Column { data_type: DataType::UInt64, values });
    *counter = *counter + c.num_rows as u64;
    let r = Chunk { columns, num_rows: c.num_rows };
    proof {
        assert forall|q: int|
            0 <= q < r.columns@.len() implies #[trigger] r.columns@[q].values@.len()
            == r.num_rows by {
            if q < c.columns@.len() {
                assert(r.columns@[q].values@ == c.columns@[q].values@);
            }
        }
        assert(r.dtypes() =~= c.dtypes().push(DataType::UInt64));
        assert(r.columns@[c.columns@.len() as int].values@ =~= Seq::new(
            c.num_rows as nat,
            |i: int| row_number_encode(node_index, (counter0 + i) as u64),
        ));
        assert(r.col_views() =~~= c.col_views().push(
            Seq::new(
                c.num_rows as nat,
                |i: int| row_number_encode(node_index, (counter0 + i) as u64),
            ),
        ));
    }
    r
}

/// Projects the row-number column — by convention the last column — out
/// of an unmatched candidate chunk.
pub fn project_row_number(c: &Chunk) -> (r: Chunk)
    requires
        c.wf(),
        c.columns@.len() >= 1,
    ensures
        r.wf(),
        r.num_rows == c.num_rows,
        r.columns@.len() == 1,
        r.dtypes() == seq![c.dtypes().last()],
        r.col_views() == seq![c.col_views().last()],
{
    let last = c.columns.len() - 1;
    let values = copy_values(&c.columns[last].values);
    let mut columns: Vec<Column> = Vec::new();
    columns.push(Column { data_type: c.columns[last].data_type, values });
    let r = Chunk { columns, num_rows: c.num_rows };
    proof {
        assert(r.dtypes() =~= seq![c.dtypes().last()]);
        assert(r.col_views() =~~= seq![c.col_views().last()]);
    }
    r
}

/// One row of the probe hash table, keyed by its row number.
pub struct RowNumberEntry {
    pub row_number: u64,
    pub row: Vec<u64>,
}

/// The first table row carrying the given row number, if any.
pub open spec fn first_match(table: Seq<RowNumberEntry>, rn: u64) -> Option<Seq<u64>>
    decreases table.len(),
{
    if table.len() == 0 {
        None
    } else if table.first().row_number == rn {
        Some(table.first().row@)
    } else {
        first_match(table.drop_first(), rn)
    }
}

/// The rows the extractor recovers: for each surviving row number in
/// order, the first table row carrying it, skipping numbers the table
/// does not know.
pub open spec fn extracted_rows(survivors: Seq<u64>, table: Seq<RowNumberEntry>) -> Seq<Seq<u64>>
    decreases survivors.len(),
{
    if survivors.len() == 0 {
        Seq::empty()
    } else {
        extracted_rows(survivors.drop_last(), table) + (match first_match(
            table,
            survivors.last(),
        ) {
            Some(r) => seq![r],
            None => Seq::empty(),
        })
    }
}

/// Re-joins the surviving row numbers against the worker-local probe hash
/// table, recovering full row content for the insert path.
pub fn extract_by_row_number(survivors: &Vec<u64>, table: &Vec<RowNumberEntry>) -> (out: Vec<
    Vec<u64>,
>)
    ensures
        out@.map_values(|v: Vec<u64>| v@) == extracted_rows(survivors@, table@),
{
    let ghost target = extracted_rows(survivors@, table@);
    let mut out: Vec<Vec<u64>> = Vec::new();
    let mut i: usize = 0;
    while i < survivors.len()
        invariant
            i <= survivors@.len(),
            out@.map_values(|v: Vec<u64>| v@) == extracted_rows(survivors@.take(i as int), table@),
        decreases survivors@.len() - i,
    {
        let rn = survivors[i];
        let ghost out0 = out@;
        let mut k: usize = 0;
        let mut found = false;
        proof {
            assert(table@.skip(0) =~= table@);
        }
        while k < table.len() && !found
            invariant
                k <= table@.len(),
                !found ==> first_match(table@, rn) == first_match(table@.skip(k as int), rn),
                found ==> k < table@.len() && first_match(table@, rn) == Some(
                    table@[k as int].row@,
                ),
            decreases table@.len() - k + if found {
                0int
            } else {
                1int
            },
        {
            if table[k].row_number == rn {
                proof {
                    assert(table@.skip(k as int).first() == table@[k as int]);
                }
                found = true;
            } else {
                proof {
                    assert(table@.skip(k as int).first() == table@[k as int]);
                    assert(table@.skip(k as int).drop_first() =~= table@.skip(k + 1));
                }
                k += 1;
            }
        }
        proof {
            assert(survivors@.take(i + 1).drop_last() =~= survivors@.take(i as int));
            assert(survivors@.take(i + 1).last() == survivors@[i as int]);
            if !found {
                assert(table@.skip(table@.len() as int) =~= Seq::<RowNumberEntry>::empty());
                assert(first_match(table@, rn) is None);
            }
        }
        if found {
            let row = copy_values(&table[k].row);
            out.push(row);
            proof {
                assert(out@.map_values(|v: Vec<u64>| v@) =~= extracted_rows(
                    survivors@.take(i + 1),
                    table@,
                ));
            }
        } else {
            proof {
                assert(out@.map_values(|v: Vec<u64>| v@) =~= extracted_rows(
                    survivors@.take(i + 1),
                    table@,
                ));
            }
        }
        i += 1;
    }
    proof {
        assert(survivors@.take(survivors@.len() as int) =~= survivors@);
    }
    out
}

/// The concatenation of every lane's stream, in lane order.
pub open spec fn concat_streams(s: Seq<Seq<u64>>) -> Seq<u64>
    decreases s.len(),
{
    if s.len() == 0 {
        Seq::empty()
    } else {
        concat_streams(s.drop_last()) + s.last()
    }
}

/// Merges the surviving row-number lanes into the single canonical
/// output lane, losing and duplicating nothing.
pub fn accumulate_row_numbers(lanes: &Vec<Vec<u64>>) -> (out: Vec<u64>)
    ensures
        out@ == concat_streams(lanes@.map_values(|v: Vec<u64>| v@)),
{
    let ghost lv = lanes@.map_values(|v: Vec<u64>| v@);
    let mut out: Vec<u64> = Vec::new();
    let mut j: usize = 0;
    while j < lanes.len()
        invariant
            lv == lanes@.map_values(|v: Vec<u64>| v@),
            j <= lv.len(),
            lv.len() == lanes@.len(),
            out@ == concat_streams(lv.take(j as int)),
        decreases lv.len() - j,
    {
        let ghost out0 = out@;
        let mut k: usize = 0;
        while k < lanes[j].len()
            invariant
                lv == lanes@.map_values(|v: Vec<u64>| v@),
                j < lv.len(),
                k <= lanes@[j as int]@.len(),
                out@ == out0 + lanes@[j as int]@.take(k as int),
            decreases lanes@[j as int]@.len() - k,
        {
            out.push(lanes[j][k]);
            proof {
                assert(out@ =~= out0 + lanes@[j as int]@.take(k + 1));
            }
            k += 1;
        }
        proof {
            assert(lv.take(j + 1).drop_last() =~= lv.take(j as int));
            assert(lv.take(j + 1).last() == lv[j as int]);
            assert(lanes@[j as int]@.take(lanes@[j as int]@.len() as int) =~= lv[j as int]);
            assert(out@ =~= concat_streams(lv.take(j + 1)));
        }
        j += 1;
    }
    proof {
        assert(lv.take(lv.len() as int) =~= lv);
    }
    out
}

} // verus!
