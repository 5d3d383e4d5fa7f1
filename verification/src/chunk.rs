//! Columnar data batches: the unit of transfer between pipeline stages.
//!
//! A chunk is an ordered list of columns sharing one row count. Cell values
//! are carried as plain integers; a string-typed cell holds an opaque
//! interned code. The row-major view `rows()` is the mathematical object
//! the stage and resize contracts speak about.

use vstd::prelude::*;

verus! {

/// Declared type of a column.
#[derive(Clone, Copy, PartialEq, Eq, Structural, Debug)]
pub enum DataType {
    Text,
    UInt16,
    UInt64,
}

/// One column: its declared type and its cell values, one per row.
#[derive(Clone, Debug)]
pub struct Column {
    pub data_type: DataType,
    pub values: Vec<u64>,
}

/// An immutable columnar batch with a shared row count.
#[derive(Clone, Debug)]
pub struct Chunk {
    pub columns: Vec<Column>,
    pub num_rows: usize,
}

impl Chunk {
    /// The cell values of each column, column-major.
    pub open spec fn col_views(self) -> Seq<Seq<u64>> {
        self.columns@.map_values(|c: Column| c.values@)
    }

    /// The declared type of each column.
    pub open spec fn dtypes(self) -> Seq<DataType> {
        self.columns@.map_values(|c: Column| c.data_type)
    }

    /// Every column holds exactly `num_rows` cells.
    pub open spec fn wf(self) -> bool {
        forall|j: int|
            0 <= j < self.columns@.len() ==> #[trigger] self.columns@[j].values@.len()
                == self.num_rows
    }

    /// Row `i`: the cells of every column at position `i`.
    pub open spec fn row(self, i: int) -> Seq<u64> {
        Seq::new(self.columns@.len(), |j: int| self.columns@[j].values@[i])
    }

    /// The row-major view of the chunk.
    pub open spec fn rows(self) -> Seq<Seq<u64>> {
        Seq::new(self.num_rows as nat, |i: int| self.row(i))
    }

    /// Structural equality of content: same declared types, same cells.
    pub open spec fn same_content(self, other: Chunk) -> bool {
        &&& self.dtypes() == other.dtypes()
        &&& self.col_views() == other.col_views()
        &&& self.num_rows == other.num_rows
    }

    /// Number of columns.
    pub fn col_count(&self) -> (n: usize)
        ensures
            n == self.columns@.len(),
    {
        self.columns.len()
    }
}

/// An empty chunk with the given column types and no rows.
pub fn new_chunk(dtypes: &Vec<DataType>) -> (c: Chunk)
    ensures
        c.wf(),
        c.num_rows == 0,
        c.dtypes() == dtypes@,
        c.rows() == Seq::<Seq<u64>>::empty(),
        c.columns@.len() == dtypes@.len(),
{
    let mut columns: Vec<Column> = Vec::new();
    let mut j: usize = 0;
    while j < dtypes.len()
        invariant
            j <= dtypes@.len(),
            columns@.len() == j,
            forall|k: int|
                0 <= k < j ==> (#[trigger] columns@[k]).data_type == dtypes@[k]
                    && columns@[k].values@.len() == 0,
        decreases dtypes@.len() - j,
    {
        columns.push(Column { data_type: dtypes[j], values: Vec::new() });
        j += 1;
    }
    let c = Chunk { columns, num_rows: 0 };
    proof {
        assert forall|k: int|
            0 <= k < c.columns@.len() implies #[trigger] c.columns@[k].values@.len()
            == c.num_rows by {
            assert(c.columns@[k].values@.len() == 0);
        }
        assert(c.dtypes() =~= dtypes@);
        assert(c.rows() =~= Seq::<Seq<u64>>::empty());
    }
    c
}

/// Copies the cell values of one column.
pub fn copy_values(v: &Vec<u64>) -> (r: Vec<u64>)
    ensures
        r@ == v@,
{
    let mut r: Vec<u64> = Vec::new();
    let mut i: usize = 0;
    while i < v.len()
        invariant
            i <= v@.len(),
            r@ == v@.subrange(0, i as int),
        decreases v@.len() - i,
    {
        r.push(v[i]);
        proof {
            assert(r@ =~= v@.subrange(0, i + 1));
        }
        i += 1;
    }
    proof {
        assert(r@ =~= v@);
    }
    r
}

/// Copies a chunk cell for cell.
pub fn copy_chunk(c: &Chunk) -> (r: Chunk)
    ensures
        r.same_content(*c),
        c.wf() ==> r.wf(),
{
    let mut columns: Vec<Column> = Vec::new();
    let mut j: usize = 0;
    while j < c.columns.len()
        invariant
            j <= c.columns@.len(),
            columns@.len() == j,
            forall|k: int|
                0 <= k < j ==> (#[trigger] columns@[k]).data_type == c.columns@[k].data_type
                    && columns@[k].values@ == c.columns@[k].values@,
        decreases c.columns@.len() - j,
    {
        let values = copy_values(&c.columns[j].values);
        columns.push(Column { data_type: c.columns[j].data_type, values });
        j += 1;
    }
    let r = Chunk { columns, num_rows: c.num_rows };
    proof {
        assert forall|k: int|
            0 <= k < r.columns@.len() implies #[trigger] r.columns@[k].values@.len()
            == c.columns@[k].values@.len() by {
            assert(r.columns@[k].values@ == c.columns@[k].values@);
        }
        assert(r.dtypes() =~= c.dtypes());
        assert(r.col_views() =~~= c.col_views());
    }
    r
}

/// Reads row `i` of a chunk: one cell from each column.
pub fn get_row(c: &Chunk, i: usize) -> (r: Vec<u64>)
    requires
        c.wf(),
        i < c.num_rows,
    ensures
        r@ == c.row(i as int),
{
    let mut r: Vec<u64> = Vec::new();
    let mut j: usize = 0;
    while j < c.columns.len()
        invariant
            c.wf(),
            i < c.num_rows,
            j <= c.columns@.len(),
            r@.len() == j,
            forall|k: int| 0 <= k < j ==> #[trigger] r@[k] == c.columns@[k].values@[i as int],
        decreases c.columns@.len() - j,
    {
        r.push(c.columns[j].values[i]);
        j += 1;
    }
    proof {
        assert(r@ =~= c.row(i as int));
    }
    r
}

/// Appends one row to a chunk, one cell per column.
pub fn push_row(c: &mut Chunk, row: &Vec<u64>)
    requires
        old(c).wf(),
        row@.len() == old(c).columns@.len(),
        old(c).num_rows < usize::MAX,
    ensures
        final(c).wf(),
        final(c).num_rows == old(c).num_rows + 1,
        final(c).dtypes() == old(c).dtypes(),
        final(c).rows() == old(c).rows().push(row@),
{
    let ghost c0 = *c;
    let mut columns: Vec<Column> = Vec::new();
    let mut j: usize = 0;
    while j < c.columns.len()
        invariant
            *c == c0,
            c0.wf(),
            row@.len() == c0.columns@.len(),
            c0.num_rows < usize::MAX,
            j <= c0.columns@.len(),
            columns@.len() == j,
            forall|k: int|
                0 <= k < j ==> (#[trigger] columns@[k]).data_type == c0.columns@[k].data_type
                    && columns@[k].values@ == c0.columns@[k].values@.push(row@[k]),
        decreases c0.columns@.len() - j,
    {
        let mut values = copy_values(&c.columns[j].values);
        values.push(row[j]);
        columns.push(Column { data_type: c.columns[j].data_type, values });
        j += 1;
    }
    let n = c.num_rows;
    *c = Chunk { columns, num_rows: n + 1 };
    proof {
        assert(c.dtypes() =~= c0.dtypes());
        assert forall|i: int| 0 <= i < c0.num_rows implies c.row(i) == c0.row(i) by {
            assert forall|k: int|
                0 <= k < c.columns@.len() implies (#[trigger] c.columns@[k]).values@[i]
                == c0.columns@[k].values@[i] by {
                assert(c.columns@[k].values@ == c0.columns@[k].values@.push(row@[k]));
            }
            assert(c.row(i) =~= c0.row(i));
        }
        assert forall|k: int|
            0 <= k < c.columns@.len() implies (#[trigger] c.columns@[k]).values@[c0.num_rows as int]
            == row@[k] by {
            assert(c.columns@[k].values@ == c0.columns@[k].values@.push(row@[k]));
            assert(c0.columns@[k].values@.len() == c0.num_rows);
        }
        assert(c.row(c0.num_rows as int) =~= row@);
        assert(c.rows() =~= c0.rows().push(row@));
    }
}

} // verus!
