//! The dense memo table of the dynamic-programming solver: an n-dimensional
//! array of `u64` cells kept by `ndarray`, seen here as a shape and a map
//! from multi-indices to cells.
use vstd::prelude::*;
use ndarray::ArrayD;
use ndarray::IxDyn;

verus! {

/// An `ndarray::ArrayD` of `u64` cells.
///
/// The verifier does not look inside: all it knows of a table is what the
/// functions below claim of `table_shape` and `table_cells`, each for one
/// operation of `ArrayD`. The claims are taken from the documentation of
/// those operations and are not proved.
#[verifier::external_body]
pub struct MemoTable {
    cells: ArrayD<u64>,
}

/// The axis lengths of a table: what `ArrayD::shape` would give.
pub uninterp spec fn table_shape(table: MemoTable) -> Seq<usize>;

/// The cells of a table, by multi-index: under every index within the
/// shape, the element that indexing the `ArrayD` there gives.
pub uninterp spec fn table_cells(table: MemoTable) -> Map<Seq<usize>, u64>;

/// The number of cells of a table with the given axis lengths.
pub open spec fn cell_count(shape: Seq<usize>) -> nat
    decreases shape.len(),
{
    if shape.len() == 0 {
        1
    } else {
        (shape.last() as nat) * cell_count(shape.drop_last())
    }
}

/// Whether `index` names a cell of a table with the given axis lengths.
pub open spec fn in_table(shape: Seq<usize>, index: Seq<usize>) -> bool {
    &&& index.len() == shape.len()
    &&& forall|d: int| 0 <= d < index.len() ==> index[d] < shape[d]
}

/// `ArrayD::<u64>::zeros` on the shape `IxDyn(shape)`.
///
/// Claims that the new table has exactly the axis lengths asked for and that
/// every cell of it holds zero. The call is made only for tables without an
/// empty axis whose cells fit an allocation.
#[verifier::external_body]
pub(crate) fn table_zeros(shape: &Vec<usize>) -> (table: MemoTable)
    requires
        forall|d: int| 0 <= d < shape@.len() ==> shape@[d] >= 1,
        cell_count(shape@) * 8 <= isize::MAX,
    ensures
        table_shape(table) == shape@,
        forall|index: Seq<usize>| #[trigger]
            in_table(shape@, index) ==> table_cells(table)[index] == 0,
{
    MemoTable { cells: ArrayD::<u64>::zeros(IxDyn(shape.as_slice())) }
}

/// Indexing an `ArrayD<u64>` by `IxDyn(index)`, for reading.
///
/// Claims that the cell named by the multi-index comes back.
#[verifier::external_body]
pub(crate) fn table_read(table: &MemoTable, index: &Vec<usize>) -> (value: u64)
    requires
        in_table(table_shape(*table), index@),
    ensures
        value == table_cells(*table)[index@],
{
    table.cells[IxDyn(index.as_slice())]
}

/// Indexing an `ArrayD<u64>` by `IxDyn(index)`, for writing.
///
/// Claims that the cell named by the multi-index is replaced and that the
/// shape and every other cell stay as they were.
#[verifier::external_body]
pub(crate) fn table_write(table: &mut MemoTable, index: &Vec<usize>, value: u64)
    requires
        in_table(table_shape(*old(table)), index@),
    ensures
        table_shape(*final(table)) == table_shape(*old(table)),
        table_cells(*final(table)) == table_cells(*old(table)).insert(index@, value),
{
    table.cells[IxDyn(index.as_slice())] = value;
}

} // verus!
