//! The exact selection by dynamic programming: a dense table with one row
//! per unit and one axis per dimension, filled row by row and walked back
//! from its last cell.
use vstd::prelude::*;
use crate::memo_table::{
    cell_count, in_table, table_cells, table_read, table_shape, table_write, table_zeros, MemoTable,
};
use crate::selection::{
    best, chosen, expanded, feasible, fits, lemma_best_dominates, lemma_best_range,
    lemma_one_unit_less, lemma_tally_len, lemma_walked_back_len, optimal, packed_value,
    packed_weight, reduce, tally, unit_values, value_terms, walked_back, weight_terms, well_shaped,
};
use crate::sums::{lemma_total_nonnegative, lemma_total_update, lemma_total_zero, total};

verus! {

/// The weight vectors of the items, one row per item.
pub open spec fn rows(weights: &Vec<Vec<usize>>) -> Seq<Seq<usize>> {
    Seq::new(weights@.len(), |i: int| weights@[i]@)
}

/// The number of units that the quantities amount to.
pub open spec fn unit_count(quantities: Seq<u64>) -> int {
    total(Seq::new(quantities.len(), |i: int| quantities[i] as int))
}

/// The number of cells of the table for `units` units and the given room:
/// one row more than there are units, and per dimension one column more than
/// there is room.
pub open spec fn cells_needed(units: int, room: Seq<usize>) -> int
    decreases room.len(),
{
    if room.len() == 0 {
        units + 1
    } else {
        (room.last() + 1) * cells_needed(units, room.drop_last())
    }
}

/// The table for these quantities and this room can be allocated.
pub open spec fn table_fits(quantities: Seq<u64>, room: Seq<usize>) -> bool {
    cells_needed(unit_count(quantities), room) * 8 <= isize::MAX
}

/// The cell at `index` holds the best value of the units before row
/// `index[0]` within the room `index[1..]`.
pub open spec fn right_cell(
    cells: Map<Seq<usize>, u64>,
    values: Seq<u64>,
    weights: Seq<Seq<usize>>,
    units: Seq<usize>,
    index: Seq<usize>,
) -> bool {
    cells[index] == best(values, weights, units.take(index[0] as int), index.skip(1))
}

/// Every cell of the rows up to `upto` is right.
pub open spec fn rows_right(
    cells: Map<Seq<usize>, u64>,
    shape: Seq<usize>,
    values: Seq<u64>,
    weights: Seq<Seq<usize>>,
    units: Seq<usize>,
    upto: int,
) -> bool {
    forall|index: Seq<usize>| #[trigger]
        in_table(shape, index) && index[0] <= upto ==> right_cell(
            cells,
            values,
            weights,
            units,
            index,
        )
}

/// Two multi-indices agree on their first `upto` places.
pub open spec fn agrees(a: Seq<usize>, b: Seq<usize>, upto: int) -> bool {
    forall|k: int| 0 <= k < upto ==> a[k] == b[k]
}

/// What the solver needs to know of the items while it fills the table.
pub open spec fn units_listed(values: Seq<u64>, weights: Seq<Seq<usize>>, units: Seq<usize>) -> bool {
    &&& weights.len() == values.len()
    &&& forall|u: int| 0 <= u < units.len() ==> (#[trigger] units[u]) < values.len()
    &&& total(unit_values(values, units)) <= u64::MAX
}

/// The table has at least one cell per row.
pub proof fn lemma_cells_needed_positive(units: int, room: Seq<usize>)
    requires
        units >= 0,
    ensures
        cells_needed(units, room) >= units + 1,
    decreases room.len(),
{
    if room.len() > 0 {
        lemma_cells_needed_positive(units, room.drop_last());
        assert((room.last() + 1) * cells_needed(units, room.drop_last()) >= cells_needed(
            units,
            room.drop_last(),
        )) by (nonlinear_arith)
            requires
                room.last() + 1 >= 1,
                cells_needed(units, room.drop_last()) >= 0,
        ;
    }
}

/// The table for fewer dimensions has no more cells, and each further
/// dimension multiplies their number by its columns.
pub proof fn lemma_cells_needed_prefix(units: int, room: Seq<usize>, upto: int)
    requires
        units >= 0,
        0 <= upto <= room.len(),
    ensures
        1 <= cells_needed(units, room.take(upto)) <= cells_needed(units, room),
        upto < room.len() ==> (room[upto] + 1) * cells_needed(units, room.take(upto))
            <= cells_needed(units, room),
    decreases room.len() - upto,
{
    lemma_cells_needed_positive(units, room.take(upto));
    if upto == room.len() {
        assert(room.take(upto) =~= room);
    } else {
        let next = room.take(upto + 1);
        assert(next.drop_last() =~= room.take(upto));
        assert(next.last() == room[upto]);
        lemma_cells_needed_prefix(units, room, upto + 1);
        assert((room[upto] + 1) * cells_needed(units, room.take(upto)) >= cells_needed(
            units,
            room.take(upto),
        )) by (nonlinear_arith)
            requires
                room[upto] + 1 >= 1,
                cells_needed(units, room.take(upto)) >= 0,
        ;
    }
}

proof fn lemma_unit_values_prefix(values: Seq<u64>, units: Seq<usize>, upto: int)
    requires
        0 <= upto <= units.len(),
    ensures
        0 <= total(unit_values(values, units.take(upto))) <= total(unit_values(values, units)),
    decreases units.len() - upto,
{
    lemma_total_nonnegative(unit_values(values, units.take(upto)));
    if upto == units.len() {
        assert(units.take(upto) =~= units);
    } else {
        let next = units.take(upto + 1);
        assert(unit_values(values, next).drop_last() =~= unit_values(values, units.take(upto)));
        lemma_unit_values_prefix(values, units, upto + 1);
    }
}

/// The units are worth together what their tally says.
proof fn lemma_unit_values_by_tally(values: Seq<u64>, units: Seq<usize>)
    requires
        forall|u: int| 0 <= u < units.len() ==> (#[trigger] units[u]) < values.len(),
    ensures
        total(unit_values(values, units)) == total(
            Seq::new(values.len(), |i: int| tally(units, values.len())[i] * values[i]),
        ),
        units.len() == total(tally(units, values.len())),
    decreases units.len(),
{
    let n = values.len();
    lemma_tally_len(units, n);
    if units.len() == 0 {
        let terms = Seq::new(n, |i: int| tally(units, n)[i] * values[i]);
        assert forall|i: int| 0 <= i < n implies #[trigger] terms[i] == 0 by {
            assert(tally(units, n)[i] == 0);
        }
        lemma_total_zero(terms);
        lemma_total_zero(tally(units, n));
    } else {
        let rest = units.drop_last();
        let at = units.last() as int;
        assert(units[units.len() - 1] < n);
        lemma_unit_values_by_tally(values, rest);
        lemma_tally_len(rest, n);
        assert(unit_values(values, units).drop_last() =~= unit_values(values, rest));
        let before = Seq::new(n, |i: int| tally(rest, n)[i] * values[i]);
        let after = Seq::new(n, |i: int| tally(units, n)[i] * values[i]);
        assert(after =~= before.update(at, (tally(rest, n)[at] + 1) * values[at]));
        lemma_total_update(before, at, (tally(rest, n)[at] + 1) * values[at]);
        assert((tally(rest, n)[at] + 1) * values[at] == tally(rest, n)[at] * values[at]
            + values[at]) by (nonlinear_arith);
        lemma_total_update(tally(rest, n), at, tally(rest, n)[at] + 1);
    }
}

/// Lists the units of the items in order: item 0 as often as its quantity
/// says, then item 1, and so on.
fn expand_units(quantities: &Vec<u64>) -> (units: Vec<usize>)
    requires
        unit_count(quantities@) < usize::MAX,
    ensures
        units@ == expanded(quantities@),
        units@.len() == unit_count(quantities@),
        forall|u: int| 0 <= u < units@.len() ==> (#[trigger] units@[u]) < quantities@.len(),
        forall|i: int|
            0 <= i < quantities@.len() ==> #[trigger] tally(units@, quantities@.len())[i]
                == quantities@[i],
{
    let n = quantities.len();
    proof {
        assert(quantities@.take(0) =~= Seq::<u64>::empty());
    }
    let ghost amounts = Seq::new(quantities@.len(), |i: int| quantities@[i] as int);
    let mut units: Vec<usize> = Vec::new();
    let mut item: usize = 0;
    proof {
        lemma_tally_len(units@, n as nat);
    }
    while item < n
        invariant
            n == quantities@.len(),
            item <= n,
            amounts == Seq::new(quantities@.len(), |i: int| quantities@[i] as int),
            forall|u: int| 0 <= u < units@.len() ==> (#[trigger] units@[u]) < item,
            units@ == expanded(quantities@.take(item as int)),
            tally(units@, n as nat).len() == n,
            forall|i: int| 0 <= i < item ==> #[trigger] tally(units@, n as nat)[i] == quantities@[i],
            forall|i: int| item <= i < n ==> #[trigger] tally(units@, n as nat)[i] == 0,
        decreases n - item,
    {
        let quantity = quantities[item];
        let ghost listed = units@;
        let mut taken: u64 = 0;
        proof {
            assert(units@ =~= listed + Seq::new(0, |u: int| item));
        }
        while taken < quantity
            invariant
                n == quantities@.len(),
                item < n,
                quantity == quantities@[item as int],
                taken <= quantity,
                units@ == listed + Seq::new(taken as nat, |u: int| item),
                forall|u: int| 0 <= u < units@.len() ==> (#[trigger] units@[u]) <= item,
                tally(units@, n as nat).len() == n,
                forall|i: int|
                    0 <= i < item ==> #[trigger] tally(units@, n as nat)[i] == quantities@[i],
                tally(units@, n as nat)[item as int] == taken,
                forall|i: int| item < i < n ==> #[trigger] tally(units@, n as nat)[i] == 0,
            decreases quantity - taken,
        {
            proof {
                assert(units@.push(item).drop_last() =~= units@);
                assert(units@.push(item) =~= listed + Seq::new((taken + 1) as nat, |u: int| item));
            }
            units.push(item);
            taken = taken + 1;
        }
        proof {
            let next = quantities@.take(item + 1);
            assert(next.drop_last() =~= quantities@.take(item as int));
            assert(next.last() == quantity);
            assert(Seq::new(quantity as nat, |u: int| item) =~= Seq::new(
                next.last() as nat,
                |u: int| (next.len() - 1) as usize,
            ));
        }
        item = item + 1;
    }
    proof {
        assert(quantities@.take(n as int) =~= quantities@);
        lemma_unit_values_by_tally(quantities@, units@);
        assert(tally(units@, n as nat) =~= amounts);
    }
    units
}

/// The axis lengths of the table: the number of rows, then per dimension
/// one more than the room.
fn table_axes(unit_count: usize, room: &Vec<usize>) -> (shape: Vec<usize>)
    requires
        cells_needed(unit_count as int, room@) * 8 <= isize::MAX,
    ensures
        shape@.len() == room@.len() + 1,
        shape@[0] == unit_count + 1,
        forall|d: int| 0 <= d < room@.len() ==> #[trigger] shape@[d + 1] == room@[d] + 1,
        cell_count(shape@) == cells_needed(unit_count as int, room@),
{
    proof {
        lemma_cells_needed_prefix(unit_count as int, room@, 0);
        lemma_cells_needed_positive(unit_count as int, room@.take(0));
        assert(room@.take(0) =~= Seq::<usize>::empty());
    }
    let mut shape: Vec<usize> = Vec::new();
    shape.push(unit_count + 1);
    proof {
        assert(shape@.drop_last() =~= Seq::<usize>::empty());
        assert(cell_count(shape@.drop_last()) == 1);
        assert(cell_count(shape@) == (unit_count + 1) * 1);
    }
    let mut d: usize = 0;
    while d < room.len()
        invariant
            d <= room@.len(),
            cells_needed(unit_count as int, room@) * 8 <= isize::MAX,
            shape@.len() == d + 1,
            shape@[0] == unit_count + 1,
            forall|k: int| 0 <= k < d ==> #[trigger] shape@[k + 1] == room@[k] + 1,
            cell_count(shape@) == cells_needed(unit_count as int, room@.take(d as int)),
        decreases room@.len() - d,
    {
        proof {
            lemma_cells_needed_prefix(unit_count as int, room@, d as int);
            let next = room@.take(d + 1);
            assert(next.drop_last() =~= room@.take(d as int));
            assert(next.last() == room@[d as int]);
            assert(room@[d as int] + 1 <= (room@[d as int] + 1) * cells_needed(
                unit_count as int,
                room@.take(d as int),
            )) by (nonlinear_arith)
                requires
                    cells_needed(unit_count as int, room@.take(d as int)) >= 1,
                    room@[d as int] + 1 >= 1,
            ;
            assert(shape@.push((room@[d as int] + 1) as usize).drop_last() =~= shape@);
        }
        shape.push(room[d] + 1);
        d = d + 1;
    }
    proof {
        assert(room@.take(d as int) =~= room@);
    }
    shape
}

/// Fills the cell at `index` from the row before it: the value without the
/// row's unit, or with it where the unit fits and that is worth more.
fn fill_cell(
    table: &mut MemoTable,
    index: &mut Vec<usize>,
    back: &mut Vec<usize>,
    value: u64,
    weight: &Vec<usize>,
    Ghost(values): Ghost<Seq<u64>>,
    Ghost(weights): Ghost<Seq<Seq<usize>>>,
    Ghost(units): Ghost<Seq<usize>>,
)
    requires
        in_table(table_shape(*old(table)), old(index)@),
        old(back)@.len() == old(index)@.len(),
        1 <= old(index)@[0] <= units.len(),
        units_listed(values, weights, units),
        value == values[units[old(index)@[0] - 1] as int],
        weight@ == weights[units[old(index)@[0] - 1] as int],
        weight@.len() + 1 == old(index)@.len(),
        rows_right(
            table_cells(*old(table)),
            table_shape(*old(table)),
            values,
            weights,
            units,
            old(index)@[0] - 1,
        ),
    ensures
        table_shape(*final(table)) == table_shape(*old(table)),
        final(index)@ == old(index)@,
        final(back)@.len() == old(back)@.len(),
        right_cell(table_cells(*final(table)), values, weights, units, old(index)@),
        forall|other: Seq<usize>|
            other != old(index)@ ==> #[trigger] table_cells(*final(table))[other] == table_cells(
                *old(table),
            )[other],
{
    let ghost shape = table_shape(*table);
    let ghost here = index@;
    let ghost room = here.skip(1);
    let row = index[0];
    let ghost before = units.take(row - 1);
    let ghost upto = units.take(row as int);
    proof {
        assert(upto.drop_last() =~= before);
        assert(upto.last() == units[row - 1]);
    }
    index.set(0, row - 1);
    proof {
        assert(in_table(shape, index@));
        assert(index@.skip(1) =~= room);
    }
    let skip = table_read(table, index);
    back.set(0, row - 1);
    let mut fitting = true;
    let mut d: usize = 0;
    while d < weight.len()
        invariant
            d <= weight@.len(),
            weight@.len() + 1 == index@.len(),
            back@.len() == index@.len(),
            back@[0] == row - 1,
            in_table(shape, here),
            here.len() == index@.len(),
            row == here[0],
            row >= 1,
            index@ == here.update(0, (row - 1) as usize),
            fitting <==> (forall|k: int| 0 <= k < d ==> weight@[k] <= #[trigger] room[k]),
            fitting ==> (forall|k: int| 0 <= k < d ==> #[trigger] back@[k + 1] == room[k] - weight@[k]),
            room == here.skip(1),
        decreases weight@.len() - d,
    {
        if fitting {
            assert(room[d as int] == index@[d + 1]);
            if weight[d] > index[d + 1] {
                fitting = false;
            } else {
                back.set(d + 1, index[d + 1] - weight[d]);
            }
        }
        d = d + 1;
    }
    proof {
        assert(fitting <==> fits(weight@, room));
        lemma_best_range(values, weights, upto, room);
        lemma_unit_values_prefix(values, units, row as int);
    }
    let cell = if fitting {
        proof {
            assert forall|k: int| 0 <= k < back@.len() implies back@[k] < shape[k] by {
                if k > 0 {
                    assert(back@[(k - 1) + 1] == room[k - 1] - weight@[k - 1]);
                    assert(room[k - 1] == here[k]);
                }
            }
            assert(in_table(shape, back@));
            assert forall|k: int| 0 <= k < room.len() implies back@.skip(1)[k] == reduce(
                room,
                weight@,
            )[k] by {
                assert(back@[k + 1] == room[k] - weight@[k]);
            }
            assert(back@.skip(1) =~= reduce(room, weight@));
            lemma_best_range(values, weights, before, reduce(room, weight@));
        }
        let take = table_read(table, back) + value;
        if take > skip {
            take
        } else {
            skip
        }
    } else {
        skip
    };
    index.set(0, row);
    proof {
        assert(index@ =~= here);
    }
    table_write(table, index, cell);
}

/// Fills every cell of the row `index[0]` whose multi-index starts as
/// `index` does before `axis`.
fn fill_axis(
    table: &mut MemoTable,
    axes: &Vec<usize>,
    index: &mut Vec<usize>,
    back: &mut Vec<usize>,
    axis: usize,
    value: u64,
    weight: &Vec<usize>,
    Ghost(values): Ghost<Seq<u64>>,
    Ghost(weights): Ghost<Seq<Seq<usize>>>,
    Ghost(units): Ghost<Seq<usize>>,
)
    requires
        axes@ == table_shape(*old(table)),
        1 <= axis <= old(index)@.len(),
        old(index)@.len() == table_shape(*old(table)).len(),
        forall|k: int| 0 <= k < axis ==> old(index)@[k] < table_shape(*old(table))[k],
        forall|k: int| 0 <= k < old(index)@.len() ==> table_shape(*old(table))[k] >= 1,
        old(back)@.len() == old(index)@.len(),
        1 <= old(index)@[0] <= units.len(),
        units_listed(values, weights, units),
        value == values[units[old(index)@[0] - 1] as int],
        weight@ == weights[units[old(index)@[0] - 1] as int],
        weight@.len() + 1 == old(index)@.len(),
        rows_right(
            table_cells(*old(table)),
            table_shape(*old(table)),
            values,
            weights,
            units,
            old(index)@[0] - 1,
        ),
    ensures
        table_shape(*final(table)) == table_shape(*old(table)),
        final(index)@.len() == old(index)@.len(),
        agrees(final(index)@, old(index)@, axis as int),
        final(back)@.len() == old(back)@.len(),
        forall|other: Seq<usize>| #[trigger]
            in_table(table_shape(*old(table)), other) && agrees(other, old(index)@, axis as int)
                ==> right_cell(table_cells(*final(table)), values, weights, units, other),
        forall|other: Seq<usize>| #[trigger]
            in_table(table_shape(*old(table)), other) && !agrees(other, old(index)@, axis as int)
                ==> table_cells(*final(table))[other] == table_cells(*old(table))[other],
    decreases old(index)@.len() - axis,
{
    let ghost shape = table_shape(*table);
    let ghost start = index@;
    let ghost cells_before = table_cells(*table);
    if axis == index.len() {
        proof {
            assert(in_table(shape, index@));
        }
        fill_cell(table, index, back, value, weight, Ghost(values), Ghost(weights), Ghost(units));
        proof {
            assert forall|other: Seq<usize>| #[trigger]
                in_table(shape, other) && agrees(other, start, axis as int) implies right_cell(
                table_cells(*table),
                values,
                weights,
                units,
                other,
            ) by {
                assert(other =~= start);
            }
        }
    } else {
        let width = axes[axis];
        let places = index.len();
        let mut column: usize = 0;
        while column < width
            invariant
                1 <= axis < index@.len(),
                places == index@.len(),
                start == old(index)@,
                axes@ == shape,
                width == shape[axis as int],
                column <= width,
                table_shape(*table) == shape,
                index@.len() == start.len(),
                index@.len() == shape.len(),
                agrees(index@, start, axis as int),
                forall|k: int| 0 <= k < axis ==> start[k] < shape[k],
                forall|k: int| 0 <= k < shape.len() ==> shape[k] >= 1,
                back@.len() == index@.len(),
                1 <= start[0] <= units.len(),
                units_listed(values, weights, units),
                value == values[units[start[0] - 1] as int],
                weight@ == weights[units[start[0] - 1] as int],
                weight@.len() + 1 == index@.len(),
                rows_right(cells_before, shape, values, weights, units, start[0] - 1),
                forall|other: Seq<usize>| #[trigger]
                    in_table(shape, other) && agrees(other, start, axis as int) && other[axis as int]
                        < column ==> right_cell(
                        table_cells(*table),
                        values,
                        weights,
                        units,
                        other,
                    ),
                forall|other: Seq<usize>| #[trigger]
                    in_table(shape, other) && !(agrees(other, start, axis as int)
                        && other[axis as int] < column) ==> table_cells(*table)[other]
                        == cells_before[other],
            decreases width - column,
        {
            let ghost cells_mid = table_cells(*table);
            index.set(axis, column);
            let ghost prefix = index@;
            proof {
                assert forall|other: Seq<usize>| #[trigger]
                    in_table(shape, other) && other[0] <= start[0] - 1 implies right_cell(
                    cells_mid,
                    values,
                    weights,
                    units,
                    other,
                ) by {
                    assert(!agrees(other, start, axis as int));
                    assert(right_cell(cells_before, values, weights, units, other));
                }
            }
            fill_axis(
                table,
                axes,
                index,
                back,
                axis + 1,
                value,
                weight,
                Ghost(values),
                Ghost(weights),
                Ghost(units),
            );
            proof {
                assert forall|other: Seq<usize>| #[trigger]
                    in_table(shape, other) && agrees(other, start, axis as int) && other[axis as int]
                        < column + 1 implies right_cell(
                    table_cells(*table),
                    values,
                    weights,
                    units,
                    other,
                ) by {
                    if other[axis as int] == column {
                        assert(agrees(other, prefix, axis + 1));
                    } else {
                        assert(!agrees(other, prefix, axis + 1));
                        assert(right_cell(cells_mid, values, weights, units, other));
                    }
                }
                assert forall|other: Seq<usize>| #[trigger]
                    in_table(shape, other) && !(agrees(other, start, axis as int)
                        && other[axis as int] < column + 1) implies table_cells(*table)[other]
                    == cells_before[other] by {
                    assert(!agrees(other, prefix, axis + 1));
                }
                assert(agrees(index@, prefix, axis + 1));
            }
            column = column + 1;
        }
    }
}

/// Walks the filled table back from its last cell: a row whose cell differs
/// from the one above it took its unit.
fn walk_back(
    table: &MemoTable,
    axes: &Vec<usize>,
    units: &Vec<usize>,
    values: &Vec<u64>,
    weights: &Vec<Vec<usize>>,
    quantities: &Vec<u64>,
    room: &Vec<usize>,
) -> (counts: Vec<u64>)
    requires
        well_shaped(values@, rows(weights), quantities@, room@),
        units_listed(values@, rows(weights), units@),
        forall|i: int|
            0 <= i < quantities@.len() ==> #[trigger] tally(units@, quantities@.len())[i]
                == quantities@[i],
        table_shape(*table) == axes@,
        axes@.len() == room@.len() + 1,
        axes@[0] == units@.len() + 1,
        forall|d: int| 0 <= d < room@.len() ==> #[trigger] axes@[d + 1] == room@[d] + 1,
        rows_right(
            table_cells(*table),
            axes@,
            values@,
            rows(weights),
            units@,
            units@.len() as int,
        ),
    ensures
        optimal(values@, rows(weights), quantities@, room@, counts@),
        packed_value(counts@, values@) == best(values@, rows(weights), units@, room@),
        counts@.len() == values@.len(),
        forall|i: int|
            0 <= i < counts@.len() ==> #[trigger] counts@[i] == walked_back(
                values@,
                rows(weights),
                units@,
                room@,
                values@.len(),
            )[i],
{
    let n = values.len();
    let dims = room.len();
    let ghost all_values = values@;
    let ghost all_weights = rows(weights);
    let ghost target = best(all_values, all_weights, units@, room@);
    let mut counts: Vec<u64> = Vec::new();
    let mut i: usize = 0;
    while i < n
        invariant
            i <= n,
            counts@.len() == i,
            forall|k: int| 0 <= k < i ==> counts@[k] == 0,
        decreases n - i,
    {
        counts.push(0);
        i = i + 1;
    }
    let mut row = units.len();
    let mut index: Vec<usize> = Vec::new();
    index.push(row);
    let mut d: usize = 0;
    while d < dims
        invariant
            dims == room@.len(),
            d <= dims,
            index@.len() == d + 1,
            index@[0] == row,
            forall|k: int| 0 <= k < d ==> #[trigger] index@[k + 1] == room@[k],
        decreases dims - d,
    {
        index.push(room[d]);
        d = d + 1;
    }
    proof {
        assert(index@.skip(1) =~= room@);
        assert(units@.take(row as int) =~= units@);
        assert forall|k: int| 0 <= k < index@.len() implies index@[k] < axes@[k] by {
            if k > 0 {
                assert(index@[(k - 1) + 1] == room@[k - 1]);
                assert(axes@[(k - 1) + 1] == room@[k - 1] + 1);
            }
        }
        lemma_total_zero(value_terms(counts@, all_values));
        assert forall|d: int| 0 <= d < dims implies packed_weight(counts@, all_weights, d)
            + index@[d + 1] == room@[d] by {
            lemma_total_zero(weight_terms(counts@, all_weights, d));
        }
        lemma_tally_len(units@, n as nat);
    }
    while row > 0
        invariant
            n == values@.len(),
            dims == room@.len(),
            all_values == values@,
            all_weights == rows(weights),
            target == best(all_values, all_weights, units@, room@),
            well_shaped(values@, rows(weights), quantities@, room@),
            units_listed(values@, rows(weights), units@),
            forall|i: int|
                0 <= i < quantities@.len() ==> #[trigger] tally(units@, quantities@.len())[i]
                    == quantities@[i],
            table_shape(*table) == axes@,
            axes@.len() == room@.len() + 1,
            axes@[0] == units@.len() + 1,
            forall|d: int| 0 <= d < room@.len() ==> #[trigger] axes@[d + 1] == room@[d] + 1,
            rows_right(
                table_cells(*table),
                axes@,
                values@,
                rows(weights),
                units@,
                units@.len() as int,
            ),
            row <= units@.len(),
            index@.len() == dims + 1,
            index@[0] == row,
            in_table(axes@, index@),
            counts@.len() == n,
            forall|d: int|
                0 <= d < dims ==> packed_weight(counts@, all_weights, d) + #[trigger] index@[d + 1]
                    == room@[d],
            packed_value(counts@, all_values) + best(
                all_values,
                all_weights,
                units@.take(row as int),
                index@.skip(1),
            ) == target,
            forall|i: int|
                0 <= i < n ==> counts@[i] + #[trigger] tally(units@.take(row as int), n as nat)[i]
                    <= quantities@[i],
            forall|i: int|
                0 <= i < n ==> counts@[i] + #[trigger] walked_back(
                    all_values,
                    all_weights,
                    units@.take(row as int),
                    index@.skip(1),
                    n as nat,
                )[i] == walked_back(all_values, all_weights, units@, room@, n as nat)[i],
        decreases row,
    {
        let ghost upto = units@.take(row as int);
        let ghost before_units = units@.take(row - 1);
        let ghost spot = index@.skip(1);
        let ghost counts_before = counts@;
        let item = units[row - 1];
        proof {
            assert(upto.drop_last() =~= before_units);
            assert(upto.last() == item);
            lemma_tally_len(before_units, n as nat);
            lemma_tally_len(upto, n as nat);
            lemma_walked_back_len(all_values, all_weights, before_units, spot, n as nat);
            lemma_walked_back_len(
                all_values,
                all_weights,
                before_units,
                reduce(spot, all_weights[item as int]),
                n as nat,
            );
        }
        let here = table_read(table, &index);
        index.set(0, row - 1);
        proof {
            assert(in_table(axes@, index@));
            assert(index@.skip(1) =~= spot);
        }
        let above = table_read(table, &index);
        if here != above {
            let weight = &weights[item];
            proof {
                assert(weight@ == all_weights[item as int]);
                assert(fits(weight@, spot));
                assert(forall|k: int| 0 <= k < dims ==> spot[k] == index@[k + 1]);
            }
            let mut d: usize = 0;
            while d < dims
                invariant
                    d <= dims,
                    dims == spot.len(),
                    weight@.len() == dims,
                    fits(weight@, spot),
                    index@.len() == dims + 1,
                    index@[0] == row - 1,
                    forall|k: int| 0 <= k < d ==> #[trigger] index@[k + 1] == spot[k] - weight@[k],
                    forall|k: int| d <= k < dims ==> #[trigger] index@[k + 1] == spot[k],
                decreases dims - d,
            {
                let left = index[d + 1] - weight[d];
                index.set(d + 1, left);
                d = d + 1;
            }
            proof {
                assert(tally(upto, n as nat)[item as int] >= 1);
            }
            let taken = counts[item];
            counts.set(item, taken + 1);
            proof {
                assert(counts@.update(item as int, (counts@[item as int] - 1) as u64)
                    =~= counts_before);
                lemma_one_unit_less(all_values, all_weights, counts@, item as int);
                assert(index@.skip(1) =~= reduce(spot, weight@));
                assert forall|k: int| 0 <= k < index@.len() implies index@[k] < axes@[k] by {
                    if k > 0 {
                        assert(index@[(k - 1) + 1] == spot[k - 1] - weight@[k - 1]);
                        assert(axes@[(k - 1) + 1] == room@[k - 1] + 1);
                    }
                }
                assert forall|d: int| 0 <= d < dims implies packed_weight(
                    counts@,
                    all_weights,
                    d,
                ) + #[trigger] index@[d + 1] == room@[d] by {
                    assert(packed_weight(counts_before, all_weights, d) == packed_weight(
                        counts@,
                        all_weights,
                        d,
                    ) - all_weights[item as int][d]);
                    assert(index@[d + 1] == spot[d] - weight@[d]);
                }
            }
        }
        proof {
            assert(index@.skip(1) =~= if here != above {
                reduce(spot, all_weights[item as int])
            } else {
                spot
            });
            assert(here == best(all_values, all_weights, upto, spot));
            assert(above == best(all_values, all_weights, before_units, spot));
            if here != above {
                let before_walk = walked_back(
                    all_values,
                    all_weights,
                    before_units,
                    reduce(spot, all_weights[item as int]),
                    n as nat,
                );
                assert(walked_back(all_values, all_weights, upto, spot, n as nat)
                    == before_walk.update(item as int, before_walk[item as int] + 1));
            } else {
                assert(walked_back(all_values, all_weights, upto, spot, n as nat) == walked_back(
                    all_values,
                    all_weights,
                    before_units,
                    spot,
                    n as nat,
                ));
            }
            assert forall|i: int| 0 <= i < n implies counts@[i] + #[trigger] walked_back(
                all_values,
                all_weights,
                before_units,
                index@.skip(1),
                n as nat,
            )[i] == walked_back(all_values, all_weights, units@, room@, n as nat)[i] by {
                assert(counts_before[i] + walked_back(
                    all_values,
                    all_weights,
                    upto,
                    spot,
                    n as nat,
                )[i] == walked_back(all_values, all_weights, units@, room@, n as nat)[i]);
            }
            assert forall|i: int| 0 <= i < n implies counts@[i] + #[trigger] tally(
                before_units,
                n as nat,
            )[i] <= quantities@[i] by {
                assert(counts_before[i] + tally(upto, n as nat)[i] <= quantities@[i]);
                assert(tally(upto, n as nat) == tally(before_units, n as nat).update(
                    item as int,
                    tally(before_units, n as nat)[item as int] + 1,
                ));
            }
        }
        row = row - 1;
    }
    proof {
        assert(units@.take(0) =~= Seq::<usize>::empty());
        assert forall|i: int| 0 <= i < n implies #[trigger] counts@[i] == walked_back(
            all_values,
            all_weights,
            units@,
            room@,
            n as nat,
        )[i] by {
            assert(counts@[i] + walked_back(
                all_values,
                all_weights,
                units@.take(0),
                index@.skip(1),
                n as nat,
            )[i] == walked_back(all_values, all_weights, units@, room@, n as nat)[i]);
        }
        assert forall|i: int| 0 <= i < n implies counts@[i] <= quantities@[i] by {
            lemma_tally_len(units@.take(0), n as nat);
            assert(counts@[i] + tally(units@.take(0), n as nat)[i] <= quantities@[i]);
        }
        assert forall|d: int| 0 <= d < room@.len() implies packed_weight(
            counts@,
            all_weights,
            d,
        ) <= room@[d] by {
            assert(packed_weight(counts@, all_weights, d) + index@[d + 1] == room@[d]);
        }
        assert(feasible(all_weights, quantities@, room@, counts@));
        assert forall|other: Seq<u64>| #[trigger]
            feasible(all_weights, quantities@, room@, other) implies packed_value(
            other,
            all_values,
        ) <= packed_value(counts@, all_values) by {
            assert forall|i: int| 0 <= i < other.len() implies other[i] <= #[trigger] tally(
                units@,
                other.len(),
            )[i] by {
                assert(tally(units@, quantities@.len())[i] == quantities@[i]);
            }
            lemma_best_dominates(all_values, all_weights, units@, room@, other);
        }
    }
    counts
}

/// The exact solution of a selection problem: how many units of each item
/// to take so that the room holds them and no other choice is worth more.
///
/// `values[i]`, `weights[i]` and `quantities[i]` describe item `i`; `room`
/// is what is free in each dimension. The table must be allocatable, and the
/// value of all units together must fit the value type.
pub fn optimal_counts(
    values: &Vec<u64>,
    weights: &Vec<Vec<usize>>,
    quantities: &Vec<u64>,
    room: &Vec<usize>,
) -> (counts: Vec<u64>)
    requires
        well_shaped(values@, rows(weights), quantities@, room@),
        table_fits(quantities@, room@),
        packed_value(quantities@, values@) <= u64::MAX,
    ensures
        optimal(values@, rows(weights), quantities@, room@, counts@),
        counts@.len() == quantities@.len(),
        forall|i: int|
            0 <= i < counts@.len() ==> #[trigger] counts@[i] == chosen(
                values@,
                rows(weights),
                quantities@,
                room@,
            )[i],
{
    let ghost all_weights = rows(weights);
    proof {
        lemma_total_nonnegative(Seq::new(quantities@.len(), |i: int| quantities@[i] as int));
        lemma_cells_needed_positive(unit_count(quantities@), room@);
    }
    let units = expand_units(quantities);
    proof {
        lemma_unit_values_by_tally(values@, units@);
        assert(Seq::new(values@.len(), |i: int| tally(units@, values@.len())[i] * values@[i])
            =~= value_terms(quantities@, values@));
    }
    let axes = table_axes(units.len(), room);
    proof {
        assert forall|k: int| 0 <= k < axes@.len() implies axes@[k] >= 1 by {
            if k > 0 {
                assert(axes@[(k - 1) + 1] == room@[k - 1] + 1);
            }
        }
    }
    let mut table = table_zeros(&axes);
    let places = axes.len();
    let mut index: Vec<usize> = Vec::new();
    let mut back: Vec<usize> = Vec::new();
    let mut k: usize = 0;
    while k < places
        invariant
            k <= places,
            index@.len() == k,
            back@.len() == k,
        decreases places - k,
    {
        index.push(0);
        back.push(0);
        k = k + 1;
    }
    proof {
        assert forall|at: Seq<usize>| #[trigger]
            in_table(axes@, at) && at[0] <= 0 implies right_cell(
            table_cells(table),
            values@,
            all_weights,
            units@,
            at,
        ) by {
            assert(units@.take(0) =~= Seq::<usize>::empty());
        }
    }
    let mut row: usize = 0;
    while row < units.len()
        invariant
            row <= units@.len(),
            places == axes@.len(),
            index@.len() == places,
            back@.len() == places,
            all_weights == rows(weights),
            well_shaped(values@, rows(weights), quantities@, room@),
            units_listed(values@, all_weights, units@),
            table_shape(table) == axes@,
            axes@.len() == room@.len() + 1,
            axes@[0] == units@.len() + 1,
            forall|k: int| 0 <= k < axes@.len() ==> axes@[k] >= 1,
            forall|d: int| 0 <= d < room@.len() ==> #[trigger] axes@[d + 1] == room@[d] + 1,
            rows_right(table_cells(table), axes@, values@, all_weights, units@, row as int),
        decreases units@.len() - row,
    {
        let item = units[row];
        let ghost cells_before = table_cells(table);
        proof {
            assert(all_weights[item as int].len() == room@.len());
        }
        index.set(0, row + 1);
        let ghost start = index@;
        fill_axis(
            &mut table,
            &axes,
            &mut index,
            &mut back,
            1,
            values[item],
            &weights[item],
            Ghost(values@),
            Ghost(all_weights),
            Ghost(units@),
        );
        proof {
            assert forall|at: Seq<usize>| #[trigger]
                in_table(axes@, at) && at[0] <= row + 1 implies right_cell(
                table_cells(table),
                values@,
                all_weights,
                units@,
                at,
            ) by {
                if at[0] == row + 1 {
                    assert(agrees(at, start, 1));
                } else {
                    assert(!agrees(at, start, 1));
                    assert(right_cell(cells_before, values@, all_weights, units@, at));
                }
            }
        }
        row = row + 1;
    }
    walk_back(&table, &axes, &units, values, weights, quantities, room)
}

} // verus!
