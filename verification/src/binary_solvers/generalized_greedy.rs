//! The decisions of the generalized-greedy heuristic: given the order in
//! which the scores rank the items and the knapsacks, which item goes where,
//! which is held aside and which marks the point where a knapsack is full.
use vstd::prelude::*;
use crate::compatible_problem_type_trait::CompatibleProblemType;
use crate::item::{BinaryProblemItems, Item};
use crate::holdings::{held, lemma_held_joined, lemma_held_nonnegative};
use crate::knapsack::{fits_in, BinaryProblemKnapsacks, KnapsackView};
use crate::problem_type::{lemma_view_of, view_of};

verus! {

/// The generalized-greedy heuristic for binary problems with several
/// knapsacks.
#[derive(Clone, Copy, PartialEq, Debug)]
pub struct GeneralizedGreedy;

/// An item of the list, by its position `j`, with the decision `x` taken
/// for it: whether it is in.
#[derive(Clone, Copy, PartialEq, Debug)]
pub struct ItemInfo {
    pub j: usize,
    pub x: bool,
}

/// What a sweep over the items comes to: the items it decided on, in the
/// order of deciding, the value of those that fitted and the value of those
/// that split.
pub struct Placement {
    pub marks: Vec<ItemInfo>,
    pub value: u128,
    pub split_value: u128,
}

/// The decisions of a list of marks.
pub open spec fn decisions(marks: Seq<ItemInfo>) -> Seq<(usize, bool)> {
    Seq::new(marks.len(), |i: int| (marks[i].j, marks[i].x))
}

/// The state of the first sweep: the items still to come (the last one
/// next), those held aside for the next knapsack, the decisions so far, the
/// current knapsack, what it is filled with, and the two running values.
pub struct SweepState {
    pub queue: Seq<usize>,
    pub aside: Seq<usize>,
    pub marks: Seq<(usize, bool)>,
    pub knapsack: int,
    pub fill: Seq<u64>,
    pub value: int,
    pub split_value: int,
}

/// Whether a unit of the given weight fits the room beside what already
/// fills it.
pub open spec fn fits_beside(weight: Seq<u64>, fill: Seq<u64>, room: Seq<u64>) -> bool {
    forall|r: int| 0 <= r < room.len() ==> fill[r] + weight[r] <= room[r]
}

/// Whether a unit of the given weight fits the empty room.
pub open spec fn fits_alone(weight: Seq<u64>, room: Seq<u64>) -> bool {
    forall|r: int| 0 <= r < room.len() ==> weight[r] <= room[r]
}

/// The fill with one more unit of the given weight.
pub open spec fn filled(fill: Seq<u64>, weight: Seq<u64>) -> Seq<u64> {
    Seq::new(fill.len(), |r: int| (fill[r] + weight[r]) as u64)
}

/// No fill, in `dims` dimensions.
pub open spec fn no_fill(dims: nat) -> Seq<u64> {
    Seq::new(dims, |r: int| 0u64)
}

/// Whether the first sweep is over: no item is left, or no knapsack.
pub open spec fn sweep_done(rooms: Seq<Seq<u64>>, state: SweepState) -> bool {
    state.queue.len() == 0 || state.knapsack >= rooms.len()
}

/// One step of the first sweep, on the next item. An item that fits the
/// current knapsack beside its fill is in. One that does not fit even the
/// empty knapsack is held aside. Any other is the split item: it marks the
/// knapsack as full, is out, and comes again for the next knapsack, behind
/// the items held aside.
pub open spec fn sweep_step(
    values: Seq<u64>,
    weights: Seq<Seq<u64>>,
    rooms: Seq<Seq<u64>>,
    state: SweepState,
) -> SweepState {
    let j = state.queue.last();
    let rest = state.queue.drop_last();
    let room = rooms[state.knapsack];
    if fits_beside(weights[j as int], state.fill, room) {
        SweepState {
            queue: rest,
            marks: state.marks.push((j, true)),
            fill: filled(state.fill, weights[j as int]),
            value: state.value + values[j as int],
            ..state
        }
    } else if !fits_alone(weights[j as int], room) {
        SweepState { queue: rest, aside: state.aside.push(j), ..state }
    } else {
        SweepState {
            queue: rest.push(j) + state.aside.reverse(),
            aside: Seq::empty(),
            marks: state.marks.push((j, false)),
            knapsack: state.knapsack + 1,
            fill: no_fill(state.fill.len()),
            split_value: state.split_value + values[j as int],
            ..state
        }
    }
}

/// The state in which the first sweep ends.
pub open spec fn sweep_all(
    values: Seq<u64>,
    weights: Seq<Seq<u64>>,
    rooms: Seq<Seq<u64>>,
    state: SweepState,
) -> SweepState
    decreases rooms.len() - state.knapsack, state.queue.len(),
{
    if sweep_done(rooms, state) {
        state
    } else {
        sweep_all(values, weights, rooms, sweep_step(values, weights, rooms, state))
    }
}

/// The state in which the first sweep starts: the items as a queue of
/// positions, the one to be decided first last.
pub open spec fn sweep_start(order: Seq<usize>, dims: nat) -> SweepState {
    SweepState {
        queue: order,
        aside: Seq::empty(),
        marks: Seq::empty(),
        knapsack: 0,
        fill: no_fill(dims),
        value: 0,
        split_value: 0,
    }
}

/// The decisions with every one turned round.
pub open spec fn flipped(marks: Seq<(usize, bool)>) -> Seq<(usize, bool)> {
    Seq::new(marks.len(), |i: int| (marks[i].0, !marks[i].1))
}

/// The numbers of the sweeps agree in their lengths, and the order names
/// items of the list.
pub open spec fn sweep_inputs(
    values: Seq<u64>,
    weights: Seq<Seq<u64>>,
    rooms: Seq<Seq<u64>>,
    order: Seq<usize>,
    dims: nat,
) -> bool {
    &&& weights.len() == values.len()
    &&& forall|j: int| 0 <= j < weights.len() ==> (#[trigger] weights[j]).len() == dims
    &&& forall|k: int| 0 <= k < rooms.len() ==> (#[trigger] rooms[k]).len() == dims
    &&& forall|i: int| 0 <= i < order.len() ==> (#[trigger] order[i]) < values.len()
}

/// The rows of a table of numbers.
pub open spec fn table_rows(table: &Vec<Vec<u64>>) -> Seq<Seq<u64>> {
    Seq::new(table@.len(), |i: int| table@[i]@)
}

/// Whether a unit of the given weight fits the room beside what already
/// fills it.
pub fn fits_beside_fill(weight: &Vec<u64>, fill: &Vec<u64>, room: &Vec<u64>) -> (fits: bool)
    requires
        weight@.len() == room@.len(),
        fill@.len() == room@.len(),
    ensures
        fits == fits_beside(weight@, fill@, room@),
{
    let mut fits = true;
    let mut r: usize = 0;
    while r < room.len()
        invariant
            r <= room@.len(),
            weight@.len() == room@.len(),
            fill@.len() == room@.len(),
            fits <==> (forall|k: int| 0 <= k < r ==> fill@[k] + weight@[k] <= room@[k]),
        decreases room@.len() - r,
    {
        if fill[r] > room[r] || weight[r] > room[r] - fill[r] {
            fits = false;
        }
        r = r + 1;
    }
    fits
}

/// Whether a unit of the given weight fits the empty room.
pub fn fits_empty(weight: &Vec<u64>, room: &Vec<u64>) -> (fits: bool)
    requires
        weight@.len() == room@.len(),
    ensures
        fits == fits_alone(weight@, room@),
{
    let mut fits = true;
    let mut r: usize = 0;
    while r < room.len()
        invariant
            r <= room@.len(),
            weight@.len() == room@.len(),
            fits <==> (forall|k: int| 0 <= k < r ==> weight@[k] <= room@[k]),
        decreases room@.len() - r,
    {
        if weight[r] > room[r] {
            fits = false;
        }
        r = r + 1;
    }
    fits
}

/// A fill of zeros in `dims` dimensions.
fn empty_fill(dims: usize) -> (fill: Vec<u64>)
    ensures
        fill@ == no_fill(dims as nat),
{
    let mut fill: Vec<u64> = Vec::new();
    let mut r: usize = 0;
    while r < dims
        invariant
            r <= dims,
            fill@.len() == r,
            forall|k: int| 0 <= k < r ==> fill@[k] == 0,
        decreases dims - r,
    {
        fill.push(0);
        r = r + 1;
    }
    proof {
        assert(fill@ =~= no_fill(dims as nat));
    }
    fill
}

/// The fill with one more unit of the given weight.
fn add_to_fill(fill: &mut Vec<u64>, weight: &Vec<u64>, Ghost(room): Ghost<Seq<u64>>)
    requires
        weight@.len() == room.len(),
        old(fill)@.len() == room.len(),
        fits_beside(weight@, old(fill)@, room),
    ensures
        final(fill)@ == filled(old(fill)@, weight@),
{
    let ghost before = fill@;
    let mut r: usize = 0;
    while r < fill.len()
        invariant
            r <= fill@.len(),
            fill@.len() == before.len(),
            weight@.len() == room.len(),
            before.len() == room.len(),
            fits_beside(weight@, before, room),
            forall|k: int| 0 <= k < r ==> fill@[k] == before[k] + weight@[k],
            forall|k: int| r <= k < fill@.len() ==> fill@[k] == before[k],
        decreases fill@.len() - r,
    {
        assert(before[r as int] + weight@[r as int] <= room[r as int]);
        let more = fill[r] + weight[r];
        fill.set(r, more);
        r = r + 1;
    }
    proof {
        assert(fill@ =~= filled(before, weight@));
    }
}

impl GeneralizedGreedy {
    /// The first sweep. The items come as a queue of positions in the order
    /// of their scores, the one to be decided first last; the knapsacks in
    /// the order of theirs, with what each has free. Which score goes first
    /// is the caller's: the sweep takes the queue as it is. The sweep fills
    /// one knapsack after the other, and its
    /// decisions come back turned round where the split items are worth more
    /// than the items that fitted.
    pub fn senju_toyoda_sweep(
        values: &Vec<u64>,
        weights: &Vec<Vec<u64>>,
        rooms: &Vec<Vec<u64>>,
        order: Vec<usize>,
        dims: usize,
    ) -> (placement: Placement)
        requires
            sweep_inputs(values@, table_rows(weights), table_rows(rooms), order@, dims as nat),
        ensures
            placement.value == sweep_all(
                values@,
                table_rows(weights),
                table_rows(rooms),
                sweep_start(order@, dims as nat),
            ).value,
            placement.split_value == sweep_all(
                values@,
                table_rows(weights),
                table_rows(rooms),
                sweep_start(order@, dims as nat),
            ).split_value,
            decisions(placement.marks@) == if placement.split_value > placement.value {
                flipped(
                    sweep_all(
                        values@,
                        table_rows(weights),
                        table_rows(rooms),
                        sweep_start(order@, dims as nat),
                    ).marks,
                )
            } else {
                sweep_all(
                    values@,
                    table_rows(weights),
                    table_rows(rooms),
                    sweep_start(order@, dims as nat),
                ).marks
            },
    {
        let ghost all_weights = table_rows(weights);
        let ghost all_rooms = table_rows(rooms);
        let ghost start = sweep_start(order@, dims as nat);
        let mut queue = order;
        let mut aside: Vec<usize> = Vec::new();
        let mut marks: Vec<ItemInfo> = Vec::new();
        let mut knapsack: usize = 0;
        let mut fill = empty_fill(dims);
        let mut value: u128 = 0;
        let mut split_value: u128 = 0;
        let ghost mut state = start;
        proof {
            assert(decisions(marks@) =~= state.marks);
        }
        while queue.len() > 0 && knapsack < rooms.len()
            invariant
                all_weights == table_rows(weights),
                all_rooms == table_rows(rooms),
                weights@.len() == values@.len(),
                forall|j: int| 0 <= j < all_weights.len() ==> (#[trigger] all_weights[j]).len() == dims,
                forall|k: int| 0 <= k < all_rooms.len() ==> (#[trigger] all_rooms[k]).len() == dims,
                forall|i: int| 0 <= i < queue@.len() ==> (#[trigger] queue@[i]) < values@.len(),
                forall|i: int| 0 <= i < aside@.len() ==> (#[trigger] aside@[i]) < values@.len(),
                knapsack <= rooms@.len(),
                fill@.len() == dims,
                value <= marks@.len() * 0xffff_ffff_ffff_ffff,
                split_value <= marks@.len() * 0xffff_ffff_ffff_ffff,
                state.queue == queue@,
                state.aside == aside@,
                state.marks == decisions(marks@),
                state.knapsack == knapsack,
                state.fill == fill@,
                state.value == value,
                state.split_value == split_value,
                sweep_all(values@, all_weights, all_rooms, start) == sweep_all(
                    values@,
                    all_weights,
                    all_rooms,
                    state,
                ),
            decreases rooms@.len() - knapsack, queue@.len(),
        {
            let ghost before = state;
            let ghost queued = queue@;
            let j = queue.pop().unwrap();
            let decided = marks.len();
            proof {
                assert(queued[queued.len() - 1] < values@.len());
                assert(queue@ =~= queued.drop_last());
                assert(all_weights[j as int].len() == dims);
                assert(all_rooms[knapsack as int].len() == dims);
                assert(marks@.len() * 0xffff_ffff_ffff_ffff + 0xffff_ffff_ffff_ffff == (marks@.len()
                    + 1) * 0xffff_ffff_ffff_ffff) by (nonlinear_arith);
                assert(marks@.len() * 0xffff_ffff_ffff_ffff <= 0xffff_ffff_ffff_ffff
                    * 0xffff_ffff_ffff_ffff) by (nonlinear_arith)
                    requires
                        marks@.len() == decided,
                        decided <= 0xffff_ffff_ffff_ffff,
                ;
            }
            let weight = &weights[j];
            let room = &rooms[knapsack];
            if fits_beside_fill(weight, &fill, room) {
                add_to_fill(&mut fill, weight, Ghost(room@));
                marks.push(ItemInfo { j: j, x: true });
                value = value + values[j] as u128;
            } else if !fits_empty(weight, room) {
                aside.push(j);
            } else {
                split_value = split_value + values[j] as u128;
                fill = empty_fill(dims);
                queue.push(j);
                let ghost held = aside@;
                let ghost base = queue@;
                while aside.len() > 0
                    invariant
                        aside@.len() <= held.len(),
                        aside@ == held.take(aside@.len() as int),
                        queue@ == base + held.skip(aside@.len() as int).reverse(),
                        forall|i: int| 0 <= i < held.len() ==> (#[trigger] held[i]) < values@.len(),
                        forall|i: int| 0 <= i < base.len() ==> (#[trigger] base[i]) < values@.len(),
                    decreases aside@.len(),
                {
                    let ghost left = aside@;
                    let one = aside.pop().unwrap();
                    proof {
                        assert(aside@ =~= held.take(aside@.len() as int));
                        assert(one == held[left.len() - 1]);
                        assert(held.skip(aside@.len() as int).reverse() =~= held.skip(
                            left.len() as int,
                        ).reverse().push(one));
                    }
                    queue.push(one);
                    proof {
                        assert(queue@ =~= base + held.skip(aside@.len() as int).reverse());
                    }
                }
                proof {
                    assert(held.skip(0) =~= held);
                    assert(aside@ =~= Seq::<usize>::empty());
                }
                marks.push(ItemInfo { j: j, x: false });
                knapsack = knapsack + 1;
            }
            proof {
                state = sweep_step(values@, all_weights, all_rooms, before);
                assert(decisions(marks@) =~= state.marks);
                assert(state.queue =~= queue@);
                assert(state.aside =~= aside@);
            }
        }
        if split_value > value {
            let mut i: usize = 0;
            let ghost plain = marks@;
            while i < marks.len()
                invariant
                    i <= marks@.len(),
                    marks@.len() == plain.len(),
                    forall|k: int|
                        0 <= k < i ==> (#[trigger] marks@[k]).j == plain[k].j && marks@[k].x
                            != plain[k].x,
                    forall|k: int| i <= k < marks@.len() ==> marks@[k] == plain[k],
                decreases marks@.len() - i,
            {
                let mark = marks[i];
                marks.set(i, ItemInfo { j: mark.j, x: !mark.x });
                i = i + 1;
            }
            proof {
                assert(decisions(marks@) =~= flipped(decisions(plain)));
            }
        }
        Placement { marks: marks, value: value, split_value: split_value }
    }
}

/// The state of the second sweep: the decisions, the current knapsack,
/// what it is filled with, and the two running values.
pub struct PassState {
    pub marks: Seq<(usize, bool)>,
    pub knapsack: int,
    pub fill: Seq<u64>,
    pub value: int,
    pub split_value: int,
}

/// One step of the second sweep, on the item decided at `at`. An item that
/// fits the current knapsack beside its fill is in; any other is out and
/// marks the knapsack as full.
pub open spec fn pass_step(
    values: Seq<u64>,
    weights: Seq<Seq<u64>>,
    rooms: Seq<Seq<u64>>,
    state: PassState,
    at: int,
) -> PassState {
    let j = state.marks[at].0;
    if fits_beside(weights[j as int], state.fill, rooms[state.knapsack]) {
        PassState {
            marks: state.marks.update(at, (j, true)),
            fill: filled(state.fill, weights[j as int]),
            value: state.value + values[j as int],
            ..state
        }
    } else {
        PassState {
            marks: state.marks.update(at, (j, false)),
            knapsack: state.knapsack + 1,
            fill: no_fill(state.fill.len()),
            split_value: state.split_value + values[j as int],
            ..state
        }
    }
}

/// The state in which the second sweep ends, from the item decided at `at`
/// on: it goes through the decisions in order and stops early when no
/// knapsack is left, leaving the decisions behind that point as they were.
pub open spec fn pass_all(
    values: Seq<u64>,
    weights: Seq<Seq<u64>>,
    rooms: Seq<Seq<u64>>,
    state: PassState,
    at: int,
) -> PassState
    decreases state.marks.len() - at,
{
    if at < 0 || at >= state.marks.len() || state.knapsack >= rooms.len() {
        state
    } else {
        pass_all(values, weights, rooms, pass_step(values, weights, rooms, state, at), at + 1)
    }
}

/// The state in which the second sweep starts.
pub open spec fn pass_start(marks: Seq<(usize, bool)>, dims: nat) -> PassState {
    PassState { marks: marks, knapsack: 0, fill: no_fill(dims), value: 0, split_value: 0 }
}

impl GeneralizedGreedy {
    /// The second sweep. The decided items come in the order of their
    /// refined scores, the one to be decided first first; the knapsacks in
    /// the order of theirs, with what each has free. Every item is decided
    /// anew.
    pub fn loulou_michaelides_sweep(
        values: &Vec<u64>,
        weights: &Vec<Vec<u64>>,
        rooms: &Vec<Vec<u64>>,
        marks: Vec<ItemInfo>,
        dims: usize,
    ) -> (placement: Placement)
        requires
            weights@.len() == values@.len(),
            forall|j: int|
                0 <= j < weights@.len() ==> (#[trigger] table_rows(weights)[j]).len() == dims,
            forall|k: int| 0 <= k < rooms@.len() ==> (#[trigger] table_rows(rooms)[k]).len() == dims,
            forall|i: int| 0 <= i < marks@.len() ==> (#[trigger] marks@[i]).j < values@.len(),
        ensures
            placement.value == pass_all(
                values@,
                table_rows(weights),
                table_rows(rooms),
                pass_start(decisions(marks@), dims as nat),
                0,
            ).value,
            placement.split_value == pass_all(
                values@,
                table_rows(weights),
                table_rows(rooms),
                pass_start(decisions(marks@), dims as nat),
                0,
            ).split_value,
            decisions(placement.marks@) == pass_all(
                values@,
                table_rows(weights),
                table_rows(rooms),
                pass_start(decisions(marks@), dims as nat),
                0,
            ).marks,
    {
        let ghost all_weights = table_rows(weights);
        let ghost all_rooms = table_rows(rooms);
        let ghost start = pass_start(decisions(marks@), dims as nat);
        let mut marks = marks;
        let mut knapsack: usize = 0;
        let mut fill = empty_fill(dims);
        let mut value: u128 = 0;
        let mut split_value: u128 = 0;
        let ghost mut state = start;
        let count = marks.len();
        let mut at: usize = 0;
        while at < count && knapsack < rooms.len()
            invariant
                count == marks@.len(),
                at <= count,
                all_weights == table_rows(weights),
                all_rooms == table_rows(rooms),
                weights@.len() == values@.len(),
                forall|j: int| 0 <= j < all_weights.len() ==> (#[trigger] all_weights[j]).len() == dims,
                forall|k: int| 0 <= k < all_rooms.len() ==> (#[trigger] all_rooms[k]).len() == dims,
                forall|i: int| 0 <= i < marks@.len() ==> (#[trigger] marks@[i]).j < values@.len(),
                knapsack <= rooms@.len(),
                fill@.len() == dims,
                value <= at * 0xffff_ffff_ffff_ffff,
                split_value <= at * 0xffff_ffff_ffff_ffff,
                state.marks == decisions(marks@),
                state.knapsack == knapsack,
                state.fill == fill@,
                state.value == value,
                state.split_value == split_value,
                pass_all(values@, all_weights, all_rooms, start, 0) == pass_all(
                    values@,
                    all_weights,
                    all_rooms,
                    state,
                    at as int,
                ),
            decreases count - at,
        {
            let ghost before = state;
            let j = marks[at].j;
            proof {
                assert(marks@[at as int].j < values@.len());
                assert(all_weights[j as int].len() == dims);
                assert(all_rooms[knapsack as int].len() == dims);
                assert(at * 0xffff_ffff_ffff_ffff + 0xffff_ffff_ffff_ffff == (at + 1)
                    * 0xffff_ffff_ffff_ffff) by (nonlinear_arith);
                assert(at * 0xffff_ffff_ffff_ffff <= 0xffff_ffff_ffff_ffff * 0xffff_ffff_ffff_ffff)
                    by (nonlinear_arith)
                    requires
                        at <= 0xffff_ffff_ffff_ffff,
                ;
            }
            let weight = &weights[j];
            let room = &rooms[knapsack];
            if fits_beside_fill(weight, &fill, room) {
                add_to_fill(&mut fill, weight, Ghost(room@));
                marks.set(at, ItemInfo { j: j, x: true });
                value = value + values[j] as u128;
            } else {
                marks.set(at, ItemInfo { j: j, x: false });
                split_value = split_value + values[j] as u128;
                fill = empty_fill(dims);
                knapsack = knapsack + 1;
            }
            proof {
                state = pass_step(values@, all_weights, all_rooms, before, at as int);
                assert(decisions(marks@) =~= state.marks);
            }
            at = at + 1;
        }
        Placement { marks: marks, value: value, split_value: split_value }
    }
}

/// One unit packed: the item, by its position `j` in the list, and the
/// knapsack it went into.
#[derive(Clone, Copy, PartialEq, Debug)]
pub struct Packing {
    pub j: usize,
    pub knapsack: usize,
}

/// The units packed, as pairs of position and knapsack.
pub open spec fn records(packed: Seq<Packing>) -> Seq<(usize, usize)> {
    Seq::new(packed.len(), |i: int| (packed[i].j, packed[i].knapsack))
}

/// What the knapsacks hold while the decisions are carried out, the place
/// in the order of the knapsack that is being filled, and the units packed
/// so far, each as the position of its item and its knapsack.
pub struct CommitState {
    pub held: Seq<Seq<(Seq<u64>, u64)>>,
    pub at: int,
    pub log: Seq<(usize, usize)>,
}

/// Whether the item at position `j` is among the units packed.
pub open spec fn packed_already(log: Seq<(usize, usize)>, j: usize) -> bool {
    exists|i: int| 0 <= i < log.len() && (#[trigger] log[i]).0 == j
}

/// No position of the list is among the units packed more than once.
pub open spec fn packed_once(log: Seq<(usize, usize)>) -> bool {
    forall|a: int, b: int|
        0 <= a < b < log.len() ==> (#[trigger] log[a]).0 != (#[trigger] log[b]).0
}

/// The entries that the units packed bring to the knapsack `k`, in the
/// order of packing: one unit under the key of each item that went there.
pub open spec fn placed_in(log: Seq<(usize, usize)>, keys: Seq<Seq<u64>>, k: int) -> Seq<
    (Seq<u64>, u64),
>
    decreases log.len(),
{
    if log.len() == 0 {
        Seq::empty()
    } else if log.last().1 == k {
        placed_in(log.drop_last(), keys, k).push((keys[log.last().0 as int], 1u64))
    } else {
        placed_in(log.drop_last(), keys, k)
    }
}

/// Whether a listing knapsack with the given capacity and entries takes one
/// more unit under `key`.
pub open spec fn takes(capacity: Seq<u64>, items: Seq<(Seq<u64>, u64)>, key: Seq<u64>) -> bool {
    fits_in(
        view_of(capacity, items).value,
        view_of(capacity, items).weights,
        capacity,
        key,
        1,
    )
}

/// The first place in the order, from `from` on, whose knapsack takes one
/// more unit under `key`; the length of the order where none does.
pub open spec fn first_fit(
    capacities: Seq<Seq<u64>>,
    held: Seq<Seq<(Seq<u64>, u64)>>,
    order: Seq<usize>,
    key: Seq<u64>,
    from: int,
) -> int
    decreases order.len() - from,
{
    if from < 0 || from >= order.len() {
        order.len() as int
    } else if takes(capacities[order[from] as int], held[order[from] as int], key) {
        from
    } else {
        first_fit(capacities, held, order, key, from + 1)
    }
}

/// Carrying out one decision. A decision on an item that is packed already
/// changes nothing: no item is packed twice. Otherwise, where the items
/// that fitted win, an item that is in goes into the first knapsack from the
/// current one on that takes it, and that knapsack becomes the current one;
/// where none takes it, the knapsacks are used up. Where the split items
/// win, an item that is out is offered to the current knapsack, and the
/// next knapsack becomes the current one.
pub open spec fn commit_step(
    capacities: Seq<Seq<u64>>,
    order: Seq<usize>,
    keys: Seq<Seq<u64>>,
    fit_wins: bool,
    state: CommitState,
    mark: (usize, bool),
) -> CommitState {
    let key = keys[mark.0 as int];
    if packed_already(state.log, mark.0) {
        state
    } else if fit_wins {
        if mark.1 {
            let place = first_fit(capacities, state.held, order, key, state.at);
            if place < order.len() {
                CommitState {
                    held: state.held.update(
                        order[place] as int,
                        state.held[order[place] as int].push((key, 1u64)),
                    ),
                    at: place,
                    log: state.log.push((mark.0, order[place])),
                }
            } else {
                CommitState { at: place, ..state }
            }
        } else {
            state
        }
    } else {
        if !mark.1 {
            let k = order[state.at];
            if takes(capacities[k as int], state.held[k as int], key) {
                CommitState {
                    held: state.held.update(k as int, state.held[k as int].push((key, 1u64))),
                    at: state.at + 1,
                    log: state.log.push((mark.0, k)),
                }
            } else {
                CommitState { at: state.at + 1, ..state }
            }
        } else {
            state
        }
    }
}

/// The state after the decisions from the one at `from` on were carried out
/// in order, until the knapsacks are used up.
pub open spec fn commit_all(
    capacities: Seq<Seq<u64>>,
    order: Seq<usize>,
    keys: Seq<Seq<u64>>,
    fit_wins: bool,
    marks: Seq<(usize, bool)>,
    state: CommitState,
    from: int,
) -> CommitState
    decreases marks.len() - from,
{
    if from < 0 || from >= marks.len() || state.at >= order.len() {
        state
    } else {
        commit_all(
            capacities,
            order,
            keys,
            fit_wins,
            marks,
            commit_step(capacities, order, keys, fit_wins, state, marks[from]),
            from + 1,
        )
    }
}

/// The entries that every knapsack of the list holds.
pub open spec fn all_held<T: CompatibleProblemType, const S: usize>(
    knapsacks: BinaryProblemKnapsacks<T, S>,
) -> Seq<Seq<(Seq<u64>, u64)>> {
    Seq::new(knapsacks.knapsacks@.len(), |k: int| knapsacks.knapsacks@[k]@.items)
}

/// The capacity of every knapsack of the list.
pub open spec fn all_capacities<T: CompatibleProblemType, const S: usize>(
    knapsacks: BinaryProblemKnapsacks<T, S>,
) -> Seq<Seq<u64>> {
    Seq::new(knapsacks.knapsacks@.len(), |k: int| knapsacks.knapsacks@[k]@.capacity)
}

/// The identity key of every item of the list.
pub open spec fn all_keys<T: CompatibleProblemType, const S: usize>(
    items: BinaryProblemItems<T, S>,
) -> Seq<Seq<u64>> {
    Seq::new(items@.len(), |j: int| items@[j].key_spec())
}

/// Whether one unit under `key` fits what the knapsack has free.
pub open spec fn has_room_for(view: KnapsackView, key: Seq<u64>) -> bool {
    forall|d: int|
        0 <= d < view.weights.len() ==> view.weights[d] + #[trigger] key[d + 1] <= view.capacity[d]
}

/// A knapsack that takes a unit after other entries came in had room for it
/// before they came.
pub proof fn lemma_takes_means_room(
    view: KnapsackView,
    placed: Seq<(Seq<u64>, u64)>,
    key: Seq<u64>,
    dims: nat,
)
    requires
        crate::knapsack::sound(view, dims),
        crate::knapsack::sound(view_of(view.capacity, view.items + placed), dims),
        takes(view.capacity, view.items + placed, key),
    ensures
        has_room_for(view, key),
{
    assert forall|d: int| 0 <= d < view.weights.len() implies view.weights[d] + #[trigger] key[d
        + 1] <= view.capacity[d] by {
        lemma_held_joined(view.items, placed, d + 1);
        lemma_held_nonnegative(placed, d + 1);
        lemma_held_nonnegative(view.items + placed, d + 1);
        let now = view_of(view.capacity, view.items + placed);
        assert(now.weights[d] + key[d + 1] * 1 <= view.capacity[d]);
        assert(view.weights[d] == held(view.items, d + 1));
        assert(now.weights[d] == held(now.items, d + 1));
    }
}

/// One more unit packed: the item is among the units packed from then on,
/// it goes to its knapsack and to no other, and no position comes twice
/// where it was not packed before.
pub proof fn lemma_one_more_packed(
    log: Seq<(usize, usize)>,
    keys: Seq<Seq<u64>>,
    j: usize,
    k: usize,
)
    ensures
        forall|x: usize|
            packed_already(log.push((j, k)), x) == (#[trigger] packed_already(log, x) || x == j),
        forall|at: int|
            #[trigger] placed_in(log.push((j, k)), keys, at) == if at == k {
                placed_in(log, keys, at).push((keys[j as int], 1u64))
            } else {
                placed_in(log, keys, at)
            },
        packed_once(log) && !packed_already(log, j) ==> packed_once(log.push((j, k))),
{
    let more = log.push((j, k));
    assert(more.drop_last() =~= log);
    assert forall|x: usize| packed_already(more, x) == (#[trigger] packed_already(log, x) || x
        == j) by {
        if packed_already(log, x) {
            let i = choose|i: int| 0 <= i < log.len() && (#[trigger] log[i]).0 == x;
            assert(more[i].0 == x);
        }
        if x == j {
            assert(more[log.len() as int].0 == x);
        }
        if packed_already(more, x) {
            let i = choose|i: int| 0 <= i < more.len() && (#[trigger] more[i]).0 == x;
            if i < log.len() {
                assert(log[i].0 == x);
            }
        }
    }
    if packed_once(log) && !packed_already(log, j) {
        assert forall|a: int, b: int| 0 <= a < b < more.len() implies (#[trigger] more[a]).0 != (
        #[trigger] more[b]).0 by {
            if b == log.len() {
                assert(log[a].0 != j);
            } else {
                assert(log[a].0 != log[b].0);
            }
        }
    }
}

impl GeneralizedGreedy {
    /// Carries the decisions of a sweep out: packs the chosen items, one
    /// unit each, into the knapsacks in their order, and reports every unit
    /// packed. The items that fitted are packed where they are worth more
    /// than the split items, the items that are out otherwise. No knapsack
    /// ever holds more than its capacity, an item that no knapsack takes
    /// stays out, and no item of the list is packed more than once.
    pub fn commit<T, const S: usize>(
        items: &BinaryProblemItems<T, S>,
        knapsacks: &mut BinaryProblemKnapsacks<T, S>,
        order: &Vec<usize>,
        placement: &Placement,
    ) -> (packed: Vec<Packing>) where T: CompatibleProblemType
        requires
            old(knapsacks).wf(),
            forall|i: int| 0 <= i < order@.len() ==> (#[trigger] order@[i]) < old(
                knapsacks,
            ).knapsacks@.len(),
            forall|i: int|
                0 <= i < placement.marks@.len() ==> (#[trigger] placement.marks@[i]).j < items@.len(),
        ensures
            final(knapsacks).wf(),
            all_capacities(*final(knapsacks)) == all_capacities(*old(knapsacks)),
            all_held(*final(knapsacks)) == commit_all(
                all_capacities(*old(knapsacks)),
                order@,
                all_keys(*items),
                placement.value > placement.split_value,
                decisions(placement.marks@),
                CommitState { held: all_held(*old(knapsacks)), at: 0, log: Seq::empty() },
                0,
            ).held,
            records(packed@) == commit_all(
                all_capacities(*old(knapsacks)),
                order@,
                all_keys(*items),
                placement.value > placement.split_value,
                decisions(placement.marks@),
                CommitState { held: all_held(*old(knapsacks)), at: 0, log: Seq::empty() },
                0,
            ).log,
            packed_once(records(packed@)),
            forall|i: int|
                0 <= i < packed@.len() ==> (#[trigger] packed@[i]).j < items@.len()
                    && packed@[i].knapsack < old(knapsacks).knapsacks@.len(),
            forall|k: int|
                0 <= k < old(knapsacks).knapsacks@.len() ==> #[trigger] all_held(
                    *final(knapsacks),
                )[k] == all_held(*old(knapsacks))[k] + placed_in(
                    records(packed@),
                    all_keys(*items),
                    k,
                ),
            forall|k: int|
                0 <= k < old(knapsacks).knapsacks@.len()
                    ==> (#[trigger] final(knapsacks).knapsacks@[k])@.value
                    == old(knapsacks).knapsacks@[k]@.value + held(
                    placed_in(records(packed@), all_keys(*items), k),
                    0,
                ),
            forall|i: int|
                0 <= i < packed@.len() ==> has_room_for(
                    old(knapsacks).knapsacks@[(#[trigger] packed@[i]).knapsack as int]@,
                    all_keys(*items)[packed@[i].j as int],
                ),
    {
        let marks = &placement.marks;
        let ghost entered = knapsacks.views();
        let fit_wins = placement.value > placement.split_value;
        let ghost capacities = all_capacities(*knapsacks);
        let ghost keys = all_keys(*items);
        let ghost base = all_held(*knapsacks);
        let ghost start = CommitState { held: base, at: 0, log: Seq::empty() };
        let ghost mut state = start;
        let count = knapsacks.len();
        let n = items.len();
        let mut packed: Vec<Packing> = Vec::new();
        let mut done: Vec<bool> = Vec::new();
        let mut j: usize = 0;
        while j < n
            invariant
                j <= n,
                done@.len() == j,
                forall|x: int| 0 <= x < j ==> done@[x] == false,
            decreases n - j,
        {
            done.push(false);
            j = j + 1;
        }
        proof {
            assert(records(packed@) =~= state.log);
            assert forall|k: int| 0 <= k < count implies #[trigger] all_held(*knapsacks)[k]
                == base[k] + placed_in(state.log, keys, k) by {
                assert(base[k] + Seq::<(Seq<u64>, u64)>::empty() =~= base[k]);
            }
        }
        let mut at: usize = 0;
        let mut m: usize = 0;
        while m < marks.len() && at < order.len()
            invariant
                m <= marks@.len(),
                at <= order@.len(),
                count == knapsacks.knapsacks@.len(),
                n == items@.len(),
                knapsacks.wf(),
                capacities == all_capacities(*knapsacks),
                keys == all_keys(*items),
                base.len() == count,
                entered.len() == count,
                forall|k: int|
                    0 <= k < count ==> crate::knapsack::sound(#[trigger] entered[k], S as nat)
                        && entered[k].items == base[k] && entered[k].capacity == capacities[k],
                forall|i: int|
                    0 <= i < packed@.len() ==> has_room_for(
                        entered[(#[trigger] packed@[i]).knapsack as int],
                        keys[packed@[i].j as int],
                    ),
                forall|i: int| 0 <= i < order@.len() ==> (#[trigger] order@[i]) < count,
                forall|i: int| 0 <= i < marks@.len() ==> (#[trigger] marks@[i]).j < n,
                state.held == all_held(*knapsacks),
                state.at == at,
                state.log == records(packed@),
                packed_once(state.log),
                done@.len() == n,
                forall|x: usize| x < n ==> done@[x as int] == #[trigger] packed_already(state.log, x),
                forall|i: int|
                    0 <= i < packed@.len() ==> (#[trigger] packed@[i]).j < n && packed@[i].knapsack
                        < count,
                forall|k: int|
                    0 <= k < count ==> #[trigger] all_held(*knapsacks)[k] == base[k] + placed_in(
                        state.log,
                        keys,
                        k,
                    ),
                commit_all(capacities, order@, keys, fit_wins, decisions(marks@), start, 0)
                    == commit_all(
                    capacities,
                    order@,
                    keys,
                    fit_wins,
                    decisions(marks@),
                    state,
                    m as int,
                ),
            decreases marks@.len() - m,
        {
            let ghost before = state;
            let ghost done_before = done@;
            let mark = marks[m];
            let listed = items.items[mark.j];
            let item = Item::<T, S> {
                value: listed.value,
                weights: listed.weights,
                quantity: T::identity(),
            };
            let ghost key = keys[mark.j as int];
            proof {
                assert(item.key_spec() =~= key);
                assert(decisions(marks@)[m as int] == (mark.j, mark.x));
                assert(done@[mark.j as int] == packed_already(before.log, mark.j));
            }
            if done[mark.j] {
            } else if fit_wins {
                if mark.x {
                    let mut place = at;
                    let mut added = false;
                    while !added && place < order.len()
                        invariant
                            at <= place <= order@.len(),
                            count == knapsacks.knapsacks@.len(),
                            knapsacks.wf(),
                            capacities == all_capacities(*knapsacks),
                            forall|i: int| 0 <= i < order@.len() ==> (#[trigger] order@[i]) < count,
                            item.key_spec() == key,
                            item.quantity.key_spec() == 1,
                            !added ==> all_held(*knapsacks) == before.held,
                            !added ==> first_fit(capacities, before.held, order@, key, at as int)
                                == first_fit(capacities, before.held, order@, key, place as int),
                            added ==> place < order@.len() && place == first_fit(
                                capacities,
                                before.held,
                                order@,
                                key,
                                at as int,
                            ) && all_held(*knapsacks) == before.held.update(
                                order@[place as int] as int,
                                before.held[order@[place as int] as int].push((key, 1u64)),
                            ) && takes(
                                capacities[order@[place as int] as int],
                                before.held[order@[place as int] as int],
                                key,
                            ) && crate::knapsack::sound(
                                view_of(
                                    capacities[order@[place as int] as int],
                                    before.held[order@[place as int] as int],
                                ),
                                S as nat,
                            ),
                        decreases order@.len() - place, if added { 0int } else { 1int },
                    {
                        let k = order[place];
                        let ghost held_before = all_held(*knapsacks);
                        proof {
                            lemma_view_of(knapsacks.knapsacks@[k as int]@, S as nat);
                            assert(capacities[k as int] == knapsacks.knapsacks@[k as int]@.capacity);
                            assert(held_before[k as int] == knapsacks.knapsacks@[k as int]@.items);
                        }
                        let knapsack = &mut knapsacks.knapsacks[k];
                        added = knapsack.add(item);
                        proof {
                            assert(all_capacities(*knapsacks) =~= capacities);
                            if added {
                                assert(all_held(*knapsacks) =~= held_before.update(
                                    k as int,
                                    held_before[k as int].push((key, 1u64)),
                                ));
                            } else {
                                assert(all_held(*knapsacks) =~= held_before);
                            }
                        }
                        if !added {
                            place = place + 1;
                        }
                    }
                    at = place;
                    if added {
                        proof {
                            lemma_one_more_packed(before.log, keys, mark.j, order@[place as int]);
                            let into = order@[place as int] as int;
                            assert(before.held[into] == entered[into].items + placed_in(
                                before.log,
                                keys,
                                into,
                            ));
                            lemma_takes_means_room(
                                entered[into],
                                placed_in(before.log, keys, into),
                                key,
                                S as nat,
                            );
                        }
                        packed.push(Packing { j: mark.j, knapsack: order[place] });
                        done.set(mark.j, true);
                    }
                }
            } else {
                if !mark.x {
                    let k = order[at];
                    let ghost held_before = all_held(*knapsacks);
                    proof {
                        lemma_view_of(knapsacks.knapsacks@[k as int]@, S as nat);
                        assert(capacities[k as int] == knapsacks.knapsacks@[k as int]@.capacity);
                        assert(held_before[k as int] == knapsacks.knapsacks@[k as int]@.items);
                    }
                    let knapsack = &mut knapsacks.knapsacks[k];
                    let added = knapsack.add(item);
                    proof {
                        assert(all_capacities(*knapsacks) =~= capacities);
                        if added {
                            assert(all_held(*knapsacks) =~= held_before.update(
                                k as int,
                                held_before[k as int].push((key, 1u64)),
                            ));
                        } else {
                            assert(all_held(*knapsacks) =~= held_before);
                        }
                    }
                    if added {
                        proof {
                            lemma_one_more_packed(before.log, keys, mark.j, k);
                            assert(before.held[k as int] == entered[k as int].items + placed_in(
                                before.log,
                                keys,
                                k as int,
                            ));
                            lemma_takes_means_room(
                                entered[k as int],
                                placed_in(before.log, keys, k as int),
                                key,
                                S as nat,
                            );
                        }
                        packed.push(Packing { j: mark.j, knapsack: k });
                        done.set(mark.j, true);
                    }
                    at = at + 1;
                }
            }
            proof {
                state = commit_step(
                    capacities,
                    order@,
                    keys,
                    fit_wins,
                    before,
                    decisions(marks@)[m as int],
                );
                assert(state.log =~= records(packed@));
                assert forall|x: usize| x < n implies done@[x as int] == #[trigger] packed_already(
                    state.log,
                    x,
                ) by {
                    assert(done_before[x as int] == packed_already(before.log, x));
                    if state.log != before.log {
                        let into = state.log.last().1;
                        assert(state.log == before.log.push((mark.j, into)));
                        lemma_one_more_packed(before.log, keys, mark.j, into);
                        assert(done@ == done_before.update(mark.j as int, true));
                    } else {
                        assert(done@ == done_before);
                    }
                }
                assert forall|k: int| 0 <= k < count implies #[trigger] all_held(*knapsacks)[k]
                    == base[k] + placed_in(state.log, keys, k) by {
                    assert(before.held[k] == base[k] + placed_in(before.log, keys, k));
                    if state.log != before.log {
                        let into = state.log.last().1;
                        assert(state.log == before.log.push((mark.j, into)));
                        if k == into {
                            assert((base[k] + placed_in(before.log, keys, k)).push((key, 1u64))
                                =~= base[k] + placed_in(before.log, keys, k).push((key, 1u64)));
                        }
                    }
                }
            }
            m = m + 1;
        }
        proof {
            assert forall|k: int| 0 <= k < count implies (#[trigger] knapsacks.knapsacks@[k])@.value
                == entered[k].value + held(placed_in(records(packed@), keys, k), 0) by {
                lemma_held_joined(base[k], placed_in(state.log, keys, k), 0);
                assert(all_held(*knapsacks)[k] == knapsacks.knapsacks@[k]@.items);
                assert(knapsacks.knapsacks@[k].wf());
            }
        }
        packed
    }
}

} // verus!
