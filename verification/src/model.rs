//! The mathematical model of a generation: what the records of the live cells
//! say of each point of the grid.

use crate::cell::LiveCell;
use bevy::prelude::Entity;
use vstd::prelude::*;

verus! {

/// The test that a record's cell is next to `point`.
pub open spec fn next_to(point: (int, int)) -> spec_fn(LiveCell) -> bool {
    |record: LiveCell| record.1.touches(point)
}

/// The number of records whose cell is next to `point`.
pub open spec fn live_neighbors(cells: Seq<LiveCell>, point: (int, int)) -> nat {
    cells.filter(next_to(point)).len()
}

/// The entity of the last record whose cell lies at `point`, if there is one.
pub open spec fn occupant(cells: Seq<LiveCell>, point: (int, int)) -> Option<Entity>
    decreases cells.len(),
{
    if cells.len() == 0 {
        None
    } else if cells.last().1.at(point) {
        Some(cells.last().0)
    } else {
        occupant(cells.drop_last(), point)
    }
}

/// Whether no two records share a position.
pub open spec fn distinct_positions(cells: Seq<LiveCell>) -> bool {
    forall|i: int, j: int|
        0 <= i < j < cells.len() ==> (#[trigger] cells[i]).1 != (#[trigger] cells[j]).1
}

/// Whether no two records share an entity.
pub open spec fn distinct_entities(cells: Seq<LiveCell>) -> bool {
    forall|i: int, j: int|
        0 <= i < j < cells.len() ==> (#[trigger] cells[i]).0 != (#[trigger] cells[j]).0
}

/// Whether every cell is far enough from the ends of `i32` for its eight
/// neighbours to have coordinates.
pub open spec fn in_range(cells: Seq<LiveCell>) -> bool {
    forall|i: int| 0 <= i < cells.len() ==> (#[trigger] cells[i]).1.has_room()
}

/// Whether the live neighbours of every point can be counted in a `u32`.
pub open spec fn counts_fit(cells: Seq<LiveCell>) -> bool {
    forall|point: (int, int)| #[trigger] live_neighbors(cells, point) <= u32::MAX
}

/// One more record adds one to the count of each point around its cell.
pub proof fn lemma_live_neighbors_push(cells: Seq<LiveCell>, record: LiveCell, point: (int, int))
    ensures
        live_neighbors(cells.push(record), point) == live_neighbors(cells, point) + (
        if record.1.touches(point) {
            1nat
        } else {
            0nat
        }),
{
    reveal(Seq::filter);
    assert(cells.push(record).drop_last() =~= cells);
}

/// One more record takes the position of its cell and leaves the others.
pub proof fn lemma_occupant_push(cells: Seq<LiveCell>, record: LiveCell, point: (int, int))
    ensures
        occupant(cells.push(record), point) == (if record.1.at(point) {
            Some(record.0)
        } else {
            occupant(cells, point)
        }),
{
    assert(cells.push(record).drop_last() =~= cells);
}

/// No point has more live neighbours than there are records.
pub proof fn lemma_live_neighbors_bound(cells: Seq<LiveCell>, point: (int, int))
    ensures
        live_neighbors(cells, point) <= cells.len(),
{
    cells.lemma_filter_len(next_to(point));
}

/// A prefix of the records counts no more neighbours than all of them.
pub proof fn lemma_live_neighbors_prefix(cells: Seq<LiveCell>, n: int, point: (int, int))
    requires
        0 <= n <= cells.len(),
    ensures
        live_neighbors(cells.take(n), point) <= live_neighbors(cells, point),
    decreases cells.len() - n,
{
    if n < cells.len() {
        lemma_live_neighbors_prefix(cells, n + 1, point);
        lemma_live_neighbors_push(cells.take(n), cells[n], point);
        assert(cells.take(n).push(cells[n]) =~= cells.take(n + 1));
    } else {
        assert(cells.take(n) =~= cells);
    }
}

/// A point that has an occupant has a record: one whose entity is the
/// occupant and whose cell lies there.
pub proof fn lemma_occupant_found(cells: Seq<LiveCell>, point: (int, int))
    requires
        occupant(cells, point).is_some(),
    ensures
        exists|i: int|
            0 <= i < cells.len() && (#[trigger] cells[i]).1.at(point)
                && occupant(cells, point) == Some(cells[i].0),
    decreases cells.len(),
{
    if cells.last().1.at(point) {
        assert(cells[cells.len() - 1].1.at(point));
    } else {
        let earlier = cells.drop_last();
        lemma_occupant_found(earlier, point);
        let i = choose|i: int|
            0 <= i < earlier.len() && (#[trigger] earlier[i]).1.at(point)
                && occupant(earlier, point) == Some(earlier[i].0);
        assert(cells[i] == earlier[i]);
    }
}

/// The position of every record has an occupant.
pub proof fn lemma_occupied(cells: Seq<LiveCell>, i: int)
    requires
        0 <= i < cells.len(),
    ensures
        occupant(cells, cells[i].1.point()).is_some(),
    decreases cells.len(),
{
    if i < cells.len() - 1 && !cells.last().1.at(cells[i].1.point()) {
        lemma_occupied(cells.drop_last(), i);
    }
}

/// What holds of all records of a generation holds without the last.
pub proof fn lemma_without_last(cells: Seq<LiveCell>)
    requires
        cells.len() > 0,
    ensures
        in_range(cells) ==> in_range(cells.drop_last()),
        counts_fit(cells) ==> counts_fit(cells.drop_last()),
        distinct_positions(cells) ==> distinct_positions(cells.drop_last()),
{
    let earlier = cells.drop_last();
    assert(earlier.push(cells.last()) =~= cells);
    assert forall|i: int| 0 <= i < earlier.len() implies #[trigger] earlier[i] == cells[i] by {}
    if counts_fit(cells) {
        assert forall|point: (int, int)| #[trigger] live_neighbors(earlier, point) <= u32::MAX by {
            lemma_live_neighbors_push(earlier, cells.last(), point);
            assert(live_neighbors(cells, point) <= u32::MAX);
        }
    }
}

} // verus!
