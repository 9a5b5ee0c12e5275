//! What holds of every generation: the counts of a tally add up to eight per
//! live cell, a count is the number of occupied positions around, a step does
//! not depend on the order of its records, and it creates cells only where
//! nobody lives.

use crate::cell::{Action, Cell, LiveCell};
use crate::model::{counts_fit, distinct_positions, in_range, live_neighbors, next_to, occupant};
use crate::model::{lemma_live_neighbors_bound, lemma_live_neighbors_push};
use crate::model::{lemma_occupant_found, lemma_occupied, lemma_without_last};
use crate::rules::{dies, step_actions};
use crate::tally::{counted_state, occupied_state, place, tally_of, tally_upto, CellState};
use crate::tally::{lemma_tally_count, lemma_tally_counted, lemma_tally_occupy};
use bevy::prelude::Entity;
use vstd::prelude::*;

verus! {

/// Adds the count of the entry at a position to a running sum.
pub open spec fn add_count(tally: Map<(i32, i32), CellState>) -> spec_fn(nat, (i32, i32)) -> nat {
    |sum: nat, pos: (i32, i32)| sum + tally[pos].live_neighbors as nat
}

/// The sum of the neighbour counts of all entries of a tally.
pub open spec fn total_neighbors(tally: Map<(i32, i32), CellState>) -> nat {
    tally.dom().fold(0nat, add_count(tally))
}

/// The count that a tally holds at a position, none where it has no entry.
spec fn count_at(tally: Map<(i32, i32), CellState>, pos: (i32, i32)) -> nat {
    if tally.contains_key(pos) {
        tally[pos].live_neighbors as nat
    } else {
        0
    }
}

/// Two tallies that agree on a set of positions have the same sum over it.
proof fn lemma_sum_agrees(
    positions: Set<(i32, i32)>,
    one: Map<(i32, i32), CellState>,
    other: Map<(i32, i32), CellState>,
)
    requires
        positions.finite(),
        forall|pos: (i32, i32)|
            positions.contains(pos) ==> one[pos].live_neighbors == other[pos].live_neighbors,
    ensures
        positions.fold(0nat, add_count(one)) == positions.fold(0nat, add_count(other)),
    decreases positions.len(),
{
    if positions.len() == 0 {
        assert(positions =~= Set::empty());
        vstd::set::fold::lemma_fold_empty(0nat, add_count(one));
        vstd::set::fold::lemma_fold_empty(0nat, add_count(other));
    } else {
        let pos = positions.choose();
        let rest = positions.remove(pos);
        lemma_sum_agrees(rest, one, other);
        assert(rest.insert(pos) =~= positions);
        vstd::set::fold::lemma_fold_insert(rest, 0nat, add_count(one), pos);
        vstd::set::fold::lemma_fold_insert(rest, 0nat, add_count(other), pos);
    }
}

/// Writing an entry changes the sum of a tally by what the count at that
/// position changes.
proof fn lemma_total_insert(tally: Map<(i32, i32), CellState>, pos: (i32, i32), state: CellState)
    requires
        tally.dom().finite(),
    ensures
        tally.insert(pos, state).dom().finite(),
        total_neighbors(tally.insert(pos, state)) + count_at(tally, pos) == total_neighbors(tally)
            + state.live_neighbors,
{
    let written = tally.insert(pos, state);
    let rest = tally.dom().remove(pos);
    assert(rest.insert(pos) =~= written.dom());
    lemma_sum_agrees(rest, tally, written);
    vstd::set::fold::lemma_fold_insert(rest, 0nat, add_count(written), pos);
    if tally.contains_key(pos) {
        assert(rest.insert(pos) =~= tally.dom());
        vstd::set::fold::lemma_fold_insert(rest, 0nat, add_count(tally), pos);
    } else {
        assert(rest =~= tally.dom());
    }
}

/// The number of neighbours among the first `k` of the nine places around a
/// cell: all of them but the cell's own.
spec fn neighbors_among(k: int) -> int {
    if k <= 4 {
        k
    } else {
        k - 1
    }
}

/// While a record is counted place by place, the sum of the tally grows by
/// one with every neighbour.
proof fn lemma_total_upto(cells: Seq<LiveCell>, record: LiveCell, k: int)
    requires
        0 <= k <= 9,
        record.1.has_room(),
        counts_fit(cells.push(record)),
        tally_of(cells).dom().finite(),
    ensures
        tally_upto(cells, record, k).dom().finite(),
        total_neighbors(tally_upto(cells, record, k)) == total_neighbors(tally_of(cells))
            + neighbors_among(k),
    decreases k,
{
    let cell = record.1;
    if k == 0 {
        lemma_live_neighbors_push(cells, record, cell.point());
        lemma_tally_occupy(cells, record);
        lemma_total_insert(tally_of(cells), (cell.x, cell.y), occupied_state(cells, record));
    } else {
        let here = place(cell, k - 1);
        lemma_total_upto(cells, record, k - 1);
        lemma_live_neighbors_push(cells, record, here);
        lemma_tally_count(cells, record, k - 1);
        if k - 1 != 4 {
            lemma_total_insert(
                tally_upto(cells, record, k - 1),
                (here.0 as i32, here.1 as i32),
                counted_state(cells, record, k - 1),
            );
        }
    }
}

/// Every live cell adds one to the count of each of the eight positions
/// around it, so the counts of a tally add up to eight times the number of
/// records.
pub proof fn lemma_tally_total(cells: Seq<LiveCell>)
    requires
        in_range(cells),
        counts_fit(cells),
    ensures
        tally_of(cells).dom().finite(),
        total_neighbors(tally_of(cells)) == 8 * cells.len(),
    decreases cells.len(),
{
    if cells.len() == 0 {
        assert forall|pos: (i32, i32)| !tally_of(cells).contains_key(pos) by {
            lemma_live_neighbors_bound(cells, crate::tally::point(pos));
        }
        assert(tally_of(cells).dom() =~= Set::empty());
        vstd::set::fold::lemma_fold_empty(0nat, add_count(tally_of(cells)));
    } else {
        let earlier = cells.drop_last();
        let record = cells.last();
        assert(earlier.push(record) =~= cells);
        assert(record == cells[cells.len() - 1]);
        lemma_without_last(cells);
        lemma_tally_total(earlier);
        lemma_total_upto(earlier, record, 9);
        lemma_tally_counted(earlier, record);
    }
}

/// One where somebody lives at `point`, none where nobody does.
pub open spec fn occupied(cells: Seq<LiveCell>, point: (int, int)) -> nat {
    if occupant(cells, point).is_some() {
        1
    } else {
        0
    }
}

/// The number of occupied positions among the eight around `point`.
pub open spec fn occupied_around(cells: Seq<LiveCell>, point: (int, int)) -> nat {
    let (x, y) = point;
    occupied(cells, (x - 1, y - 1)) + occupied(cells, (x - 1, y)) + occupied(cells, (x - 1, y + 1))
        + occupied(cells, (x, y - 1)) + occupied(cells, (x, y + 1))
        + occupied(cells, (x + 1, y - 1)) + occupied(cells, (x + 1, y))
        + occupied(cells, (x + 1, y + 1))
}

/// Where no two records share a position, the last record makes one more
/// position occupied: that of its cell, where nobody lived before.
proof fn lemma_occupied_last(cells: Seq<LiveCell>, point: (int, int))
    requires
        distinct_positions(cells),
        cells.len() > 0,
    ensures
        occupied(cells, point) == occupied(cells.drop_last(), point) + (
        if cells.last().1.at(point) {
            1nat
        } else {
            0nat
        }),
{
    let earlier = cells.drop_last();
    if cells.last().1.at(point) && occupant(earlier, point).is_some() {
        lemma_occupant_found(earlier, point);
        let i = choose|i: int| 0 <= i < earlier.len() && (#[trigger] earlier[i]).1.at(point);
        assert(earlier[i] == cells[i]);
        assert(cells[i].1 != cells[cells.len() - 1].1);
    }
}

/// Where no two records share a position, the live neighbours of a point
/// are the occupied positions among the eight around it.
pub proof fn lemma_live_neighbors_occupied(cells: Seq<LiveCell>, point: (int, int))
    requires
        distinct_positions(cells),
    ensures
        live_neighbors(cells, point) == occupied_around(cells, point),
        live_neighbors(cells, point) <= 8,
    decreases cells.len(),
{
    if cells.len() == 0 {
        lemma_live_neighbors_bound(cells, point);
    } else {
        let earlier = cells.drop_last();
        let record = cells.last();
        let (x, y) = point;
        assert(earlier.push(record) =~= cells);
        lemma_without_last(cells);
        lemma_live_neighbors_occupied(earlier, point);
        lemma_live_neighbors_push(earlier, record, point);
        lemma_occupied_last(cells, (x - 1, y - 1));
        lemma_occupied_last(cells, (x - 1, y));
        lemma_occupied_last(cells, (x - 1, y + 1));
        lemma_occupied_last(cells, (x, y - 1));
        lemma_occupied_last(cells, (x, y + 1));
        lemma_occupied_last(cells, (x + 1, y - 1));
        lemma_occupied_last(cells, (x + 1, y));
        lemma_occupied_last(cells, (x + 1, y + 1));
    }
}

/// Where no two records share a position, every count fits the tally.
pub proof fn lemma_distinct_counts_fit(cells: Seq<LiveCell>)
    requires
        distinct_positions(cells),
    ensures
        counts_fit(cells),
{
    assert forall|point: (int, int)| #[trigger] live_neighbors(cells, point) <= u32::MAX by {
        lemma_live_neighbors_occupied(cells, point);
    }
}

/// Where no two records share a position, a record at a position is its
/// occupant.
pub proof fn lemma_occupant_unique(cells: Seq<LiveCell>, i: int)
    requires
        distinct_positions(cells),
        0 <= i < cells.len(),
    ensures
        occupant(cells, cells[i].1.point()) == Some(cells[i].0),
{
    let here = cells[i].1.point();
    lemma_occupied(cells, i);
    lemma_occupant_found(cells, here);
    let j = choose|j: int|
        0 <= j < cells.len() && (#[trigger] cells[j]).1.at(here) && occupant(cells, here) == Some(
            cells[j].0,
        );
    if i < j {
        assert(cells[i].1 != cells[j].1);
    } else if j < i {
        assert(cells[j].1 != cells[i].1);
    }
}

/// Records at distinct positions are distinct records.
pub proof fn lemma_distinct_records(cells: Seq<LiveCell>)
    requires
        distinct_positions(cells),
    ensures
        cells.no_duplicates(),
{
    assert forall|i: int, j: int|
        0 <= i < cells.len() && 0 <= j < cells.len() && i != j implies cells[i] != cells[j] by {
        if i < j {
            assert(cells[i].1 != cells[j].1);
        } else {
            assert(cells[j].1 != cells[i].1);
        }
    }
}

/// Where no record occurs twice, the live neighbours of a point are the
/// records around it, whatever their order.
pub proof fn lemma_live_neighbors_unordered(cells: Seq<LiveCell>, point: (int, int))
    requires
        cells.no_duplicates(),
    ensures
        live_neighbors(cells, point) == cells.to_set().filter(next_to(point)).len(),
    decreases cells.len(),
{
    let around = next_to(point);
    if cells.len() == 0 {
        lemma_live_neighbors_bound(cells, point);
        assert(cells.to_set().filter(around) =~= Set::empty());
    } else {
        let earlier = cells.drop_last();
        let record = cells.last();
        assert(earlier.push(record) =~= cells);
        lemma_live_neighbors_unordered(earlier, point);
        lemma_live_neighbors_push(earlier, record, point);
        earlier.lemma_push_to_set_commute(record);
        vstd::seq_lib::seq_to_set_is_finite(earlier);
        earlier.to_set().lemma_len_filter(around);
        assert(!earlier.to_set().contains(record)) by {
            if earlier.to_set().contains(record) {
                let i = choose|i: int| 0 <= i < earlier.len() && earlier[i] == record;
                assert(cells[i] == cells[cells.len() - 1]);
            }
        }
        let found = earlier.to_set().filter(around);
        if around(record) {
            assert(cells.to_set().filter(around) =~= found.insert(record));
        } else {
            assert(cells.to_set().filter(around) =~= found);
        }
    }
}

/// Of two generations with the same records, the second at distinct
/// positions, the second has at every point where somebody lives in the
/// first the same occupant.
proof fn lemma_occupant_unordered(one: Seq<LiveCell>, other: Seq<LiveCell>, point: (int, int))
    requires
        one.to_set() == other.to_set(),
        distinct_positions(other),
        occupant(one, point).is_some(),
    ensures
        occupant(other, point) == occupant(one, point),
{
    lemma_occupant_found(one, point);
    let i = choose|i: int|
        0 <= i < one.len() && (#[trigger] one[i]).1.at(point) && occupant(one, point) == Some(
            one[i].0,
        );
    assert(one.to_set().contains(one[i]));
    assert(other.to_set().contains(one[i]));
    let j = choose|j: int| 0 <= j < other.len() && other[j] == one[i];
    lemma_occupant_unique(other, j);
}

/// A step does not depend on the order of its records: two generations that
/// hold the same records, none of them sharing a position with another, have
/// the same tally and are owed the same actions.
pub proof fn lemma_step_unordered(one: Seq<LiveCell>, other: Seq<LiveCell>)
    requires
        one.to_set() == other.to_set(),
        distinct_positions(one),
        distinct_positions(other),
    ensures
        forall|point: (int, int)| occupant(one, point) == occupant(other, point),
        forall|point: (int, int)| live_neighbors(one, point) == live_neighbors(other, point),
        tally_of(one) == tally_of(other),
        step_actions(one) == step_actions(other),
{
    lemma_distinct_records(one);
    lemma_distinct_records(other);
    assert forall|point: (int, int)| occupant(one, point) == occupant(other, point) by {
        if occupant(one, point).is_some() {
            lemma_occupant_unordered(one, other, point);
        } else if occupant(other, point).is_some() {
            lemma_occupant_unordered(other, one, point);
        }
    }
    assert forall|point: (int, int)| live_neighbors(one, point) == live_neighbors(other, point) by {
        lemma_live_neighbors_unordered(one, point);
        lemma_live_neighbors_unordered(other, point);
    }
    assert(tally_of(one) =~= tally_of(other));
    assert forall|action: Action|
        step_actions(one).contains(action) == step_actions(other).contains(action) by {
        if let Action::Destroy(entity) = action {
            if step_actions(one).contains(action) {
                let point = choose|point: (int, int)| #[trigger]
                    dies(one, point) && occupant(one, point) == Some(entity);
                assert(dies(other, point) && occupant(other, point) == Some(entity));
            }
            if step_actions(other).contains(action) {
                let point = choose|point: (int, int)| #[trigger]
                    dies(other, point) && occupant(other, point) == Some(entity);
                assert(dies(one, point) && occupant(one, point) == Some(entity));
            }
        }
    }
    assert(step_actions(one) =~= step_actions(other));
}

/// A step creates cells only where nobody lives: no record has the cell of a
/// creation that is owed. The entity of a destruction that is owed has a
/// record, so it lives at another position than any cell created in the
/// same step.
pub proof fn lemma_create_apart_from_destroy(cells: Seq<LiveCell>, cell: Cell, entity: Entity)
    requires
        step_actions(cells).contains(Action::Create(cell)),
        step_actions(cells).contains(Action::Destroy(entity)),
    ensures
        forall|i: int| 0 <= i < cells.len() ==> (#[trigger] cells[i]).1 != cell,
        exists|i: int| 0 <= i < cells.len() && (#[trigger] cells[i]).0 == entity,
{
    assert forall|i: int| 0 <= i < cells.len() implies (#[trigger] cells[i]).1 != cell by {
        lemma_occupied(cells, i);
    }
    let point = choose|point: (int, int)| #[trigger]
        dies(cells, point) && occupant(cells, point) == Some(entity);
    lemma_occupant_found(cells, point);
}

} // verus!
