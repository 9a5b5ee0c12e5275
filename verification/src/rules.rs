//! The rules of the game: what becomes of each tallied position, and the
//! step that applies them to a whole generation.

use crate::cell::{Action, Cell, LiveCell};
use crate::model::{counts_fit, distinct_entities, in_range, live_neighbors, occupant};
use crate::model::{lemma_live_neighbors_bound, lemma_occupant_found};
use crate::tally::{lists, point, tally, tally_of, CellState, Entry};
use vstd::prelude::*;

verus! {

/// What the rules ask for at a tallied position: an empty position with
/// three live neighbours gets a cell, a live cell with two or three stays as
/// it is, any other live cell goes, and any other empty position stays empty.
pub open spec fn decision(entry: Entry) -> Option<Action> {
    let (pos, state) = entry;
    match state.entity {
        None => if state.live_neighbors == 3 {
            Some(Action::Create(Cell { x: pos.0, y: pos.1 }))
        } else {
            None
        },
        Some(entity) => if state.live_neighbors == 2 || state.live_neighbors == 3 {
            None
        } else {
            Some(Action::Destroy(entity))
        },
    }
}

/// The decisions for a list of tallied positions, in the order of the list;
/// a position where nothing changes adds nothing.
pub open spec fn decisions(entries: Seq<Entry>) -> Seq<Action> {
    entries.filter_map(|entry: Entry| decision(entry))
}

/// Whether a cell is born at `point`: nobody lives there, and three live
/// cells surround it.
pub open spec fn born(cells: Seq<LiveCell>, point: (int, int)) -> bool {
    occupant(cells, point).is_none() && live_neighbors(cells, point) == 3
}

/// Whether the cell at `point` dies: somebody lives there, with neither two
/// nor three live cells around.
pub open spec fn dies(cells: Seq<LiveCell>, point: (int, int)) -> bool {
    &&& occupant(cells, point).is_some()
    &&& live_neighbors(cells, point) != 2
    &&& live_neighbors(cells, point) != 3
}

/// The actions that one step owes for a generation: a creation for every
/// point where a cell is born, and the destruction of the occupant of every
/// point where the cell dies.
pub open spec fn step_actions(cells: Seq<LiveCell>) -> Set<Action> {
    Set::new(
        |action: Action|
            match action {
                Action::Create(cell) => born(cells, cell.point()),
                Action::Destroy(entity) => exists|point: (int, int)| #[trigger]
                    dies(cells, point) && occupant(cells, point) == Some(entity),
            },
    )
}

/// One more entry adds its decision, if it has one, behind the others.
pub proof fn lemma_decisions_push(entries: Seq<Entry>, entry: Entry)
    ensures
        decisions(entries.push(entry)) == (match decision(entry) {
            Some(action) => decisions(entries).push(action),
            None => decisions(entries),
        }),
{
    assert(entries.push(entry).drop_last() =~= entries);
    if let Some(action) = decision(entry) {
        assert(decisions(entries) + seq![action] =~= decisions(entries).push(action));
    }
}

/// An action is among the decisions for a list exactly if it is the decision
/// for one of the list's entries.
pub proof fn lemma_decisions_contains(entries: Seq<Entry>, action: Action)
    ensures
        decisions(entries).contains(action) <==> exists|i: int|
            0 <= i < entries.len() && #[trigger] decision(entries[i]) == Some(action),
    decreases entries.len(),
{
    if entries.len() > 0 {
        let earlier = entries.drop_last();
        let last = entries.last();
        assert(earlier.push(last) =~= entries);
        lemma_decisions_push(earlier, last);
        lemma_decisions_contains(earlier, action);
        if decisions(entries).contains(action) {
            let all = decisions(entries);
            let j = choose|j: int| 0 <= j < all.len() && all[j] == action;
            if j < decisions(earlier).len() {
                assert(decisions(earlier)[j] == action);
                let i = choose|i: int|
                    0 <= i < earlier.len() && #[trigger] decision(earlier[i]) == Some(action);
                assert(decision(entries[i]) == Some(action));
            } else {
                assert(decision(entries[entries.len() - 1]) == Some(action));
            }
        }
        if exists|i: int|
            0 <= i < entries.len() && #[trigger] decision(entries[i]) == Some(action) {
            let i = choose|i: int|
                0 <= i < entries.len() && #[trigger] decision(entries[i]) == Some(action);
            if i < earlier.len() {
                assert(decision(earlier[i]) == Some(action));
                let before = decisions(earlier);
                let j = choose|j: int| 0 <= j < before.len() && before[j] == action;
                assert(decisions(entries)[j] == action);
            } else {
                assert(decisions(entries).last() == action);
            }
        }
    }
}

/// Whatever the order in which the entries of a generation's tally are
/// decided, the decisions are the actions that the step owes, and no others.
pub proof fn lemma_decisions_owed(cells: Seq<LiveCell>, entries: Seq<Entry>)
    requires
        counts_fit(cells),
        lists(entries, tally_of(cells)),
    ensures
        decisions(entries).to_set() == step_actions(cells),
{
    let tally = tally_of(cells);
    assert forall|action: Action|
        decisions(entries).contains(action) <==> step_actions(cells).contains(action) by {
        lemma_decisions_contains(entries, action);
        if decisions(entries).contains(action) {
            let i = choose|i: int|
                0 <= i < entries.len() && #[trigger] decision(entries[i]) == Some(action);
            assert(tally.contains_pair(entries[i].0, entries[i].1));
            let here = point(entries[i].0);
            assert(dies(cells, here) || born(cells, here));
        }
        if step_actions(cells).contains(action) {
            let here = match action {
                Action::Create(cell) => cell.point(),
                Action::Destroy(entity) => choose|point: (int, int)| #[trigger]
                    dies(cells, point) && occupant(cells, point) == Some(entity),
            };
            if occupant(cells, here).is_some() {
                lemma_occupant_found(cells, here);
            }
            let pos = (here.0 as i32, here.1 as i32);
            assert(point(pos) == here);
            assert(tally.contains_key(pos));
            let i = choose|i: int| 0 <= i < entries.len() && (#[trigger] entries[i]).0 == pos;
            assert(tally.contains_pair(entries[i].0, entries[i].1));
            assert(decision(entries[i]) == Some(action));
        }
    }
    assert(decisions(entries).to_set() =~= step_actions(cells));
}

/// Whether no two entries of the list call for the same action.
pub open spec fn decided_apart(entries: Seq<Entry>) -> bool {
    forall|i: int, j: int|
        0 <= i < j < entries.len() && (#[trigger] decision(entries[i])).is_some()
            ==> decision(entries[i]) != #[trigger] decision(entries[j])
}

/// Where no two entries call for the same action, no action is decided
/// twice.
pub proof fn lemma_decisions_apart(entries: Seq<Entry>)
    requires
        decided_apart(entries),
    ensures
        decisions(entries).no_duplicates(),
    decreases entries.len(),
{
    if entries.len() > 0 {
        let earlier = entries.drop_last();
        let last = entries.last();
        assert(earlier.push(last) =~= entries);
        assert(decided_apart(earlier)) by {
            assert forall|i: int, j: int|
                0 <= i < j < earlier.len() && (#[trigger] decision(earlier[i])).is_some()
                implies decision(earlier[i]) != #[trigger] decision(earlier[j]) by {
                assert(decision(entries[i]) != decision(entries[j]));
            }
        }
        lemma_decisions_apart(earlier);
        lemma_decisions_push(earlier, last);
        if let Some(action) = decision(last) {
            lemma_decisions_contains(earlier, action);
            if decisions(earlier).contains(action) {
                let i = choose|i: int|
                    0 <= i < earlier.len() && #[trigger] decision(earlier[i]) == Some(action);
                assert(decision(entries[i]) != decision(entries[entries.len() - 1]));
            }
            let all = decisions(entries);
            assert forall|i: int, j: int|
                0 <= i < all.len() && 0 <= j < all.len() && i != j implies all[i] != all[j] by {
                if i < all.len() - 1 {
                    assert(decisions(earlier)[i] == all[i]);
                }
                if j < all.len() - 1 {
                    assert(decisions(earlier)[j] == all[j]);
                }
            }
        }
    }
}

/// Where every entity has one record, deciding the entries of a generation's
/// tally asks for no action twice, whatever their order.
pub proof fn lemma_decisions_once(cells: Seq<LiveCell>, entries: Seq<Entry>)
    requires
        distinct_entities(cells),
        lists(entries, tally_of(cells)),
    ensures
        decisions(entries).no_duplicates(),
{
    let tally = tally_of(cells);
    assert forall|i: int, j: int|
        0 <= i < j < entries.len() && (#[trigger] decision(entries[i])).is_some()
        implies decision(entries[i]) != #[trigger] decision(entries[j]) by {
        let (one, other) = (point(entries[i].0), point(entries[j].0));
        assert(entries[i].0 != entries[j].0);
        assert(tally.contains_pair(entries[i].0, entries[i].1));
        assert(tally.contains_pair(entries[j].0, entries[j].1));
        if decision(entries[i]) == decision(entries[j]) {
            if let Some(Action::Destroy(entity)) = decision(entries[i]) {
                lemma_occupant_found(cells, one);
                lemma_occupant_found(cells, other);
                let a = choose|a: int|
                    0 <= a < cells.len() && (#[trigger] cells[a]).1.at(one)
                        && occupant(cells, one) == Some(cells[a].0);
                let b = choose|b: int|
                    0 <= b < cells.len() && (#[trigger] cells[b]).1.at(other)
                        && occupant(cells, other) == Some(cells[b].0);
                if a < b {
                    assert(cells[a].0 != cells[b].0);
                } else if b < a {
                    assert(cells[b].0 != cells[a].0);
                }
            }
            assert(false);
        }
    }
    lemma_decisions_apart(entries);
}

/// Decides what becomes of one tallied position.
pub fn decide(pos: (i32, i32), state: &CellState) -> (action: Option<Action>)
    ensures
        action == decision((pos, *state)),
{
    match (state.entity, state.live_neighbors) {
        (None, 3) => Some(Action::Create(Cell { x: pos.0, y: pos.1 })),
        (Some(_), 2 | 3) => None,
        (Some(entity), _) => Some(Action::Destroy(entity)),
        _ => None,
    }
}

/// Decides what becomes of each of the given positions, in their order.
pub fn decide_all(entries: &Vec<Entry>) -> (actions: Vec<Action>)
    ensures
        actions@ == decisions(entries@),
{
    let mut actions: Vec<Action> = Vec::new();
    let mut i: usize = 0;
    while i < entries.len()
        invariant
            i <= entries.len(),
            actions@ == decisions(entries@.take(i as int)),
        decreases entries.len() - i,
    {
        proof {
            assert(entries@.take(i as int).push(entries@[i as int]) =~= entries@.take(i + 1));
            lemma_decisions_push(entries@.take(i as int), entries@[i as int]);
        }
        if let Some(action) = decide(entries[i].0, &entries[i].1) {
            actions.push(action);
        }
        i = i + 1;
    }
    proof {
        assert(entries@.take(i as int) =~= entries@);
    }
    actions
}

/// Whether `step` can work on these records: no cell sits on the rim of the
/// `i32` grid, and their number fits the `u32` counters of the tally.
pub fn within_limits(live_cells: &Vec<LiveCell>) -> (ok: bool)
    ensures
        ok == (in_range(live_cells@) && live_cells.len() <= u32::MAX),
        ok ==> counts_fit(live_cells@),
{
    if live_cells.len() > 0xffff_ffff {
        return false;
    }
    let mut i: usize = 0;
    while i < live_cells.len()
        invariant
            i <= live_cells.len(),
            forall|j: int| 0 <= j < i ==> (#[trigger] live_cells@[j]).1.has_room(),
        decreases live_cells.len() - i,
    {
        let cell = live_cells[i].1;
        if cell.x == i32::MIN || cell.x == i32::MAX || cell.y == i32::MIN || cell.y == i32::MAX {
            assert(!live_cells@[i as int].1.has_room());
            return false;
        }
        i = i + 1;
    }
    proof {
        assert forall|point: (int, int)| #[trigger]
            live_neighbors(live_cells@, point) <= u32::MAX by {
            lemma_live_neighbors_bound(live_cells@, point);
        }
    }
    true
}

/// One generation step: the entities to destroy and the cells to create.
///
/// The actions are the decisions for the entries of the generation's tally,
/// each entry decided once, in the order in which the tally hands them out,
/// which nothing fixes. Where several records share a position, the last of
/// them occupies it, and each of them counts as a neighbour of the positions
/// around.
pub fn step(live_cells: &Vec<LiveCell>) -> (actions: Vec<Action>)
    requires
        in_range(live_cells@),
        counts_fit(live_cells@),
    ensures
        actions@.to_set() == step_actions(live_cells@),
        distinct_entities(live_cells@) ==> actions@.no_duplicates(),
        exists|entries: Seq<Entry>| #[trigger]
            lists(entries, tally_of(live_cells@)) && actions@ == decisions(entries),
{
    let tally = tally(live_cells);
    let entries = tally.entries();
    let actions = decide_all(&entries);
    proof {
        lemma_decisions_owed(live_cells@, entries@);
        if distinct_entities(live_cells@) {
            lemma_decisions_once(live_cells@, entries@);
        }
    }
    actions
}

} // verus!
