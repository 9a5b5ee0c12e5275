//! The rules on their own: tallies, decisions and steps on records written
//! out by hand.

use bevy::prelude::Entity;
use game_of_life::{decide, decide_all, step, tally, within_limits, Action, Cell, CellState};

/// One record per position, the entity of the `i`-th being number `i`.
fn records(positions: &[(i32, i32)]) -> Vec<(Entity, Cell)> {
    positions
        .iter()
        .enumerate()
        .map(|(i, &(x, y))| (Entity::from_raw(i as u32), Cell { x, y }))
        .collect()
}

fn created(actions: &[Action]) -> Vec<(i32, i32)> {
    let mut cells: Vec<(i32, i32)> = Vec::new();
    for action in actions {
        if let Action::Create(cell) = action {
            cells.push((cell.x, cell.y));
        }
    }
    cells.sort();
    cells
}

fn destroyed(actions: &[Action]) -> Vec<u32> {
    let mut entities: Vec<u32> = Vec::new();
    for action in actions {
        if let Action::Destroy(entity) = action {
            entities.push(entity.id());
        }
    }
    entities.sort();
    entities
}

/// The positions of the generation that follows the given one.
fn advance(positions: &[(i32, i32)]) -> Vec<(i32, i32)> {
    let live_cells = records(positions);
    assert!(within_limits(&live_cells));
    let actions = step(&live_cells);
    let gone = destroyed(&actions);
    let mut next: Vec<(i32, i32)> = live_cells
        .iter()
        .filter(|(entity, _)| !gone.contains(&entity.id()))
        .map(|(_, cell)| (cell.x, cell.y))
        .collect();
    next.extend(created(&actions));
    next.sort();
    next
}

fn sorted_entries(positions: &[(i32, i32)]) -> Vec<((i32, i32), CellState)> {
    let mut entries = tally(&records(positions)).entries();
    entries.sort_by_key(|entry| entry.0);
    entries
}

fn state(entity: Option<u32>, live_neighbors: u32) -> CellState {
    CellState {
        entity: entity.map(Entity::from_raw),
        live_neighbors,
    }
}

#[test]
fn no_cells_no_actions() {
    assert!(tally(&Vec::new()).entries().is_empty());
    assert_eq!(step(&Vec::new()), Vec::new());
}

#[test]
fn lone_cell_is_destroyed() {
    let actions = step(&records(&[(0, 0)]));
    assert_eq!(actions, vec![Action::Destroy(Entity::from_raw(0))]);
    assert_eq!(advance(&[(0, 0)]), Vec::new());
}

#[test]
fn pair_is_destroyed() {
    let actions = step(&records(&[(0, 0), (1, 0)]));
    assert_eq!(created(&actions), Vec::new());
    assert_eq!(destroyed(&actions), vec![0, 1]);
    assert_eq!(advance(&[(0, 0), (1, 0)]), Vec::new());
}

#[test]
fn blinker_turns_and_turns_back() {
    let actions = step(&records(&[(-1, 0), (0, 0), (1, 0)]));
    assert_eq!(created(&actions), vec![(0, -1), (0, 1)]);
    assert_eq!(destroyed(&actions), vec![0, 2]);
    assert_eq!(actions.len(), 4);

    let upright = advance(&[(-1, 0), (0, 0), (1, 0)]);
    assert_eq!(upright, vec![(0, -1), (0, 0), (0, 1)]);
    assert_eq!(advance(&upright), vec![(-1, 0), (0, 0), (1, 0)]);
}

#[test]
fn block_stays() {
    let block = vec![(0, 0), (0, 1), (1, 0), (1, 1)];
    assert_eq!(step(&records(&block)), Vec::new());
    let mut generation = block.clone();
    for _ in 0..5 {
        generation = advance(&generation);
        assert_eq!(generation, block);
    }
}

#[test]
fn crowded_cell_is_destroyed() {
    // A plus sign: the centre has four neighbours, each arm has three
    // (the centre and the two arms next to it), each corner is born.
    let plus = [(0, 0), (1, 0), (-1, 0), (0, 1), (0, -1)];
    let actions = step(&records(&plus));
    assert_eq!(destroyed(&actions), vec![0]);
    assert_eq!(created(&actions), vec![(-1, -1), (-1, 1), (1, -1), (1, 1)]);
}

#[test]
fn tally_of_one_cell() {
    let entries = sorted_entries(&[(5, -7)]);
    assert_eq!(
        entries,
        vec![
            ((4, -8), state(None, 1)),
            ((4, -7), state(None, 1)),
            ((4, -6), state(None, 1)),
            ((5, -8), state(None, 1)),
            ((5, -7), state(Some(0), 0)),
            ((5, -6), state(None, 1)),
            ((6, -8), state(None, 1)),
            ((6, -7), state(None, 1)),
            ((6, -6), state(None, 1)),
        ]
    );
}

#[test]
fn tally_of_two_cells() {
    let entries = sorted_entries(&[(0, 0), (1, 0)]);
    assert_eq!(
        entries,
        vec![
            ((-1, -1), state(None, 1)),
            ((-1, 0), state(None, 1)),
            ((-1, 1), state(None, 1)),
            ((0, -1), state(None, 2)),
            ((0, 0), state(Some(0), 1)),
            ((0, 1), state(None, 2)),
            ((1, -1), state(None, 2)),
            ((1, 0), state(Some(1), 1)),
            ((1, 1), state(None, 2)),
            ((2, -1), state(None, 1)),
            ((2, 0), state(None, 1)),
            ((2, 1), state(None, 1)),
        ]
    );
}

#[test]
fn counts_add_up_to_eight_per_cell() {
    let generations: Vec<Vec<(i32, i32)>> = vec![
        vec![],
        vec![(0, 0)],
        vec![(-1, 0), (0, 0), (1, 0)],
        vec![(0, 0), (0, 1), (1, 0), (1, 1)],
        vec![(100, 100), (-100, -100), (0, 2), (1, 3), (2, 1), (2, 2), (2, 3)],
    ];
    for positions in generations {
        let total: u32 = tally(&records(&positions))
            .entries()
            .iter()
            .map(|entry| entry.1.live_neighbors)
            .sum();
        assert_eq!(total as usize, 8 * positions.len());
    }
}

#[test]
fn order_of_records_does_not_matter() {
    let glider = records(&[(0, 2), (1, 3), (2, 1), (2, 2), (2, 3)]);
    let mut turned = glider.clone();
    turned.reverse();
    turned.swap(1, 3);

    let one = step(&glider);
    let other = step(&turned);
    assert_eq!(created(&one), vec![(1, 1), (3, 2)]);
    assert_eq!(destroyed(&one), vec![0, 2]);
    assert_eq!(created(&one), created(&other));
    assert_eq!(destroyed(&one), destroyed(&other));

    let mut left = tally(&glider).entries();
    let mut right = tally(&turned).entries();
    left.sort_by_key(|entry| entry.0);
    right.sort_by_key(|entry| entry.0);
    assert_eq!(left, right);
}

#[test]
fn cells_are_created_where_nobody_lives() {
    let live_cells = records(&[(0, 2), (1, 3), (2, 1), (2, 2), (2, 3), (7, 7), (7, 8), (7, 9)]);
    let actions = step(&live_cells);
    let born = created(&actions);
    assert!(!born.is_empty());
    for (x, y) in born {
        assert!(live_cells.iter().all(|(_, cell)| (cell.x, cell.y) != (x, y)));
    }
    for gone in destroyed(&actions) {
        assert!(live_cells.iter().any(|(entity, _)| entity.id() == gone));
    }
}

#[test]
fn every_action_occurs_once() {
    let live_cells = records(&[(0, 2), (1, 3), (2, 1), (2, 2), (2, 3), (7, 7), (7, 8), (7, 9)]);
    let actions = step(&live_cells);
    for (i, action) in actions.iter().enumerate() {
        assert!(!actions[..i].contains(action));
    }
}

#[test]
fn decide_empty_position() {
    for count in [0u32, 1, 2, 4, 5, 8] {
        assert_eq!(decide((3, 4), &state(None, count)), None);
    }
    assert_eq!(
        decide((3, 4), &state(None, 3)),
        Some(Action::Create(Cell { x: 3, y: 4 }))
    );
    assert_eq!(
        decide((-9, i32::MAX), &state(None, 3)),
        Some(Action::Create(Cell { x: -9, y: i32::MAX }))
    );
}

#[test]
fn decide_live_position() {
    let entity = Entity::from_raw(17);
    for count in [2u32, 3] {
        assert_eq!(decide((3, 4), &state(Some(17), count)), None);
    }
    for count in [0u32, 1, 4, 5, 8, u32::MAX] {
        assert_eq!(
            decide((3, 4), &state(Some(17), count)),
            Some(Action::Destroy(entity))
        );
    }
}

#[test]
fn decide_all_keeps_the_order() {
    let entries = vec![
        ((0, 0), state(Some(1), 1)),
        ((0, 1), state(None, 2)),
        ((5, 5), state(None, 3)),
        ((1, 1), state(Some(2), 3)),
        ((2, 2), state(Some(3), 4)),
        ((-1, -1), state(None, 3)),
    ];
    assert_eq!(
        decide_all(&entries),
        vec![
            Action::Destroy(Entity::from_raw(1)),
            Action::Create(Cell { x: 5, y: 5 }),
            Action::Destroy(Entity::from_raw(3)),
            Action::Create(Cell { x: -1, y: -1 }),
        ]
    );
    assert_eq!(decide_all(&Vec::new()), Vec::new());
}

#[test]
fn last_record_at_a_position_occupies_it() {
    let live_cells = vec![
        (Entity::from_raw(1), Cell { x: 0, y: 0 }),
        (Entity::from_raw(2), Cell { x: 0, y: 0 }),
    ];
    let mut entries = tally(&live_cells).entries();
    entries.sort_by_key(|entry| entry.0);
    assert_eq!(entries.len(), 9);
    assert_eq!(entries[4], ((0, 0), state(Some(2), 0)));
    assert_eq!(entries[0], ((-1, -1), state(None, 2)));
    assert_eq!(step(&live_cells), vec![Action::Destroy(Entity::from_raw(2))]);
}

#[test]
fn limits_leave_room_around_every_cell() {
    assert!(within_limits(&Vec::new()));
    assert!(within_limits(&records(&[(0, 0), (i32::MAX - 1, i32::MIN + 1)])));
    assert!(!within_limits(&records(&[(0, 0), (i32::MAX, 0)])));
    assert!(!within_limits(&records(&[(i32::MIN, 0)])));
    assert!(!within_limits(&records(&[(0, i32::MAX)])));
    assert!(!within_limits(&records(&[(0, 0), (1, 1), (0, i32::MIN)])));
}

#[test]
fn cells_next_to_the_rim() {
    let entries = sorted_entries(&[(i32::MAX - 1, i32::MIN + 1)]);
    assert_eq!(entries.len(), 9);
    assert_eq!(entries[0], ((i32::MAX - 2, i32::MIN), state(None, 1)));
    assert_eq!(entries[8], ((i32::MAX, i32::MIN + 2), state(None, 1)));
}

#[test]
fn default_state_is_vacant() {
    assert_eq!(CellState::default(), state(None, 0));
    assert_eq!(Cell::default(), Cell { x: 0, y: 0 });
}
