//! The neighbour tally: for each position that a live cell occupies or
//! touches, who lives there and how many live cells surround it.

use crate::cell::{Cell, LiveCell};
use crate::model::{counts_fit, in_range, live_neighbors, occupant};
use crate::model::{lemma_live_neighbors_bound, lemma_live_neighbors_prefix};
use crate::model::{lemma_live_neighbors_push, lemma_occupant_push};
use bevy::prelude::Entity;
use bevy::utils::HashMap;
use vstd::prelude::*;

verus! {

/// What the tally knows of one position.
#[derive(Clone, Copy, Debug, PartialEq, Eq)]
pub struct CellState {
    /// The entity of the live cell at the position, if one lives there.
    pub entity: Option<Entity>,
    /// The number of live cells on the eight positions around it.
    pub live_neighbors: u32,
}

impl Default for CellState {
    /// An empty position that no live cell touches.
    fn default() -> (state: Self)
        ensures
            state == CellState::vacant(),
    {
        CellState { entity: None, live_neighbors: 0 }
    }
}

impl CellState {
    /// The state of a position before any record has been read.
    pub open spec fn vacant() -> CellState {
        CellState { entity: None, live_neighbors: 0 }
    }
}

/// An entry of a tally: a position and its state.
pub type Entry = ((i32, i32), CellState);

/// A sparse map from positions to their states, kept in a
/// `bevy::utils::HashMap`, which is hashbrown's map with the hasher of ahash.
/// That type cannot be declared to Verus, since it is generic over an
/// allocator trait that hashbrown keeps to itself, so the whole struct is
/// hidden from the verifier: `tally_entries` names what the map holds, and
/// what `empty`, `entry_or_default` and `collect` say of it is taken from
/// hashbrown's source, not proved.
#[verifier::external_body]
pub struct NeighborTally {
    map: HashMap<(i32, i32), CellState>,
}

/// The entries that a tally holds.
pub uninterp spec fn tally_entries(tally: NeighborTally) -> Map<(i32, i32), CellState>;

impl View for NeighborTally {
    type V = Map<(i32, i32), CellState>;

    open spec fn view(&self) -> Map<(i32, i32), CellState> {
        tally_entries(*self)
    }
}

/// Whether `entries` holds the entries of `tally`, each once, in any order.
pub open spec fn lists(entries: Seq<Entry>, tally: Map<(i32, i32), CellState>) -> bool {
    &&& forall|i: int, j: int|
        0 <= i < j < entries.len() ==> (#[trigger] entries[i]).0 != (#[trigger] entries[j]).0
    &&& forall|i: int|
        0 <= i < entries.len() ==> tally.contains_pair((#[trigger] entries[i]).0, entries[i].1)
    &&& forall|pos: (i32, i32)|
        (#[trigger] tally.contains_key(pos)) ==> exists|i: int|
            0 <= i < entries.len() && (#[trigger] entries[i]).0 == pos
}

impl NeighborTally {
    /// Calls `HashMap::new` of hashbrown, which makes a map without entries.
    #[verifier::external_body]
    fn empty() -> (tally: NeighborTally)
        ensures
            forall|pos: (i32, i32)| !tally_entries(tally).contains_key(pos),
    {
        NeighborTally { map: HashMap::new() }
    }

    /// Calls `HashMap::entry` and then `Entry::or_default` of hashbrown: where
    /// the map has no entry at `pos` it gets one with the default state, and
    /// the entry's value is handed out for the caller to change. No other
    /// entry is touched.
    #[verifier::external_body]
    fn entry_or_default(&mut self, pos: (i32, i32)) -> (state: &mut CellState)
        ensures
            *state == (if tally_entries(*old(self)).contains_key(pos) {
                tally_entries(*old(self))[pos]
            } else {
                CellState::vacant()
            }),
            tally_entries(*final(self)) == tally_entries(*old(self)).insert(pos, *final(state)),
    {
        self.map.entry(pos).or_default()
    }

    /// Calls `HashMap::iter` of hashbrown, which visits every entry once, in
    /// an order that nothing here fixes, and copies out what it visits.
    #[verifier::external_body]
    fn collect(&self) -> (entries: Vec<Entry>)
        ensures
            lists(entries@, tally_entries(*self)),
    {
        self.map.iter().map(|(pos, state)| (*pos, *state)).collect()
    }

    /// The entries of the tally, each position once, in no particular order.
    pub fn entries(&self) -> (entries: Vec<Entry>)
        ensures
            lists(entries@, self@),
    {
        self.collect()
    }
}

/// The point of the grid that a position of the tally stands for.
pub open spec fn point(pos: (i32, i32)) -> (int, int) {
    (pos.0 as int, pos.1 as int)
}

/// The tally of a generation: it has an entry for every position that a live
/// cell occupies or touches, and for no other.
pub open spec fn tally_of(cells: Seq<LiveCell>) -> Map<(i32, i32), CellState> {
    Map::new(
        |pos: (i32, i32)|
            occupant(cells, point(pos)).is_some() || live_neighbors(cells, point(pos)) > 0,
        |pos: (i32, i32)|
            CellState {
                entity: occupant(cells, point(pos)),
                live_neighbors: live_neighbors(cells, point(pos)) as u32,
            },
    )
}

/// The `k`-th of the nine places of the square around `cell`, taken column
/// by column; the fifth, `k == 4`, is the cell's own.
pub(crate) open spec fn place(cell: Cell, k: int) -> (int, int) {
    (cell.x - 1 + k / 3, cell.y - 1 + k % 3)
}

/// The number that `point` has among the nine places around `cell`.
pub(crate) open spec fn place_index(cell: Cell, point: (int, int)) -> int {
    3 * (point.0 - cell.x + 1) + (point.1 - cell.y + 1)
}

/// The count at `point` once `cells` are tallied and `record` has been
/// counted at the first `k` of the nine places around its cell.
pub(crate) open spec fn count_upto(
    cells: Seq<LiveCell>,
    record: LiveCell,
    k: int,
    point: (int, int),
) -> nat {
    let counted = record.1.touches(point) && place_index(record.1, point) < k;
    live_neighbors(cells, point) + (if counted {
        1nat
    } else {
        0nat
    })
}

/// The tally once `cells` are tallied, `record` has taken its position and
/// has been counted at the first `k` of the nine places around its cell.
pub(crate) open spec fn tally_upto(cells: Seq<LiveCell>, record: LiveCell, k: int) -> Map<
    (i32, i32),
    CellState,
> {
    Map::new(
        |pos: (i32, i32)|
            occupant(cells.push(record), point(pos)).is_some()
                || count_upto(cells, record, k, point(pos)) > 0,
        |pos: (i32, i32)|
            CellState {
                entity: occupant(cells.push(record), point(pos)),
                live_neighbors: count_upto(cells, record, k, point(pos)) as u32,
            },
    )
}

/// The state that the `k`-th place around the cell of `record` has once
/// `record` has been counted there.
pub(crate) open spec fn counted_state(cells: Seq<LiveCell>, record: LiveCell, k: int) -> CellState {
    CellState {
        entity: occupant(cells.push(record), place(record.1, k)),
        live_neighbors: (live_neighbors(cells, place(record.1, k)) + 1) as u32,
    }
}

/// The state that the position of `record` has once `record` has taken it.
pub(crate) open spec fn occupied_state(cells: Seq<LiveCell>, record: LiveCell) -> CellState {
    CellState {
        entity: Some(record.0),
        live_neighbors: live_neighbors(cells, record.1.point()) as u32,
    }
}

/// Giving `record` its position turns the tally of `cells` into the tally in
/// which `record` has been counted nowhere yet.
pub(crate) proof fn lemma_tally_occupy(cells: Seq<LiveCell>, record: LiveCell)
    ensures
        tally_upto(cells, record, 0) == tally_of(cells).insert(
            (record.1.x, record.1.y),
            occupied_state(cells, record),
        ),
{
    let left = tally_upto(cells, record, 0);
    let right = tally_of(cells).insert((record.1.x, record.1.y), occupied_state(cells, record));
    assert forall|pos: (i32, i32)| #[trigger] left.contains_key(pos) == right.contains_key(pos) by {
        lemma_occupant_push(cells, record, point(pos));
    }
    assert forall|pos: (i32, i32)| left.contains_key(pos) implies #[trigger] left[pos]
        == right[pos] by {
        lemma_occupant_push(cells, record, point(pos));
    }
    assert(left =~= right);
}

/// Counting `record` at one more place adds one to that place's entry, and
/// nothing at the cell's own place.
pub(crate) proof fn lemma_tally_count(cells: Seq<LiveCell>, record: LiveCell, k: int)
    requires
        0 <= k < 9,
        record.1.has_room(),
    ensures
        k == 4 ==> tally_upto(cells, record, k + 1) == tally_upto(cells, record, k),
        k != 4 ==> tally_upto(cells, record, k + 1) == tally_upto(cells, record, k).insert(
            (place(record.1, k).0 as i32, place(record.1, k).1 as i32),
            counted_state(cells, record, k),
        ),
{
    let cell = record.1;
    let here = place(cell, k);
    let before = tally_upto(cells, record, k);
    let after = tally_upto(cells, record, k + 1);
    assert(place_index(cell, here) == k);
    assert forall|pos: (i32, i32)| point(pos) != here implies count_upto(
        cells,
        record,
        k + 1,
        point(pos),
    ) == count_upto(cells, record, k, point(pos)) by {
        if cell.touches(point(pos)) {
            assert(place_index(cell, point(pos)) != k);
        }
    }
    if k == 4 {
        assert(cell.at(here));
        assert(after =~= before);
    } else {
        let pos = (here.0 as i32, here.1 as i32);
        let counted = before.insert(pos, counted_state(cells, record, k));
        assert(cell.touches(here));
        assert(point(pos) == here);
        assert(after =~= counted);
    }
}

/// Once `record` has been counted at all nine places, the tally is that of
/// `cells` with `record` behind them.
pub(crate) proof fn lemma_tally_counted(cells: Seq<LiveCell>, record: LiveCell)
    ensures
        tally_upto(cells, record, 9) == tally_of(cells.push(record)),
{
    let left = tally_upto(cells, record, 9);
    let right = tally_of(cells.push(record));
    assert forall|pos: (i32, i32)| #[trigger] left.contains_key(pos) == right.contains_key(pos) by {
        lemma_live_neighbors_push(cells, record, point(pos));
    }
    assert forall|pos: (i32, i32)| left.contains_key(pos) implies #[trigger] left[pos]
        == right[pos] by {
        lemma_live_neighbors_push(cells, record, point(pos));
    }
    assert(left =~= right);
}

/// Tallies a generation: every record takes the position of its cell, and is
/// counted once at each of the eight positions around it.
pub fn tally(live_cells: &Vec<LiveCell>) -> (tally: NeighborTally)
    requires
        in_range(live_cells@),
        counts_fit(live_cells@),
    ensures
        tally@ == tally_of(live_cells@),
{
    let mut tally = NeighborTally::empty();
    let mut i: usize = 0;
    proof {
        assert forall|pos: (i32, i32)| live_neighbors(live_cells@.take(0), point(pos)) == 0 by {
            lemma_live_neighbors_bound(live_cells@.take(0), point(pos));
        }
        assert(tally@ =~= tally_of(live_cells@.take(0)));
    }
    while i < live_cells.len()
        invariant
            i <= live_cells.len(),
            in_range(live_cells@),
            counts_fit(live_cells@),
            tally@ == tally_of(live_cells@.take(i as int)),
        decreases live_cells.len() - i,
    {
        let (entity, cell) = live_cells[i];
        let ghost before = live_cells@.take(i as int);
        let ghost record = live_cells@[i as int];
        proof {
            assert(before.push(record) =~= live_cells@.take(i + 1));
            assert(record.1.has_room());
            lemma_tally_occupy(before, record);
        }
        let state = tally.entry_or_default((cell.x, cell.y));
        state.entity = Some(entity);
        assert(tally@ =~= tally_upto(before, record, 0));
        let mut dx: i32 = -1;
        while dx <= 1
            invariant
                -1 <= dx <= 2,
                0 <= i < live_cells.len(),
                counts_fit(live_cells@),
                before == live_cells@.take(i as int),
                record == (entity, cell),
                before.push(record) == live_cells@.take(i + 1),
                cell.has_room(),
                tally@ == tally_upto(before, record, 3 * (dx + 1)),
            decreases 2 - dx,
        {
            let mut dy: i32 = -1;
            while dy <= 1
                invariant
                    -1 <= dx <= 1,
                    -1 <= dy <= 2,
                    0 <= i < live_cells.len(),
                    counts_fit(live_cells@),
                    before == live_cells@.take(i as int),
                    record == (entity, cell),
                    before.push(record) == live_cells@.take(i + 1),
                    cell.has_room(),
                    tally@ == tally_upto(before, record, 3 * (dx + 1) + (dy + 1)),
                decreases 2 - dy,
            {
                let ghost k = 3 * (dx + 1) + (dy + 1);
                proof {
                    assert(place(cell, k) == (cell.x + dx, cell.y + dy));
                    lemma_live_neighbors_push(before, record, place(cell, k));
                    lemma_live_neighbors_prefix(live_cells@, i + 1, place(cell, k));
                    lemma_tally_count(before, record, k);
                }
                if !(dx == 0 && dy == 0) {
                    let state = tally.entry_or_default((cell.x + dx, cell.y + dy));
                    state.live_neighbors = state.live_neighbors + 1;
                }
                assert(tally@ =~= tally_upto(before, record, k + 1));
                dy = dy + 1;
            }
            dx = dx + 1;
        }
        proof {
            lemma_tally_counted(before, record);
        }
        i = i + 1;
    }
    proof {
        assert(live_cells@.take(i as int) =~= live_cells@);
    }
    tally
}

} // verus!
