//! The set of occupied cells.

use std::collections::HashSet;
use vstd::prelude::*;

verus! {

/// The key under which the cell `(x, y)` is stored: both coordinates shifted
/// to be non-negative, `x` in the upper half.
pub open spec fn cell_key(x: int, y: int) -> int {
    (x + 0x8000_0000) * 0x1_0000_0000 + (y + 0x8000_0000)
}

/// Whether both coordinates of `c` fit a 32-bit signed integer.
pub open spec fn is_storable(c: (int, int)) -> bool {
    i32::MIN <= c.0 <= i32::MAX && i32::MIN <= c.1 <= i32::MAX
}

/// The storable cell that a key stands for.
pub open spec fn key_cell(k: u64) -> (int, int) {
    (k / 0x1_0000_0000 - 0x8000_0000, k % 0x1_0000_0000 - 0x8000_0000)
}

/// A storable cell is found again from its key.
pub proof fn lemma_key_round_trip(c: (int, int))
    requires
        is_storable(c),
    ensures
        0 <= cell_key(c.0, c.1) <= u64::MAX,
        key_cell(cell_key(c.0, c.1) as u64) == c,
{
}

/// The key of a cell, computed.
pub fn key_of(x: i32, y: i32) -> (k: u64)
    ensures
        k == cell_key(x as int, y as int),
{
    let high: u64 = (x as i64 + 0x8000_0000) as u64;
    let low: u64 = (y as i64 + 0x8000_0000) as u64;
    high * 0x1_0000_0000 + low
}

/// A set of occupied lattice cells.
pub struct PositionSet {
    keys: HashSet<u64>,
}

impl View for PositionSet {
    type V = Set<(int, int)>;

    closed spec fn view(&self) -> Set<(int, int)> {
        Set::new(|c: (int, int)| is_storable(c) && self.keys@.contains(cell_key(c.0, c.1) as u64))
    }
}

impl PositionSet {
    /// Only storable cells are ever held.
    pub proof fn lemma_bounded(&self)
        ensures
            forall|c: (int, int)| #[trigger] self@.contains(c) ==> is_storable(c),
    {
    }

    /// An empty set.
    pub fn new() -> (set: PositionSet)
        ensures
            set@ == Set::<(int, int)>::empty(),
    {
        let set = PositionSet { keys: HashSet::new() };
        assert(set@ =~= Set::<(int, int)>::empty());
        set
    }

    /// Whether the cell `(x, y)` is occupied.
    pub fn contains(&self, x: i32, y: i32) -> (held: bool)
        ensures
            held == self@.contains((x as int, y as int)),
    {
        let k = key_of(x, y);
        self.keys.contains(&k)
    }

    /// Marks the cell `(x, y)` as occupied; says whether it was free before.
    pub fn insert(&mut self, x: i32, y: i32) -> (fresh: bool)
        ensures
            final(self)@ == old(self)@.insert((x as int, y as int)),
            fresh == !old(self)@.contains((x as int, y as int)),
    {
        let k = key_of(x, y);
        let fresh = self.keys.insert(k);
        proof {
            assert forall|c: (int, int)|
                self@.contains(c) == old(self)@.insert((x as int, y as int)).contains(c) by {
                if is_storable(c) {
                    lemma_key_round_trip(c);
                    lemma_key_round_trip((x as int, y as int));
                }
            }
            assert(self@ =~= old(self)@.insert((x as int, y as int)));
        }
        fresh
    }
}

} // verus!
