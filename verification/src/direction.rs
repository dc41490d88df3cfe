//! The four directions of movement on the grid.

use vstd::prelude::*;

verus! {

pub const NUM_OF_DIRECTIONS: usize = 4;

/// A direction on the grid. The order of the variants is the canonical order:
/// it gives each direction its slot among a cell's graph links.
#[derive(Clone, Copy, PartialEq, Eq, Structural, Debug)]
pub enum Direction {
    North,
    East,
    West,
    South,
}

/// The four directions in canonical order.
pub open spec fn all_directions() -> Seq<Direction> {
    seq![Direction::North, Direction::East, Direction::West, Direction::South]
}

/// The index of the first occurrence of `direction` in `directions`, or the
/// length of `directions` when it does not occur.
pub open spec fn first_index_of(directions: Seq<Direction>, direction: Direction) -> int
    decreases directions.len(),
{
    if directions.len() == 0 {
        0
    } else if directions[0] == direction {
        0
    } else {
        1 + first_index_of(directions.drop_first(), direction)
    }
}

/// `directions` without the first occurrence of `direction`.
pub open spec fn without_first(directions: Seq<Direction>, direction: Direction) -> Seq<Direction> {
    if directions.contains(direction) {
        directions.remove(first_index_of(directions, direction))
    } else {
        directions
    }
}

pub proof fn lemma_first_index_of(directions: Seq<Direction>, direction: Direction)
    ensures
        0 <= first_index_of(directions, direction) <= directions.len(),
        directions.contains(direction) <==> first_index_of(directions, direction)
            < directions.len(),
        first_index_of(directions, direction) < directions.len() ==> directions[first_index_of(
            directions,
            direction,
        )] == direction,
        forall|j: int|
            0 <= j < first_index_of(directions, direction) ==> directions[j] != direction,
    decreases directions.len(),
{
    if directions.len() == 0 {
    } else if directions[0] == direction {
        assert(directions.contains(direction));
    } else {
        let rest = directions.drop_first();
        lemma_first_index_of(rest, direction);
        let k = first_index_of(rest, direction);
        if rest.contains(direction) {
            assert(rest[k] == direction);
            assert(directions[k + 1] == direction);
            assert(directions.contains(direction));
        }
        if directions.contains(direction) {
            let j = choose|j: int| 0 <= j < directions.len() && directions[j] == direction;
            assert(rest[j - 1] == direction);
            assert(rest.contains(direction));
        }
        assert forall|j: int| 0 <= j < 1 + k implies directions[j] != direction by {
            if j > 0 {
                assert(rest[j - 1] != direction);
            }
        }
    }
}

impl Direction {
    /// The slot of this direction among a cell's graph links.
    pub open spec fn spec_index(self) -> int {
        match self {
            Direction::North => 0,
            Direction::East => 1,
            Direction::West => 2,
            Direction::South => 3,
        }
    }

    pub open spec fn spec_opposite(self) -> Direction {
        match self {
            Direction::North => Direction::South,
            Direction::East => Direction::West,
            Direction::South => Direction::North,
            Direction::West => Direction::East,
        }
    }

    pub open spec fn spec_from_index(value: int) -> Direction {
        if value == 0 {
            Direction::North
        } else if value == 1 {
            Direction::East
        } else if value == 2 {
            Direction::West
        } else {
            Direction::South
        }
    }

    /// The four directions in canonical order.
    pub fn get_directions() -> (directions: [Direction; NUM_OF_DIRECTIONS])
        ensures
            directions@ == all_directions(),
    {
        let directions: [Direction; NUM_OF_DIRECTIONS] = [
            Direction::North,
            Direction::East,
            Direction::West,
            Direction::South,
        ];
        assert(directions@ =~= all_directions());
        directions
    }

    /// The direction that points the other way.
    pub fn get_opposite_direction(&self) -> (opposite: Direction)
        ensures
            opposite == self.spec_opposite(),
    {
        match self {
            Direction::North => Direction::South,
            Direction::East => Direction::West,
            Direction::South => Direction::North,
            Direction::West => Direction::East,
        }
    }

    /// Takes the first occurrence of `direction` out of `directions`.
    /// Returns whether there was one.
    pub fn remove_direction(directions: &mut Vec<Direction>, direction: Direction) -> (removed:
        bool)
        ensures
            removed == old(directions)@.contains(direction),
            final(directions)@ == without_first(old(directions)@, direction),
    {
        let n: usize = directions.len();
        let mut i: usize = 0;
        proof {
            lemma_first_index_of(directions@, direction);
        }
        while i < n
            invariant
                i <= n,
                n == directions@.len(),
                directions@ == old(directions)@,
                forall|j: int| 0 <= j < i ==> directions@[j] != direction,
            decreases n - i,
        {
            if directions[i] == direction {
                assert(directions@.contains(direction));
                assert(first_index_of(directions@, direction) == i) by {
                    lemma_first_index_of(directions@, direction);
                    let k = first_index_of(directions@, direction);
                    if k < i {
                        assert(directions@[k] == direction);
                    }
                }
                directions.remove(i);
                return true;
            }
            i += 1;
        }
        assert(!directions@.contains(direction));
        false
    }

    /// The direction of the given slot; every value above 2 gives `South`.
    pub fn from_usize(value: usize) -> (direction: Direction)
        ensures
            direction == Self::spec_from_index(value as int),
    {
        if value == 0 {
            Direction::North
        } else if value == 1 {
            Direction::East
        } else if value == 2 {
            Direction::West
        } else {
            Direction::South
        }
    }

    /// The slot of this direction among a cell's graph links.
    pub fn index(&self) -> (i: usize)
        ensures
            i == self.spec_index(),
            i < NUM_OF_DIRECTIONS,
    {
        match self {
            Direction::North => 0,
            Direction::East => 1,
            Direction::West => 2,
            Direction::South => 3,
        }
    }

    /// The English name of the direction.
    pub fn name(&self) -> (s: &'static str)
        ensures
            s@ == match *self {
                Direction::North => "North"@,
                Direction::East => "East"@,
                Direction::West => "West"@,
                Direction::South => "South"@,
            },
    {
        match self {
            Direction::North => "North",
            Direction::East => "East",
            Direction::West => "West",
            Direction::South => "South",
        }
    }
}

/// Turning round twice gives the direction one started with, the opposite is
/// never the direction itself, and slot and direction determine each other.
pub proof fn lemma_direction_laws(direction: Direction)
    ensures
        direction.spec_opposite().spec_opposite() == direction,
        direction.spec_opposite() != direction,
        0 <= direction.spec_index() < NUM_OF_DIRECTIONS,
        Direction::spec_from_index(direction.spec_index()) == direction,
        all_directions()[direction.spec_index()] == direction,
{
}

} // verus!
