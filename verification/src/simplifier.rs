//! The simplifier: it prunes the leaves of the topology graph, the nodes
//! with a single edge that are ordinary passages, until none is left.

use vstd::prelude::*;
use crate::direction::{lemma_direction_laws, Direction, NUM_OF_DIRECTIONS};
use crate::maze::{link_count, link_in_range, Maze, MazeCellType, MazeView};
use crate::topology::symmetric;

verus! {

/// The number of half-edges on the grid.
pub open spec fn edge_count(links: Seq<Seq<Option<usize>>>) -> nat
    decreases links.len(),
{
    if links.len() == 0 {
        0
    } else {
        edge_count(links.drop_last()) + link_count(links.last())
    }
}

/// The first slot of the cell that holds a link, or the number of slots
/// where none does.
pub open spec fn first_link(row: Seq<Option<usize>>) -> int
    decreases row.len(),
{
    if row.len() == 0 {
        0
    } else if row[0] is Some {
        0
    } else {
        1 + first_link(row.drop_first())
    }
}

/// The cell at `position` is a leaf that can be pruned: an ordinary
/// passage with exactly one graph link.
pub open spec fn prunable(
    kinds: Seq<MazeCellType>,
    links: Seq<Seq<Option<usize>>>,
    position: int,
) -> bool {
    &&& 0 <= position < links.len()
    &&& kinds[position] == MazeCellType::Passage
    &&& link_count(links[position]) == 1
}

/// The node that the first link of the cell at `position` points at.
pub open spec fn first_neighbor(links: Seq<Seq<Option<usize>>>, position: int) -> int {
    links[position][first_link(links[position])]->0 as int
}

/// The links after the first edge of the cell at `position` has been
/// taken off: the slot of the opposite direction in the cell it points at
/// is cleared, then the slot in the cell itself.
pub open spec fn unlinked(links: Seq<Seq<Option<usize>>>, position: int) -> Seq<
    Seq<Option<usize>>,
> {
    let slot = first_link(links[position]);
    let other = first_neighbor(links, position);
    let back = Direction::spec_from_index(slot).spec_opposite().spec_index();
    let first = links.update(other, links[other].update(back, None));
    first.update(position, first[position].update(slot, None))
}

/// The links after the branch that ends in the leaf `cursor` has been
/// pruned: as long as the cursor is a leaf that can be pruned, its edge is
/// taken off and the cursor moves to the node at the other end.
pub open spec fn prune_chain(
    kinds: Seq<MazeCellType>,
    links: Seq<Seq<Option<usize>>>,
    cursor: int,
) -> Seq<Seq<Option<usize>>>
    decreases edge_count(links),
{
    if prunable(kinds, links, cursor) && edge_count(unlinked(links, cursor)) < edge_count(links) {
        prune_chain(kinds, unlinked(links, cursor), first_neighbor(links, cursor))
    } else {
        links
    }
}

/// The links after the branches that end in the cells from `from` on have
/// been pruned, cell by cell.
pub open spec fn prune_from(
    kinds: Seq<MazeCellType>,
    links: Seq<Seq<Option<usize>>>,
    from: int,
) -> Seq<Seq<Option<usize>>>
    decreases links.len() - from,
{
    if from < 0 || from >= links.len() {
        links
    } else {
        let pruned = prune_chain(kinds, links, from);
        if pruned.len() == links.len() {
            prune_from(kinds, pruned, from + 1)
        } else {
            pruned
        }
    }
}

/// The first cell from `from` on that is a leaf that can be pruned, or
/// the number of cells where there is none.
pub open spec fn first_prunable(
    kinds: Seq<MazeCellType>,
    links: Seq<Seq<Option<usize>>>,
    from: int,
) -> int
    decreases links.len() - from,
{
    if from < 0 || from >= links.len() {
        links.len() as int
    } else if prunable(kinds, links, from) {
        from
    } else {
        first_prunable(kinds, links, from + 1)
    }
}

/// No cell of the grid is a leaf that can be pruned.
pub open spec fn fully_pruned(kinds: Seq<MazeCellType>, links: Seq<Seq<Option<usize>>>) -> bool {
    forall|p: int| 0 <= p < links.len() ==> !prunable(kinds, links, p)
}

/// The number of links of a cell changes with the slot that changes.
pub proof fn lemma_link_count_set(row: Seq<Option<usize>>, d: int, link: Option<usize>)
    requires
        0 <= d < row.len(),
    ensures
        link_count(row.update(d, link)) == link_count(row) - (if row[d] is Some {
            1int
        } else {
            0int
        }) + (if link is Some {
            1int
        } else {
            0int
        }),
    decreases row.len(),
{
    let updated = row.update(d, link);
    if d == row.len() - 1 {
        assert(updated.drop_last() =~= row.drop_last());
    } else {
        assert(updated.drop_last() =~= row.drop_last().update(d, link));
        lemma_link_count_set(row.drop_last(), d, link);
    }
}

/// The number of half-edges changes with the cell that changes.
pub proof fn lemma_edge_count_set(links: Seq<Seq<Option<usize>>>, i: int, row: Seq<Option<usize>>)
    requires
        0 <= i < links.len(),
    ensures
        edge_count(links.update(i, row)) == edge_count(links) - link_count(links[i]) + link_count(
            row,
        ),
    decreases links.len(),
{
    let updated = links.update(i, row);
    if i == links.len() - 1 {
        assert(updated.drop_last() =~= links.drop_last());
    } else {
        assert(updated.drop_last() =~= links.drop_last().update(i, row));
        lemma_edge_count_set(links.drop_last(), i, row);
    }
}

/// The first link of a cell that has a link is found among its slots.
pub proof fn lemma_first_link(row: Seq<Option<usize>>)
    ensures
        0 <= first_link(row) <= row.len(),
        first_link(row) < row.len() ==> row[first_link(row)] is Some,
        forall|j: int| 0 <= j < first_link(row) ==> row[j] is None,
        link_count(row) > 0 ==> first_link(row) < row.len(),
    decreases row.len(),
{
    if row.len() > 0 {
        if row[0] is Some {
        } else {
            let rest = row.drop_first();
            lemma_first_link(rest);
            assert forall|j: int| 0 <= j < first_link(row) implies row[j] is None by {
                if j > 0 {
                    assert(rest[j - 1] is None);
                }
            }
            if link_count(row) > 0 {
                lemma_link_count_none(row);
            }
        }
    }
}

/// A cell with a link has a slot that holds one.
pub proof fn lemma_link_count_none(row: Seq<Option<usize>>)
    ensures
        link_count(row) > 0 <==> exists|j: int| 0 <= j < row.len() && row[j] is Some,
        link_count(row) <= row.len(),
    decreases row.len(),
{
    if row.len() > 0 {
        let rest = row.drop_last();
        lemma_link_count_none(rest);
        if row.last() is Some {
            assert(row[row.len() - 1] is Some);
        } else if link_count(row) > 0 {
            let j = choose|j: int| 0 <= j < rest.len() && rest[j] is Some;
            assert(row[j] is Some);
        }
        if exists|j: int| 0 <= j < row.len() && row[j] is Some {
            let j = choose|j: int| 0 <= j < row.len() && row[j] is Some;
            if j < row.len() - 1 {
                assert(rest[j] is Some);
            }
        }
    }
}

/// Taking the first edge off a cell that has a link leaves fewer
/// half-edges, clears that cell's slot, and changes no cell but the two at
/// the ends of the edge.
pub proof fn lemma_unlinked(links: Seq<Seq<Option<usize>>>, position: int)
    requires
        0 <= position < links.len(),
        forall|i: int| 0 <= i < links.len() ==> (#[trigger] links[i]).len() == NUM_OF_DIRECTIONS,
        forall|i: int, d: int|
            0 <= i < links.len() && 0 <= d < NUM_OF_DIRECTIONS ==> link_in_range(
                #[trigger] links[i][d],
                links.len() as int,
            ),
        link_count(links[position]) > 0,
    ensures
        0 <= first_link(links[position]) < NUM_OF_DIRECTIONS,
        0 <= first_neighbor(links, position) < links.len(),
        unlinked(links, position).len() == links.len(),
        edge_count(unlinked(links, position)) < edge_count(links),
        link_count(unlinked(links, position)[position]) == link_count(links[position]) - 1 || (
        first_neighbor(links, position) == position && link_count(
            unlinked(links, position)[position],
        ) < link_count(links[position])),
        forall|i: int|
            0 <= i < links.len() ==> (#[trigger] unlinked(links, position)[i]).len()
                == NUM_OF_DIRECTIONS,
        forall|i: int, d: int|
            0 <= i < links.len() && 0 <= d < NUM_OF_DIRECTIONS ==> link_in_range(
                #[trigger] unlinked(links, position)[i][d],
                links.len() as int,
            ),
        forall|i: int|
            0 <= i < links.len() && i != position && i != first_neighbor(links, position)
                ==> #[trigger] unlinked(links, position)[i] == links[i],
{
    let row = links[position];
    lemma_first_link(row);
    let slot = first_link(row);
    let other = first_neighbor(links, position);
    assert(link_in_range(links[position][slot], links.len() as int));
    let direction = Direction::spec_from_index(slot);
    lemma_direction_laws(direction);
    let back = direction.spec_opposite().spec_index();
    assert(back != slot);
    let first = links.update(other, links[other].update(back, None));
    lemma_link_count_set(links[other], back, None);
    lemma_edge_count_set(links, other, links[other].update(back, None));
    assert(first[position][slot] is Some);
    lemma_link_count_set(first[position], slot, None);
    lemma_edge_count_set(first, position, first[position].update(slot, None));
}

impl Maze {
    /// The number of graph links of the cell at `position`.
    pub fn get_num_of_graph_connections(&self, position: usize) -> (count: usize)
        requires
            position < self.cells.len(),
        ensures
            count == link_count(self@.links[position as int]),
            count <= NUM_OF_DIRECTIONS,
    {
        let mut count: usize = 0;
        let ghost row = self@.links[position as int];
        let mut i: usize = 0;
        assert(row.take(0) =~= Seq::<Option<usize>>::empty());
        while i < NUM_OF_DIRECTIONS
            invariant
                i <= NUM_OF_DIRECTIONS,
                position < self.cells.len(),
                row == self@.links[position as int],
                row.len() == NUM_OF_DIRECTIONS,
                count == link_count(row.take(i as int)),
                count <= i,
            decreases NUM_OF_DIRECTIONS - i,
        {
            proof {
                assert(row.take(i as int + 1).drop_last() =~= row.take(i as int));
                assert(row.take(i as int + 1).last() == row[i as int]);
            }
            if self.cells[position].nodes[i].is_some() {
                count += 1;
            }
            i += 1;
        }
        assert(row.take(NUM_OF_DIRECTIONS as int) =~= row);
        count
    }

    /// Takes the first edge off the cell at `position`, on both sides, and
    /// returns the node at its other end. A cell without an edge is left
    /// as it is.
    pub fn remove_dead_end(&mut self, position: usize) -> (r: Option<usize>)
        requires
            old(self).wf(),
            position < old(self).cells.len(),
        ensures
            final(self).wf(),
            match r {
                Some(other) => {
                    &&& link_count(old(self)@.links[position as int]) > 0
                    &&& other == first_neighbor(old(self)@.links, position as int)
                    &&& final(self)@ == (MazeView {
                        links: unlinked(old(self)@.links, position as int),
                        ..old(self)@
                    })
                },
                None => link_count(old(self)@.links[position as int]) == 0 && final(self)@ == old(self)@,
            },
            symmetric(old(self)@.links) ==> symmetric(final(self)@.links),
    {
        let ghost m = self@;
        let ghost row = m.links[position as int];
        proof {
            lemma_first_link(row);
            lemma_link_count_none(row);
        }
        let mut i: usize = 0;
        while i < NUM_OF_DIRECTIONS
            invariant
                i <= NUM_OF_DIRECTIONS,
                self@ == m,
                m == old(self)@,
                self.wf(),
                position < self.cells.len(),
                row == m.links[position as int],
                row.len() == NUM_OF_DIRECTIONS,
                forall|j: int| 0 <= j < i ==> row[j] is None,
            decreases NUM_OF_DIRECTIONS - i,
        {
            match self.cells[position].nodes[i] {
                Some(prev) => {
                    proof {
                        assert(row[i as int] is Some);
                        lemma_first_link(row);
                        lemma_link_count_none(row);
                        assert(link_count(row) > 0);
                        assert(first_link(row) == i) by {
                            let k = first_link(row);
                            if k < i {
                                assert(row[k] is None);
                            }
                        }
                        assert(link_in_range(m.links[position as int][i as int], m.len()));
                        lemma_unlinked(m.links, position as int);
                        if symmetric(m.links) {
                            lemma_unlinked_symmetric(m.links, position as int);
                        }
                    }
                    let opposite = Direction::from_usize(i).get_opposite_direction();
                    self.cells[prev].nodes[opposite.index()] = None;
                    let ghost mid = self@;
                    proof {
                        assert(mid.links[prev as int] =~= m.links[prev as int].update(
                            opposite.spec_index(),
                            None,
                        ));
                        assert(mid.links =~= m.links.update(
                            prev as int,
                            m.links[prev as int].update(opposite.spec_index(), None),
                        ));
                    }
                    self.cells[position].nodes[i] = None;
                    proof {
                        assert(self@.links[position as int] =~= mid.links[position as int].update(
                            i as int,
                            None,
                        ));
                        assert(self@.links =~= unlinked(m.links, position as int));
                        assert(self@.kinds =~= m.kinds);
                        assert(self@.visited =~= m.visited);
                        assert(self@.on_route =~= m.on_route);
                    }
                    return Some(prev);
                },
                None => {},
            }
            i += 1;
        }
        None
    }

    /// Prunes the dead-end branches of the topology graph. A leaf is an
    /// ordinary passage with exactly one graph link: its edge is taken off
    /// on both sides, and the pruning goes on with the node at the other
    /// end while that is a leaf in turn. Where `step` is set, the call
    /// returns `true` after the first edge it has taken off; a call that
    /// has nothing left to prune returns `false`.
    pub fn run_graph_elimination(&mut self, step: bool) -> (stepped: bool)
        requires
            old(self).wf(),
        ensures
            final(self).wf(),
            final(self)@ == (MazeView { links: final(self)@.links, ..old(self)@ }),
            step ==> {
                let first = first_prunable(old(self)@.kinds, old(self)@.links, 0);
                &&& stepped == (first < old(self)@.len())
                &&& final(self)@.links == if stepped {
                    unlinked(old(self)@.links, first)
                } else {
                    old(self)@.links
                }
            },
            !step ==> {
                &&& !stepped
                &&& final(self)@.links == prune_from(old(self)@.kinds, old(self)@.links, 0)
                &&& fully_pruned(final(self)@.kinds, final(self)@.links)
            },
            fully_pruned(old(self)@.kinds, old(self)@.links) ==> !stepped && final(self)@ == old(self)@,
            symmetric(old(self)@.links) ==> symmetric(final(self)@.links),
    {
        let ghost m = self@;
        let n: usize = self.cells.len();
        let mut i: usize = 0;
        while i < n
            invariant
                i <= n,
                n == self.cells.len(),
                n == m.len(),
                m == old(self)@,
                self.wf(),
                self@ == (MazeView { links: self@.links, ..m }),
                symmetric(m.links) ==> symmetric(self@.links),
                forall|p: int| 0 <= p < i ==> !prunable(m.kinds, self@.links, p),
                step ==> self@.links == m.links && first_prunable(m.kinds, m.links, 0)
                    == first_prunable(m.kinds, m.links, i as int),
                !step ==> prune_from(m.kinds, m.links, 0) == prune_from(
                    m.kinds,
                    self@.links,
                    i as int,
                ),
                fully_pruned(m.kinds, m.links) ==> self@ == m,
            decreases n - i,
        {
            if self.cells[i].celltype == MazeCellType::Passage {
                let mut leaf: Option<usize> = Some(i);
                let ghost chain_start = self@.links;
                while leaf.is_some()
                    invariant
                        i < n,
                        n == self.cells.len(),
                        n == m.len(),
                        m == old(self)@,
                        self.wf(),
                        self@ == (MazeView { links: self@.links, ..m }),
                        symmetric(m.links) ==> symmetric(self@.links),
                        leaf matches Some(node) ==> node < n,
                        forall|p: int|
                            0 <= p <= i && prunable(m.kinds, self@.links, p) ==> leaf == Some(
                                p as usize,
                            ),
                        leaf is None ==> forall|p: int|
                            0 <= p <= i ==> !prunable(m.kinds, self@.links, p),
                        step ==> self@.links == m.links && first_prunable(m.kinds, m.links, 0)
                            == first_prunable(m.kinds, m.links, i as int) && (leaf is Some
                            ==> leaf == Some(i)),
                        !step ==> prune_chain(m.kinds, chain_start, i as int) == match leaf {
                            Some(node) => prune_chain(m.kinds, self@.links, node as int),
                            None => self@.links,
                        },
                        !step ==> prune_from(m.kinds, m.links, 0) == prune_from(
                            m.kinds,
                            chain_start,
                            i as int,
                        ),
                        chain_start.len() == n,
                        fully_pruned(m.kinds, m.links) ==> self@ == m,
                    decreases
                            edge_count(self@.links),
                            if leaf is Some {
                                1int
                            } else {
                                0int
                            },
                {
                    let node: usize = leaf.unwrap();
                    let ghost before = self@.links;
                    if self.cells[node].celltype == MazeCellType::Passage
                        && self.get_num_of_graph_connections(node) == 1 {
                        proof {
                            lemma_unlinked(before, node as int);
                        }
                        leaf = self.remove_dead_end(node);
                        proof {
                            assert(self@.kinds == m.kinds);
                            assert(prunable(m.kinds, before, node as int));
                            let other = first_neighbor(before, node as int);
                            assert(leaf == Some(other as usize));
                            assert(self@.links == unlinked(before, node as int));
                            assert(link_count(self@.links[node as int]) == 0);
                            assert forall|p: int|
                                0 <= p <= i && prunable(
                                    m.kinds,
                                    self@.links,
                                    p,
                                ) implies leaf == Some(p as usize) by {
                                if p != node && p != other {
                                    assert(self@.links[p] == before[p]);
                                    assert(prunable(m.kinds, before, p));
                                }
                            }
                            if fully_pruned(m.kinds, m.links) {
                                assert(!prunable(m.kinds, m.links, node as int));
                            }
                        }
                        if step {
                            return true;
                        }
                    } else {
                        leaf = None;
                    }
                }
            }
            i += 1;
        }
        false
    }
}

/// Pruning a graph that has no leaf to prune changes nothing: to prune
/// twice is to prune once.
pub proof fn lemma_prune_idempotent(kinds: Seq<MazeCellType>, links: Seq<Seq<Option<usize>>>)
    requires
        fully_pruned(kinds, links),
    ensures
        prune_from(kinds, links, 0) == links,
{
    lemma_prune_from_fixed(kinds, links, 0);
}

/// See `lemma_prune_idempotent`.
pub proof fn lemma_prune_from_fixed(
    kinds: Seq<MazeCellType>,
    links: Seq<Seq<Option<usize>>>,
    from: int,
)
    requires
        fully_pruned(kinds, links),
    ensures
        prune_from(kinds, links, from) == links,
    decreases links.len() - from,
{
    if 0 <= from < links.len() {
        assert(!prunable(kinds, links, from));
        lemma_prune_from_fixed(kinds, links, from + 1);
    }
}

/// Taking an edge off keeps every half-edge paired: where the links are
/// paired, the edge goes with both of its half-edges.
pub proof fn lemma_unlinked_symmetric(links: Seq<Seq<Option<usize>>>, position: int)
    requires
        0 <= position < links.len(),
        forall|i: int| 0 <= i < links.len() ==> (#[trigger] links[i]).len() == NUM_OF_DIRECTIONS,
        links.len() <= usize::MAX,
        link_count(links[position]) > 0,
        symmetric(links),
    ensures
        symmetric(unlinked(links, position)),
{
    let row = links[position];
    lemma_first_link(row);
    let slot = first_link(row);
    let direction = Direction::spec_from_index(slot);
    lemma_direction_laws(direction);
    let other = first_neighbor(links, position);
    let back = direction.spec_opposite().spec_index();
    let after = unlinked(links, position);
    assert(links[position][direction.spec_index()] is Some);
    assert(links[other][back] == Some(position as usize));
    assert forall|a: int, d: Direction|
        0 <= a < after.len() && (#[trigger] after[a][d.spec_index()]) is Some implies {
        let b = after[a][d.spec_index()]->0;
        &&& b < after.len()
        &&& after[b as int][d.spec_opposite().spec_index()] == Some(a as usize)
    } by {
        lemma_direction_laws(d);
        lemma_direction_laws(d.spec_opposite());
        if a == position && d == direction {
        } else if a == other && d == direction.spec_opposite() {
        } else {
            assert(after[a][d.spec_index()] == links[a][d.spec_index()]);
            let b = links[a][d.spec_index()]->0 as int;
            assert(links[b][d.spec_opposite().spec_index()] == Some(a as usize));
            if b == other && d.spec_opposite() == direction.spec_opposite() {
                assert(d == direction);
                assert(a == position);
            }
            if b == position && d.spec_opposite() == direction {
                assert(d == direction.spec_opposite());
                assert(a == other);
            }
            assert(after[b][d.spec_opposite().spec_index()] == links[b][d.spec_opposite().spec_index()]);
        }
    }
}

} // verus!
