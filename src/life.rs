//! Conway's Game of Life: the two states, the classical rule, and the
//! Moore neighbourhood in any number of dimensions.

use vstd::prelude::*;
use crate::world::{Cell, CellView, Neighbourhood, Position, Rule, World, refs_view, world_view};

verus! {

/// The state of a cell in the Game of Life.
#[derive(Clone, Copy, PartialEq, Eq, Structural, Debug)]
pub enum LifeStates {
    Alive,
    Dead,
}

/// How many of `cells` are alive.
pub open spec fn live_count(cells: Seq<CellView<LifeStates>>) -> nat
    decreases cells.len(),
{
    if cells.len() == 0 {
        0
    } else {
        live_count(cells.drop_last()) + if cells.last().0 == LifeStates::Alive {
            1nat
        } else {
            0nat
        }
    }
}

/// Conway's rule: a live cell with fewer than two or more than three live
/// neighbours dies, a dead cell with exactly three comes alive, and every
/// other cell keeps its state.
pub open spec fn life_next(state: LifeStates, count: nat) -> LifeStates {
    match state {
        LifeStates::Alive => if count < 2 || count > 3 {
            LifeStates::Dead
        } else {
            LifeStates::Alive
        },
        LifeStates::Dead => if count == 3 {
            LifeStates::Alive
        } else {
            LifeStates::Dead
        },
    }
}

/// Two coordinates are near when they differ by at most one.
pub open spec fn near(a: i64, b: i64) -> bool {
    -1 <= a - b <= 1
}

/// `p` is adjacent to `q` when they are near on every axis that both have,
/// and are not the same position.
pub open spec fn adjacent(p: Seq<i64>, q: Seq<i64>) -> bool {
    &&& forall|k: int| 0 <= k < p.len() && k < q.len() ==> near(#[trigger] p[k], q[k])
    &&& p != q
}

/// The Moore neighbours of `pos`: the cells of `world` adjacent to it, in
/// the world's order.
pub open spec fn moore(world: Seq<CellView<LifeStates>>, pos: Seq<i64>) -> Seq<CellView<LifeStates>> {
    world.filter(|c: CellView<LifeStates>| adjacent(c.1, pos))
}

/// The Game of Life rule applied to `state` and its `neighbours`.
pub fn rule_life(state: &LifeStates, neighbours: Vec<&Cell<LifeStates>>) -> (r: LifeStates)
    ensures
        r == life_next(*state, live_count(refs_view(neighbours@))),
{
    let mut count: usize = 0;
    let mut i: usize = 0;
    while i < neighbours.len()
        invariant
            i <= neighbours.len(),
            count <= i,
            count == live_count(refs_view(neighbours@.take(i as int))),
        decreases neighbours.len() - i,
    {
        proof {
            let t = refs_view(neighbours@.take(i as int + 1));
            assert(t.drop_last() =~= refs_view(neighbours@.take(i as int)));
        }
        if neighbours[i].0 == LifeStates::Alive {
            count = count + 1;
        }
        i = i + 1;
    }
    assert(neighbours@.take(i as int) =~= neighbours@);
    match state {
        LifeStates::Alive => if count < 2 || count > 3 {
            LifeStates::Dead
        } else {
            LifeStates::Alive
        },
        LifeStates::Dead => if count == 3 {
            LifeStates::Alive
        } else {
            LifeStates::Dead
        },
    }
}

fn is_near(a: i64, b: i64) -> (r: bool)
    ensures
        r == near(a, b),
{
    if a >= b {
        b == a || (b < i64::MAX && b + 1 == a)
    } else {
        a + 1 == b
    }
}

fn same_position(p: &Vec<i64>, q: &Vec<i64>) -> (r: bool)
    ensures
        r == (p@ == q@),
{
    if p.len() != q.len() {
        return false;
    }
    let mut k: usize = 0;
    while k < p.len()
        invariant
            k <= p.len(),
            p.len() == q.len(),
            forall|m: int| 0 <= m < k ==> p@[m] == q@[m],
        decreases p.len() - k,
    {
        if p[k] != q[k] {
            return false;
        }
        k = k + 1;
    }
    assert(p@ =~= q@);
    true
}

fn is_adjacent(p: &Vec<i64>, q: &Vec<i64>) -> (r: bool)
    ensures
        r == adjacent(p@, q@),
{
    let mut k: usize = 0;
    while k < p.len() && k < q.len()
        invariant
            k <= p.len(),
            forall|m: int| 0 <= m < k && m < q.len() ==> near(#[trigger] p@[m], q@[m]),
        decreases p.len() - k,
    {
        if !is_near(p[k], q[k]) {
            return false;
        }
        k = k + 1;
    }
    !same_position(p, q)
}

/// The cells of `world` adjacent to `pos`, in the world's order.
pub fn neighbourhood_life<'a>(world: &'a World<LifeStates>, pos: Position) -> (r: Vec<&'a Cell<LifeStates>>)
    ensures
        refs_view(r@) == moore(world_view(world@), pos@),
{
    let mut out: Vec<&'a Cell<LifeStates>> = Vec::new();
    let mut i: usize = 0;
    while i < world.len()
        invariant
            i <= world.len(),
            refs_view(out@) == moore(world_view(world@).take(i as int), pos@),
        decreases world.len() - i,
    {
        let c: &'a Cell<LifeStates> = &world[i];
        let hit = is_adjacent(&c.1, &pos);
        proof {
            let w = world_view(world@);
            assert(w.take(i as int + 1).drop_last() =~= w.take(i as int));
            reveal(Seq::filter);
        }
        if hit {
            out.push(c);
            assert(refs_view(out@) =~= moore(world_view(world@).take(i as int + 1), pos@));
        }
        i = i + 1;
    }
    assert(world_view(world@).take(i as int) =~= world_view(world@));
    out
}

/// The Game of Life rule as a value.
pub struct LifeRule;

impl Rule<LifeStates> for LifeRule {
    open spec fn next_state(&self, state: LifeStates, neighbours: Seq<CellView<LifeStates>>) -> LifeStates {
        life_next(state, live_count(neighbours))
    }

    fn apply(&self, state: &LifeStates, neighbours: Vec<&Cell<LifeStates>>) -> (r: LifeStates) {
        rule_life(state, neighbours)
    }
}

/// The Moore neighbourhood as a value.
pub struct LifeNeighbourhood;

impl Neighbourhood<LifeStates> for LifeNeighbourhood {
    open spec fn neighbours(&self, world: Seq<CellView<LifeStates>>, pos: Seq<i64>) -> Seq<CellView<LifeStates>> {
        moore(world, pos)
    }

    fn select<'a>(&self, world: &'a World<LifeStates>, pos: Position) -> (r: Vec<&'a Cell<LifeStates>>) {
        neighbourhood_life(world, pos)
    }
}

} // verus!
