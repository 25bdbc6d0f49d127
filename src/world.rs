//! Positions, cells and worlds, the rule and neighbourhood abstractions, and
//! the evolution engine.

use vstd::prelude::*;

verus! {

/// A point in a space of any dimension: one coordinate per axis.
pub type Position = Vec<i64>;

/// A cell: its state and its position.
pub type Cell<A> = (A, Position);

/// One generation: every cell of the world, in a stable order.
pub type World<A> = Vec<Cell<A>>;

/// The mathematical view of a cell: its state and its coordinates.
pub type CellView<A> = (A, Seq<i64>);

pub open spec fn cell_view<A>(c: Cell<A>) -> CellView<A> {
    (c.0, c.1@)
}

/// The mathematical view of a world.
pub open spec fn world_view<A>(w: Seq<Cell<A>>) -> Seq<CellView<A>> {
    w.map_values(|c: Cell<A>| cell_view(c))
}

/// The view of a sequence of borrowed cells.
pub open spec fn refs_view<A>(w: Seq<&Cell<A>>) -> Seq<CellView<A>> {
    w.map_values(|c: &Cell<A>| cell_view(*c))
}

/// A transition rule: the next state of a cell from its current state and
/// its neighbours. It sees nothing but its arguments.
pub trait Rule<A> {
    /// The next state, as a function of the state and the neighbours.
    spec fn next_state(&self, state: A, neighbours: Seq<CellView<A>>) -> A;

    fn apply(&self, state: &A, neighbours: Vec<&Cell<A>>) -> (r: A)
        ensures
            r == self.next_state(*state, refs_view(neighbours@)),
    ;
}

/// A neighbourhood: the cells of a world that count as adjacent to a position.
pub trait Neighbourhood<A> {
    /// The neighbours of `pos` in `world`, as a function of the two.
    spec fn neighbours(&self, world: Seq<CellView<A>>, pos: Seq<i64>) -> Seq<CellView<A>>;

    fn select<'a>(&self, world: &'a World<A>, pos: Position) -> (r: Vec<&'a Cell<A>>)
        ensures
            refs_view(r@) == self.neighbours(world_view(world@), pos@),
    ;
}

/// The cell that `c` becomes in the next generation of `world`.
pub open spec fn next_cell<A, R: Rule<A>, N: Neighbourhood<A>>(
    world: Seq<CellView<A>>,
    rule: &R,
    neighbourhood: &N,
    c: CellView<A>,
) -> CellView<A> {
    (rule.next_state(c.0, neighbourhood.neighbours(world, c.1)), c.1)
}

/// The next generation of `world`: every cell updated at once, each from
/// the neighbours it has in `world` itself.
pub open spec fn step_spec<A, R: Rule<A>, N: Neighbourhood<A>>(
    world: Seq<CellView<A>>,
    rule: &R,
    neighbourhood: &N,
) -> Seq<CellView<A>> {
    world.map_values(|c: CellView<A>| next_cell(world, rule, neighbourhood, c))
}

/// Positions of a world, in order.
pub open spec fn positions<A>(world: Seq<CellView<A>>) -> Seq<Seq<i64>> {
    world.map_values(|c: CellView<A>| c.1)
}

/// The next cell for `cell`, with its neighbours looked up in `world`.
pub fn apply_rule<A, R: Rule<A>, N: Neighbourhood<A>>(
    world: &World<A>,
    rule: &R,
    neighbourhood: &N,
    cell: &Cell<A>,
) -> (r: Cell<A>)
    ensures
        cell_view(r) == next_cell(world_view(world@), rule, neighbourhood, cell_view(*cell)),
{
    let position = cell.1.clone();
    let neighbours = neighbourhood.select(world, position);
    let new_state = rule.apply(&cell.0, neighbours);
    let kept = cell.1.clone();
    (new_state, kept)
}

/// One generation: a new world whose cells keep the positions and the order
/// of `world`, each with the state that the rule gives it from its
/// neighbours in `world`.
pub fn step_time<A, R: Rule<A>, N: Neighbourhood<A>>(
    world: World<A>,
    rule: &R,
    neighbourhood: &N,
) -> (r: World<A>)
    ensures
        world_view(r@) == step_spec(world_view(world@), rule, neighbourhood),
{
    let mut out: World<A> = Vec::new();
    let mut i: usize = 0;
    while i < world.len()
        invariant
            i <= world.len(),
            out.len() == i,
            forall|k: int|
                0 <= k < i ==> cell_view(#[trigger] out@[k]) == next_cell(
                    world_view(world@),
                    rule,
                    neighbourhood,
                    cell_view(world@[k]),
                ),
        decreases world.len() - i,
    {
        let c = apply_rule(&world, rule, neighbourhood, &world[i]);
        out.push(c);
        i = i + 1;
    }
    assert(world_view(out@) =~= step_spec(world_view(world@), rule, neighbourhood));
    out
}

/// A step is determined by its inputs: two worlds that `step_time` returned
/// for the same world, rule and neighbourhood hold the same cells.
pub proof fn lemma_step_deterministic<A, R: Rule<A>, N: Neighbourhood<A>>(
    world: Seq<CellView<A>>,
    rule: &R,
    neighbourhood: &N,
    first: Seq<CellView<A>>,
    second: Seq<CellView<A>>,
)
    requires
        first == step_spec(world, rule, neighbourhood),
        second == step_spec(world, rule, neighbourhood),
    ensures
        first == second,
{
}

/// A step neither adds nor removes cells.
pub proof fn lemma_step_keeps_count<A, R: Rule<A>, N: Neighbourhood<A>>(
    world: Seq<CellView<A>>,
    rule: &R,
    neighbourhood: &N,
)
    ensures
        step_spec(world, rule, neighbourhood).len() == world.len(),
{
}

/// A step keeps every cell at its position, in the same order; so the set
/// of positions is unchanged too.
pub proof fn lemma_step_keeps_positions<A, R: Rule<A>, N: Neighbourhood<A>>(
    world: Seq<CellView<A>>,
    rule: &R,
    neighbourhood: &N,
)
    ensures
        positions(step_spec(world, rule, neighbourhood)) == positions(world),
        positions(step_spec(world, rule, neighbourhood)).to_set() == positions(world).to_set(),
{
    assert(positions(step_spec(world, rule, neighbourhood)) =~= positions(world));
}

} // verus!
