use vstd::prelude::*;

use crate::movement_set::Movement;
use crate::request::Coord;

verus! {

/// A cell together with the move that leads to it.
#[derive(Debug, Clone, Copy, PartialEq, Eq, Structural, Hash)]
pub struct Node {
    pub coord: Coord,
    pub movement: Movement,
}

/// A search node and the first step of the path that reached it.
#[derive(Debug, Clone, Copy)]
pub struct LeafNode {
    pub node: Node,
    pub parent: Node,
}

/// The cell one move away from `c`.
pub open spec fn step(c: Coord, m: Movement) -> Coord {
    match m {
        Movement::Up => Coord { x: c.x, y: (c.y + 1) as i32 },
        Movement::Down => Coord { x: c.x, y: (c.y - 1) as i32 },
        Movement::Left => Coord { x: (c.x - 1) as i32, y: c.y },
        Movement::Right => Coord { x: (c.x + 1) as i32, y: c.y },
    }
}

/// The two cells share an edge.
pub open spec fn adjacent(a: Coord, b: Coord) -> bool {
    ||| a.x == b.x && (a.y - b.y == 1 || b.y - a.y == 1)
    ||| a.y == b.y && (a.x - b.x == 1 || b.x - a.x == 1)
}

/// Each neighbour of `c` can be computed without leaving the `i32` range.
pub open spec fn interior(c: Coord) -> bool {
    i32::MIN < c.x < i32::MAX && i32::MIN < c.y < i32::MAX
}

/// The four neighbours of a cell, in the order up, down, left, right.
pub open spec fn neighbours(c: Coord) -> Seq<Node> {
    seq![
        Node { coord: step(c, Movement::Up), movement: Movement::Up },
        Node { coord: step(c, Movement::Down), movement: Movement::Down },
        Node { coord: step(c, Movement::Left), movement: Movement::Left },
        Node { coord: step(c, Movement::Right), movement: Movement::Right },
    ]
}

/// A cell adjacent to an interior cell is one of its four steps.
pub proof fn lemma_adjacent_is_step(a: Coord, b: Coord)
    requires
        interior(a),
        adjacent(a, b),
    ensures
        b == step(a, Movement::Up) || b == step(a, Movement::Down) || b == step(a, Movement::Left)
            || b == step(a, Movement::Right),
{
}

/// Each step leads to an adjacent cell.
pub proof fn lemma_step_is_adjacent(a: Coord, m: Movement)
    requires
        interior(a),
    ensures
        adjacent(a, step(a, m)),
        step(a, m) != a,
{
}

/// The four neighbours of a cell, in the order up, down, left, right.
pub fn get_adjacent_nodes(coord: &Coord) -> (r: Vec<Node>)
    requires
        interior(*coord),
    ensures
        r@ == neighbours(*coord),
{
    let r = vec![
        Node { coord: Coord { x: coord.x, y: coord.y + 1 }, movement: Movement::Up },
        Node { coord: Coord { x: coord.x, y: coord.y - 1 }, movement: Movement::Down },
        Node { coord: Coord { x: coord.x - 1, y: coord.y }, movement: Movement::Left },
        Node { coord: Coord { x: coord.x + 1, y: coord.y }, movement: Movement::Right },
    ];
    assert(r@ =~= neighbours(*coord));
    r
}

} // verus!
