use vstd::prelude::*;

use crate::graph::{adjacent, step, LeafNode};
use crate::movement_set::Movement;
use crate::request::{in_bounds, Coord};

verus! {

/// A search may enter the cell: it is on the board, not blocked, and not the head
/// the search starts from.
pub open spec fn passable(c: Coord, blocked: Set<Coord>, head: Coord, width: int, height: int) -> bool {
    in_bounds(c, width, height) && !blocked.contains(c) && c != head
}

/// A walk that starts anywhere and then moves from cell to adjacent passable cell.
pub open spec fn is_walk(p: Seq<Coord>, blocked: Set<Coord>, head: Coord, width: int, height: int) -> bool {
    &&& p.len() > 0
    &&& forall|i: int|
        1 <= i < p.len() ==> passable(#[trigger] p[i], blocked, head, width, height) && adjacent(
            p[i - 1],
            p[i],
        )
}

/// Some walk leads from `from` to `to`.
pub open spec fn reaches(
    from: Coord,
    to: Coord,
    blocked: Set<Coord>,
    head: Coord,
    width: int,
    height: int,
) -> bool {
    exists|p: Seq<Coord>| #[trigger]
        is_walk(p, blocked, head, width, height) && p[0] == from && p.last() == to
}

/// The move is allowed and leads onto the board.
pub open spec fn open_start(set: Map<Movement, int>, head: Coord, width: int, height: int, m: Movement) -> bool {
    set.contains_key(m) && in_bounds(step(head, m), width, height)
}

pub open spec fn queued(q: Seq<LeafNode>, c: Coord) -> bool {
    exists|k: int| 0 <= k < q.len() && (#[trigger] q[k]).node.coord == c
}

pub open spec fn item_ok(
    it: LeafNode,
    set: Map<Movement, int>,
    visited: Set<Coord>,
    blocked: Set<Coord>,
    head: Coord,
    width: int,
    height: int,
) -> bool {
    &&& open_start(set, head, width, height, it.parent.movement)
    &&& in_bounds(it.node.coord, width, height)
    &&& it.node.coord != head
    &&& visited.contains(it.node.coord)
    &&& reaches(step(head, it.parent.movement), it.node.coord, blocked, head, width, height)
}

/// Every cell met so far is the head, expanded, or waiting in the queue; every
/// expanded cell other than `x` has all its passable neighbours met.
pub open spec fn explored_except(
    q: Seq<LeafNode>,
    visited: Set<Coord>,
    done: Set<Coord>,
    blocked: Set<Coord>,
    head: Coord,
    width: int,
    height: int,
    x: Coord,
) -> bool {
    &&& visited.contains(head)
    &&& forall|c: Coord| #[trigger]
        visited.contains(c) ==> c == head || done.contains(c) || queued(q, c)
    &&& forall|c: Coord| #[trigger] done.contains(c) ==> visited.contains(c) && c != head
    &&& forall|c: Coord, n: Coord|
        #[trigger] done.contains(c) && #[trigger] adjacent(c, n) && c != x && passable(
            n,
            blocked,
            head,
            width,
            height,
        ) ==> visited.contains(n)
}

/// As `explored_except`, with every expanded cell done.
pub open spec fn explored(
    q: Seq<LeafNode>,
    visited: Set<Coord>,
    done: Set<Coord>,
    blocked: Set<Coord>,
    head: Coord,
    width: int,
    height: int,
) -> bool {
    explored_except(q, visited, done, blocked, head, width, height, head)
}

pub proof fn lemma_queued_after_pop(q0: Seq<LeafNode>, c: Coord)
    requires
        q0.len() > 0,
        queued(q0, c),
        q0[0].node.coord != c,
    ensures
        queued(q0.drop_first(), c),
{
    let k = choose|k: int| 0 <= k < q0.len() && (#[trigger] q0[k]).node.coord == c;
    assert(q0.drop_first()[k - 1] == q0[k]);
}

pub proof fn lemma_queued_after_push(q0: Seq<LeafNode>, it: LeafNode, c: Coord)
    requires
        queued(q0, c) || it.node.coord == c,
    ensures
        queued(q0.push(it), c),
{
    if it.node.coord == c {
        assert(q0.push(it)[q0.len() as int] == it);
    } else {
        let k = choose|k: int| 0 <= k < q0.len() && (#[trigger] q0[k]).node.coord == c;
        assert(q0.push(it)[k] == q0[k]);
    }
}

pub proof fn lemma_reaches_self(s: Coord, blocked: Set<Coord>, head: Coord, width: int, height: int)
    ensures
        reaches(s, s, blocked, head, width, height),
{
    let p = seq![s];
    assert(is_walk(p, blocked, head, width, height));
}

pub proof fn lemma_reaches_extend(
    s: Coord,
    c: Coord,
    n: Coord,
    blocked: Set<Coord>,
    head: Coord,
    width: int,
    height: int,
)
    requires
        reaches(s, c, blocked, head, width, height),
        adjacent(c, n),
        passable(n, blocked, head, width, height),
    ensures
        reaches(s, n, blocked, head, width, height),
{
    let p = choose|p: Seq<Coord>| #[trigger]
        is_walk(p, blocked, head, width, height) && p[0] == s && p.last() == c;
    let p2 = p.push(n);
    assert forall|i: int| 1 <= i < p2.len() implies passable(
        #[trigger] p2[i],
        blocked,
        head,
        width,
        height,
    ) && adjacent(p2[i - 1], p2[i]) by {
        if i < p.len() {
            assert(p2[i] == p[i] && p2[i - 1] == p[i - 1]);
        }
    }
    assert(is_walk(p2, blocked, head, width, height));
}

/// Once nothing waits in the queue, the end of every walk from a met cell other
/// than the head has been expanded.
pub proof fn lemma_walk_done(
    p: Seq<Coord>,
    visited: Set<Coord>,
    done: Set<Coord>,
    blocked: Set<Coord>,
    head: Coord,
    width: int,
    height: int,
)
    requires
        is_walk(p, blocked, head, width, height),
        visited.contains(p[0]),
        p[0] != head,
        explored(Seq::empty(), visited, done, blocked, head, width, height),
    ensures
        done.contains(p.last()),
    decreases p.len(),
{
    if p.len() == 1 {
        assert(!queued(Seq::empty(), p[0]));
    } else {
        let q = p.drop_last();
        assert forall|i: int| 1 <= i < q.len() implies passable(
            #[trigger] q[i],
            blocked,
            head,
            width,
            height,
        ) && adjacent(q[i - 1], q[i]) by {
            assert(q[i] == p[i] && q[i - 1] == p[i - 1]);
        }
        lemma_walk_done(q, visited, done, blocked, head, width, height);
        let last = p.last();
        assert(passable(p[p.len() - 1], blocked, head, width, height) && adjacent(
            p[p.len() - 2],
            p[p.len() - 1],
        ));
        assert(done.contains(q.last()) && adjacent(q.last(), last));
        assert(visited.contains(last));
        assert(!queued(Seq::empty(), last));
    }
}

} // verus!
