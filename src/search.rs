use vstd::prelude::*;

use crate::cell_grid::{all_cells, lemma_all_cells_finite, CellGrid};
use crate::fifo_queue::FifoQueue;
use crate::graph::{
    adjacent, get_adjacent_nodes, lemma_adjacent_is_step, lemma_step_is_adjacent, neighbours, step,
    LeafNode,
};
use crate::movement_set::{rank, Movement, WeightedMovementSet};
use crate::request::{dims_ok, in_bounds, Coord};
use crate::walk::{
    explored, explored_except, is_walk, item_ok, lemma_queued_after_pop, lemma_queued_after_push,
    lemma_reaches_extend, lemma_reaches_self, lemma_walk_done, open_start, passable, queued,
    reaches,
};

verus! {

/// A target can be reached by a walk whose first step is `m`.
pub open spec fn leads_to_target(
    set: Map<Movement, int>,
    targets: Set<Coord>,
    blocked: Set<Coord>,
    head: Coord,
    width: int,
    height: int,
    m: Movement,
) -> bool {
    &&& open_start(set, head, width, height, m)
    &&& exists|t: Coord| #[trigger]
        targets.contains(t) && reaches(step(head, m), t, blocked, head, width, height)
}

/// The cell is one step from `head` by a move that `set` allows, onto the board.
pub open spec fn is_start(set: Map<Movement, int>, head: Coord, width: int, height: int, c: Coord) -> bool {
    exists|m: Movement| #[trigger] open_start(set, head, width, height, m) && step(head, m) == c
}

/// A walk of `n` steps leads from `from` to `to`.
pub open spec fn walk_in(
    from: Coord,
    to: Coord,
    n: int,
    blocked: Set<Coord>,
    head: Coord,
    width: int,
    height: int,
) -> bool {
    exists|p: Seq<Coord>| #[trigger]
        is_walk(p, blocked, head, width, height) && p[0] == from && p.last() == to && p.len() == n
            + 1
}

/// Some target lies `n` steps away through `m`, and no walk from any allowed
/// first step reaches a target in fewer steps.
pub open spec fn nearest_at(
    set: Map<Movement, int>,
    targets: Set<Coord>,
    blocked: Set<Coord>,
    head: Coord,
    width: int,
    height: int,
    m: Movement,
    n: int,
) -> bool {
    &&& exists|t: Coord| #[trigger]
        targets.contains(t) && walk_in(step(head, m), t, n, blocked, head, width, height)
    &&& forall|p: Seq<Coord>| #[trigger]
        is_walk(p, blocked, head, width, height) && is_start(set, head, width, height, p[0])
            && targets.contains(p.last()) ==> p.len() >= n + 1
}

/// `m` is the first step of a shortest walk to a target.
pub open spec fn nearest_target_step(
    set: Map<Movement, int>,
    targets: Set<Coord>,
    blocked: Set<Coord>,
    head: Coord,
    width: int,
    height: int,
    m: Movement,
) -> bool {
    exists|n: int| #[trigger] nearest_at(set, targets, blocked, head, width, height, m, n)
}

/// No allowed first step ranked before `m` (in the order up, down, left, right)
/// starts a walk that reaches `c` in `n` steps or fewer.
pub open spec fn lowest_first_step(
    set: Map<Movement, int>,
    blocked: Set<Coord>,
    head: Coord,
    width: int,
    height: int,
    m: Movement,
    c: Coord,
    n: int,
) -> bool {
    forall|m2: Movement, p: Seq<Coord>|
        #![trigger is_walk(p, blocked, head, width, height), open_start(set, head, width, height, m2)]
        open_start(set, head, width, height, m2) && rank(m2) < rank(m) && is_walk(
            p,
            blocked,
            head,
            width,
            height,
        ) && p[0] == step(head, m2) && p.last() == c ==> p.len() > n + 1
}

/// Among the targets outside `excluded`, `t` is a nearest one, `n` steps away,
/// and `m` is the first step, ranked earliest in the order up, down, left, right,
/// of a walk that reaches such a nearest target in `n` steps. This is the target
/// and first step that a breadth-first search seeded in that order finds next.
pub open spec fn first_step_among(
    set: Map<Movement, int>,
    targets: Set<Coord>,
    excluded: Set<Coord>,
    blocked: Set<Coord>,
    head: Coord,
    width: int,
    height: int,
    m: Movement,
    t: Coord,
    n: int,
) -> bool {
    &&& targets.contains(t)
    &&& !excluded.contains(t)
    &&& open_start(set, head, width, height, m)
    &&& walk_in(step(head, m), t, n, blocked, head, width, height)
    &&& forall|p: Seq<Coord>| #[trigger]
        is_walk(p, blocked, head, width, height) && is_start(set, head, width, height, p[0])
            && targets.contains(p.last()) && !excluded.contains(p.last()) ==> p.len() >= n + 1
    &&& forall|m2: Movement, p: Seq<Coord>|
        #![trigger is_walk(p, blocked, head, width, height), open_start(set, head, width, height, m2)]
        open_start(set, head, width, height, m2) && rank(m2) < rank(m) && is_walk(
            p,
            blocked,
            head,
            width,
            height,
        ) && p[0] == step(head, m2) && targets.contains(p.last()) && !excluded.contains(p.last())
            ==> p.len() > n + 1
}

/// `steps[i]` is the first step found towards `cells[i]`, the target found next
/// once `cells[0..i]` have been found.
pub open spec fn found_at(
    set: Map<Movement, int>,
    targets: Set<Coord>,
    blocked: Set<Coord>,
    head: Coord,
    width: int,
    height: int,
    steps: Seq<Movement>,
    cells: Seq<Coord>,
    i: int,
) -> bool {
    exists|n: int| #[trigger]
        first_step_among(
            set,
            targets,
            cells.subrange(0, i).to_set(),
            blocked,
            head,
            width,
            height,
            steps[i],
            cells[i],
            n,
        )
}

/// Each of `steps` is the first step found towards the matching one of `cells`,
/// in the order a breadth-first search finds them.
pub open spec fn found_in_order(
    set: Map<Movement, int>,
    targets: Set<Coord>,
    blocked: Set<Coord>,
    head: Coord,
    width: int,
    height: int,
    steps: Seq<Movement>,
    cells: Seq<Coord>,
) -> bool {
    &&& cells.len() == steps.len()
    &&& forall|i: int|
        0 <= i < steps.len() ==> #[trigger] found_at(
            set,
            targets,
            blocked,
            head,
            width,
            height,
            steps,
            cells,
            i,
        )
}

/// The first step found next is unique, and so is the distance of the target.
pub proof fn lemma_first_step_unique(
    set: Map<Movement, int>,
    targets: Set<Coord>,
    excluded: Set<Coord>,
    blocked: Set<Coord>,
    head: Coord,
    width: int,
    height: int,
    a1: Movement,
    t1: Coord,
    n1: int,
    a2: Movement,
    t2: Coord,
    n2: int,
)
    requires
        first_step_among(set, targets, excluded, blocked, head, width, height, a1, t1, n1),
        first_step_among(set, targets, excluded, blocked, head, width, height, a2, t2, n2),
    ensures
        a1 == a2,
        n1 == n2,
{
    let p1 = choose|p: Seq<Coord>| #[trigger]
        is_walk(p, blocked, head, width, height) && p[0] == step(head, a1) && p.last() == t1
            && p.len() == n1 + 1;
    let p2 = choose|p: Seq<Coord>| #[trigger]
        is_walk(p, blocked, head, width, height) && p[0] == step(head, a2) && p.last() == t2
            && p.len() == n2 + 1;
    assert(is_start(set, head, width, height, p1[0]));
    assert(is_start(set, head, width, height, p2[0]));
    assert(n1 == n2);
    if rank(a1) < rank(a2) {
        assert(p1.len() > n2 + 1);
    } else if rank(a2) < rank(a1) {
        assert(p2.len() > n1 + 1);
    }
}

/// The first step found after a nearest target is unique too, whichever of
/// several equally near targets was found first.
pub proof fn lemma_second_step_unique(
    set: Map<Movement, int>,
    targets: Set<Coord>,
    blocked: Set<Coord>,
    head: Coord,
    width: int,
    height: int,
    a: Movement,
    t1: Coord,
    n1: int,
    u1: Coord,
    k1: int,
    b: Movement,
    t2: Coord,
    n2: int,
    c: Movement,
    u2: Coord,
    k2: int,
)
    requires
        first_step_among(set, targets, Set::empty(), blocked, head, width, height, a, t1, n1),
        first_step_among(set, targets, Set::empty(), blocked, head, width, height, a, u1, k1),
        first_step_among(set, targets, Set::empty().insert(t1), blocked, head, width, height, b, t2, n2),
        first_step_among(set, targets, Set::empty().insert(u1), blocked, head, width, height, c, u2, k2),
    ensures
        b == c,
{
    if t1 == u1 {
        lemma_first_step_unique(set, targets, Set::empty().insert(t1), blocked, head, width, height, b, t2, n2, c, u2, k2);
    } else {
        lemma_first_step_unique(set, targets, Set::empty(), blocked, head, width, height, a, t1, n1, a, u1, k1);
        lemma_second_is_first(set, targets, blocked, head, width, height, a, t1, n1, u1, b, t2, n2);
        lemma_second_is_first(set, targets, blocked, head, width, height, a, u1, n1, t1, c, u2, k2);
    }
}

/// When another target is as near as the first one found, through the same first
/// step, the next first step found is that same step.
proof fn lemma_second_is_first(
    set: Map<Movement, int>,
    targets: Set<Coord>,
    blocked: Set<Coord>,
    head: Coord,
    width: int,
    height: int,
    a: Movement,
    t1: Coord,
    n1: int,
    u1: Coord,
    b: Movement,
    t2: Coord,
    n2: int,
)
    requires
        first_step_among(set, targets, Set::empty(), blocked, head, width, height, a, t1, n1),
        first_step_among(set, targets, Set::empty(), blocked, head, width, height, a, u1, n1),
        u1 != t1,
        first_step_among(set, targets, Set::empty().insert(t1), blocked, head, width, height, b, t2, n2),
    ensures
        b == a,
{
    let pu = choose|p: Seq<Coord>| #[trigger]
        is_walk(p, blocked, head, width, height) && p[0] == step(head, a) && p.last() == u1
            && p.len() == n1 + 1;
    let pb = choose|p: Seq<Coord>| #[trigger]
        is_walk(p, blocked, head, width, height) && p[0] == step(head, b) && p.last() == t2
            && p.len() == n2 + 1;
    assert(is_start(set, head, width, height, pu[0]));
    assert(is_start(set, head, width, height, pb[0]));
    assert(!Set::<Coord>::empty().insert(t1).contains(u1));
    assert(!Set::<Coord>::empty().contains(t2));
    assert(n1 == n2);
    if rank(a) < rank(b) {
        assert(pu.len() > n2 + 1);
    } else if rank(b) < rank(a) {
        assert(pb.len() > n1 + 1);
    }
}

/// Queue entries come in order of distance, then of the rank of their first
/// step; all lie between the cursor `(cd, cl)` and one step beyond it, and each
/// entry's first step is the earliest ranked that reaches it that fast.
#[verifier::opaque]
spec fn order_ok(
    q: Seq<LeafNode>,
    dist: Map<Coord, int>,
    cd: int,
    cl: int,
    set: Map<Movement, int>,
    blocked: Set<Coord>,
    head: Coord,
    width: int,
    height: int,
) -> bool {
    &&& forall|a: int, b: int|
        0 <= a <= b < q.len() ==> {
            let da = dist[(#[trigger] q[a]).node.coord];
            let db = dist[(#[trigger] q[b]).node.coord];
            da < db || (da == db && rank(q[a].parent.movement) <= rank(q[b].parent.movement))
        }
    &&& forall|k: int|
        0 <= k < q.len() ==> {
            let d = dist[(#[trigger] q[k]).node.coord];
            let l = rank(q[k].parent.movement);
            (d == cd && l >= cl) || (d == cd + 1 && l <= cl)
        }
    &&& forall|k: int|
        0 <= k < q.len() ==> lowest_first_step(
            set,
            blocked,
            head,
            width,
            height,
            (#[trigger] q[k]).parent.movement,
            q[k].node.coord,
            dist[q[k].node.coord],
        )
}

proof fn lemma_order_after_pop(
    q0: Seq<LeafNode>,
    dist: Map<Coord, int>,
    cd: int,
    cl: int,
    set: Map<Movement, int>,
    blocked: Set<Coord>,
    head: Coord,
    width: int,
    height: int,
)
    requires
        q0.len() > 0,
        order_ok(q0, dist, cd, cl, set, blocked, head, width, height),
    ensures
        order_ok(
            q0.drop_first(),
            dist,
            dist[q0[0].node.coord],
            rank(q0[0].parent.movement),
            set,
            blocked,
            head,
            width,
            height,
        ),
        lowest_first_step(
            set,
            blocked,
            head,
            width,
            height,
            q0[0].parent.movement,
            q0[0].node.coord,
            dist[q0[0].node.coord],
        ),
{
    reveal(order_ok);
    let q = q0.drop_first();
    assert forall|k: int| 0 <= k < q.len() implies (#[trigger] q[k]) == q0[k + 1] by {}
    let d0 = dist[q0[0].node.coord];
    let l0 = rank(q0[0].parent.movement);
    assert forall|k: int| 0 <= k < q.len() implies {
        let d = dist[(#[trigger] q[k]).node.coord];
        let l = rank(q[k].parent.movement);
        (d == d0 && l >= l0) || (d == d0 + 1 && l <= l0)
    } by {
        assert(q[k] == q0[k + 1]);
        let e = q0[k + 1];
        let c = q0[0];
        assert(dist[c.node.coord] < dist[e.node.coord] || (dist[c.node.coord] == dist[e.node.coord]
            && rank(c.parent.movement) <= rank(e.parent.movement)));
    }
    assert forall|a: int, b: int|
        0 <= a <= b < q.len() implies {
        let da = dist[(#[trigger] q[a]).node.coord];
        let db = dist[(#[trigger] q[b]).node.coord];
        da < db || (da == db && rank(q[a].parent.movement) <= rank(q[b].parent.movement))
    } by {
        assert(q[a] == q0[a + 1] && q[b] == q0[b + 1]);
    }
    assert forall|k: int| 0 <= k < q.len() implies lowest_first_step(
        set,
        blocked,
        head,
        width,
        height,
        (#[trigger] q[k]).parent.movement,
        q[k].node.coord,
        dist[q[k].node.coord],
    ) by {
        assert(q[k] == q0[k + 1]);
    }
}

proof fn lemma_order_push(
    q1: Seq<LeafNode>,
    leaf: LeafNode,
    dist: Map<Coord, int>,
    d: int,
    l: int,
    set: Map<Movement, int>,
    blocked: Set<Coord>,
    head: Coord,
    width: int,
    height: int,
)
    requires
        order_ok(q1, dist, d, l, set, blocked, head, width, height),
        forall|j: int| 0 <= j < q1.len() ==> (#[trigger] q1[j]).node.coord != leaf.node.coord,
        rank(leaf.parent.movement) == l,
        lowest_first_step(set, blocked, head, width, height, leaf.parent.movement, leaf.node.coord, d + 1),
    ensures
        order_ok(
            q1.push(leaf),
            dist.insert(leaf.node.coord, d + 1),
            d,
            l,
            set,
            blocked,
            head,
            width,
            height,
        ),
{
    reveal(order_ok);
    let q = q1.push(leaf);
    let d2 = dist.insert(leaf.node.coord, d + 1);
    assert forall|j: int| 0 <= j < q.len() implies {
        let dj = d2[(#[trigger] q[j]).node.coord];
        let lj = rank(q[j].parent.movement);
        &&& (dj == d && lj >= l) || (dj == d + 1 && lj <= l)
        &&& lowest_first_step(set, blocked, head, width, height, q[j].parent.movement, q[j].node.coord, dj)
    } by {
        if j < q1.len() {
            assert(q[j] == q1[j]);
        } else {
            assert(q[j] == leaf);
        }
    }
    assert forall|a: int, b: int|
        0 <= a <= b < q.len() implies {
        let da = d2[(#[trigger] q[a]).node.coord];
        let db = d2[(#[trigger] q[b]).node.coord];
        da < db || (da == db && rank(q[a].parent.movement) <= rank(q[b].parent.movement))
    } by {
        if b < q1.len() {
            assert(q[a] == q1[a] && q[b] == q1[b]);
        } else if a < q1.len() {
            assert(q[a] == q1[a] && q[b] == leaf);
        }
    }
}

/// No walk from a start reaches a cell in fewer steps than the distance recorded
/// for it.
spec fn dist_minimal(
    dist: Map<Coord, int>,
    set: Map<Movement, int>,
    visited: Set<Coord>,
    blocked: Set<Coord>,
    head: Coord,
    width: int,
    height: int,
) -> bool {
    forall|p: Seq<Coord>| #[trigger]
        is_walk(p, blocked, head, width, height) && is_start(set, head, width, height, p[0])
            && visited.contains(p.last()) && p.last() != head ==> dist[p.last()] <= p.len() - 1
}

/// A cell not met yet lies more steps away than `level`, when every cell met but
/// not yet closed lies at least `level` steps away.
proof fn lemma_unvisited_beyond(
    p: Seq<Coord>,
    q: Seq<LeafNode>,
    visited: Set<Coord>,
    done: Set<Coord>,
    dist: Map<Coord, int>,
    set: Map<Movement, int>,
    blocked: Set<Coord>,
    head: Coord,
    width: int,
    height: int,
    x: Coord,
    level: int,
)
    requires
        is_walk(p, blocked, head, width, height),
        is_start(set, head, width, height, p[0]),
        visited.contains(p[0]),
        p[0] != head,
        !visited.contains(p.last()),
        explored_except(q, visited, done, blocked, head, width, height, x),
        dist_minimal(dist, set, visited, blocked, head, width, height),
        forall|k: int| 0 <= k < q.len() ==> dist[(#[trigger] q[k]).node.coord] >= level,
        visited.contains(x) ==> dist[x] >= level,
    ensures
        p.len() - 1 >= level + 1,
    decreases p.len(),
{
    let pp = p.drop_last();
    assert forall|i: int| 1 <= i < pp.len() implies passable(
        #[trigger] pp[i],
        blocked,
        head,
        width,
        height,
    ) && adjacent(pp[i - 1], pp[i]) by {
        assert(pp[i] == p[i] && pp[i - 1] == p[i - 1]);
    }
    assert(is_walk(pp, blocked, head, width, height));
    assert(pp[0] == p[0]);
    let y = pp.last();
    assert(passable(p[p.len() - 1], blocked, head, width, height) && adjacent(
        p[p.len() - 2],
        p[p.len() - 1],
    ));
    if !visited.contains(y) {
        lemma_unvisited_beyond(pp, q, visited, done, dist, set, blocked, head, width, height, x, level);
    } else {
        if pp.len() > 1 {
            assert(passable(pp[pp.len() - 1], blocked, head, width, height));
        }
        assert(y != head);
        assert(adjacent(y, p.last()));
        if done.contains(y) && y != x {
            assert(visited.contains(p.last()));
        }
        if y != x {
            assert(queued(q, y));
            let k = choose|k: int| 0 <= k < q.len() && (#[trigger] q[k]).node.coord == y;
            assert(dist[q[k].node.coord] >= level);
        }
        assert(dist[y] <= pp.len() - 1);
    }
}

proof fn lemma_walk_in_extend(
    s: Coord,
    c: Coord,
    n: Coord,
    d: int,
    blocked: Set<Coord>,
    head: Coord,
    width: int,
    height: int,
)
    requires
        walk_in(s, c, d, blocked, head, width, height),
        adjacent(c, n),
        passable(n, blocked, head, width, height),
    ensures
        walk_in(s, n, d + 1, blocked, head, width, height),
{
    let p = choose|p: Seq<Coord>| #[trigger]
        is_walk(p, blocked, head, width, height) && p[0] == s && p.last() == c && p.len() == d + 1;
    let p2 = p.push(n);
    assert forall|i: int| 1 <= i < p2.len() implies passable(
        #[trigger] p2[i],
        blocked,
        head,
        width,
        height,
    ) && adjacent(p2[i - 1], p2[i]) by {
        if i < p.len() {
            assert(p2[i] == p[i] && p2[i - 1] == p[i - 1]);
        }
    }
    assert(is_walk(p2, blocked, head, width, height));
}

/// The first target taken out of the queue lies no further than any other.
proof fn lemma_first_hit_nearest(
    q: Seq<LeafNode>,
    visited: Set<Coord>,
    done0: Set<Coord>,
    done: Set<Coord>,
    dist: Map<Coord, int>,
    set: Map<Movement, int>,
    targets: Set<Coord>,
    blocked: Set<Coord>,
    head: Coord,
    width: int,
    height: int,
    coord: Coord,
    m0: Movement,
    level: int,
)
    requires
        dims_ok(width, height),
        in_bounds(head, width, height),
        explored_except(q, visited, done, blocked, head, width, height, coord),
        done == done0.insert(coord),
        forall|c: Coord| #[trigger] done0.contains(c) ==> !targets.contains(c),
        dist_minimal(dist, set, visited, blocked, head, width, height),
        forall|k: int| 0 <= k < q.len() ==> dist[(#[trigger] q[k]).node.coord] >= level,
        dist[coord] == level,
        visited.contains(coord),
        targets.contains(coord),
        walk_in(step(head, m0), coord, level, blocked, head, width, height),
        forall|m: Movement| #[trigger]
            open_start(set, head, width, height, m) ==> visited.contains(step(head, m)),
    ensures
        nearest_at(set, targets, blocked, head, width, height, m0, level),
{
    assert forall|p: Seq<Coord>| #[trigger]
        is_walk(p, blocked, head, width, height) && is_start(set, head, width, height, p[0])
            && targets.contains(p.last()) implies p.len() >= level + 1 by {
        let m = choose|m: Movement| #[trigger]
            open_start(set, head, width, height, m) && step(head, m) == p[0];
        lemma_step_is_adjacent(head, m);
        let t = p.last();
        if p.len() > 1 {
            assert(passable(p[p.len() - 1], blocked, head, width, height));
        }
        if !visited.contains(t) {
            lemma_unvisited_beyond(p, q, visited, done, dist, set, blocked, head, width, height, coord, level);
        } else if t != coord {
            assert(!done0.contains(t));
            assert(queued(q, t));
            let k = choose|k: int| 0 <= k < q.len() && (#[trigger] q[k]).node.coord == t;
            assert(dist[q[k].node.coord] >= level);
        }
    }
}

/// Recording a newly met cell one step beyond `level` keeps every recorded
/// distance minimal.
proof fn lemma_visit_keeps_minimal(
    q: Seq<LeafNode>,
    visited: Set<Coord>,
    done: Set<Coord>,
    dist: Map<Coord, int>,
    set: Map<Movement, int>,
    blocked: Set<Coord>,
    head: Coord,
    width: int,
    height: int,
    coord: Coord,
    level: int,
    c: Coord,
)
    requires
        dims_ok(width, height),
        in_bounds(head, width, height),
        explored_except(q, visited, done, blocked, head, width, height, coord),
        dist_minimal(dist, set, visited, blocked, head, width, height),
        forall|k: int| 0 <= k < q.len() ==> dist[(#[trigger] q[k]).node.coord] >= level,
        visited.contains(coord),
        dist[coord] >= level,
        !visited.contains(c),
        forall|m: Movement| #[trigger]
            open_start(set, head, width, height, m) ==> visited.contains(step(head, m)),
    ensures
        dist_minimal(dist.insert(c, level + 1), set, visited.insert(c), blocked, head, width, height),
{
    let d2 = dist.insert(c, level + 1);
    let v2 = visited.insert(c);
    assert forall|p: Seq<Coord>| #[trigger]
        is_walk(p, blocked, head, width, height) && is_start(set, head, width, height, p[0])
            && v2.contains(p.last()) && p.last() != head implies d2[p.last()] <= p.len() - 1 by {
        if p.last() == c {
            let m = choose|m: Movement| #[trigger]
                open_start(set, head, width, height, m) && step(head, m) == p[0];
            lemma_step_is_adjacent(head, m);
            lemma_unvisited_beyond(p, q, visited, done, dist, set, blocked, head, width, height, coord, level);
        }
    }
}

/// A cell met for the first time from the cell at the cursor `(level, rank(m0))`
/// gets the earliest ranked first step that reaches it in `level + 1` steps.
proof fn lemma_new_step_lowest(
    q: Seq<LeafNode>,
    visited: Set<Coord>,
    done: Set<Coord>,
    dist: Map<Coord, int>,
    set: Map<Movement, int>,
    blocked: Set<Coord>,
    head: Coord,
    width: int,
    height: int,
    coord: Coord,
    m0: Movement,
    level: int,
    c: Coord,
)
    requires
        dims_ok(width, height),
        in_bounds(head, width, height),
        explored_except(q, visited, done, blocked, head, width, height, coord),
        dist_minimal(dist, set, visited, blocked, head, width, height),
        order_ok(q, dist, level, rank(m0), set, blocked, head, width, height),
        visited.contains(coord),
        dist[coord] == level,
        lowest_first_step(set, blocked, head, width, height, m0, coord, level),
        !visited.contains(c),
        forall|m: Movement| #[trigger]
            open_start(set, head, width, height, m) ==> visited.contains(step(head, m)),
    ensures
        lowest_first_step(set, blocked, head, width, height, m0, c, level + 1),
{
    reveal(order_ok);
    assert forall|k: int| 0 <= k < q.len() implies dist[(#[trigger] q[k]).node.coord] >= level by {}
    assert forall|m2: Movement, p: Seq<Coord>|
        #![trigger is_walk(p, blocked, head, width, height), open_start(set, head, width, height, m2)]
        open_start(set, head, width, height, m2) && rank(m2) < rank(m0) && is_walk(
            p,
            blocked,
            head,
            width,
            height,
        ) && p[0] == step(head, m2) && p.last() == c implies p.len() > level + 2 by {
        lemma_step_is_adjacent(head, m2);
        assert(is_start(set, head, width, height, p[0]));
        lemma_unvisited_beyond(p, q, visited, done, dist, set, blocked, head, width, height, coord, level);
        if p.len() == level + 2 {
            let pp = p.drop_last();
            assert forall|i: int| 1 <= i < pp.len() implies passable(
                #[trigger] pp[i],
                blocked,
                head,
                width,
                height,
            ) && adjacent(pp[i - 1], pp[i]) by {
                assert(pp[i] == p[i] && pp[i - 1] == p[i - 1]);
            }
            assert(is_walk(pp, blocked, head, width, height));
            assert(is_start(set, head, width, height, pp[0]));
            let y = pp.last();
            assert(passable(p[p.len() - 1], blocked, head, width, height) && adjacent(
                p[p.len() - 2],
                p[p.len() - 1],
            ));
            assert(adjacent(y, c));
            if !visited.contains(y) {
                lemma_unvisited_beyond(pp, q, visited, done, dist, set, blocked, head, width, height, coord, level);
            } else {
                if pp.len() > 1 {
                    assert(passable(pp[pp.len() - 1], blocked, head, width, height));
                }
                assert(y != head);
                if y == coord {
                    assert(pp.len() > level + 1);
                } else if done.contains(y) {
                    assert(visited.contains(c));
                } else {
                    assert(queued(q, y));
                    let k = choose|k: int| 0 <= k < q.len() && (#[trigger] q[k]).node.coord == y;
                    assert(dist[y] <= pp.len() - 1);
                    let e = q[k];
                    assert(lowest_first_step(set, blocked, head, width, height, e.parent.movement, e.node.coord, dist[e.node.coord]));
                    assert(dist[e.node.coord] == level);
                    assert(rank(e.parent.movement) >= rank(m0));
                    assert(pp.len() > level + 1);
                }
            }
        }
    }
}

/// The target just taken out of the queue, with no target outside `excluded`
/// expanded before it, is the one a breadth-first search finds next among the
/// targets outside `excluded`.
proof fn lemma_hit_lowest(
    q: Seq<LeafNode>,
    visited: Set<Coord>,
    done0: Set<Coord>,
    done: Set<Coord>,
    dist: Map<Coord, int>,
    set: Map<Movement, int>,
    targets: Set<Coord>,
    excluded: Set<Coord>,
    blocked: Set<Coord>,
    head: Coord,
    width: int,
    height: int,
    coord: Coord,
    m0: Movement,
    level: int,
)
    requires
        dims_ok(width, height),
        in_bounds(head, width, height),
        explored_except(q, visited, done, blocked, head, width, height, coord),
        done == done0.insert(coord),
        forall|c: Coord| #[trigger] done0.contains(c) && targets.contains(c) ==> excluded.contains(c),
        !excluded.contains(coord),
        dist_minimal(dist, set, visited, blocked, head, width, height),
        order_ok(q, dist, level, rank(m0), set, blocked, head, width, height),
        dist[coord] == level,
        visited.contains(coord),
        targets.contains(coord),
        open_start(set, head, width, height, m0),
        walk_in(step(head, m0), coord, level, blocked, head, width, height),
        lowest_first_step(set, blocked, head, width, height, m0, coord, level),
        forall|m: Movement| #[trigger]
            open_start(set, head, width, height, m) ==> visited.contains(step(head, m)),
    ensures
        first_step_among(set, targets, excluded, blocked, head, width, height, m0, coord, level),
{
    reveal(order_ok);
    assert forall|k: int| 0 <= k < q.len() implies dist[(#[trigger] q[k]).node.coord] >= level by {}
    assert forall|p: Seq<Coord>| #[trigger]
        is_walk(p, blocked, head, width, height) && is_start(set, head, width, height, p[0])
            && targets.contains(p.last()) && !excluded.contains(p.last()) implies p.len() >= level + 1 by {
        let m = choose|m: Movement| #[trigger]
            open_start(set, head, width, height, m) && step(head, m) == p[0];
        lemma_step_is_adjacent(head, m);
        let t = p.last();
        if p.len() > 1 {
            assert(passable(p[p.len() - 1], blocked, head, width, height));
        }
        if !visited.contains(t) {
            lemma_unvisited_beyond(p, q, visited, done, dist, set, blocked, head, width, height, coord, level);
        } else if t != coord {
            assert(!done0.contains(t));
            assert(queued(q, t));
            let k = choose|k: int| 0 <= k < q.len() && (#[trigger] q[k]).node.coord == t;
            assert(dist[q[k].node.coord] >= level);
        }
    }
    assert forall|m2: Movement, p: Seq<Coord>|
        #![trigger is_walk(p, blocked, head, width, height), open_start(set, head, width, height, m2)]
        open_start(set, head, width, height, m2) && rank(m2) < rank(m0) && is_walk(
            p,
            blocked,
            head,
            width,
            height,
        ) && p[0] == step(head, m2) && targets.contains(p.last()) && !excluded.contains(p.last())
            implies p.len() > level + 1 by {
        lemma_step_is_adjacent(head, m2);
        assert(is_start(set, head, width, height, p[0]));
        let t = p.last();
        if p.len() > 1 {
            assert(passable(p[p.len() - 1], blocked, head, width, height));
        }
        if !visited.contains(t) {
            lemma_unvisited_beyond(p, q, visited, done, dist, set, blocked, head, width, height, coord, level);
        } else if t == coord {
        } else {
            assert(!done0.contains(t));
            assert(queued(q, t));
            let k = choose|k: int| 0 <= k < q.len() && (#[trigger] q[k]).node.coord == t;
            let e = q[k];
            assert(lowest_first_step(set, blocked, head, width, height, e.parent.movement, e.node.coord, dist[e.node.coord]));
            if p.len() <= level + 1 {
                assert(dist[t] <= p.len() - 1);
                assert(dist[e.node.coord] == level);
                assert(rank(e.parent.movement) >= rank(m0));
            }
        }
    }
}

/// The targets that some walk from an allowed first step reaches.
#[verifier::opaque]
pub open spec fn reachable_targets(
    set: Map<Movement, int>,
    targets: Set<Coord>,
    blocked: Set<Coord>,
    head: Coord,
    width: int,
    height: int,
) -> Set<Coord> {
    Set::new(
        |t: Coord|
            targets.contains(t) && exists|m: Movement|
                open_start(set, head, width, height, m) && #[trigger] reaches(
                    step(head, m),
                    t,
                    blocked,
                    head,
                    width,
                    height,
                ),
    )
}

/// Only finitely many targets can be reached: they lie on the board.
pub proof fn lemma_reachable_targets_finite(
    set: Map<Movement, int>,
    targets: Set<Coord>,
    blocked: Set<Coord>,
    head: Coord,
    width: int,
    height: int,
)
    requires
        dims_ok(width, height),
    ensures
        reachable_targets(set, targets, blocked, head, width, height).finite(),
{
    reveal(reachable_targets);
    let rt = reachable_targets(set, targets, blocked, head, width, height);
    lemma_all_cells_finite(width, height);
    assert forall|t: Coord| #[trigger] rt.contains(t) implies all_cells(width, height).contains(t) by {
        let m = choose|m: Movement|
            open_start(set, head, width, height, m) && #[trigger] reaches(
                step(head, m),
                t,
                blocked,
                head,
                width,
                height,
            );
        let p = choose|p: Seq<Coord>| #[trigger]
            is_walk(p, blocked, head, width, height) && p[0] == step(head, m) && p.last() == t;
        if p.len() > 1 {
            assert(passable(p[p.len() - 1], blocked, head, width, height));
        }
    }
    vstd::set_lib::lemma_len_subset(rt, all_cells(width, height));
}

/// Once the queue is empty, the targets found are exactly those that can be
/// reached.
proof fn lemma_search_exhausted(
    visited: Set<Coord>,
    done: Set<Coord>,
    found: Seq<Coord>,
    set: Map<Movement, int>,
    targets: Set<Coord>,
    blocked: Set<Coord>,
    head: Coord,
    width: int,
    height: int,
)
    requires
        dims_ok(width, height),
        in_bounds(head, width, height),
        explored(Seq::empty(), visited, done, blocked, head, width, height),
        forall|m: Movement| #[trigger]
            open_start(set, head, width, height, m) ==> visited.contains(step(head, m)),
        forall|c: Coord| #[trigger] done.contains(c) && targets.contains(c) ==> found.contains(c),
        forall|k: int|
            0 <= k < found.len() ==> reachable_targets(set, targets, blocked, head, width, height).contains(
                #[trigger] found[k],
            ),
        found.no_duplicates(),
    ensures
        found.len() == reachable_targets(set, targets, blocked, head, width, height).len(),
        found.len() == 0 ==> forall|m: Movement|
            !#[trigger] leads_to_target(set, targets, blocked, head, width, height, m),
{
    reveal(reachable_targets);
    let rt = reachable_targets(set, targets, blocked, head, width, height);
    assert forall|t: Coord| #[trigger] rt.contains(t) implies found.to_set().contains(t) by {
        let m = choose|m: Movement|
            open_start(set, head, width, height, m) && #[trigger] reaches(
                step(head, m),
                t,
                blocked,
                head,
                width,
                height,
            );
        let p = choose|p: Seq<Coord>| #[trigger]
            is_walk(p, blocked, head, width, height) && p[0] == step(head, m) && p.last() == t;
        lemma_step_is_adjacent(head, m);
        lemma_walk_done(p, visited, done, blocked, head, width, height);
    }
    assert forall|t: Coord| #[trigger] found.to_set().contains(t) implies rt.contains(t) by {
        let k = choose|k: int| 0 <= k < found.len() && found[k] == t;
        assert(rt.contains(found[k]));
    }
    assert(rt =~= found.to_set());
    found.unique_seq_to_set();
    assert forall|m: Movement| found.len() == 0 implies !#[trigger] leads_to_target(
        set,
        targets,
        blocked,
        head,
        width,
        height,
        m,
    ) by {
        if leads_to_target(set, targets, blocked, head, width, height, m) {
            let t = choose|t: Coord| #[trigger]
                targets.contains(t) && reaches(step(head, m), t, blocked, head, width, height);
            assert(rt.contains(t));
        }
    }
}

/// Every queued entry is sound, carries a walk as long as its recorded distance,
/// and waits once; distances grow along the queue.
#[verifier::opaque]
spec fn queue_ok(
    q: Seq<LeafNode>,
    visited: Set<Coord>,
    done: Set<Coord>,
    dist: Map<Coord, int>,
    set: Map<Movement, int>,
    blocked: Set<Coord>,
    head: Coord,
    width: int,
    height: int,
) -> bool {
    &&& forall|k: int|
        0 <= k < q.len() ==> item_ok(#[trigger] q[k], set, visited, blocked, head, width, height)
    &&& forall|k: int|
        0 <= k < q.len() ==> walk_in(
            step(head, (#[trigger] q[k]).parent.movement),
            q[k].node.coord,
            dist[q[k].node.coord],
            blocked,
            head,
            width,
            height,
        )
    &&& forall|a: int, b: int|
        0 <= a <= b < q.len() ==> dist[(#[trigger] q[a]).node.coord] <= dist[(
        #[trigger] q[b]).node.coord]
    &&& forall|a: int, b: int|
        0 <= a < b < q.len() ==> (#[trigger] q[a]).node.coord != (#[trigger] q[b]).node.coord
    &&& forall|k: int| 0 <= k < q.len() ==> !done.contains((#[trigger] q[k]).node.coord)
}

proof fn lemma_after_pop(
    q0: Seq<LeafNode>,
    visited: Set<Coord>,
    done0: Set<Coord>,
    dist: Map<Coord, int>,
    set: Map<Movement, int>,
    blocked: Set<Coord>,
    head: Coord,
    width: int,
    height: int,
)
    requires
        q0.len() > 0,
        queue_ok(q0, visited, done0, dist, set, blocked, head, width, height),
        forall|b: int|
            0 <= b < q0.len() ==> dist[(#[trigger] q0[b]).node.coord] <= dist[q0[0].node.coord] + 1,
        explored(q0, visited, done0, blocked, head, width, height),
    ensures
        ({
            let q = q0.drop_first();
            let c = q0[0].node.coord;
            let done = done0.insert(c);
            &&& queue_ok(q, visited, done, dist, set, blocked, head, width, height)
            &&& forall|k: int|
                0 <= k < q.len() ==> dist[c] <= dist[(#[trigger] q[k]).node.coord] <= dist[c] + 1
            &&& item_ok(q0[0], set, visited, blocked, head, width, height)
            &&& walk_in(step(head, q0[0].parent.movement), c, dist[c], blocked, head, width, height)
            &&& explored_except(q, visited, done, blocked, head, width, height, c)
            &&& !done0.contains(c)
        }),
{
    reveal(queue_ok);
    let q = q0.drop_first();
    let c = q0[0].node.coord;
    let done = done0.insert(c);
    assert forall|k: int| 0 <= k < q.len() implies (#[trigger] q[k]) == q0[k + 1] by {}
    assert forall|k: int|
        0 <= k < q.len() implies dist[c] <= dist[(#[trigger] q[k]).node.coord] <= dist[c] + 1 by {
        assert(q[k] == q0[k + 1]);
        assert(dist[q0[0].node.coord] <= dist[q0[k + 1].node.coord]);
    }
    assert forall|a: int, b: int|
        0 <= a <= b < q.len() implies dist[(#[trigger] q[a]).node.coord] <= dist[(
        #[trigger] q[b]).node.coord] by {
        assert(q[a] == q0[a + 1] && q[b] == q0[b + 1]);
    }
    assert forall|a: int, b: int|
        0 <= a < b < q.len() implies (#[trigger] q[a]).node.coord != (#[trigger] q[b]).node.coord by {
        assert(q[a] == q0[a + 1] && q[b] == q0[b + 1]);
    }
    assert forall|k: int| 0 <= k < q.len() implies !done.contains((#[trigger] q[k]).node.coord) by {
        assert(q[k] == q0[k + 1]);
        assert(q0[0].node.coord != q0[k + 1].node.coord);
    }
    assert forall|k: int| 0 <= k < q.len() implies item_ok(
        #[trigger] q[k],
        set,
        visited,
        blocked,
        head,
        width,
        height,
    ) && walk_in(
        step(head, q[k].parent.movement),
        q[k].node.coord,
        dist[q[k].node.coord],
        blocked,
        head,
        width,
        height,
    ) by {
        assert(q[k] == q0[k + 1]);
    }
    assert(item_ok(q0[0], set, visited, blocked, head, width, height));
    assert forall|x: Coord| #[trigger] visited.contains(x) implies x == head || done.contains(x)
        || queued(q, x) by {
        if x != head && x != c && !done.contains(x) {
            lemma_queued_after_pop(q0, x);
        }
    }
    assert(queue_ok(q, visited, done, dist, set, blocked, head, width, height));
}

proof fn lemma_push(
    q1: Seq<LeafNode>,
    leaf: LeafNode,
    visited: Set<Coord>,
    done: Set<Coord>,
    dist: Map<Coord, int>,
    set: Map<Movement, int>,
    blocked: Set<Coord>,
    head: Coord,
    width: int,
    height: int,
    level: int,
)
    requires
        queue_ok(q1, visited, done, dist, set, blocked, head, width, height),
        forall|j: int| 0 <= j < q1.len() ==> level <= dist[(#[trigger] q1[j]).node.coord] <= level + 1,
        forall|c: Coord| #[trigger] done.contains(c) ==> visited.contains(c),
        !visited.contains(leaf.node.coord),
        in_bounds(leaf.node.coord, width, height),
        leaf.node.coord != head,
        open_start(set, head, width, height, leaf.parent.movement),
        reaches(step(head, leaf.parent.movement), leaf.node.coord, blocked, head, width, height),
        walk_in(step(head, leaf.parent.movement), leaf.node.coord, level + 1, blocked, head, width, height),
    ensures
        ({
            let q = q1.push(leaf);
            let d2 = dist.insert(leaf.node.coord, level + 1);
            &&& queue_ok(q, visited.insert(leaf.node.coord), done, d2, set, blocked, head, width, height)
            &&& forall|j: int| 0 <= j < q.len() ==> level <= d2[(#[trigger] q[j]).node.coord] <= level + 1
        }),
{
    reveal(queue_ok);
    let c = leaf.node.coord;
    let q = q1.push(leaf);
    let v2 = visited.insert(c);
    let d2 = dist.insert(c, level + 1);
    assert forall|j: int| 0 <= j < q1.len() implies (#[trigger] q1[j]).node.coord != c by {
        assert(item_ok(q1[j], set, visited, blocked, head, width, height));
    }
    assert forall|j: int| 0 <= j < q.len() implies item_ok(
        #[trigger] q[j],
        set,
        v2,
        blocked,
        head,
        width,
        height,
    ) && walk_in(
        step(head, q[j].parent.movement),
        q[j].node.coord,
        d2[q[j].node.coord],
        blocked,
        head,
        width,
        height,
    ) && level <= d2[q[j].node.coord] <= level + 1 by {
        if j < q1.len() {
            assert(q[j] == q1[j]);
            assert(item_ok(q1[j], set, visited, blocked, head, width, height));
        } else {
            assert(q[j] == leaf);
        }
    }
    assert forall|a: int, b: int|
        0 <= a <= b < q.len() implies d2[(#[trigger] q[a]).node.coord] <= d2[(
        #[trigger] q[b]).node.coord] by {
        if b < q1.len() {
            assert(q[a] == q1[a] && q[b] == q1[b]);
        } else if a < q1.len() {
            assert(q[a] == q1[a] && q[b] == leaf);
        }
    }
    assert forall|a: int, b: int|
        0 <= a < b < q.len() implies (#[trigger] q[a]).node.coord != (#[trigger] q[b]).node.coord by {
        if b < q1.len() {
            assert(q[a] == q1[a] && q[b] == q1[b]);
        } else {
            assert(q[a] == q1[a] && q[b] == leaf);
        }
    }
    assert forall|k: int| 0 <= k < q.len() implies !done.contains((#[trigger] q[k]).node.coord) by {
        if k < q1.len() {
            assert(q[k] == q1[k]);
        } else {
            assert(q[k] == leaf);
        }
    }
    assert(queue_ok(q, v2, done, d2, set, blocked, head, width, height));
}

/// Meets the passable neighbours of the cell just taken out of the queue that
/// were not met yet, and queues them one step further away.
#[verifier::rlimit(100)]
fn expand_cell(
    width: u32,
    height: u32,
    blocked: &CellGrid,
    set: &WeightedMovementSet,
    head: &Coord,
    current: &LeafNode,
    frontier: &mut FifoQueue<LeafNode>,
    visited: &mut CellGrid,
    Ghost(done): Ghost<Set<Coord>>,
    Ghost(dist0): Ghost<Map<Coord, int>>,
    Ghost(level): Ghost<int>,
) -> (dist_out: Ghost<Map<Coord, int>>)
    requires
        dims_ok(width as int, height as int),
        in_bounds(*head, width as int, height as int),
        in_bounds(current.node.coord, width as int, height as int),
        blocked.wf(),
        blocked.width() == width,
        blocked.height() == height,
        old(visited).wf(),
        old(visited).width() == width,
        old(visited).height() == height,
        all_cells(width as int, height as int).finite(),
        item_ok(*current, set@, old(visited)@, blocked@, *head, width as int, height as int),
        done.contains(current.node.coord),
        explored_except(
            old(frontier)@,
            old(visited)@,
            done,
            blocked@,
            *head,
            width as int,
            height as int,
            current.node.coord,
        ),
        queue_ok(old(frontier)@, old(visited)@, done, dist0, set@, blocked@, *head, width as int, height as int),
        forall|j: int|
            0 <= j < old(frontier)@.len() ==> level <= dist0[(#[trigger] old(frontier)@[j]).node.coord]
                <= level + 1,
        forall|m: Movement| #[trigger]
            open_start(set@, *head, width as int, height as int, m) ==> old(visited)@.contains(step(*head, m)),
        dist0[current.node.coord] == level,
        walk_in(step(*head, current.parent.movement), current.node.coord, level, blocked@, *head, width as int, height as int),
        dist_minimal(dist0, set@, old(visited)@, blocked@, *head, width as int, height as int),
        order_ok(
            old(frontier)@,
            dist0,
            level,
            rank(current.parent.movement),
            set@,
            blocked@,
            *head,
            width as int,
            height as int,
        ),
        lowest_first_step(
            set@,
            blocked@,
            *head,
            width as int,
            height as int,
            current.parent.movement,
            current.node.coord,
            level,
        ),
    ensures
        order_ok(
            final(frontier)@,
            dist_out@,
            level,
            rank(current.parent.movement),
            set@,
            blocked@,
            *head,
            width as int,
            height as int,
        ),
        final(visited).wf(),
        final(visited).width() == width,
        final(visited).height() == height,
        old(visited)@.subset_of(final(visited)@),
        final(visited)@.len() >= old(visited)@.len(),
        final(frontier)@.len() <= old(frontier)@.len() + (final(visited)@.len() - old(visited)@.len()),
        explored(final(frontier)@, final(visited)@, done, blocked@, *head, width as int, height as int),
        queue_ok(final(frontier)@, final(visited)@, done, dist_out@, set@, blocked@, *head, width as int, height as int),
        forall|j: int|
            0 <= j < final(frontier)@.len() ==> level <= dist_out@[(#[trigger] final(frontier)@[j]).node.coord]
                <= level + 1,
        forall|m: Movement| #[trigger]
            open_start(set@, *head, width as int, height as int, m) ==> final(visited)@.contains(step(*head, m)),
        dist_minimal(dist_out@, set@, final(visited)@, blocked@, *head, width as int, height as int),
{
    let ghost w = width as int;
    let ghost h = height as int;
    let ghost bl = blocked@;
    let ghost moves = set@;
    let ghost hd = *head;
    let ghost v_start = visited@;
    let ghost q_start = frontier@;
    let ghost mut dist = dist0;
    let coord = current.node.coord;
    proof {
        visited.lemma_view();
    }
    let ghost v0 = visited@.len();
    let next = get_adjacent_nodes(&coord);
    let mut k: usize = 0;
    while k < 4
        invariant
            0 <= k <= 4,
            next@ == neighbours(coord),
            coord == current.node.coord,
            item_ok(*current, moves, visited@, bl, hd, w, h),
            done.contains(coord),
            hd == *head,
            dims_ok(w, h),
            w == width,
            h == height,
            in_bounds(hd, w, h),
            in_bounds(coord, w, h),
            bl == blocked@,
            moves == set@,
            blocked.wf(),
            blocked.width() == w,
            blocked.height() == h,
            all_cells(w, h).finite(),
            visited.wf(),
            visited.width() == w,
            visited.height() == h,
            v_start.subset_of(visited@),
            v0 == v_start.len(),
            visited@.len() >= v0,
            frontier@.len() <= q_start.len() + (visited@.len() - v0),
            explored_except(frontier@, visited@, done, bl, hd, w, h, coord),
            queue_ok(frontier@, visited@, done, dist, moves, bl, hd, w, h),
            forall|j: int|
                0 <= j < frontier@.len() ==> level <= dist[(#[trigger] frontier@[j]).node.coord]
                    <= level + 1,
            forall|t: int|
                0 <= t < k ==> (passable(#[trigger] next@[t].coord, bl, hd, w, h)
                    ==> visited@.contains(next@[t].coord)),
            forall|m: Movement| #[trigger]
                open_start(moves, hd, w, h, m) ==> visited@.contains(step(hd, m)),
            dist[coord] == level,
            walk_in(step(hd, current.parent.movement), coord, level, bl, hd, w, h),
            dist_minimal(dist, moves, visited@, bl, hd, w, h),
            order_ok(frontier@, dist, level, rank(current.parent.movement), moves, bl, hd, w, h),
            lowest_first_step(moves, bl, hd, w, h, current.parent.movement, coord, level),
        decreases 4 - k,
        {
            let n = next[k];
            let c = n.coord;
            proof {
                lemma_step_is_adjacent(coord, n.movement);
            }
            if c.x >= 0 && (c.x as i64) < (width as i64) && c.y >= 0 && (c.y as i64) < (height as i64)
                && !blocked.contains(&c) && !visited.contains(&c) {
                let ghost q1 = frontier@;
                let leaf = LeafNode { node: n, parent: current.parent };
                proof {
                    visited.lemma_view();
                    reveal(queue_ok);
                    assert forall|j: int| 0 <= j < q1.len() implies dist[(#[trigger] q1[j]).node.coord] >= level by {}
                    lemma_visit_keeps_minimal(
                        q1,
                        visited@,
                        done,
                        dist,
                        moves,
                        bl,
                        hd,
                        w,
                        h,
                        coord,
                        level,
                        c,
                    );
                    lemma_walk_in_extend(
                        step(hd, current.parent.movement),
                        coord,
                        c,
                        level,
                        bl,
                        hd,
                        w,
                        h,
                    );
                    lemma_reaches_extend(
                        step(hd, current.parent.movement),
                        coord,
                        c,
                        bl,
                        hd,
                        w,
                        h,
                    );
                    lemma_push(q1, leaf, visited@, done, dist, moves, bl, hd, w, h, level);
                    assert forall|j: int| 0 <= j < q1.len() implies (#[trigger] q1[j]).node.coord != c by {
                        assert(item_ok(q1[j], moves, visited@, bl, hd, w, h));
                    }
                    lemma_new_step_lowest(
                        q1,
                        visited@,
                        done,
                        dist,
                        moves,
                        bl,
                        hd,
                        w,
                        h,
                        coord,
                        current.parent.movement,
                        level,
                        c,
                    );
                    lemma_order_push(
                        q1,
                        leaf,
                        dist,
                        level,
                        rank(current.parent.movement),
                        moves,
                        bl,
                        hd,
                        w,
                        h,
                    );
                }
                frontier.enqueue(leaf);
                visited.insert(&c);
                proof {
                    dist = dist.insert(c, level + 1);
                    assert forall|x: Coord| #[trigger] visited@.contains(x) implies x == hd
                        || done.contains(x) || queued(frontier@, x) by {
                        if x != hd && !done.contains(x) {
                            lemma_queued_after_push(q1, leaf, x);
                        }
                    }
                }
            }
            k += 1;
        }
    assert(explored(frontier@, visited@, done, bl, hd, w, h)) by {
        assert forall|n: Coord| #[trigger]
            adjacent(coord, n) && passable(n, bl, hd, w, h) implies visited@.contains(n) by {
            lemma_adjacent_is_step(coord, n);
            if n == step(coord, Movement::Up) {
                assert(next@[0].coord == n);
            } else if n == step(coord, Movement::Down) {
                assert(next@[1].coord == n);
            } else if n == step(coord, Movement::Left) {
                assert(next@[2].coord == n);
            } else {
                assert(next@[3].coord == n);
            }
        }
    }
    Ghost(dist)
}

/// Breadth-first search from the cells next to `head` that `set` allows and that
/// lie on the board. Gives the first step of the path to each target, in the
/// order the targets are found, the first of them on a shortest walk; stops after
/// `limit` of them, and gives fewer only when fewer can be reached.
#[verifier::rlimit(100)]
#[verifier::spinoff_prover]
pub fn first_steps_to_targets(
    width: u32,
    height: u32,
    blocked: &CellGrid,
    targets: &CellGrid,
    head: &Coord,
    set: &WeightedMovementSet,
    limit: usize,
) -> (r: Vec<Movement>)
    requires
        blocked.wf(),
        targets.wf(),
        blocked.width() == width,
        blocked.height() == height,
        in_bounds(*head, width as int, height as int),
    ensures
        r@.len() <= limit,
        forall|i: int|
            0 <= i < r@.len() ==> leads_to_target(
                set@,
                targets@,
                blocked@,
                *head,
                width as int,
                height as int,
                #[trigger] r@[i],
            ),
        limit > 0 ==> (r@.len() == 0 <==> forall|m: Movement|
            !#[trigger] leads_to_target(
                set@,
                targets@,
                blocked@,
                *head,
                width as int,
                height as int,
                m,
            )),
        r@.len() > 0 ==> nearest_target_step(
            set@,
            targets@,
            blocked@,
            *head,
            width as int,
            height as int,
            r@[0],
        ),
        reachable_targets(set@, targets@, blocked@, *head, width as int, height as int).finite(),
        r@.len() < limit ==> r@.len() == reachable_targets(
            set@,
            targets@,
            blocked@,
            *head,
            width as int,
            height as int,
        ).len(),
        r@.len() == limit ==> reachable_targets(
            set@,
            targets@,
            blocked@,
            *head,
            width as int,
            height as int,
        ).len() >= limit,
        exists|cells: Seq<Coord>| #[trigger]
            found_in_order(set@, targets@, blocked@, *head, width as int, height as int, r@, cells),
{
    let ghost w = width as int;
    let ghost h = height as int;
    let ghost bl = blocked@;
    let ghost tg = targets@;
    let ghost moves = set@;
    let ghost hd = *head;
    let ghost rt = reachable_targets(moves, tg, bl, hd, w, h);
    proof {
        blocked.lemma_view();
        lemma_all_cells_finite(w, h);
        lemma_reachable_targets_finite(moves, tg, bl, hd, w, h);
    }
    let mut hits: Vec<Movement> = Vec::new();
    let ghost mut found: Seq<Coord> = Seq::empty();
    if limit == 0 {
        assert(found_in_order(moves, tg, bl, hd, w, h, hits@, found));
        return hits;
    }
    let mut frontier = FifoQueue::<LeafNode>::new();
    let mut visited = CellGrid::new(width, height);
    visited.insert(head);
    let ghost mut done: Set<Coord> = Set::empty();
    let ghost mut dist: Map<Coord, int> = Map::empty();
    let adjacent_nodes = get_adjacent_nodes(head);
    let mut i: usize = 0;
    while i < 4
        invariant
            0 <= i <= 4,
            adjacent_nodes@ == neighbours(hd),
            hd == *head,
            dims_ok(w, h),
            w == width,
            h == height,
            in_bounds(hd, w, h),
            bl == blocked@,
            moves == set@,
            visited.wf(),
            visited.width() == w,
            visited.height() == h,
            done == Set::<Coord>::empty(),
            hits@.len() == 0,
            explored(frontier@, visited@, done, bl, hd, w, h),
            forall|k: int|
                0 <= k < frontier@.len() ==> item_ok(
                    #[trigger] frontier@[k],
                    moves,
                    visited@,
                    bl,
                    hd,
                    w,
                    h,
                ),
            forall|m: Movement|
                rank(m) < i && #[trigger] open_start(moves, hd, w, h, m) ==> visited@.contains(
                    step(hd, m),
                ),
            dist_minimal(dist, moves, visited@, bl, hd, w, h),
            forall|k: int|
                0 <= k < frontier@.len() ==> (#[trigger] frontier@[k]).node.coord == step(
                    hd,
                    frontier@[k].parent.movement,
                ) && rank(frontier@[k].parent.movement) < i,
            forall|a: int, b: int|
                0 <= a < b < frontier@.len() ==> (#[trigger] frontier@[a]).node.coord != (
                #[trigger] frontier@[b]).node.coord,
            forall|a: int, b: int|
                0 <= a < b < frontier@.len() ==> rank((#[trigger] frontier@[a]).parent.movement) < rank(
                    (#[trigger] frontier@[b]).parent.movement,
                ),
            forall|k: int|
                0 <= k < frontier@.len() ==> lowest_first_step(
                    moves,
                    bl,
                    hd,
                    w,
                    h,
                    (#[trigger] frontier@[k]).parent.movement,
                    frontier@[k].node.coord,
                    0,
                ),
            forall|k: int| 0 <= k < frontier@.len() ==> dist[(#[trigger] frontier@[k]).node.coord] == 0,
            forall|k: int|
                0 <= k < frontier@.len() ==> walk_in(
                    step(hd, (#[trigger] frontier@[k]).parent.movement),
                    frontier@[k].node.coord,
                    dist[frontier@[k].node.coord],
                    bl,
                    hd,
                    w,
                    h,
                ),
        decreases 4 - i,
    {
        let node = adjacent_nodes[i];
        let c = node.coord;
        assert(rank(node.movement) == i && c == step(hd, node.movement));
        proof {
            lemma_step_is_adjacent(hd, node.movement);
        }
        if set.contains(&node.movement) && c.x >= 0 && (c.x as i64) < (width as i64) && c.y >= 0
            && (c.y as i64) < (height as i64) {
            let ghost q0 = frontier@;
            let ghost v0 = visited@;
            let leaf = LeafNode { node, parent: node };
            frontier.enqueue(leaf);
            visited.insert(&c);
            proof {
                assert(!v0.contains(c) ==> forall|k: int| 0 <= k < q0.len() ==> (#[trigger] q0[k]).node.coord != c);
                dist = dist.insert(c, 0);
                let p1 = seq![c];
                assert(is_walk(p1, bl, hd, w, h));
                assert(walk_in(c, c, 0, bl, hd, w, h));
                assert forall|p: Seq<Coord>| #[trigger]
                    is_walk(p, bl, hd, w, h) && is_start(moves, hd, w, h, p[0]) && visited@.contains(
                        p.last(),
                    ) && p.last() != hd implies dist[p.last()] <= p.len() - 1 by {}
                assert forall|a: int, b: int|
                    0 <= a < b < frontier@.len() implies (#[trigger] frontier@[a]).node.coord != (
                    #[trigger] frontier@[b]).node.coord by {
                    if b < q0.len() {
                        assert(frontier@[a] == q0[a] && frontier@[b] == q0[b]);
                    } else {
                        assert(frontier@[a] == q0[a] && frontier@[b] == leaf);
                        assert(rank(q0[a].parent.movement) < i);
                        lemma_step_is_adjacent(hd, q0[a].parent.movement);
                    }
                }
                assert forall|k: int|
                    0 <= k < frontier@.len() implies (#[trigger] frontier@[k]).node.coord == step(
                    hd,
                    frontier@[k].parent.movement,
                ) && rank(frontier@[k].parent.movement) < i + 1 by {
                    if k < q0.len() {
                        assert(frontier@[k] == q0[k]);
                    } else {
                        assert(frontier@[k] == leaf);
                    }
                }
                assert forall|a: int, b: int|
                    0 <= a < b < frontier@.len() implies rank((#[trigger] frontier@[a]).parent.movement)
                    < rank((#[trigger] frontier@[b]).parent.movement) by {
                    if b < q0.len() {
                        assert(frontier@[a] == q0[a] && frontier@[b] == q0[b]);
                    } else {
                        assert(frontier@[a] == q0[a] && frontier@[b] == leaf);
                    }
                }
                assert(lowest_first_step(moves, bl, hd, w, h, node.movement, c, 0)) by {
                    assert forall|m2: Movement, p: Seq<Coord>|
                        #![trigger is_walk(p, bl, hd, w, h), open_start(moves, hd, w, h, m2)]
                        open_start(moves, hd, w, h, m2) && rank(m2) < rank(node.movement) && is_walk(
                            p,
                            bl,
                            hd,
                            w,
                            h,
                        ) && p[0] == step(hd, m2) && p.last() == c implies p.len() > 1 by {
                        if p.len() == 1 {
                            assert(p[0] == p.last());
                            assert(step(hd, m2) != step(hd, node.movement));
                        }
                    }
                }
                assert forall|k: int|
                    0 <= k < frontier@.len() implies lowest_first_step(
                    moves,
                    bl,
                    hd,
                    w,
                    h,
                    (#[trigger] frontier@[k]).parent.movement,
                    frontier@[k].node.coord,
                    0,
                ) by {
                    if k < q0.len() {
                        assert(frontier@[k] == q0[k]);
                    } else {
                        assert(frontier@[k] == leaf);
                    }
                }
                assert forall|k: int| 0 <= k < frontier@.len() implies dist[(#[trigger] frontier@[k]).node.coord] == 0 by {
                    if k < q0.len() {
                        assert(frontier@[k] == q0[k]);
                    }
                }
                assert forall|k: int|
                    0 <= k < frontier@.len() implies walk_in(
                    step(hd, (#[trigger] frontier@[k]).parent.movement),
                    frontier@[k].node.coord,
                    dist[frontier@[k].node.coord],
                    bl,
                    hd,
                    w,
                    h,
                ) by {
                    if k < q0.len() {
                        assert(frontier@[k] == q0[k]);
                    }
                }
                lemma_reaches_self(c, bl, hd, w, h);
                assert forall|k: int| 0 <= k < frontier@.len() implies item_ok(
                    #[trigger] frontier@[k],
                    moves,
                    visited@,
                    bl,
                    hd,
                    w,
                    h,
                ) by {
                    if k < q0.len() {
                        assert(frontier@[k] == q0[k]);
                    } else {
                        assert(frontier@[k] == leaf);
                    }
                }
                assert forall|x: Coord| #[trigger] visited@.contains(x) implies x == hd
                    || done.contains(x) || queued(frontier@, x) by {
                    if x != hd {
                        lemma_queued_after_push(q0, leaf, x);
                    }
                }
            }
        }
        proof {
            assert forall|m: Movement|
                rank(m) < i + 1 && #[trigger] open_start(moves, hd, w, h, m) implies visited@.contains(
                step(hd, m),
            ) by {
                if rank(m) == i {
                    assert(m == node.movement);
                }
            }
        }
        i += 1;
    }
    let ghost mut cd: int = 0;
    let ghost mut cl: int = -1;
    proof {
        reveal(order_ok);
        assert(order_ok(frontier@, dist, cd, cl, moves, bl, hd, w, h));
        assert(found_in_order(moves, tg, bl, hd, w, h, hits@, found));
        reveal(queue_ok);
        assert forall|a: int, b: int|
            0 <= a <= b < frontier@.len() implies dist[(#[trigger] frontier@[a]).node.coord] <= dist[(
            #[trigger] frontier@[b]).node.coord] by {}
        assert(queue_ok(frontier@, visited@, done, dist, moves, bl, hd, w, h));
    }
    loop
        invariant_except_break
            hits@.len() < limit,
            explored(frontier@, visited@, done, bl, hd, w, h),
            queue_ok(frontier@, visited@, done, dist, moves, bl, hd, w, h),
            forall|b: int|
                0 <= b < frontier@.len() ==> dist[(#[trigger] frontier@[b]).node.coord]
                    <= dist[frontier@[0].node.coord] + 1,
            forall|m: Movement| #[trigger]
                open_start(moves, hd, w, h, m) ==> visited@.contains(step(hd, m)),
            dist_minimal(dist, moves, visited@, bl, hd, w, h),
            forall|c: Coord| #[trigger] done.contains(c) && tg.contains(c) ==> found.contains(c),
            forall|k: int| 0 <= k < found.len() ==> done.contains(#[trigger] found[k]),
            order_ok(frontier@, dist, cd, cl, moves, bl, hd, w, h),
        invariant
            found_in_order(moves, tg, bl, hd, w, h, hits@, found),
            hits@.len() > 0 ==> nearest_target_step(moves, tg, bl, hd, w, h, hits@[0]),
            rt == reachable_targets(moves, tg, bl, hd, w, h),
            rt.finite(),
            found.len() == hits@.len(),
            found.no_duplicates(),
            forall|k: int| 0 <= k < found.len() ==> rt.contains(#[trigger] found[k]),
            hd == *head,
            dims_ok(w, h),
            w == width,
            h == height,
            in_bounds(hd, w, h),
            bl == blocked@,
            tg == targets@,
            moves == set@,
            blocked.wf(),
            targets.wf(),
            blocked.width() == w,
            blocked.height() == h,
            all_cells(w, h).finite(),
            visited.wf(),
            visited.width() == w,
            visited.height() == h,
            hits@.len() <= limit,
            forall|k: int|
                0 <= k < hits@.len() ==> leads_to_target(moves, tg, bl, hd, w, h, #[trigger] hits@[k]),
        ensures
            hits@.len() <= limit,
            forall|k: int|
                0 <= k < hits@.len() ==> leads_to_target(moves, tg, bl, hd, w, h, #[trigger] hits@[k]),
            hits@.len() == 0 ==> forall|m: Movement|
                !#[trigger] leads_to_target(moves, tg, bl, hd, w, h, m),
            hits@.len() > 0 ==> nearest_target_step(moves, tg, bl, hd, w, h, hits@[0]),
            hits@.len() < limit ==> hits@.len() == rt.len(),
            hits@.len() == limit ==> rt.len() >= limit,
            found_in_order(moves, tg, bl, hd, w, h, hits@, found),
        decreases frontier@.len() + 2 * (all_cells(w, h).len() - visited@.len()),
    {
        proof {
            visited.lemma_view();
        }
        let ghost q0 = frontier@;
        let current = match frontier.dequeue() {
            Some(x) => x,
            None => {
                proof {
                    assert(frontier@ =~= Seq::<LeafNode>::empty());
                    lemma_search_exhausted(visited@, done, found, moves, tg, bl, hd, w, h);
                }
                break;
            },
        };
        let coord = current.node.coord;
        let ghost level = dist[coord];
        let ghost done0 = done;
        proof {
            assert(current == q0[0]);
            lemma_after_pop(q0, visited@, done0, dist, moves, bl, hd, w, h);
            lemma_order_after_pop(q0, dist, cd, cl, moves, bl, hd, w, h);
            assert(frontier@ == q0.drop_first());
            done = done.insert(coord);
            cd = level;
            cl = rank(current.parent.movement);
        }
        let ghost old_hits = hits@;
        let ghost found0 = found;
        if targets.contains(&coord) {
            proof {
                assert(!found.contains(coord)) by {
                    if found.contains(coord) {
                        let k = choose|k: int| 0 <= k < found.len() && found[k] == coord;
                        assert(done0.contains(found[k]));
                    }
                }
                assert forall|c: Coord| #[trigger] done0.contains(c) && tg.contains(c) implies found.to_set().contains(c) by {
                    assert(found.contains(c));
                }
                lemma_hit_lowest(
                    frontier@,
                    visited@,
                    done0,
                    done,
                    dist,
                    moves,
                    tg,
                    found.to_set(),
                    bl,
                    hd,
                    w,
                    h,
                    coord,
                    current.parent.movement,
                    level,
                );
                if hits@.len() == 0 {
                    assert forall|c: Coord| #[trigger] done0.contains(c) implies !tg.contains(c) by {
                        if tg.contains(c) {
                            assert(found.contains(c));
                        }
                    }
                    lemma_first_hit_nearest(
                        frontier@,
                        visited@,
                        done0,
                        done,
                        dist,
                        moves,
                        tg,
                        bl,
                        hd,
                        w,
                        h,
                        coord,
                        current.parent.movement,
                        level,
                    );
                }
            }
            hits.push(current.parent.movement);
            assert(found.len() + 1 == hits@.len() && !found.contains(coord) && rt.contains(coord)
                && leads_to_target(moves, tg, bl, hd, w, h, current.parent.movement)
                && hits@.last() == current.parent.movement && forall|k: int|
                0 <= k < hits@.len() - 1 ==> hits@[k] == old_hits[k]) by {
                assert(!found.contains(coord)) by {
                    if found.contains(coord) {
                        let k = choose|k: int| 0 <= k < found.len() && found[k] == coord;
                        assert(done0.contains(found[k]));
                    }
                }
                assert(rt.contains(coord)) by {
                    reveal(reachable_targets);
                    assert(reaches(step(hd, current.parent.movement), coord, bl, hd, w, h));
                }
                assert(leads_to_target(moves, tg, bl, hd, w, h, current.parent.movement));
            }
            proof {
                let f0 = found;
                found = found.push(coord);
                assert forall|i: int| 0 <= i < hits@.len() implies #[trigger] found_at(
                    moves,
                    tg,
                    bl,
                    hd,
                    w,
                    h,
                    hits@,
                    found,
                    i,
                ) by {
                    if i < hits@.len() - 1 {
                        assert(found_at(moves, tg, bl, hd, w, h, old_hits, f0, i));
                        assert(found.subrange(0, i) =~= f0.subrange(0, i));
                        assert(hits@[i] == old_hits[i] && found[i] == f0[i]);
                        let n = choose|n: int| #[trigger]
                            first_step_among(
                                moves,
                                tg,
                                f0.subrange(0, i).to_set(),
                                bl,
                                hd,
                                w,
                                h,
                                old_hits[i],
                                f0[i],
                                n,
                            );
                        assert(first_step_among(
                            moves,
                            tg,
                            found.subrange(0, i).to_set(),
                            bl,
                            hd,
                            w,
                            h,
                            hits@[i],
                            found[i],
                            n,
                        ));
                    } else {
                        assert(found.subrange(0, i) =~= f0);
                        assert(first_step_among(
                            moves,
                            tg,
                            found.subrange(0, i).to_set(),
                            bl,
                            hd,
                            w,
                            h,
                            hits@[i],
                            found[i],
                            level,
                        ));
                    }
                }
                assert forall|k: int| 0 <= k < found.len() implies rt.contains(#[trigger] found[k]) by {}
                assert forall|k: int| 0 <= k < found.len() implies done.contains(#[trigger] found[k]) by {}
                assert forall|k: int| 0 <= k < hits@.len() implies leads_to_target(
                    moves,
                    tg,
                    bl,
                    hd,
                    w,
                    h,
                    #[trigger] hits@[k],
                ) by {
                    if k < hits@.len() - 1 {
                        assert(hits@[k] == old_hits[k]);
                    }
                }
            }
            if hits.len() >= limit {
                proof {
                    vstd::set_lib::lemma_len_subset(found.to_set(), rt);
                    found.unique_seq_to_set();
                }
                break;
            }
        }
        proof {
            assert forall|c: Coord| #[trigger] done.contains(c) && tg.contains(c) implies found.contains(c) by {
                if c == coord {
                    assert(found[found.len() - 1] == coord);
                } else {
                    assert(done0.contains(c));
                    assert(found0.contains(c));
                    let k = choose|k: int| 0 <= k < found0.len() && found0[k] == c;
                    assert(found[k] == c);
                }
            }
        }
        let dist_after = expand_cell(
            width,
            height,
            blocked,
            set,
            head,
            &current,
            &mut frontier,
            &mut visited,
            Ghost(done),
            Ghost(dist),
            Ghost(level),
        );
        proof {
            dist = dist_after@;
            visited.lemma_view();
            assert forall|b: int|
                0 <= b < frontier@.len() implies dist[(#[trigger] frontier@[b]).node.coord]
                <= dist[frontier@[0].node.coord] + 1 by {
                assert(level <= dist[frontier@[0].node.coord]);
            }
        }
    }
    proof {
        if hits@.len() > 0 {
            assert(leads_to_target(moves, tg, bl, hd, w, h, hits@[0]));
        }
    }
    hits
}

} // verus!
