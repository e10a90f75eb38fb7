use vstd::prelude::*;

use crate::cell_grid::{all_cells, lemma_all_cells_finite, CellGrid};
use crate::fifo_queue::FifoQueue;
use crate::graph::{
    adjacent, get_adjacent_nodes, lemma_adjacent_is_step, lemma_step_is_adjacent, neighbours, step,
    LeafNode, Node,
};
use crate::movement_set::Movement;
use crate::request::{dims_ok, in_bounds, Coord};
use crate::walk::{
    explored, explored_except, is_walk, lemma_queued_after_pop, lemma_queued_after_push,
    lemma_reaches_extend, lemma_reaches_self, lemma_walk_done, passable, queued, reaches,
};

verus! {

/// The cells that some walk from `start` reaches, `start` included.
pub open spec fn region(start: Coord, blocked: Set<Coord>, head: Coord, width: int, height: int) -> Set<Coord> {
    Set::new(|c: Coord| reaches(start, c, blocked, head, width, height))
}

/// A blocked cell of the agent's own body, other than its head and `start`.
pub open spec fn own_segment(
    n: Coord,
    start: Coord,
    blocked: Set<Coord>,
    own: Set<Coord>,
    head: Coord,
    width: int,
    height: int,
) -> bool {
    in_bounds(n, width, height) && blocked.contains(n) && own.contains(n) && n != head && n != start
}

/// The segments of the agent's own body next to the region of `start`: they will
/// have moved on by the time the agent gets there.
pub open spec fn border(
    start: Coord,
    blocked: Set<Coord>,
    own: Set<Coord>,
    head: Coord,
    width: int,
    height: int,
) -> Set<Coord> {
    Set::new(
        |n: Coord|
            own_segment(n, start, blocked, own, head, width, height) && exists|c: Coord|
                #[trigger] adjacent(c, n) && reaches(start, c, blocked, head, width, height),
    )
}

/// The room behind `start`: its region, the head, and the border of the region.
pub open spec fn room(
    start: Coord,
    blocked: Set<Coord>,
    own: Set<Coord>,
    head: Coord,
    width: int,
    height: int,
) -> int {
    region(start, blocked, head, width, height).len() + 1 + border(
        start,
        blocked,
        own,
        head,
        width,
        height,
    ).len() as int
}

spec fn counted_set(
    done: Set<Coord>,
    start: Coord,
    blocked: Set<Coord>,
    own: Set<Coord>,
    head: Coord,
    width: int,
    height: int,
) -> Set<Coord> {
    Set::new(
        |n: Coord|
            own_segment(n, start, blocked, own, head, width, height) && exists|c: Coord|
                #[trigger] adjacent(c, n) && done.contains(c),
    )
}

/// Both the region and the border of a start cell lie on the board.
pub proof fn lemma_room_finite(
    start: Coord,
    blocked: Set<Coord>,
    own: Set<Coord>,
    head: Coord,
    width: int,
    height: int,
)
    requires
        dims_ok(width, height),
        in_bounds(start, width, height),
    ensures
        region(start, blocked, head, width, height).finite(),
        border(start, blocked, own, head, width, height).finite(),
        region(start, blocked, head, width, height).subset_of(all_cells(width, height)),
        border(start, blocked, own, head, width, height).subset_of(all_cells(width, height)),
{
    lemma_all_cells_finite(width, height);
    let r = region(start, blocked, head, width, height);
    assert forall|c: Coord| #[trigger] r.contains(c) implies in_bounds(c, width, height) by {
        let p = choose|p: Seq<Coord>| #[trigger]
            is_walk(p, blocked, head, width, height) && p[0] == start && p.last() == c;
        if p.len() > 1 {
            assert(passable(p[p.len() - 1], blocked, head, width, height));
        }
    }
    vstd::set_lib::lemma_len_subset(r, all_cells(width, height));
    vstd::set_lib::lemma_len_subset(
        border(start, blocked, own, head, width, height),
        all_cells(width, height),
    );
}

proof fn lemma_counts_within_room(
    visited: Set<Coord>,
    counted: Set<Coord>,
    done: Set<Coord>,
    st: Coord,
    bl: Set<Coord>,
    ow: Set<Coord>,
    hd: Coord,
    w: int,
    h: int,
)
    requires
        visited.finite(),
        counted.finite(),
        visited.contains(hd),
        region(st, bl, hd, w, h).finite(),
        border(st, bl, ow, hd, w, h).finite(),
        forall|c: Coord| #[trigger] visited.contains(c) ==> c == hd || reaches(st, c, bl, hd, w, h),
        forall|c: Coord| #[trigger] done.contains(c) ==> visited.contains(c) && c != hd,
        counted == counted_set(done, st, bl, ow, hd, w, h),
    ensures
        visited.len() + counted.len() <= room(st, bl, ow, hd, w, h),
{
    assert(visited.remove(hd).subset_of(region(st, bl, hd, w, h)));
    vstd::set_lib::lemma_len_subset(visited.remove(hd), region(st, bl, hd, w, h));
    assert forall|n: Coord| #[trigger] counted.contains(n) implies border(
        st,
        bl,
        ow,
        hd,
        w,
        h,
    ).contains(n) by {
        let c = choose|c: Coord| #[trigger] adjacent(c, n) && done.contains(c);
        assert(visited.contains(c));
    }
    vstd::set_lib::lemma_len_subset(counted, border(st, bl, ow, hd, w, h));
}

proof fn lemma_counts_fill_room(
    visited: Set<Coord>,
    counted: Set<Coord>,
    done: Set<Coord>,
    st: Coord,
    bl: Set<Coord>,
    ow: Set<Coord>,
    hd: Coord,
    w: int,
    h: int,
)
    requires
        visited.finite(),
        visited.contains(st),
        st != hd,
        explored(Seq::empty(), visited, done, bl, hd, w, h),
        forall|c: Coord| #[trigger] visited.contains(c) ==> c == hd || reaches(st, c, bl, hd, w, h),
        counted == counted_set(done, st, bl, ow, hd, w, h),
    ensures
        visited.len() + counted.len() == room(st, bl, ow, hd, w, h),
{
    let rg = region(st, bl, hd, w, h);
    assert forall|c: Coord| #[trigger] rg.contains(c) implies done.contains(c) by {
        let p = choose|p: Seq<Coord>| #[trigger]
            is_walk(p, bl, hd, w, h) && p[0] == st && p.last() == c;
        lemma_walk_done(p, visited, done, bl, hd, w, h);
    }
    assert forall|c: Coord| #[trigger] visited.contains(c) implies c == hd || done.contains(c) by {
        assert(!queued(Seq::empty(), c));
    }
    assert(rg =~= done);
    vstd::set_lib::lemma_len_subset(done, visited);
    assert(!done.contains(hd));
    assert(visited =~= done.insert(hd));
    assert(counted =~= border(st, bl, ow, hd, w, h));
}

proof fn lemma_expanded(
    q: Seq<LeafNode>,
    next: Seq<Node>,
    coord: Coord,
    visited: Set<Coord>,
    counted: Set<Coord>,
    done0: Set<Coord>,
    done: Set<Coord>,
    st: Coord,
    bl: Set<Coord>,
    ow: Set<Coord>,
    hd: Coord,
    w: int,
    h: int,
)
    requires
        dims_ok(w, h),
        in_bounds(coord, w, h),
        next == neighbours(coord),
        explored_except(q, visited, done, bl, hd, w, h, coord),
        forall|t: int|
            0 <= t < 4 ==> (passable(#[trigger] next[t].coord, bl, hd, w, h) ==> visited.contains(
                next[t].coord,
            )),
        counted == Set::new(
            |n: Coord|
                own_segment(n, st, bl, ow, hd, w, h) && ((exists|c: Coord|
                    #[trigger] adjacent(c, n) && done0.contains(c)) || exists|t: int|
                    0 <= t < 4 && #[trigger] next[t].coord == n),
        ),
        done == done0.insert(coord),
    ensures
        explored(q, visited, done, bl, hd, w, h),
        counted == counted_set(done, st, bl, ow, hd, w, h),
{
    assert forall|n: Coord| #[trigger]
        adjacent(coord, n) && passable(n, bl, hd, w, h) implies visited.contains(n) by {
        lemma_adjacent_is_step(coord, n);
        if n == step(coord, Movement::Up) {
            assert(next[0].coord == n);
        } else if n == step(coord, Movement::Down) {
            assert(next[1].coord == n);
        } else if n == step(coord, Movement::Left) {
            assert(next[2].coord == n);
        } else {
            assert(next[3].coord == n);
        }
    }
    let target = counted_set(done, st, bl, ow, hd, w, h);
    assert forall|x: Coord| #[trigger] target.contains(x) == counted.contains(x) by {
        if target.contains(x) {
            let e = choose|e: Coord| #[trigger] adjacent(e, x) && done.contains(e);
            if e == coord {
                lemma_adjacent_is_step(coord, x);
                if x == step(coord, Movement::Up) {
                    assert(next[0].coord == x);
                } else if x == step(coord, Movement::Down) {
                    assert(next[1].coord == x);
                } else if x == step(coord, Movement::Left) {
                    assert(next[2].coord == x);
                } else {
                    assert(next[3].coord == x);
                }
            }
        }
        if counted.contains(x) {
            if exists|t: int| 0 <= t < 4 && #[trigger] next[t].coord == x {
                let t = choose|t: int| 0 <= t < 4 && #[trigger] next[t].coord == x;
                lemma_step_is_adjacent(coord, next[t].movement);
                assert(adjacent(coord, x));
            }
        }
    }
    assert(counted =~= target);
}

/// Flood fill from `first.coord`, the cell next to `head`: whether the room
/// behind it holds at least `required` cells. Stops as soon as it has counted
/// that many.
#[verifier::rlimit(100)]
#[verifier::spinoff_prover]
pub fn enough_space(
    width: u32,
    height: u32,
    blocked: &CellGrid,
    own: &CellGrid,
    head: &Coord,
    first: &Node,
    required: usize,
) -> (r: bool)
    requires
        blocked.wf(),
        blocked.width() == width,
        blocked.height() == height,
        own.wf(),
        in_bounds(*head, width as int, height as int),
        in_bounds(first.coord, width as int, height as int),
        first.coord != *head,
    ensures
        r == (room(first.coord, blocked@, own@, *head, width as int, height as int) >= required),
{
    let ghost w = width as int;
    let ghost h = height as int;
    let ghost bl = blocked@;
    let ghost ow = own@;
    let ghost hd = *head;
    let ghost st = first.coord;
    proof {
        blocked.lemma_view();
        lemma_all_cells_finite(w, h);
        lemma_room_finite(st, bl, ow, hd, w, h);
        lemma_reaches_self(st, bl, hd, w, h);
    }
    let mut frontier = FifoQueue::<LeafNode>::new();
    let mut visited = CellGrid::new(width, height);
    let mut counted = CellGrid::new(width, height);
    visited.insert(head);
    visited.insert(&first.coord);
    let leaf = LeafNode { node: *first, parent: *first };
    frontier.enqueue(leaf);
    let mut visited_count: usize = 2;
    let mut counted_count: usize = 0;
    let ghost mut done: Set<Coord> = Set::empty();
    proof {
        assert(visited@ =~= Set::empty().insert(hd).insert(st));
        assert(frontier@[0] == leaf);
        assert(counted@ =~= counted_set(done, st, bl, ow, hd, w, h));
        assert forall|x: Coord| #[trigger] visited@.contains(x) implies x == hd
            || done.contains(x) || queued(frontier@, x) by {
            if x == st {
                assert(frontier@[0].node.coord == st);
            }
        }
    }
    loop
        invariant
            hd == *head,
            st == first.coord,
            dims_ok(w, h),
            w == width,
            h == height,
            in_bounds(hd, w, h),
            in_bounds(st, w, h),
            st != hd,
            bl == blocked@,
            ow == own@,
            blocked.wf(),
            own.wf(),
            blocked.width() == w,
            blocked.height() == h,
            all_cells(w, h).finite(),
            all_cells(w, h).len() == w * h,
            region(st, bl, hd, w, h).finite(),
            border(st, bl, ow, hd, w, h).finite(),
            region(st, bl, hd, w, h).subset_of(all_cells(w, h)),
            border(st, bl, ow, hd, w, h).subset_of(all_cells(w, h)),
            visited.wf(),
            visited.width() == w,
            visited.height() == h,
            counted.wf(),
            counted.width() == w,
            counted.height() == h,
            visited_count == visited@.len(),
            counted_count == counted@.len(),
            visited@.contains(st),
            explored(frontier@, visited@, done, bl, hd, w, h),
            forall|c: Coord| #[trigger]
                visited@.contains(c) ==> c == hd || reaches(st, c, bl, hd, w, h),
            forall|c: Coord| #[trigger]
                visited@.contains(c) ==> c == hd || c == st || !bl.contains(c),
            forall|k: int|
                0 <= k < frontier@.len() ==> in_bounds((#[trigger] frontier@[k]).node.coord, w, h)
                    && frontier@[k].node.coord != hd && visited@.contains(frontier@[k].node.coord),
            counted@ == counted_set(done, st, bl, ow, hd, w, h),
        decreases frontier@.len() + 2 * (all_cells(w, h).len() - visited@.len()),
    {
        proof {
            visited.lemma_view();
            counted.lemma_view();
            lemma_counts_within_room(visited@, counted@, done, st, bl, ow, hd, w, h);
        }
        if visited_count >= required || counted_count >= required - visited_count {
            return true;
        }
        let ghost q0 = frontier@;
        let ghost v0 = visited@.len();
        let current = match frontier.dequeue() {
            Some(x) => x,
            None => {
                proof {
                    assert(frontier@ =~= Seq::<LeafNode>::empty());
                    lemma_counts_fill_room(visited@, counted@, done, st, bl, ow, hd, w, h);
                }
                return false;
            },
        };
        let coord = current.node.coord;
        assert(current == q0[0]);
        let ghost done0 = done;
        proof {
            done = done.insert(coord);
            assert forall|x: Coord| #[trigger] visited@.contains(x) implies x == hd
                || done.contains(x) || queued(frontier@, x) by {
                if x != hd && x != coord && !done.contains(x) {
                    lemma_queued_after_pop(q0, x);
                }
            }
            assert forall|k: int| 0 <= k < frontier@.len() implies (#[trigger] frontier@[k]) == q0[k + 1] by {}
            assert(explored_except(frontier@, visited@, done, bl, hd, w, h, coord));
        }
        let next = get_adjacent_nodes(&coord);
        let mut k: usize = 0;
        while k < 4
            invariant
                0 <= k <= 4,
                next@ == neighbours(coord),
                coord == current.node.coord,
                done.contains(coord),
                visited@.contains(coord),
                coord == hd || reaches(st, coord, bl, hd, w, h),
                coord != hd,
                hd == *head,
                st == first.coord,
                dims_ok(w, h),
                w == width,
                h == height,
                in_bounds(hd, w, h),
                in_bounds(st, w, h),
                in_bounds(coord, w, h),
                st != hd,
                bl == blocked@,
                ow == own@,
                blocked.wf(),
                own.wf(),
                blocked.width() == w,
                blocked.height() == h,
                all_cells(w, h).finite(),
                all_cells(w, h).len() == w * h,
                visited.wf(),
                visited.width() == w,
                visited.height() == h,
                counted.wf(),
                counted.width() == w,
                counted.height() == h,
                visited_count == visited@.len(),
                counted_count == counted@.len(),
                visited@.contains(st),
                visited@.len() >= v0,
                frontier@.len() <= q0.len() - 1 + (visited@.len() - v0),
                explored_except(frontier@, visited@, done, bl, hd, w, h, coord),
                forall|c: Coord| #[trigger]
                    visited@.contains(c) ==> c == hd || reaches(st, c, bl, hd, w, h),
                forall|c: Coord| #[trigger]
                    visited@.contains(c) ==> c == hd || c == st || !bl.contains(c),
                forall|j: int|
                    0 <= j < frontier@.len() ==> in_bounds((#[trigger] frontier@[j]).node.coord, w, h)
                        && frontier@[j].node.coord != hd && visited@.contains(frontier@[j].node.coord),
                forall|t: int|
                    0 <= t < k ==> (passable(#[trigger] next@[t].coord, bl, hd, w, h)
                        ==> visited@.contains(next@[t].coord)),
                done == done0.insert(coord),
                counted@ == Set::new(
                    |n: Coord|
                        own_segment(n, st, bl, ow, hd, w, h) && ((exists|c: Coord|
                            #[trigger] adjacent(c, n) && done0.contains(c)) || exists|t: int|
                            0 <= t < k && #[trigger] next@[t].coord == n),
                ),
            decreases 4 - k,
        {
            let n = next[k];
            let c = n.coord;
            proof {
                lemma_step_is_adjacent(coord, n.movement);
                visited.lemma_view();
                counted.lemma_view();
            }
            let ghost counted0 = counted@;
            if c.x >= 0 && (c.x as i64) < (width as i64) && c.y >= 0 && (c.y as i64) < (height as i64)
                && !visited.contains(&c) {
                if !blocked.contains(&c) {
                    let ghost q1 = frontier@;
                    let leaf = LeafNode { node: n, parent: current.parent };
                    frontier.enqueue(leaf);
                    visited.insert(&c);
                    proof {
                        visited.lemma_view();
                        assert(visited@.len() <= w * h);
                    }
                    visited_count += 1;
                    proof {
                        lemma_reaches_extend(st, coord, c, bl, hd, w, h);
                        assert forall|j: int| 0 <= j < frontier@.len() implies in_bounds(
                            (#[trigger] frontier@[j]).node.coord,
                            w,
                            h,
                        ) && frontier@[j].node.coord != hd && visited@.contains(frontier@[j].node.coord) by {
                            if j < q1.len() {
                                assert(frontier@[j] == q1[j]);
                            } else {
                                assert(frontier@[j] == leaf);
                            }
                        }
                        assert forall|x: Coord| #[trigger] visited@.contains(x) implies x == hd
                            || done.contains(x) || queued(frontier@, x) by {
                            if x != hd && !done.contains(x) {
                                lemma_queued_after_push(q1, leaf, x);
                            }
                        }
                    }
                } else if own.contains(&c) && !counted.contains(&c) {
                    counted.insert(&c);
                    proof {
                        counted.lemma_view();
                        assert(counted@.len() <= w * h);
                    }
                    counted_count += 1;
                }
            }
            proof {
                let target = Set::new(
                    |x: Coord|
                        own_segment(x, st, bl, ow, hd, w, h) && ((exists|e: Coord|
                            #[trigger] adjacent(e, x) && done0.contains(e)) || exists|t: int|
                            0 <= t < k + 1 && #[trigger] next@[t].coord == x),
                );
                assert forall|x: Coord| #[trigger] target.contains(x) == counted@.contains(x) by {
                    if exists|t: int| 0 <= t < k + 1 && #[trigger] next@[t].coord == x {
                        let t = choose|t: int| 0 <= t < k + 1 && #[trigger] next@[t].coord == x;
                        if t < k {
                            assert(counted0.contains(x) == own_segment(x, st, bl, ow, hd, w, h));
                        }
                    }
                    if counted0.contains(x) && own_segment(x, st, bl, ow, hd, w, h) {
                        if !(exists|e: Coord| #[trigger] adjacent(e, x) && done0.contains(e)) {
                            let t = choose|t: int| 0 <= t < k && #[trigger] next@[t].coord == x;
                            assert(next@[t].coord == x);
                        }
                    }
                }
                assert(counted@ =~= target);
            }
            k += 1;
        }
        proof {
            lemma_expanded(frontier@, next@, coord, visited@, counted@, done0, done, st, bl, ow, hd, w, h);
            visited.lemma_view();
        }
    }
}

} // verus!
