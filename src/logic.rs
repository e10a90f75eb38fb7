use vstd::prelude::*;

use crate::graph::{
    adjacent, get_adjacent_nodes, interior, lemma_adjacent_is_step, lemma_step_is_adjacent,
    neighbours, step,
};
use crate::cell_grid::CellGrid;
use crate::movement_set::{rank, saturate, Movement, WeightedMovementSet};
use crate::request::{dims_ok, in_bounds, occupied, Battlesnake, Board, Coord};
use crate::flood_fill::{enough_space, room};
use crate::search::{
    first_step_among, first_steps_to_targets, found_at, found_in_order, leads_to_target,
    lemma_first_step_unique, lemma_reachable_targets_finite, lemma_second_step_unique,
    lowest_first_step, reachable_targets, walk_in,
};
use crate::walk::{is_walk, open_start};

verus! {

/// Some two segments of the body share a cell: the agent has just eaten and its
/// tail stays where it is on the next move.
pub open spec fn stacked(body: Seq<Coord>) -> bool {
    exists|i: int, j: int| #![trigger body[i], body[j]] 0 <= i < j < body.len() && body[i] == body[j]
}

/// Moving an agent's head into the cell is fatal: the cell holds a segment of
/// some agent other than a tail that moves away, or the tail of an agent that
/// has just eaten.
pub open spec fn collides(snakes: Seq<Battlesnake>, c: Coord) -> bool {
    exists|i: int|
        0 <= i < snakes.len() && #[trigger] body_collides(snakes[i].body@, c)
}

/// The cell holds a segment of this body that stays put on the next move.
pub open spec fn body_collides(body: Seq<Coord>, c: Coord) -> bool {
    ||| exists|j: int| 0 <= j < body.len() - 1 && body[j] == c
    ||| stacked(body) && body.len() > 0 && body.last() == c
}

/// The moves from `head` that stay on a board of the given size.
pub open spec fn moves_on_board(head: Coord, width: int, height: int) -> Set<Movement> {
    Set::new(|m: Movement| in_bounds(step(head, m), width, height))
}

/// The moves from `head` into a cell that no body makes fatal.
pub open spec fn moves_clear_of_bodies(snakes: Seq<Battlesnake>, head: Coord) -> Set<Movement> {
    Set::new(|m: Movement| !collides(snakes, step(head, m)))
}

/// How many entries of `cells` are `c`.
pub open spec fn count_of(cells: Seq<Coord>, c: Coord) -> int
    decreases cells.len(),
{
    if cells.len() == 0 {
        0
    } else {
        count_of(cells.drop_last(), c) + if cells.last() == c {
            1int
        } else {
            0int
        }
    }
}

/// The score change that an agent's head brings to a cell next to it: a loss is
/// likely against an agent at least as long, a win against a shorter one.
pub open spec fn head_delta(you: Battlesnake, other: Battlesnake, c: Coord) -> int {
    if other.id@ != you.id@ && adjacent(c, other.head) {
        if you.length < other.length {
            -60
        } else if you.length == other.length {
            -50
        } else {
            30
        }
    } else {
        0
    }
}

/// A score after the changes that the heads of `snakes`, taken in order, bring to
/// the cell `c`.
pub open spec fn after_heads(score: int, snakes: Seq<Battlesnake>, you: Battlesnake, c: Coord) -> int
    decreases snakes.len(),
{
    if snakes.len() == 0 {
        score
    } else {
        let prev = after_heads(score, snakes.drop_last(), you, c);
        let d = head_delta(you, snakes.last(), c);
        if d == 0 {
            prev
        } else {
            saturate(prev + d)
        }
    }
}

/// Whether two segments of the agent share a cell.
pub fn snake_is_stacked(snake: &Battlesnake) -> (r: bool)
    ensures
        r == stacked(snake.body@),
{
    let body = &snake.body;
    let n = body.len();
    let mut i: usize = 0;
    while i < n
        invariant
            body@ == snake.body@,
            n == body@.len(),
            i <= n,
            forall|a: int, b: int| 0 <= a < b < n && a < i ==> body@[a] != body@[b],
        decreases n - i,
    {
        let mut j: usize = i + 1;
        while j < n
            invariant
                body@ == snake.body@,
                n == body@.len(),
                i < j <= n,
                forall|a: int, b: int| 0 <= a < b < n && a < i ==> body@[a] != body@[b],
                forall|b: int| i < b < j ==> body@[i as int] != body@[b],
            decreases n - j,
        {
            if body[i] == body[j] {
                assert(0 <= i < j < n && body@[i as int] == body@[j as int]);

                return true;
            }
            j += 1;
        }
        i += 1;
    }
    false
}

/// Whether moving a head into `c` is fatal because of an agent's body.
fn cell_collides(snakes: &Vec<Battlesnake>, c: &Coord) -> (r: bool)
    ensures
        r == collides(snakes@, *c),
{
    let mut i: usize = 0;
    while i < snakes.len()
        invariant
            forall|k: int| 0 <= k < i ==> !body_collides(#[trigger] snakes@[k].body@, *c),
        decreases snakes.len() - i,
    {
        let body = &snakes[i].body;
        let last: usize = if body.len() == 0 {
            0
        } else {
            body.len() - 1
        };
        let mut j: usize = 0;
        while j < last
            invariant
                i < snakes@.len(),
                last == if body@.len() == 0 {
                    0
                } else {
                    body@.len() - 1
                },
                j <= last,
                body@ == snakes@[i as int].body@,
                forall|k: int| 0 <= k < j && k < body@.len() - 1 ==> body@[k] != *c,
            decreases body.len() - j,
        {
            if body[j] == *c {
                assert(body_collides(snakes@[i as int].body@, *c));
                return true;
            }
            j += 1;
        }
        if body.len() > 0 && snake_is_stacked(&snakes[i]) && body[body.len() - 1] == *c {
            assert(body_collides(snakes@[i as int].body@, *c));
            return true;
        }
        assert(!body_collides(snakes@[i as int].body@, *c));
        i += 1;
    }
    false
}

/// Rules out every move that leaves the board.
pub fn avoid_bounds(width: u32, height: u32, you: &Battlesnake, set: &mut WeightedMovementSet)
    requires
        interior(you.head),
    ensures
        final(set)@ == old(set)@.restrict(moves_on_board(you.head, width as int, height as int)),
{
    let adjacent_nodes = get_adjacent_nodes(&you.head);
    let ghost keep = moves_on_board(you.head, width as int, height as int);
    let mut i: usize = 0;
    while i < 4
        invariant
            adjacent_nodes@ == neighbours(you.head),
            keep == moves_on_board(you.head, width as int, height as int),
            0 <= i <= 4,
            set@ == old(set)@.restrict(
                Set::new(|m: Movement| rank(m) >= i || keep.contains(m)),
            ),
        decreases 4 - i,
    {
        let node = adjacent_nodes[i];
        let c = node.coord;
        assert(rank(node.movement) == i && c == step(you.head, node.movement));
        let out = (c.x as i64) < 0 || (c.x as i64) >= (width as i64) || (c.y as i64) < 0 || (
        c.y as i64) >= (height as i64);
        if out {
            set.remove(&node.movement);
        }
        proof {
            assert(out == !keep.contains(node.movement));
            assert forall|k: Movement| rank(k) == i implies k == node.movement by {}
        }
        assert(set@ =~= old(set)@.restrict(
            Set::new(|m: Movement| rank(m) >= i + 1 || keep.contains(m)),
        ));
        i += 1;
    }
    assert(set@ =~= old(set)@.restrict(keep));
}

/// Rules out every move into a cell that a body makes fatal.
pub fn avoid_snake_bodies(
    snakes: &Vec<Battlesnake>,
    you: &Battlesnake,
    set: &mut WeightedMovementSet,
)
    requires
        interior(you.head),
    ensures
        final(set)@ == old(set)@.restrict(moves_clear_of_bodies(snakes@, you.head)),
{
    let adjacent_nodes = get_adjacent_nodes(&you.head);
    let ghost keep = moves_clear_of_bodies(snakes@, you.head);
    let mut i: usize = 0;
    while i < 4
        invariant
            adjacent_nodes@ == neighbours(you.head),
            keep == moves_clear_of_bodies(snakes@, you.head),
            0 <= i <= 4,
            set@ == old(set)@.restrict(
                Set::new(|m: Movement| rank(m) >= i || keep.contains(m)),
            ),
        decreases 4 - i,
    {
        let node = adjacent_nodes[i];
        assert(rank(node.movement) == i && node.coord == step(you.head, node.movement));
        let out = cell_collides(snakes, &node.coord);
        if out {
            set.remove(&node.movement);
        }
        proof {
            assert(out == !keep.contains(node.movement));
            assert forall|k: Movement| rank(k) == i implies k == node.movement by {}
        }
        assert(set@ =~= old(set)@.restrict(
            Set::new(|m: Movement| rank(m) >= i + 1 || keep.contains(m)),
        ));
        i += 1;
    }
    assert(set@ =~= old(set)@.restrict(keep));
}

proof fn lemma_saturate_twice(a: int, x: int, d: int)
    requires
        isize::MIN <= a <= isize::MAX,
        x <= 0,
        d <= 0,
    ensures
        saturate(saturate(a + x) + d) == saturate(a + x + d),
{
}

proof fn lemma_count_nonneg(cells: Seq<Coord>, c: Coord)
    ensures
        count_of(cells, c) >= 0,
    decreases cells.len(),
{
    if cells.len() > 0 {
        lemma_count_nonneg(cells.drop_last(), c);
    }
}

proof fn lemma_count_step(cells: Seq<Coord>, j: int, c: Coord)
    requires
        0 <= j < cells.len(),
    ensures
        count_of(cells.subrange(0, j + 1), c) == count_of(cells.subrange(0, j), c) + if cells[j]
            == c {
            1int
        } else {
            0int
        },
{
    assert(cells.subrange(0, j + 1).drop_last() =~= cells.subrange(0, j));
}

proof fn lemma_heads_step(score: int, snakes: Seq<Battlesnake>, k: int, you: Battlesnake, c: Coord)
    requires
        0 <= k < snakes.len(),
    ensures
        after_heads(score, snakes.subrange(0, k + 1), you, c) == ({
            let prev = after_heads(score, snakes.subrange(0, k), you, c);
            let d = head_delta(you, snakes[k], c);
            if d == 0 {
                prev
            } else {
                saturate(prev + d)
            }
        }),
{
    assert(snakes.subrange(0, k + 1).drop_last() =~= snakes.subrange(0, k));
}

/// A cell is next to an interior cell exactly when it is one of its four steps.
proof fn lemma_adjacent_iff_step(h: Coord, c: Coord)
    requires
        interior(h),
    ensures
        adjacent(c, h) <==> (c == step(h, Movement::Up) || c == step(h, Movement::Down) || c
            == step(h, Movement::Left) || c == step(h, Movement::Right)),
{
    if adjacent(c, h) {
        lemma_adjacent_is_step(h, c);
    }
    lemma_step_is_adjacent(h, Movement::Up);
    lemma_step_is_adjacent(h, Movement::Down);
    lemma_step_is_adjacent(h, Movement::Left);
    lemma_step_is_adjacent(h, Movement::Right);
}

/// Penalises each move by 70 for every hazard entry on its target cell.
pub fn avoid_hazards(hazards: &Vec<Coord>, you: &Battlesnake, set: &mut WeightedMovementSet)
    requires
        interior(you.head),
    ensures
        final(set)@ == hazard_scores(hazards@, you.head, old(set)@),
{
    proof {
        set.lemma_scores_in_range();
    }
    if hazards.len() == 0 {
        assert(set@ =~= hazard_scores(hazards@, you.head, old(set)@));
        return ;
    }
    let adjacent_nodes = get_adjacent_nodes(&you.head);
    let mut i: usize = 0;
    while i < 4
        invariant
            adjacent_nodes@ == neighbours(you.head),
            0 <= i <= 4,
            set@.dom() == old(set)@.dom(),
            forall|m: Movement| #[trigger]
                old(set)@.contains_key(m) ==> isize::MIN <= old(set)@[m] <= isize::MAX,
            forall|m: Movement| #[trigger]
                old(set)@.contains_key(m) ==> set@[m] == if rank(m) < i {
                    saturate(old(set)@[m] - 70 * count_of(hazards@, step(you.head, m)))
                } else {
                    old(set)@[m]
                },
        decreases 4 - i,
    {
        let node = adjacent_nodes[i];
        assert(rank(node.movement) == i && node.coord == step(you.head, node.movement));
        let ghost m0 = node.movement;
        let mut j: usize = 0;
        while j < hazards.len()
            invariant
                adjacent_nodes@ == neighbours(you.head),
                0 <= i < 4,
                j <= hazards@.len(),
                node == adjacent_nodes@[i as int],
                m0 == node.movement,
                rank(m0) == i,
                node.coord == step(you.head, m0),
                set@.dom() == old(set)@.dom(),
                forall|m: Movement| #[trigger]
                    old(set)@.contains_key(m) ==> isize::MIN <= old(set)@[m] <= isize::MAX,
                forall|m: Movement| #[trigger]
                    old(set)@.contains_key(m) ==> set@[m] == if rank(m) < i {
                        saturate(old(set)@[m] - 70 * count_of(hazards@, step(you.head, m)))
                    } else if m == m0 {
                        saturate(
                            old(set)@[m] - 70 * count_of(hazards@.subrange(0, j as int), node.coord),
                        )
                    } else {
                        old(set)@[m]
                    },
            decreases hazards.len() - j,
        {
            let hazard = hazards[j];
            proof {
                lemma_count_step(hazards@, j as int, node.coord);
                lemma_count_nonneg(hazards@.subrange(0, j as int), node.coord);
                if old(set)@.contains_key(m0) {
                    lemma_saturate_twice(
                        old(set)@[m0],
                        -70 * count_of(hazards@.subrange(0, j as int), node.coord),
                        -70,
                    );
                }
            }
            if hazard.x == node.coord.x && hazard.y == node.coord.y {
                set.update_score(&node.movement, -70);
            }
            assert(set@.dom() =~= old(set)@.dom());
            j += 1;
        }
        assert(hazards@.subrange(0, hazards@.len() as int) =~= hazards@);
        i += 1;
    }
    assert(set@ =~= hazard_scores(hazards@, you.head, old(set)@));
}

/// Adjusts each move whose target cell is next to another agent's head: 60 off
/// against a longer agent, 50 off against one as long, 30 on against a shorter one.
pub fn handle_opponent_heads(
    snakes: &Vec<Battlesnake>,
    you: &Battlesnake,
    set: &mut WeightedMovementSet,
)
    requires
        interior(you.head),
        forall|k: int| 0 <= k < snakes@.len() ==> interior(#[trigger] snakes@[k].head),
    ensures
        final(set)@ == heads_scores(snakes@, *you, old(set)@),
{
    proof {
        set.lemma_scores_in_range();
    }
    let adjacent_nodes = get_adjacent_nodes(&you.head);
    let mut i: usize = 0;
    while i < 4
        invariant
            adjacent_nodes@ == neighbours(you.head),
            forall|k: int| 0 <= k < snakes@.len() ==> interior(#[trigger] snakes@[k].head),
            0 <= i <= 4,
            set@.dom() == old(set)@.dom(),
            forall|m: Movement| #[trigger]
                old(set)@.contains_key(m) ==> set@[m] == if rank(m) < i {
                    after_heads(old(set)@[m], snakes@, *you, step(you.head, m))
                } else {
                    old(set)@[m]
                },
        decreases 4 - i,
    {
        let node = adjacent_nodes[i];
        assert(rank(node.movement) == i && node.coord == step(you.head, node.movement));
        let ghost m0 = node.movement;
        let mut k: usize = 0;
        while k < snakes.len()
            invariant
                adjacent_nodes@ == neighbours(you.head),
                forall|k: int| 0 <= k < snakes@.len() ==> interior(#[trigger] snakes@[k].head),
                0 <= i < 4,
                k <= snakes@.len(),
                node == adjacent_nodes@[i as int],
                m0 == node.movement,
                rank(m0) == i,
                node.coord == step(you.head, m0),
                set@.dom() == old(set)@.dom(),
                forall|m: Movement| #[trigger]
                    old(set)@.contains_key(m) ==> set@[m] == if rank(m) < i {
                        after_heads(old(set)@[m], snakes@, *you, step(you.head, m))
                    } else if m == m0 {
                        after_heads(old(set)@[m], snakes@.subrange(0, k as int), *you, node.coord)
                    } else {
                        old(set)@[m]
                    },
            decreases snakes.len() - k,
        {
            let opponent = &snakes[k];
            proof {
                if old(set)@.contains_key(m0) {
                    lemma_heads_step(old(set)@[m0], snakes@, k as int, *you, node.coord);
                }
                lemma_adjacent_iff_step(opponent.head, node.coord);
            }
            if !(opponent.id == you.id) {
                let opponent_nodes = get_adjacent_nodes(&opponent.head);
                let mut touches = false;
                let mut t: usize = 0;
                while t < 4
                    invariant
                        opponent_nodes@ == neighbours(opponent.head),
                        0 <= t <= 4,
                        touches == exists|u: int|
                            0 <= u < t && #[trigger] opponent_nodes@[u].coord == node.coord,
                    decreases 4 - t,
                {
                    if opponent_nodes[t].coord == node.coord {
                        touches = true;
                    }
                    t += 1;
                }
                proof {
                    assert(touches ==> adjacent(node.coord, opponent.head)) by {
                        if touches {
                            let u = choose|u: int|
                                0 <= u < 4 && #[trigger] opponent_nodes@[u].coord == node.coord;
                            assert(opponent_nodes@[u] == neighbours(opponent.head)[u]);
                        }
                    }
                    assert(adjacent(node.coord, opponent.head) ==> touches) by {
                        if adjacent(node.coord, opponent.head) {
                            if node.coord == step(opponent.head, Movement::Up) {
                                assert(opponent_nodes@[0].coord == node.coord);
                            } else if node.coord == step(opponent.head, Movement::Down) {
                                assert(opponent_nodes@[1].coord == node.coord);
                            } else if node.coord == step(opponent.head, Movement::Left) {
                                assert(opponent_nodes@[2].coord == node.coord);
                            } else {
                                assert(opponent_nodes@[3].coord == node.coord);
                            }
                        }
                    }
                }
                if touches {
                    if you.length < opponent.length {
                        set.update_score(&node.movement, -60);
                    } else if you.length == opponent.length {
                        set.update_score(&node.movement, -50);
                    } else {
                        set.update_score(&node.movement, 30);
                    }
                }
            }
            assert(set@.dom() =~= old(set)@.dom());
            k += 1;
        }
        assert(snakes@.subrange(0, snakes@.len() as int) =~= snakes@);
        i += 1;
    }
    assert(set@ =~= heads_scores(snakes@, *you, old(set)@));
}

/// The cells of the board that hold a segment of some agent.
pub open spec fn snake_cells(snakes: Seq<Battlesnake>, width: int, height: int) -> Set<Coord> {
    Set::new(|c: Coord| in_bounds(c, width, height) && occupied(snakes, c))
}

/// The cells of the board that appear in `cells`.
pub open spec fn listed_cells(cells: Seq<Coord>, width: int, height: int) -> Set<Coord> {
    Set::new(|c: Coord| in_bounds(c, width, height) && cells.contains(c))
}

/// The scores with `delta` added to the score of `m`.
pub open spec fn bonus(s: Map<Movement, int>, m: Movement, delta: int) -> Map<Movement, int> {
    if s.contains_key(m) {
        s.insert(m, saturate(s[m] + delta))
    } else {
        s
    }
}

/// The scores after the hazard penalties: 70 for each hazard entry on the target cell.
pub open spec fn hazard_scores(hazards: Seq<Coord>, head: Coord, s: Map<Movement, int>) -> Map<Movement, int> {
    Map::new(
        |m: Movement| s.contains_key(m),
        |m: Movement| saturate(s[m] - 70 * count_of(hazards, step(head, m))),
    )
}

/// The scores after the changes that the heads of other agents bring.
pub open spec fn heads_scores(snakes: Seq<Battlesnake>, you: Battlesnake, s: Map<Movement, int>) -> Map<Movement, int> {
    Map::new(
        |m: Movement| s.contains_key(m),
        |m: Movement| after_heads(s[m], snakes, you, step(you.head, m)),
    )
}

/// The scores after the penalty for moves into a space too small for the agent.
pub open spec fn space_scores(board: Board, you: Battlesnake, s: Map<Movement, int>) -> Map<Movement, int> {
    Map::new(
        |m: Movement| s.contains_key(m),
        |m: Movement| if too_small(board, you, m) {
            saturate(s[m] - 70)
        } else {
            s[m]
        },
    )
}

/// The first step `a` of the food search, and `b`, the first step towards the
/// next piece found, if any: `a` is the earliest ranked (up, down, left, right)
/// first step of a shortest walk to a nearest food cell `t1`; `b` is there exactly
/// when a second food cell can be reached, and is the earliest ranked first step
/// of a shortest walk to a nearest food cell other than `t1`.
pub open spec fn food_choice(
    s: Map<Movement, int>,
    tg: Set<Coord>,
    bl: Set<Coord>,
    head: Coord,
    w: int,
    h: int,
    a: Movement,
    b: Option<Movement>,
) -> bool {
    exists|t1: Coord, n1: int| #[trigger]
        first_step_among(s, tg, Set::empty(), bl, head, w, h, a, t1, n1) && (b is Some
            <==> reachable_targets(s, tg, bl, head, w, h).len() >= 2) && (b is Some ==> exists|
            t2: Coord,
            n2: int,
        | #[trigger]
            first_step_among(s, tg, Set::empty().insert(t1), bl, head, w, h, b->Some_0, t2, n2))
}

/// What the food search turns the scores `s` into, `f`: nothing changes when no
/// food can be reached; otherwise the first step found gains 20 and the next
/// one, if any, gains 10 (see `food_choice`).
pub open spec fn food_step(board: Board, you: Battlesnake, s: Map<Movement, int>, f: Map<Movement, int>) -> bool {
    let w = board.width as int;
    let h = board.height as int;
    let tg = listed_cells(board.food@, w, h);
    let bl = snake_cells(board.snakes@, w, h);
    &&& (forall|m: Movement| !#[trigger] leads_to_target(s, tg, bl, you.head, w, h, m)) ==> f == s
    &&& (exists|m: Movement| #[trigger] leads_to_target(s, tg, bl, you.head, w, h, m))
        ==> exists|a: Movement, b: Option<Movement>|
        food_choice(s, tg, bl, you.head, w, h, a, b) && f == #[trigger] food_bonuses(s, a, b)
}

/// What the search for the agent's own tail turns the scores `s` into, `f`:
/// nothing changes when the tail cannot be reached; otherwise the earliest ranked
/// (up, down, left, right) first step of a shortest walk to it gains 20.
pub open spec fn tail_step(board: Board, you: Battlesnake, s: Map<Movement, int>, f: Map<Movement, int>) -> bool {
    let w = board.width as int;
    let h = board.height as int;
    let tg = tail_cells(you.body@, w, h);
    let bl = snake_cells(board.snakes@, w, h).remove(you.body@.last());
    &&& (forall|m: Movement| !#[trigger] leads_to_target(s, tg, bl, you.head, w, h, m)) ==> f == s
    &&& (exists|m: Movement| #[trigger] leads_to_target(s, tg, bl, you.head, w, h, m))
        ==> exists|a: Movement, t: Coord, n: int| #[trigger]
        first_step_among(s, tg, Set::empty(), bl, you.head, w, h, a, t, n) && f == bonus(s, a, 20)
}

/// Every board cell that holds a segment of some agent.
pub fn get_all_snake_coords(snakes: &Vec<Battlesnake>, width: u32, height: u32) -> (r: CellGrid)
    requires
        dims_ok(width as int, height as int),
    ensures
        r.wf(),
        r.width() == width,
        r.height() == height,
        r@ == snake_cells(snakes@, width as int, height as int),
{
    let mut coords = CellGrid::new(width, height);
    let mut i: usize = 0;
    while i < snakes.len()
        invariant
            coords.wf(),
            coords.width() == width,
            coords.height() == height,
            i <= snakes@.len(),
            coords@ == Set::new(
                |c: Coord|
                    in_bounds(c, width as int, height as int) && exists|a: int, b: int|
                        0 <= a < i && 0 <= b < snakes@[a].body@.len() && #[trigger] snakes@[a].body@[b]
                            == c,
            ),
        decreases snakes.len() - i,
    {
        let body = &snakes[i].body;
        let mut j: usize = 0;
        while j < body.len()
            invariant
                coords.wf(),
                coords.width() == width,
                coords.height() == height,
                i < snakes@.len(),
                j <= body@.len(),
                body@ == snakes@[i as int].body@,
                coords@ == Set::new(
                    |c: Coord|
                        in_bounds(c, width as int, height as int) && ((exists|a: int, b: int|
                            0 <= a < i && 0 <= b < snakes@[a].body@.len() && #[trigger] snakes@[a].body@[b]
                                == c) || exists|b: int| 0 <= b < j && body@[b] == c),
                ),
            decreases body.len() - j,
        {
            let ghost before = coords@;
            coords.insert(&body[j]);
            proof {
                let target = Set::new(
                    |c: Coord|
                        in_bounds(c, width as int, height as int) && ((exists|a: int, b: int|
                            0 <= a < i && 0 <= b < snakes@[a].body@.len() && #[trigger] snakes@[a].body@[b]
                                == c) || exists|b: int| 0 <= b < j + 1 && body@[b] == c),
                );
                assert forall|c: Coord| #[trigger] target.contains(c) == coords@.contains(c) by {
                    if c == body@[j as int] {
                    } else if exists|b: int| 0 <= b < j + 1 && body@[b] == c {
                        let b = choose|b: int| 0 <= b < j + 1 && body@[b] == c;
                        assert(0 <= b < j && body@[b] == c);
                    }
                }
                assert(coords@ =~= target);
            }
            j += 1;
        }
        proof {
            let target = Set::new(
                |c: Coord|
                    in_bounds(c, width as int, height as int) && exists|a: int, b: int|
                        0 <= a < i + 1 && 0 <= b < snakes@[a].body@.len() && #[trigger] snakes@[a].body@[b]
                            == c,
            );
            assert forall|c: Coord| #[trigger] target.contains(c) == coords@.contains(c) by {
                if exists|b: int| 0 <= b < j && body@[b] == c {
                    let b = choose|b: int| 0 <= b < j && body@[b] == c;
                    assert(snakes@[i as int].body@[b] == c);
                }
                if target.contains(c) {
                    let (a, b) = choose|a: int, b: int|
                        0 <= a < i + 1 && 0 <= b < snakes@[a].body@.len() && #[trigger] snakes@[a].body@[b]
                            == c;
                    if a == i {
                        assert(body@[b] == c);
                    }
                }
            }
            assert(coords@ =~= target);
        }
        i += 1;
    }
    proof {
        assert forall|c: Coord| #[trigger] coords@.contains(c) == snake_cells(snakes@, width as int, height as int).contains(c) by {
            if occupied(snakes@, c) {
                let (a, b) = choose|a: int, b: int|
                    0 <= a < snakes@.len() && 0 <= b < snakes@[a].body@.len() && #[trigger] snakes@[a].body@[b] == c;
                assert(snakes@[a].body@[b] == c);
            }
        }
        assert(coords@ =~= snake_cells(snakes@, width as int, height as int));
    }
    coords
}

fn grid_of(cells_listed: &Vec<Coord>, width: u32, height: u32) -> (r: CellGrid)
    requires
        dims_ok(width as int, height as int),
    ensures
        r.wf(),
        r.width() == width,
        r.height() == height,
        r@ == listed_cells(cells_listed@, width as int, height as int),
{
    let mut cells = CellGrid::new(width, height);
    let mut i: usize = 0;
    while i < cells_listed.len()
        invariant
            cells.wf(),
            cells.width() == width,
            cells.height() == height,
            i <= cells_listed@.len(),
            cells@ == listed_cells(cells_listed@.subrange(0, i as int), width as int, height as int),
        decreases cells_listed.len() - i,
    {
        cells.insert(&cells_listed[i]);
        proof {
            let s0 = cells_listed@.subrange(0, i as int);
            let s1 = cells_listed@.subrange(0, i + 1);
            assert forall|c: Coord| s1.contains(c) == (s0.contains(c) || c == cells_listed@[i as int]) by {
                if s1.contains(c) {
                    let k = choose|k: int| 0 <= k < s1.len() && s1[k] == c;
                    if k < i {
                        assert(s0[k] == c);
                    }
                }
                if s0.contains(c) {
                    let k = choose|k: int| 0 <= k < s0.len() && s0[k] == c;
                    assert(s1[k] == c);
                }
                if c == cells_listed@[i as int] {
                    assert(s1[i as int] == c);
                }
            }
            assert(cells@ =~= listed_cells(s1, width as int, height as int));
        }
        i += 1;
    }
    assert(cells_listed@.subrange(0, cells_listed@.len() as int) =~= cells_listed@);
    cells
}

/// The bonus for the first step towards the nearest food.
pub const FOOD_BONUS: isize = 20;

/// The bonus for the first step towards the next food found.
pub const NEXT_FOOD_BONUS: isize = 10;

/// The bonus for the first step of a path to the agent's own tail.
pub const TAIL_BONUS: isize = 20;

/// The cell of the agent's tail, as a set of at most one board cell.
pub open spec fn tail_cells(body: Seq<Coord>, width: int, height: int) -> Set<Coord> {
    Set::new(|c: Coord| in_bounds(c, width, height) && c == body.last())
}

/// The scores after the bonus for the first food found, through `first`, and
/// for the next one, through `second`, if any.
pub open spec fn food_bonuses(s: Map<Movement, int>, first: Movement, second: Option<Movement>) -> Map<Movement, int> {
    match second {
        Some(m) => bonus(bonus(s, first, 20), m, 10),
        None => bonus(s, first, 20),
    }
}

/// Searches breadth-first for food and rewards the first steps of the paths to
/// the first two pieces found.
pub fn scan_food(board: &Board, you: &Battlesnake, set: &mut WeightedMovementSet)
    requires
        dims_ok(board.width as int, board.height as int),
        in_bounds(you.head, board.width as int, board.height as int),
    ensures
        food_step(*board, *you, old(set)@, final(set)@),
{
    let ghost w = board.width as int;
    let ghost h = board.height as int;
    if board.food.len() == 0 {
        proof {
            assert forall|m: Movement| !#[trigger] leads_to_target(
                old(set)@,
                listed_cells(board.food@, w, h),
                snake_cells(board.snakes@, w, h),
                you.head,
                w,
                h,
                m,
            ) by {}
        }
        return ;
    }
    let snake_coords = get_all_snake_coords(&board.snakes, board.width, board.height);
    let food = grid_of(&board.food, board.width, board.height);
    let found = first_steps_to_targets(
        board.width,
        board.height,
        &snake_coords,
        &food,
        &you.head,
        set,
        2,
    );
    let ghost s0 = set@;
    let ghost cells = choose|cells: Seq<Coord>| #[trigger]
        found_in_order(s0, food@, snake_coords@, you.head, w, h, found@, cells);
    if found.len() > 0 {
        let ghost n1 = choose|n: int| #[trigger]
            first_step_among(
                s0,
                food@,
                cells.subrange(0, 0).to_set(),
                snake_coords@,
                you.head,
                w,
                h,
                found@[0],
                cells[0],
                n,
            );
        proof {
            assert(found_at(s0, food@, snake_coords@, you.head, w, h, found@, cells, 0));
            assert(cells.subrange(0, 0).to_set() =~= Set::<Coord>::empty());
            assert(first_step_among(s0, food@, Set::empty(), snake_coords@, you.head, w, h, found@[0], cells[0], n1));
        }
        set.update_score(&found[0], FOOD_BONUS);
        if found.len() > 1 {
            set.update_score(&found[1], NEXT_FOOD_BONUS);
            proof {
                let b = Some(found@[1]);
                assert(found_at(s0, food@, snake_coords@, you.head, w, h, found@, cells, 1));
                assert forall|x: Coord| #[trigger] cells.subrange(0, 1).to_set().contains(x) == (x
                    == cells[0]) by {
                    if x == cells[0] {
                        assert(cells.subrange(0, 1)[0] == x);
                    }
                }
                assert(cells.subrange(0, 1).to_set() =~= Set::<Coord>::empty().insert(cells[0]));
                let n2 = choose|n: int| #[trigger]
                    first_step_among(
                        s0,
                        food@,
                        cells.subrange(0, 1).to_set(),
                        snake_coords@,
                        you.head,
                        w,
                        h,
                        found@[1],
                        cells[1],
                        n,
                    );
                assert(first_step_among(
                    s0,
                    food@,
                    Set::empty().insert(cells[0]),
                    snake_coords@,
                    you.head,
                    w,
                    h,
                    found@[1],
                    cells[1],
                    n2,
                ));
                assert(reachable_targets(s0, food@, snake_coords@, you.head, w, h).len() >= 2);
                assert(first_step_among(s0, food@, Set::empty(), snake_coords@, you.head, w, h, found@[0], cells[0], n1));
                assert(b->Some_0 == found@[1]);
                assert(exists|t2: Coord, n: int| #[trigger]
                    first_step_among(
                        s0,
                        food@,
                        Set::empty().insert(cells[0]),
                        snake_coords@,
                        you.head,
                        w,
                        h,
                        b->Some_0,
                        t2,
                        n,
                    ));
                assert(food_choice(s0, food@, snake_coords@, you.head, w, h, found@[0], b));
                assert(set@ == food_bonuses(s0, found@[0], b));
            }
        } else {
            proof {
                let b: Option<Movement> = None;
                assert(food_choice(s0, food@, snake_coords@, you.head, w, h, found@[0], b));
                assert(set@ == food_bonuses(s0, found@[0], b));
            }
        }
    }
}

/// Searches breadth-first for the agent's own tail, which will have moved on,
/// and rewards the first step of the path to it.
pub fn scan_tail(board: &Board, you: &Battlesnake, set: &mut WeightedMovementSet)
    requires
        dims_ok(board.width as int, board.height as int),
        in_bounds(you.head, board.width as int, board.height as int),
        you.body@.len() > 0,
    ensures
        tail_step(*board, *you, old(set)@, final(set)@),
{
    let ghost w = board.width as int;
    let ghost h = board.height as int;
    let my_tail = you.body[you.body.len() - 1];
    let mut snake_coords = get_all_snake_coords(&board.snakes, board.width, board.height);
    snake_coords.remove(&my_tail);
    let mut tail = CellGrid::new(board.width, board.height);
    tail.insert(&my_tail);
    proof {
        assert(tail@ =~= tail_cells(you.body@, w, h));
    }
    let found = first_steps_to_targets(
        board.width,
        board.height,
        &snake_coords,
        &tail,
        &you.head,
        set,
        1,
    );
    let ghost s0 = set@;
    if found.len() > 0 {
        set.update_score(&found[0], TAIL_BONUS);
        proof {
            let cells = choose|cells: Seq<Coord>| #[trigger]
                found_in_order(s0, tail@, snake_coords@, you.head, w, h, found@, cells);
            assert(found_at(s0, tail@, snake_coords@, you.head, w, h, found@, cells, 0));
            assert(cells.subrange(0, 0).to_set() =~= Set::<Coord>::empty());
            let n = choose|n: int| #[trigger]
                first_step_among(
                    s0,
                    tail@,
                    cells.subrange(0, 0).to_set(),
                    snake_coords@,
                    you.head,
                    w,
                    h,
                    found@[0],
                    cells[0],
                    n,
                );
            assert(first_step_among(s0, tail@, Set::empty(), snake_coords@, you.head, w, h, found@[0], cells[0], n));
        }
    }
}

/// The penalty for a move into a space too small for the agent.
pub const SPACE_PENALTY: isize = 70;

/// The move leads onto the board into a space with less room than the agent's
/// length: its region, its head, and the cells of its own body around that region
/// (see `room`). Own-body cells next to the region count as room, since they will
/// have moved on by the time the agent gets there; a pocket of free cells shorter
/// than the agent can therefore still be enough.
pub open spec fn too_small(board: Board, you: Battlesnake, m: Movement) -> bool {
    let w = board.width as int;
    let h = board.height as int;
    &&& in_bounds(step(you.head, m), w, h)
    &&& room(
        step(you.head, m),
        snake_cells(board.snakes@, w, h),
        listed_cells(you.body@, w, h),
        you.head,
        w,
        h,
    ) < you.length
}

/// Penalises each allowed move that leads into a space with less room than the
/// agent's length. Every move is measured on its own, against the full length.
pub fn avoid_small_spaces(board: &Board, you: &Battlesnake, set: &mut WeightedMovementSet)
    requires
        dims_ok(board.width as int, board.height as int),
        in_bounds(you.head, board.width as int, board.height as int),
    ensures
        final(set)@ == space_scores(*board, *you, old(set)@),
{
    let ghost w = board.width as int;
    let ghost h = board.height as int;
    let required_space = you.length as usize;
    let snake_coords = get_all_snake_coords(&board.snakes, board.width, board.height);
    let own = grid_of(&you.body, board.width, board.height);
    let adjacent_nodes = get_adjacent_nodes(&you.head);
    let mut i: usize = 0;
    while i < 4
        invariant
            adjacent_nodes@ == neighbours(you.head),
            0 <= i <= 4,
            dims_ok(w, h),
            w == board.width,
            h == board.height,
            in_bounds(you.head, w, h),
            snake_coords.wf(),
            snake_coords.width() == w,
            snake_coords.height() == h,
            snake_coords@ == snake_cells(board.snakes@, w, h),
            own.wf(),
            own@ == listed_cells(you.body@, w, h),
            required_space == you.length,
            set@.dom() == old(set)@.dom(),
            forall|m: Movement| #[trigger]
                old(set)@.contains_key(m) ==> set@[m] == if rank(m) < i && too_small(*board, *you, m) {
                    saturate(old(set)@[m] - 70)
                } else {
                    old(set)@[m]
                },
        decreases 4 - i,
    {
        let node = adjacent_nodes[i];
        let c = node.coord;
        assert(rank(node.movement) == i && c == step(you.head, node.movement));
        proof {
            lemma_step_is_adjacent(you.head, node.movement);
        }
        if set.contains(&node.movement) && c.x >= 0 && (c.x as i64) < (board.width as i64) && c.y
            >= 0 && (c.y as i64) < (board.height as i64) {
            if !enough_space(
                board.width,
                board.height,
                &snake_coords,
                &own,
                &you.head,
                &node,
                required_space,
            ) {
                set.update_score(&node.movement, -SPACE_PENALTY);
            }
        }
        i += 1;
    }
    assert(set@ =~= space_scores(*board, *you, old(set)@));
}

/// The tail of an agent that has not just eaten is no obstacle: it moves away.
pub proof fn lemma_tail_vacates(body: Seq<Coord>)
    requires
        body.len() > 0,
        !stacked(body),
    ensures
        !body_collides(body, body.last()),
{
    assert forall|j: int| 0 <= j < body.len() - 1 implies body[j] != body.last() by {
        if body[j] == body.last() {
            assert(body[j] == body[body.len() - 1]);
        }
    }
}

/// The tail of an agent that has just eaten stays where it is: it blocks.
pub proof fn lemma_stacked_tail_blocks(body: Seq<Coord>)
    requires
        body.len() > 0,
        stacked(body),
    ensures
        body_collides(body, body.last()),
{
}

/// Starting from a score no higher than that of a move with enough room, a move
/// into too small a space ends strictly below it.
pub proof fn lemma_small_space_outscored(
    board: Board,
    you: Battlesnake,
    s: Map<Movement, int>,
    small: Movement,
    roomy: Movement,
)
    requires
        s.contains_key(small),
        s.contains_key(roomy),
        isize::MIN < s[small] <= s[roomy] <= isize::MAX,
        too_small(board, you, small),
        !too_small(board, you, roomy),
    ensures
        space_scores(board, you, s)[small] < space_scores(board, you, s)[roomy],
{
}

/// The food search is a function of the board: two outcomes it allows agree.
pub proof fn lemma_food_step_unique(
    board: Board,
    you: Battlesnake,
    s: Map<Movement, int>,
    f1: Map<Movement, int>,
    f2: Map<Movement, int>,
)
    requires
        food_step(board, you, s, f1),
        food_step(board, you, s, f2),
    ensures
        f1 == f2,
{
    let w = board.width as int;
    let h = board.height as int;
    let tg = listed_cells(board.food@, w, h);
    let bl = snake_cells(board.snakes@, w, h);
    if exists|m: Movement| #[trigger] leads_to_target(s, tg, bl, you.head, w, h, m) {
        let (a1, b1) = choose|a: Movement, b: Option<Movement>|
            food_choice(s, tg, bl, you.head, w, h, a, b) && f1 == #[trigger] food_bonuses(s, a, b);
        let (a2, b2) = choose|a: Movement, b: Option<Movement>|
            food_choice(s, tg, bl, you.head, w, h, a, b) && f2 == #[trigger] food_bonuses(s, a, b);
        let (t1, n1) = choose|t1: Coord, n1: int| #[trigger]
            first_step_among(s, tg, Set::empty(), bl, you.head, w, h, a1, t1, n1) && (b1 is Some
                <==> reachable_targets(s, tg, bl, you.head, w, h).len() >= 2) && (b1 is Some
                ==> exists|t2: Coord, n2: int| #[trigger]
                first_step_among(s, tg, Set::empty().insert(t1), bl, you.head, w, h, b1->Some_0, t2, n2));
        let (u1, k1) = choose|t1: Coord, n1: int| #[trigger]
            first_step_among(s, tg, Set::empty(), bl, you.head, w, h, a2, t1, n1) && (b2 is Some
                <==> reachable_targets(s, tg, bl, you.head, w, h).len() >= 2) && (b2 is Some
                ==> exists|t2: Coord, n2: int| #[trigger]
                first_step_among(s, tg, Set::empty().insert(t1), bl, you.head, w, h, b2->Some_0, t2, n2));
        lemma_first_step_unique(s, tg, Set::empty(), bl, you.head, w, h, a1, t1, n1, a2, u1, k1);
        if b1 is Some {
            let (t2, n2) = choose|t2: Coord, n2: int| #[trigger]
                first_step_among(s, tg, Set::empty().insert(t1), bl, you.head, w, h, b1->Some_0, t2, n2);
            let (u2, k2) = choose|t2: Coord, n2: int| #[trigger]
                first_step_among(s, tg, Set::empty().insert(u1), bl, you.head, w, h, b2->Some_0, t2, n2);
            lemma_second_step_unique(
                s,
                tg,
                bl,
                you.head,
                w,
                h,
                a1,
                t1,
                n1,
                u1,
                k1,
                b1->Some_0,
                t2,
                n2,
                b2->Some_0,
                u2,
                k2,
            );
        }
    }
}

/// The tail search is a function of the board: two outcomes it allows agree.
pub proof fn lemma_tail_step_unique(
    board: Board,
    you: Battlesnake,
    s: Map<Movement, int>,
    f1: Map<Movement, int>,
    f2: Map<Movement, int>,
)
    requires
        tail_step(board, you, s, f1),
        tail_step(board, you, s, f2),
    ensures
        f1 == f2,
{
    let w = board.width as int;
    let h = board.height as int;
    let tg = tail_cells(you.body@, w, h);
    let bl = snake_cells(board.snakes@, w, h).remove(you.body@.last());
    if exists|m: Movement| #[trigger] leads_to_target(s, tg, bl, you.head, w, h, m) {
        let (a1, t1, n1) = choose|a: Movement, t: Coord, n: int| #[trigger]
            first_step_among(s, tg, Set::empty(), bl, you.head, w, h, a, t, n) && f1 == bonus(s, a, 20);
        let (a2, t2, n2) = choose|a: Movement, t: Coord, n: int| #[trigger]
            first_step_among(s, tg, Set::empty(), bl, you.head, w, h, a, t, n) && f2 == bonus(s, a, 20);
        lemma_first_step_unique(s, tg, Set::empty(), bl, you.head, w, h, a1, t1, n1, a2, t2, n2);
    }
}

/// The earliest ranked (up, down, left, right) first step of a shortest walk to
/// `t`, which lies `n` steps away: the step a breadth-first search records for `t`.
pub open spec fn search_step_to(
    s: Map<Movement, int>,
    bl: Set<Coord>,
    head: Coord,
    w: int,
    h: int,
    m: Movement,
    t: Coord,
    n: int,
) -> bool {
    &&& open_start(s, head, w, h, m)
    &&& walk_in(step(head, m), t, n, bl, head, w, h)
    &&& forall|p: Seq<Coord>| #[trigger]
        is_walk(p, bl, head, w, h) && crate::search::is_start(s, head, w, h, p[0]) && p.last() == t
            ==> p.len() >= n + 1
    &&& lowest_first_step(s, bl, head, w, h, m, t, n)
}

/// Among two targets at different distances, the first step found with nothing
/// excluded leads to the nearer one, by the step the search records for it.
proof fn lemma_nearer_target_found_first(
    s: Map<Movement, int>,
    tg: Set<Coord>,
    bl: Set<Coord>,
    hd: Coord,
    w: int,
    h: int,
    near_food: Coord,
    far_food: Coord,
    near: Movement,
    far: Movement,
    n_near: int,
    n_far: int,
    a: Movement,
    t1: Coord,
    n1: int,
)
    requires
        tg == Set::<Coord>::empty().insert(near_food).insert(far_food),
        search_step_to(s, bl, hd, w, h, near, near_food, n_near),
        search_step_to(s, bl, hd, w, h, far, far_food, n_far),
        n_near < n_far,
        first_step_among(s, tg, Set::empty(), bl, hd, w, h, a, t1, n1),
    ensures
        a == near,
        t1 == near_food,
{
    let pn = choose|p: Seq<Coord>| #[trigger]
        is_walk(p, bl, hd, w, h) && p[0] == step(hd, near) && p.last() == near_food && p.len() == n_near + 1;
    let pa = choose|p: Seq<Coord>| #[trigger]
        is_walk(p, bl, hd, w, h) && p[0] == step(hd, a) && p.last() == t1 && p.len() == n1 + 1;
    assert(crate::search::is_start(s, hd, w, h, pn[0]));
    assert(crate::search::is_start(s, hd, w, h, pa[0]));
    assert(tg.contains(near_food));
    assert(pn.len() >= n1 + 1);
    if t1 == far_food {
        assert(pa.len() >= n_far + 1);
    }
    assert(t1 == near_food);
    assert(pa.len() >= n_near + 1);
    if rank(a) < rank(near) {
        assert(pa.len() > n_near + 1);
    } else if rank(near) < rank(a) {
        assert(pn.len() > n1 + 1);
    }
}

/// Once the nearer of two targets is found, the next first step found is the
/// one the search records for the farther target.
proof fn lemma_farther_target_found_next(
    s: Map<Movement, int>,
    tg: Set<Coord>,
    bl: Set<Coord>,
    hd: Coord,
    w: int,
    h: int,
    near_food: Coord,
    far_food: Coord,
    far: Movement,
    n_far: int,
    bb: Movement,
    t2: Coord,
    n2: int,
)
    requires
        tg == Set::<Coord>::empty().insert(near_food).insert(far_food),
        near_food != far_food,
        search_step_to(s, bl, hd, w, h, far, far_food, n_far),
        first_step_among(s, tg, Set::empty().insert(near_food), bl, hd, w, h, bb, t2, n2),
    ensures
        bb == far,
{
    let pf = choose|p: Seq<Coord>| #[trigger]
        is_walk(p, bl, hd, w, h) && p[0] == step(hd, far) && p.last() == far_food && p.len() == n_far + 1;
    let pb = choose|p: Seq<Coord>| #[trigger]
        is_walk(p, bl, hd, w, h) && p[0] == step(hd, bb) && p.last() == t2 && p.len() == n2 + 1;
    assert(crate::search::is_start(s, hd, w, h, pf[0]));
    assert(crate::search::is_start(s, hd, w, h, pb[0]));
    assert(t2 == far_food);
    assert(tg.contains(far_food));
    assert(!Set::<Coord>::empty().insert(near_food).contains(far_food));
    assert(pf.len() >= n2 + 1);
    assert(pb.len() >= n_far + 1);
    if rank(bb) < rank(far) {
        assert(pb.len() > n_far + 1);
    } else if rank(far) < rank(bb) {
        assert(pf.len() > n2 + 1);
    }
}

/// Food attracts by distance: with two pieces of food, the move the search takes
/// towards the nearer one gains more than the move it takes towards the farther
/// one, when the two moves differ.
pub proof fn lemma_closer_food_scores_higher(
    board: Board,
    you: Battlesnake,
    s: Map<Movement, int>,
    f: Map<Movement, int>,
    near_food: Coord,
    far_food: Coord,
    near: Movement,
    far: Movement,
    n_near: int,
    n_far: int,
)
    requires
        dims_ok(board.width as int, board.height as int),
        food_step(board, you, s, f),
        listed_cells(board.food@, board.width as int, board.height as int) == Set::<Coord>::empty().insert(
            near_food,
        ).insert(far_food),
        near_food != far_food,
        near != far,
        isize::MIN <= s[near] <= isize::MAX - 30,
        isize::MIN <= s[far] <= isize::MAX - 30,
        search_step_to(
            s,
            snake_cells(board.snakes@, board.width as int, board.height as int),
            you.head,
            board.width as int,
            board.height as int,
            near,
            near_food,
            n_near,
        ),
        search_step_to(
            s,
            snake_cells(board.snakes@, board.width as int, board.height as int),
            you.head,
            board.width as int,
            board.height as int,
            far,
            far_food,
            n_far,
        ),
        n_near < n_far,
    ensures
        f[near] - s[near] > f[far] - s[far],
{
    let w = board.width as int;
    let h = board.height as int;
    let tg = listed_cells(board.food@, w, h);
    let bl = snake_cells(board.snakes@, w, h);
    let hd = you.head;
    assert(leads_to_target(s, tg, bl, hd, w, h, near)) by {
        assert(tg.contains(near_food));
        assert(crate::walk::reaches(step(hd, near), near_food, bl, hd, w, h));
    }
    let (a, b) = choose|a: Movement, b: Option<Movement>|
        food_choice(s, tg, bl, hd, w, h, a, b) && f == #[trigger] food_bonuses(s, a, b);
    let (t1, n1) = choose|t1: Coord, n1: int| #[trigger]
        first_step_among(s, tg, Set::empty(), bl, hd, w, h, a, t1, n1) && (b is Some
            <==> reachable_targets(s, tg, bl, hd, w, h).len() >= 2) && (b is Some ==> exists|
            t2: Coord,
            n2: int,
        | #[trigger]
            first_step_among(s, tg, Set::empty().insert(t1), bl, hd, w, h, b->Some_0, t2, n2));
    lemma_nearer_target_found_first(s, tg, bl, hd, w, h, near_food, far_food, near, far, n_near, n_far, a, t1, n1);
    let rt = reachable_targets(s, tg, bl, hd, w, h);
    assert(rt.len() >= 2) by {
        reveal(reachable_targets);
        lemma_reachable_targets_finite(s, tg, bl, hd, w, h);
        assert(crate::walk::reaches(step(hd, near), near_food, bl, hd, w, h));
        assert(crate::walk::reaches(step(hd, far), far_food, bl, hd, w, h));
        assert(rt.contains(near_food));
        assert(rt.contains(far_food));
        let two = Set::<Coord>::empty().insert(near_food).insert(far_food);
        assert(two.subset_of(rt));
        vstd::set_lib::lemma_len_subset(two, rt);
    }
    let bb = b->Some_0;
    let (t2, n2) = choose|t2: Coord, n2: int| #[trigger]
        first_step_among(s, tg, Set::empty().insert(t1), bl, hd, w, h, bb, t2, n2);
    lemma_farther_target_found_next(s, tg, bl, hd, w, h, near_food, far_food, far, n_far, bb, t2, n2);
}

} // verus!
