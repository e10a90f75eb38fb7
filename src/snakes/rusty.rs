use vstd::prelude::*;
use vstd::string::*;

use crate::graph::step;
use crate::logic::{
    avoid_bounds, avoid_hazards, avoid_small_spaces, avoid_snake_bodies, body_collides, bonus,
    collides, food_bonuses, food_choice, food_step, handle_opponent_heads, hazard_scores,
    heads_scores, lemma_food_step_unique, listed_cells, snake_cells,
    lemma_stacked_tail_blocks, lemma_tail_vacates, moves_clear_of_bodies, moves_on_board,
    scan_food, space_scores, stacked,
};
use crate::search::leads_to_target;
use crate::movement_set::{
    entries_of, joined_names, lemma_pick_total, movement_name, pick_of, Movement,
    WeightedMovementSet,
};
use crate::request::in_bounds;
use crate::request::{tagged, turn_wf, Battlesnake, Board, Game};
use crate::response::{InfoResponse, MoveShoutResponse};

verus! {

/// Every move at the starting score of 100.
pub open spec fn fresh_scores() -> Map<Movement, int> {
    Map::new(|m: Movement| true, |m: Movement| 100)
}

/// The moves that neither leave the board nor run into a body, at 100.
pub open spec fn safe_scores(board: Board, you: Battlesnake) -> Map<Movement, int> {
    fresh_scores().restrict(
        moves_on_board(you.head, board.width as int, board.height as int),
    ).restrict(moves_clear_of_bodies(board.snakes@, you.head))
}

/// Scores this agent may end a turn with: the safe moves, after the food search,
/// the space check, the heads of other agents and the hazards, in that order.
pub open spec fn final_scores(board: Board, you: Battlesnake, s: Map<Movement, int>) -> bool {
    exists|f: Map<Movement, int>| #[trigger]
        food_step(board, you, safe_scores(board, you), f) && s == hazard_scores(
            board.hazards@,
            you.head,
            heads_scores(board.snakes@, you, space_scores(board, you, f)),
        )
}

/// How this agent presents itself.
pub fn info() -> (r: InfoResponse)
    ensures
        r.api_version@ == "1"@,
        r.author@ == "Zachatoo"@,
        r.color@ == "#00AA33"@,
        r.head@ == "gamer"@,
        r.tail@ == "round-bum"@,
{
    InfoResponse {
        api_version: String::from_str("1"),
        author: String::from_str("Zachatoo"),
        color: String::from_str("#00AA33"),
        head: String::from_str("gamer"),
        tail: String::from_str("round-bum"),
    }
}

/// The line to record when a game starts.
pub fn start(game: &Game, _turn: &u32, _board: &Board, _you: &Battlesnake) -> (r: String)
    ensures
        r@ == game.id@ + " GAME START"@,
{
    tagged(&game.id, " GAME START")
}

/// The line to record when a game ends.
pub fn end(game: &Game, _turn: &u32, _board: &Board, _you: &Battlesnake) -> (r: String)
    ensures
        r@ == game.id@ + " GAME OVER"@,
{
    tagged(&game.id, " GAME OVER")
}

/// Runs every evaluator of this agent on a fresh set of moves.
pub fn movement_set(board: &Board, you: &Battlesnake) -> (r: WeightedMovementSet)
    requires
        turn_wf(*board, *you),
    ensures
        final_scores(*board, *you, r@),
{
    let mut set = WeightedMovementSet::new();
    assert(set@ =~= fresh_scores());
    avoid_bounds(board.width, board.height, you, &mut set);
    avoid_snake_bodies(&board.snakes, you, &mut set);
    assert(set@ == safe_scores(*board, *you));
    let ghost s1 = set@;
    scan_food(board, you, &mut set);
    let ghost f = set@;
    avoid_small_spaces(board, you, &mut set);
    handle_opponent_heads(&board.snakes, you, &mut set);
    avoid_hazards(&board.hazards, you, &mut set);
    assert(food_step(*board, *you, safe_scores(*board, *you), f));
    set
}

/// The move of this turn, with the moves that remained allowed.
pub fn get_move(_game: &Game, _turn: &u32, board: &Board, you: &Battlesnake) -> (r: MoveShoutResponse)
    requires
        turn_wf(*board, *you),
    ensures
        exists|s: Map<Movement, int>| #[trigger]
            final_scores(*board, *you, s) && r.chosen_move@ == movement_name(pick_of(s))
                && r.shout@ == joined_names(entries_of(s)),
{
    let set = movement_set(board, you);
    let chosen = set.pick_movement();
    let r = MoveShoutResponse { chosen_move: String::from_str(chosen.as_str()), shout: set.names() };
    assert(final_scores(*board, *you, set@));
    r
}

/// The food search, the space check, the heads and the hazards change scores but
/// never which moves are allowed.
pub proof fn lemma_final_moves_are_safe(board: Board, you: Battlesnake, s: Map<Movement, int>)
    requires
        final_scores(board, you, s),
    ensures
        s.dom() == safe_scores(board, you).dom(),
{
    let s1 = safe_scores(board, you);
    let w = board.width as int;
    let h = board.height as int;
    let tg = listed_cells(board.food@, w, h);
    let bl = snake_cells(board.snakes@, w, h);
    let f = choose|f: Map<Movement, int>| #[trigger]
        food_step(board, you, s1, f) && s == hazard_scores(
            board.hazards@,
            you.head,
            heads_scores(board.snakes@, you, space_scores(board, you, f)),
        );
    if exists|m: Movement| #[trigger] leads_to_target(s1, tg, bl, you.head, w, h, m) {
        let (a, b) = choose|a: Movement, b: Option<Movement>|
            food_choice(s1, tg, bl, you.head, w, h, a, b) && f == #[trigger] food_bonuses(s1, a, b);
        assert(bonus(s1, a, 20).dom() =~= s1.dom());
        if b is Some {
            assert(bonus(bonus(s1, a, 20), b->Some_0, 10).dom() =~= s1.dom());
        }
    }
    assert(f.dom() =~= s1.dom());
    assert(s.dom() =~= s1.dom());
}

/// One snapshot gives one set of scores, and so one move: the decision is
/// deterministic.
pub proof fn lemma_same_snapshot_same_move(
    board: Board,
    you: Battlesnake,
    s1: Map<Movement, int>,
    s2: Map<Movement, int>,
)
    requires
        final_scores(board, you, s1),
        final_scores(board, you, s2),
    ensures
        s1 == s2,
        pick_of(s1) == pick_of(s2),
        entries_of(s1) == entries_of(s2),
{
    let s0 = safe_scores(board, you);
    let f1 = choose|f: Map<Movement, int>| #[trigger]
        food_step(board, you, s0, f) && s1 == hazard_scores(
            board.hazards@,
            you.head,
            heads_scores(board.snakes@, you, space_scores(board, you, f)),
        );
    let f2 = choose|f: Map<Movement, int>| #[trigger]
        food_step(board, you, s0, f) && s2 == hazard_scores(
            board.hazards@,
            you.head,
            heads_scores(board.snakes@, you, space_scores(board, you, f)),
        );
    lemma_food_step_unique(board, you, s0, f1, f2);
}

/// With its head on the left edge, the agent never moves left: that move is
/// ruled out, and the fallback for no move left is up.
pub proof fn lemma_never_left_off_edge(board: Board, you: Battlesnake, s: Map<Movement, int>)
    requires
        final_scores(board, you, s),
        you.head.x == 0,
    ensures
        pick_of(s) != Movement::Left,
{
    lemma_final_moves_are_safe(board, you, s);
    assert(!s.contains_key(Movement::Left));
    lemma_pick_total(s);
}

/// When the only move that stays on the board and clear of bodies leads into the
/// agent's own tail, and the agent has not just eaten, that move is taken. Here
/// the agent appears on the board, and no other agent makes its tail cell fatal.
pub proof fn lemma_tail_is_safe(board: Board, you: Battlesnake, s: Map<Movement, int>, d: Movement)
    requires
        final_scores(board, you, s),
        you.body@.len() > 0,
        !stacked(you.body@),
        step(you.head, d) == you.body@.last(),
        in_bounds(step(you.head, d), board.width as int, board.height as int),
        forall|i: int|
            0 <= i < board.snakes@.len() ==> (#[trigger] board.snakes@[i]).body@ == you.body@
                || !body_collides(board.snakes@[i].body@, you.body@.last()),
        forall|m: Movement|
            m != d ==> !#[trigger] in_bounds(
                step(you.head, m),
                board.width as int,
                board.height as int,
            ) || collides(board.snakes@, step(you.head, m)),
    ensures
        pick_of(s) == d,
{
    lemma_tail_vacates(you.body@);
    lemma_final_moves_are_safe(board, you, s);
    assert(!collides(board.snakes@, step(you.head, d)));
    assert(s.contains_key(d));
    assert forall|m: Movement| #[trigger] s.contains_key(m) implies m == d by {}
    lemma_pick_total(s);
}

/// An agent that has just eaten never keeps a move into its own tail cell, since
/// that tail stays where it is.
pub proof fn lemma_stacked_tail_unsafe(
    board: Board,
    you: Battlesnake,
    s: Map<Movement, int>,
    d: Movement,
    i: int,
)
    requires
        final_scores(board, you, s),
        0 <= i < board.snakes@.len(),
        board.snakes@[i].body@ == you.body@,
        you.body@.len() > 0,
        stacked(you.body@),
        step(you.head, d) == you.body@.last(),
    ensures
        !s.contains_key(d),
{
    lemma_stacked_tail_blocks(you.body@);
    assert(body_collides(board.snakes@[i].body@, step(you.head, d)));
    lemma_final_moves_are_safe(board, you, s);
}

} // verus!
