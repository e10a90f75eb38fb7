use vstd::prelude::*;
use vstd::string::*;

verus! {

/// A cell of the board: `x` grows to the right, `y` grows upward.
#[derive(Debug, Clone, Copy, PartialEq, Eq, Structural, Hash)]
pub struct Coord {
    pub x: i32,
    pub y: i32,
}

/// One agent on the board, its body listed from head to tail.
#[derive(Debug)]
pub struct Battlesnake {
    pub id: String,
    pub name: String,
    pub health: u32,
    pub body: Vec<Coord>,
    pub head: Coord,
    pub length: u32,
    pub latency: String,
}

/// The board of one turn.
#[derive(Debug)]
pub struct Board {
    pub height: u32,
    pub width: u32,
    pub food: Vec<Coord>,
    pub hazards: Vec<Coord>,
    pub snakes: Vec<Battlesnake>,
}

/// What identifies the game a turn belongs to.
#[derive(Debug)]
pub struct Game {
    pub id: String,
    pub timeout: u32,
}

/// The cell lies on a board of the given size.
pub open spec fn in_bounds(c: Coord, width: int, height: int) -> bool {
    0 <= c.x < width && 0 <= c.y < height
}

/// Board dimensions under which every cell and each of its neighbours is an `i32`
/// pair and every cell has its own index in a flat `usize` array.
pub open spec fn dims_ok(width: int, height: int) -> bool {
    &&& 0 < width <= i32::MAX
    &&& 0 < height <= i32::MAX
    &&& width * height <= usize::MAX
}

/// An agent as the engine expects it: a non-empty body whose first cell is the
/// head, and a head on the board.
pub open spec fn snake_wf(s: Battlesnake, width: int, height: int) -> bool {
    &&& s.body@.len() > 0
    &&& s.head == s.body@[0]
    &&& in_bounds(s.head, width, height)
}

/// A board that the engine accepts: usable dimensions and well-formed agents.
pub open spec fn board_wf(b: Board) -> bool {
    &&& dims_ok(b.width as int, b.height as int)
    &&& forall|i: int| 0 <= i < b.snakes@.len() ==> snake_wf(
        #[trigger] b.snakes@[i],
        b.width as int,
        b.height as int,
    )
}

/// The cell lies in the body of some agent.
pub open spec fn occupied(snakes: Seq<Battlesnake>, c: Coord) -> bool {
    exists|i: int, j: int|
        0 <= i < snakes.len() && 0 <= j < snakes[i].body@.len() && #[trigger] snakes[i].body@[j]
            == c
}

/// The input of one decision: an accepted board and a well-formed controlled agent.
pub open spec fn turn_wf(board: Board, you: Battlesnake) -> bool {
    board_wf(board) && snake_wf(you, board.width as int, board.height as int)
}

/// An identifier followed by a fixed text.
pub fn tagged(id: &String, text: &str) -> (r: String)
    ensures
        r@ == id@ + text@,
{
    let mut r = id.clone();
    r.append(text);
    r
}

fn snake_valid(s: &Battlesnake, width: u32, height: u32) -> (r: bool)
    ensures
        r == snake_wf(*s, width as int, height as int),
{
    s.body.len() > 0 && s.head == s.body[0] && s.head.x >= 0 && s.head.y >= 0 && (s.head.x as i64)
        < (width as i64) && (s.head.y as i64) < (height as i64)
}

/// Whether the engine accepts this board and controlled agent.
pub fn turn_valid(board: &Board, you: &Battlesnake) -> (r: bool)
    ensures
        r == turn_wf(*board, *you),
{
    if board.width == 0 || board.height == 0 || board.width > 0x7fff_ffff || board.height
        > 0x7fff_ffff {
        return false;
    }
    assert((board.width as int) * (board.height as int) <= 0x7fff_ffff * 0x7fff_ffff) by (nonlinear_arith)
        requires
            board.width <= 0x7fff_ffff,
            board.height <= 0x7fff_ffff,
    ;
    if (board.width as u128) * (board.height as u128) > usize::MAX as u128 {
        return false;
    }
    let mut i: usize = 0;
    while i < board.snakes.len()
        invariant
            i <= board.snakes@.len(),
            forall|k: int| 0 <= k < i ==> snake_wf(
                #[trigger] board.snakes@[k],
                board.width as int,
                board.height as int,
            ),
        decreases board.snakes.len() - i,
    {
        if !snake_valid(&board.snakes[i], board.width, board.height) {
            return false;
        }
        i += 1;
    }
    snake_valid(you, board.width, board.height)
}

} // verus!
