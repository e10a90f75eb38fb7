use vstd::prelude::*;
use vstd::string::*;

verus! {

/// One of the four moves on the grid.
#[derive(Debug, Clone, Copy, PartialEq, Eq, Structural, Hash)]
pub enum Movement {
    Right,
    Left,
    Up,
    Down,
}

/// The token used on the wire for a move.
pub open spec fn movement_name(m: Movement) -> Seq<char> {
    match m {
        Movement::Up => "up"@,
        Movement::Down => "down"@,
        Movement::Left => "left"@,
        Movement::Right => "right"@,
    }
}

/// Position of a move in the fixed order up, down, left, right.
pub open spec fn rank(m: Movement) -> int {
    match m {
        Movement::Up => 0,
        Movement::Down => 1,
        Movement::Left => 2,
        Movement::Right => 3,
    }
}

impl Movement {
    /// The token used on the wire for this move.
    pub fn as_str(&self) -> (r: &'static str)
        ensures
            r@ == movement_name(*self),
    {
        match self {
            Movement::Up => "up",
            Movement::Down => "down",
            Movement::Left => "left",
            Movement::Right => "right",
        }
    }
}

/// A move that is still allowed, with its desirability.
#[derive(Debug, Clone, Copy)]
pub struct WeightedMovement {
    pub movement: Movement,
    pub success_score: isize,
}

/// A score moved by `delta` and held within the range of `isize`.
pub open spec fn saturate(v: int) -> int {
    if v > isize::MAX {
        isize::MAX as int
    } else if v < isize::MIN {
        isize::MIN as int
    } else {
        v
    }
}

/// The score of every allowed move; a move without an entry has been ruled out.
pub struct WeightedMovementSet {
    up: Option<isize>,
    down: Option<isize>,
    left: Option<isize>,
    right: Option<isize>,
}

/// The move has an entry and no entry scores higher.
pub open spec fn scores_highest(s: Map<Movement, int>, m: Movement) -> bool {
    &&& s.contains_key(m)
    &&& forall|k: Movement| #[trigger] s.contains_key(k) ==> s[k] <= s[m]
}

/// The move that wins: the highest score, the earliest in the order up, down,
/// left, right among equal scores, and up when no move is left.
pub open spec fn pick_of(s: Map<Movement, int>) -> Movement {
    if scores_highest(s, Movement::Up) {
        Movement::Up
    } else if scores_highest(s, Movement::Down) {
        Movement::Down
    } else if scores_highest(s, Movement::Left) {
        Movement::Left
    } else if scores_highest(s, Movement::Right) {
        Movement::Right
    } else {
        Movement::Up
    }
}

/// The winning move is always one of the moves left, and scores highest among
/// them; only when no move is left is it the fallback, up.
pub proof fn lemma_pick_total(s: Map<Movement, int>)
    ensures
        (forall|m: Movement| !#[trigger] s.contains_key(m)) ==> pick_of(s) == Movement::Up,
        (exists|m: Movement| #[trigger] s.contains_key(m)) ==> scores_highest(s, pick_of(s)),
{
    if exists|m: Movement| #[trigger] s.contains_key(m) {
        let best = if s.contains_key(Movement::Up) && (!s.contains_key(Movement::Down) || s[Movement::Up] >= s[Movement::Down]) && (!s.contains_key(Movement::Left) || s[Movement::Up] >= s[Movement::Left]) && (!s.contains_key(Movement::Right) || s[Movement::Up] >= s[Movement::Right]) {
            Movement::Up
        } else if s.contains_key(Movement::Down) && (!s.contains_key(Movement::Left) || s[Movement::Down] >= s[Movement::Left]) && (!s.contains_key(Movement::Right) || s[Movement::Down] >= s[Movement::Right]) && (!s.contains_key(Movement::Up) || s[Movement::Down] >= s[Movement::Up]) {
            Movement::Down
        } else if s.contains_key(Movement::Left) && (!s.contains_key(Movement::Right) || s[Movement::Left] >= s[Movement::Right]) && (!s.contains_key(Movement::Up) || s[Movement::Left] >= s[Movement::Up]) && (!s.contains_key(Movement::Down) || s[Movement::Left] >= s[Movement::Down]) {
            Movement::Left
        } else {
            Movement::Right
        };
        assert(scores_highest(s, best));
    }
}

/// The entry of one move, as a list of zero or one item.
pub open spec fn entry_of(s: Map<Movement, int>, m: Movement) -> Seq<WeightedMovement> {
    if s.contains_key(m) {
        seq![WeightedMovement { movement: m, success_score: s[m] as isize }]
    } else {
        Seq::empty()
    }
}

/// The entries in the order up, down, left, right.
pub open spec fn entries_of(s: Map<Movement, int>) -> Seq<WeightedMovement> {
    entry_of(s, Movement::Up) + entry_of(s, Movement::Down) + entry_of(s, Movement::Left)
        + entry_of(s, Movement::Right)
}

/// The names of the moves, separated by commas.
pub open spec fn joined_names(es: Seq<WeightedMovement>) -> Seq<char>
    decreases es.len(),
{
    if es.len() == 0 {
        Seq::empty()
    } else if es.len() == 1 {
        movement_name(es[0].movement)
    } else {
        joined_names(es.drop_last()) + ","@ + movement_name(es.last().movement)
    }
}

fn add_score(score: isize, amount: isize) -> (r: isize)
    ensures
        r == saturate(score + amount),
{
    if amount >= 0 {
        if score > isize::MAX - amount {
            isize::MAX
        } else {
            score + amount
        }
    } else {
        if score < isize::MIN - amount {
            isize::MIN
        } else {
            score + amount
        }
    }
}

impl View for WeightedMovementSet {
    type V = Map<Movement, int>;

    closed spec fn view(&self) -> Map<Movement, int> {
        Map::new(|m: Movement| self.slot(m) is Some, |m: Movement| self.slot(m)->Some_0 as int)
    }
}

impl WeightedMovementSet {
    closed spec fn slot(&self, m: Movement) -> Option<isize> {
        match m {
            Movement::Up => self.up,
            Movement::Down => self.down,
            Movement::Left => self.left,
            Movement::Right => self.right,
        }
    }

    /// All four moves, each at score 100.
    pub fn new() -> (r: WeightedMovementSet)
        ensures
            forall|m: Movement| #[trigger] r@.contains_key(m) && r@[m] == 100,
    {
        WeightedMovementSet { up: Some(100), down: Some(100), left: Some(100), right: Some(100) }
    }

    fn set_slot(&mut self, m: Movement, v: Option<isize>)
        ensures
            final(self).slot(m) == v,
            forall|k: Movement| k != m ==> final(self).slot(k) == old(self).slot(k),
    {
        match m {
            Movement::Up => self.up = v,
            Movement::Down => self.down = v,
            Movement::Left => self.left = v,
            Movement::Right => self.right = v,
        }
    }

    fn get_slot(&self, m: Movement) -> (r: Option<isize>)
        ensures
            r == self.slot(m),
    {
        match m {
            Movement::Up => self.up,
            Movement::Down => self.down,
            Movement::Left => self.left,
            Movement::Right => self.right,
        }
    }

    /// Every score is an `isize`.
    pub proof fn lemma_scores_in_range(&self)
        ensures
            forall|m: Movement| #[trigger]
                self@.contains_key(m) ==> isize::MIN <= self@[m] <= isize::MAX,
    {
    }

    /// Whether the move is still allowed.
    pub fn contains(&self, movement: &Movement) -> (r: bool)
        ensures
            r == self@.contains_key(*movement),
    {
        self.get_slot(*movement).is_some()
    }

    /// The score of the move, if it is still allowed.
    pub fn score(&self, movement: &Movement) -> (r: Option<isize>)
        ensures
            r is Some <==> self@.contains_key(*movement),
            r is Some ==> r->Some_0 == self@[*movement],
    {
        self.get_slot(*movement)
    }

    /// Rules the move out for the rest of the turn.
    pub fn remove(&mut self, movement: &Movement)
        ensures
            final(self)@ == old(self)@.remove(*movement),
    {
        self.set_slot(*movement, None);
        assert(final(self)@ =~= old(self)@.remove(*movement));
    }

    /// Gives an allowed move a new score; a move ruled out stays out.
    pub fn set_score(&mut self, movement: &Movement, new_score: isize)
        ensures
            final(self)@ == if old(self)@.contains_key(*movement) {
                old(self)@.insert(*movement, new_score as int)
            } else {
                old(self)@
            },
    {
        if self.get_slot(*movement).is_some() {
            self.set_slot(*movement, Some(new_score));
            assert(final(self)@ =~= old(self)@.insert(*movement, new_score as int));
        }
    }

    /// Adds `amount` to the score of an allowed move, holding the result within
    /// the range of `isize`; a move ruled out stays out.
    pub fn update_score(&mut self, movement: &Movement, amount: isize)
        ensures
            final(self)@ == if old(self)@.contains_key(*movement) {
                old(self)@.insert(*movement, saturate(old(self)@[*movement] + amount))
            } else {
                old(self)@
            },
    {
        match self.get_slot(*movement) {
            Some(x) => {
                let new_score = add_score(x, amount);
                self.set_score(movement, new_score);
            },
            None => {},
        }
    }

    /// The winning move; up when every move has been ruled out.
    pub fn pick_movement(&self) -> (r: Movement)
        ensures
            r == pick_of(self@),
    {
        let mut best = Movement::Up;
        let mut best_score = self.up;
        if let Some(s) = self.down {
            if best_score.is_none() || s > best_score.unwrap() {
                best = Movement::Down;
                best_score = Some(s);
            }
        }
        if let Some(s) = self.left {
            if best_score.is_none() || s > best_score.unwrap() {
                best = Movement::Left;
                best_score = Some(s);
            }
        }
        if let Some(s) = self.right {
            if best_score.is_none() || s > best_score.unwrap() {
                best = Movement::Right;
                best_score = Some(s);
            }
        }
        proof {
            let s = self@;
            assert(s.contains_key(Movement::Up) == (self.up is Some));
            assert(s.contains_key(Movement::Down) == (self.down is Some));
            assert(s.contains_key(Movement::Left) == (self.left is Some));
            assert(s.contains_key(Movement::Right) == (self.right is Some));
            assert forall|k: Movement| #[trigger] s.contains_key(k) implies (k == Movement::Up
                || k == Movement::Down || k == Movement::Left || k == Movement::Right) by {}
        }
        best
    }

    /// The allowed moves with their scores, in the order up, down, left, right.
    pub fn moves(&self) -> (r: Vec<WeightedMovement>)
        ensures
            r@ == entries_of(self@),
    {
        let mut r: Vec<WeightedMovement> = Vec::new();
        if let Some(s) = self.up {
            r.push(WeightedMovement { movement: Movement::Up, success_score: s });
        }
        if let Some(s) = self.down {
            r.push(WeightedMovement { movement: Movement::Down, success_score: s });
        }
        if let Some(s) = self.left {
            r.push(WeightedMovement { movement: Movement::Left, success_score: s });
        }
        if let Some(s) = self.right {
            r.push(WeightedMovement { movement: Movement::Right, success_score: s });
        }
        proof {
            let s = self@;
            assert(s.contains_key(Movement::Up) == (self.up is Some));
            assert(s.contains_key(Movement::Down) == (self.down is Some));
            assert(s.contains_key(Movement::Left) == (self.left is Some));
            assert(s.contains_key(Movement::Right) == (self.right is Some));
        }
        assert(r@ =~= entries_of(self@));
        r
    }

    /// The names of the allowed moves in the order up, down, left, right,
    /// separated by commas.
    pub fn names(&self) -> (r: String)
        ensures
            r@ == joined_names(entries_of(self@)),
    {
        let moves = self.moves();
        let mut r = String::new();
        let mut i: usize = 0;
        while i < moves.len()
            invariant
                i <= moves@.len(),
                r@ == joined_names(moves@.subrange(0, i as int)),
            decreases moves.len() - i,
        {
            let name = moves[i].movement.as_str();
            let ghost before = r@;
            if i > 0 {
                r.append(",");
            }
            r.append(name);
            proof {
                let sub = moves@.subrange(0, i + 1);
                assert(sub.drop_last() =~= moves@.subrange(0, i as int));
                if i == 0 {
                    assert(r@ =~= movement_name(sub[0].movement));
                } else {
                    assert(r@ =~= before + ","@ + movement_name(sub.last().movement));
                }
            }
            i += 1;
        }
        assert(moves@.subrange(0, moves@.len() as int) =~= moves@);
        r
    }
}

} // verus!
