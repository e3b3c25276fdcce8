//! Game results and the rules that end a game early.
use vstd::prelude::*;

verus! {

/// A side of the board.
#[derive(Clone, Copy, Debug, PartialEq, Eq, Structural)]
pub enum Color {
    White,
    Black,
}

/// The result of a position: still open, won by a side, or drawn.
#[derive(Clone, Copy, Debug, PartialEq, Eq, Structural)]
pub enum GameResult {
    NonTerminal,
    Decisive { winner: Color },
    Draw,
}

#[verifier::external_type_specification]
#[verifier::external_body]
pub struct ExChess(shakmaty::Chess);

#[verifier::external_type_specification]
#[verifier::external_body]
pub struct ExMove(shakmaty::Move);

/// Why a position ends the search of its line.
#[derive(Clone, Copy, Debug, PartialEq, Eq, Structural)]
pub enum Terminal {
    TwoFold,
    GameOver,
    Tablebase,
    NonTerminal,
}

/// The result of a position once the fifty-move rule and repetitions are
/// counted: a draw at a half-move clock of 100 or more, or after two earlier
/// occurrences of the position; else what the board shows.
pub open spec fn result_after_rules(halfmoves: u32, repetition_count: u8, board: GameResult) -> GameResult {
    if halfmoves >= 100 || repetition_count >= 2 {
        GameResult::Draw
    } else {
        board
    }
}

/// Why a position ends its line: the game is over (on the board, by the
/// fifty-move rule or by a third occurrence), or the position occurs for the
/// second time; tablebases are not consulted.
pub open spec fn terminal_kind_of(halfmoves: u32, repetition_count: u8, board: GameResult) -> Terminal {
    if !(result_after_rules(halfmoves, repetition_count, board) is NonTerminal) {
        Terminal::GameOver
    } else if repetition_count == 1 {
        Terminal::TwoFold
    } else {
        Terminal::NonTerminal
    }
}

/// Why a position ends its line, computed.
pub fn classify_terminal(halfmoves: u32, repetition_count: u8, board: GameResult) -> (r: Terminal)
    ensures
        r == terminal_kind_of(halfmoves, repetition_count, board),
{
    match apply_draw_rules(halfmoves, repetition_count, board) {
        GameResult::NonTerminal => if repetition_count == 1 {
            Terminal::TwoFold
        } else {
            Terminal::NonTerminal
        },
        _ => Terminal::GameOver,
    }
}

/// Applies the fifty-move rule and the repetition rule to the result that the
/// board shows.
pub fn apply_draw_rules(halfmoves: u32, repetition_count: u8, board: GameResult) -> (r: GameResult)
    ensures
        r == result_after_rules(halfmoves, repetition_count, board),
{
    if halfmoves >= 100 || repetition_count >= 2 {
        GameResult::Draw
    } else {
        board
    }
}

/// The half-move clock of a position.
pub uninterp spec fn halfmove_clock(p: shakmaty::Chess) -> u32;

/// The result that the board of a position shows: checkmate, stalemate or
/// insufficient material.
pub uninterp spec fn board_result(p: shakmaty::Chess) -> GameResult;

/// The side to move in a position.
pub uninterp spec fn side_to_move(p: shakmaty::Chess) -> Color;

/// The legal moves of a position, in the rules engine's order.
pub uninterp spec fn legal_moves_at(p: shakmaty::Chess) -> Seq<shakmaty::Move>;

/// The position after a move, or `None` when the move is illegal.
pub uninterp spec fn played(p: shakmaty::Chess, m: shakmaty::Move) -> Option<shakmaty::Chess>;

/// Whether two positions count as the same for repetitions.
pub uninterp spec fn same_as(a: shakmaty::Chess, b: shakmaty::Chess) -> bool;

/// Relies on shakmaty's `Chess::default`: the standard starting position
/// (`Chess::new`), with a zero half-move clock, White to move, and an open
/// board (twenty legal moves, no insufficient material).
#[verifier::external_body]
fn start_position() -> (r: shakmaty::Chess)
    ensures
        halfmove_clock(r) == 0,
        side_to_move(r) == Color::White,
        board_result(r) == GameResult::NonTerminal,
{
    shakmaty::Chess::default()
}

/// Relies on shakmaty's `Chess::clone`.
#[verifier::external_body]
fn copy_position(pos: &shakmaty::Chess) -> (r: shakmaty::Chess)
    ensures
        r == *pos,
{
    pos.clone()
}

/// Relies on shakmaty's `Position::halfmoves`: the half-move clock.
#[verifier::external_body]
fn halfmoves_of(pos: &shakmaty::Chess) -> (r: u32)
    ensures
        r == halfmove_clock(*pos),
{
    shakmaty::Position::halfmoves(pos)
}

/// Relies on shakmaty's `Position::turn`: the side to move.
#[verifier::external_body]
fn turn_of(pos: &shakmaty::Chess) -> (r: Color)
    ensures
        r == side_to_move(*pos),
{
    match shakmaty::Position::turn(pos) {
        shakmaty::Color::White => Color::White,
        shakmaty::Color::Black => Color::Black,
    }
}

/// Relies on shakmaty's `Position::outcome`: checkmate, stalemate or
/// insufficient material, without the fifty-move rule or repetitions.
#[verifier::external_body]
fn board_outcome(pos: &shakmaty::Chess) -> (r: GameResult)
    ensures
        r == board_result(*pos),
{
    match shakmaty::Position::outcome(pos) {
        None => GameResult::NonTerminal,
        Some(shakmaty::Outcome::Draw) => GameResult::Draw,
        Some(shakmaty::Outcome::Decisive { winner: shakmaty::Color::White }) => GameResult::Decisive {
            winner: Color::White,
        },
        Some(shakmaty::Outcome::Decisive { winner: shakmaty::Color::Black }) => GameResult::Decisive {
            winner: Color::Black,
        },
    }
}

/// Relies on shakmaty's `Position::legal_moves`: the legal moves, in its order.
#[verifier::external_body]
fn legal_moves_of(pos: &shakmaty::Chess) -> (r: Vec<shakmaty::Move>)
    ensures
        r@ == legal_moves_at(*pos),
{
    shakmaty::Position::legal_moves(pos).into_iter().collect()
}

/// Relies on shakmaty's `Position::play`: the position after a legal move, or
/// `None` for an illegal one.
#[verifier::external_body]
fn play_on(pos: &shakmaty::Chess, m: &shakmaty::Move) -> (r: Option<shakmaty::Chess>)
    ensures
        r == played(*pos, *m),
{
    shakmaty::Position::play(pos.clone(), m).ok()
}

/// Relies on shakmaty's `PartialEq for Chess`: equal as repeated positions
/// under FIDE rules.
#[verifier::external_body]
fn same_position(a: &shakmaty::Chess, b: &shakmaty::Chess) -> (r: bool)
    ensures
        r == same_as(*a, *b),
{
    a == b
}

/// A position and what the game's history says of it.
pub struct GameState {
    pub position: shakmaty::Chess,
    /// How many half-moves back the position last occurred, or `0`.
    pub cycle_length: u8,
    /// How many times the position occurred before in the game.
    pub repetition_count: u8,
}

impl GameState {
    /// The starting position, never seen before.
    pub fn new() -> (r: GameState)
        ensures
            r.cycle_length == 0,
            r.repetition_count == 0,
            halfmove_clock(r.position) == 0,
            side_to_move(r.position) == Color::White,
            board_result(r.position) == GameResult::NonTerminal,
            r.spec_result() == GameResult::NonTerminal,
    {
        GameState { position: start_position(), cycle_length: 0, repetition_count: 0 }
    }

    /// A position that the game has not seen before.
    pub fn from_position(position: shakmaty::Chess) -> (r: GameState)
        ensures
            r.position == position,
            r.cycle_length == 0,
            r.repetition_count == 0,
    {
        GameState { position, cycle_length: 0, repetition_count: 0 }
    }

    pub fn position(&self) -> (r: &shakmaty::Chess)
        ensures
            *r == self.position,
    {
        &self.position
    }

    pub fn repetition_count(&self) -> (r: u8)
        ensures
            r == self.repetition_count,
    {
        self.repetition_count
    }

    /// The side to move.
    pub fn turn(&self) -> (r: Color)
        ensures
            r == side_to_move(self.position),
    {
        turn_of(&self.position)
    }

    /// The half-move clock.
    pub fn halfmoves(&self) -> (r: u32)
        ensures
            r == halfmove_clock(self.position),
    {
        halfmoves_of(&self.position)
    }

    /// The legal moves, in the rules engine's order.
    pub fn legal_moves(&self) -> (r: Vec<shakmaty::Move>)
        ensures
            r@ == legal_moves_at(self.position),
    {
        legal_moves_of(&self.position)
    }

    /// The result of the position, with the draw rules applied.
    pub open spec fn spec_result(&self) -> GameResult {
        result_after_rules(halfmove_clock(self.position), self.repetition_count, board_result(self.position))
    }

    /// Whether the position is still open, so that it needs an evaluation.
    pub fn needs_evaluation(&self) -> (r: bool)
        ensures
            r == (self.spec_result() is NonTerminal),
    {
        match self.compute_game_result() {
            GameResult::NonTerminal => true,
            _ => false,
        }
    }

    /// The result of the position: the board's result, with the fifty-move rule
    /// and repetitions applied.
    pub fn compute_game_result(&self) -> (r: GameResult)
        ensures
            r == self.spec_result(),
            self.repetition_count >= 2 ==> r == GameResult::Draw,
    {
        let h = halfmoves_of(&self.position);
        let b = board_outcome(&self.position);
        apply_draw_rules(h, self.repetition_count, b)
    }

    /// Why the position ends its line.
    pub fn terminal_kind(&self) -> (r: Terminal)
        ensures
            r == terminal_kind_of(halfmove_clock(self.position), self.repetition_count, board_result(self.position)),
    {
        let h = halfmoves_of(&self.position);
        let b = board_outcome(&self.position);
        classify_terminal(h, self.repetition_count, b)
    }

    /// The state after move `m`, where `history` holds the game's earlier
    /// positions, oldest first; `None` when the move is illegal.
    pub fn play(&self, history: &Vec<shakmaty::Chess>, m: &shakmaty::Move) -> (r: Option<GameState>)
        ensures
            r is Some <==> played(self.position, *m) is Some,
            r matches Some(s) ==> {
                let seen = comparisons(history@, self.position, s.position);
                &&& Some(s.position) == played(self.position, *m)
                &&& s.repetition_count == repetition_count_of(seen)
                &&& s.cycle_length == cycle_length_of(seen)
            },
    {
        match play_on(&self.position, m) {
            None => None,
            Some(next) => {
                let mut seen: Vec<bool> = Vec::new();
                let n = history.len();
                let mut i: usize = 0;
                let ghost want = comparisons(history@, self.position, next);
                while i < n
                    invariant
                        i <= n,
                        n == history.len(),
                        want == comparisons(history@, self.position, next),
                        seen@ == want.take(i as int),
                    decreases n - i,
                {
                    seen.push(same_position(&history[i], &next));
                    i = i + 1;
                    assert(seen@ =~= want.take(i as int));
                }
                seen.push(same_position(&self.position, &next));
                assert(seen@ =~= want);
                let (count, cycle) = repetitions(&seen);
                Some(GameState { position: next, cycle_length: cycle, repetition_count: count })
            },
        }
    }
}

/// Whether each earlier position (the history, oldest first, then the position
/// moved from) is the same as the new one.
pub open spec fn comparisons(history: Seq<shakmaty::Chess>, from: shakmaty::Chess, next: shakmaty::Chess) -> Seq<bool> {
    Seq::new(
        history.len() + 1,
        |i: int|
            if i < history.len() {
                same_as(history[i], next)
            } else {
                same_as(from, next)
            },
    )
}

/// The number of `true` entries.
pub open spec fn count_true(s: Seq<bool>) -> int
    decreases s.len(),
{
    if s.len() == 0 {
        0
    } else {
        count_true(s.drop_last()) + if s.last() {
            1int
        } else {
            0
        }
    }
}

/// The index of the last `true` entry, or `-1`.
pub open spec fn last_true(s: Seq<bool>) -> int
    decreases s.len(),
{
    if s.len() == 0 {
        -1
    } else if s.last() {
        s.len() - 1
    } else {
        last_true(s.drop_last())
    }
}

/// How many earlier positions equal the new one, where `seen[i]` tells whether
/// the `i`-th earlier position (oldest first) does; at most `255`.
pub open spec fn repetition_count_of(seen: Seq<bool>) -> u8 {
    if count_true(seen) >= 255 {
        255
    } else {
        count_true(seen) as u8
    }
}

/// How many half-moves back the new position last occurred, or `0` when it did
/// not occur or lies more than `255` half-moves back.
pub open spec fn cycle_length_of(seen: Seq<bool>) -> u8 {
    let d = seen.len() - last_true(seen);
    if last_true(seen) >= 0 && d <= 255 {
        d as u8
    } else {
        0
    }
}

proof fn lemma_count_true_bound(s: Seq<bool>)
    ensures
        0 <= count_true(s) <= s.len(),
        -1 <= last_true(s) < s.len(),
    decreases s.len(),
{
    if s.len() > 0 {
        lemma_count_true_bound(s.drop_last());
    }
}

/// Counts the repetitions of a new position from the comparisons with the
/// earlier ones, oldest first.
pub fn repetitions(seen: &Vec<bool>) -> (r: (u8, u8))
    ensures
        r.0 == repetition_count_of(seen@),
        r.1 == cycle_length_of(seen@),
{
    let n = seen.len();
    let mut count: u64 = 0;
    let mut last: Option<usize> = None;
    let mut i: usize = 0;
    while i < n
        invariant
            i <= n,
            n == seen.len(),
            count == count_true(seen@.take(i as int)),
            match last {
                Some(k) => k == last_true(seen@.take(i as int)) && k < i,
                None => last_true(seen@.take(i as int)) == -1,
            },
        decreases n - i,
    {
        assert(seen@.take(i + 1).drop_last() =~= seen@.take(i as int));
        proof {
            lemma_count_true_bound(seen@.take(i as int));
        }
        if seen[i] {
            count = count + 1;
            last = Some(i);
        }
        i = i + 1;
    }
    assert(seen@.take(n as int) =~= seen@);
    let c: u8 = if count >= 255 {
        255
    } else {
        count as u8
    };
    let cycle: u8 = match last {
        Some(k) => if n - k <= 255 {
            (n - k) as u8
        } else {
            0
        },
        None => 0,
    };
    (c, cycle)
}

impl GameState {
    /// A copy of the state.
    pub fn duplicate(&self) -> (r: GameState)
        ensures
            r.position == self.position,
            r.cycle_length == self.cycle_length,
            r.repetition_count == self.repetition_count,
    {
        GameState {
            position: copy_position(&self.position),
            cycle_length: self.cycle_length,
            repetition_count: self.repetition_count,
        }
    }

    /// The state after playing from `self` the moves `moves`, each given as its
    /// index among the legal moves of the position it is played in; `history`
    /// holds the game's positions before `self`, oldest first. `None` when an
    /// index is out of range.
    pub fn after_moves(&self, history: &Vec<shakmaty::Chess>, moves: &Vec<u32>) -> (r: Option<GameState>)
        ensures
            r is Some <==> replayed(self.position, moves@) is Some,
            r matches Some(s) ==> Some(s.position) == replayed(self.position, moves@),
            moves.len() == 0 ==> (r matches Some(s) && s.repetition_count == self.repetition_count),
    {
        let mut seen: Vec<shakmaty::Chess> = Vec::new();
        let mut j: usize = 0;
        while j < history.len()
            invariant
                j <= history.len(),
            decreases history.len() - j,
        {
            seen.push(copy_position(&history[j]));
            j = j + 1;
        }
        let mut state = self.duplicate();
        let mut i: usize = 0;
        while i < moves.len()
            invariant
                i <= moves.len(),
                i == 0 ==> state.repetition_count == self.repetition_count,
                replayed(self.position, moves@.take(i as int)) == Some(state.position),
            decreases moves.len() - i,
        {
            let legal = state.legal_moves();
            let k = moves[i] as usize;
            assert(moves@.take(i + 1).drop_last() =~= moves@.take(i as int));
            if k >= legal.len() {
                proof {
                    lemma_replay_stuck(self.position, moves@, i + 1);
                }
                return None;
            }
            match state.play(&seen, &legal[k]) {
                None => {
                    proof {
                        lemma_replay_stuck(self.position, moves@, i + 1);
                    }
                    return None;
                },
                Some(next) => {
                    seen.push(copy_position(&state.position));
                    state = next;
                },
            }
            i = i + 1;
        }
        assert(moves@.take(moves.len() as int) =~= moves@);
        Some(state)
    }
}

/// The position reached from `p` by the moves `moves`, each given as its index
/// among the legal moves of the position it is played in; `None` when an index
/// is out of range or a move cannot be played.
pub open spec fn replayed(p: shakmaty::Chess, moves: Seq<u32>) -> Option<shakmaty::Chess>
    decreases moves.len(),
{
    if moves.len() == 0 {
        Some(p)
    } else {
        match replayed(p, moves.drop_last()) {
            None => None,
            Some(q) => {
                let k = moves.last() as int;
                if k < legal_moves_at(q).len() {
                    played(q, legal_moves_at(q)[k])
                } else {
                    None
                }
            },
        }
    }
}

/// Once a prefix cannot be replayed, no longer sequence can.
proof fn lemma_replay_stuck(p: shakmaty::Chess, moves: Seq<u32>, k: int)
    requires
        0 <= k <= moves.len(),
        replayed(p, moves.take(k)) is None,
    ensures
        replayed(p, moves) is None,
    decreases moves.len() - k,
{
    if k < moves.len() {
        assert(moves.take(k + 1).drop_last() =~= moves.take(k));
        lemma_replay_stuck(p, moves, k + 1);
    } else {
        assert(moves.take(k) =~= moves);
    }
}

} // verus!
