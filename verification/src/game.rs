//! The turn-based game-state machine wrapped around a board: alternating
//! turns, a move counter, a consecutive-pass counter that ends the game on
//! two passes in a row, and resignation.

use crate::board::Board;
use crate::board::Color;
use crate::board::IllegalMove;
use crate::board::Point;
use vstd::prelude::*;

verus! {

/// The character for one decimal digit.
pub open spec fn dec_digit(d: int) -> char {
    if d == 0 {
        '0'
    } else if d == 1 {
        '1'
    } else if d == 2 {
        '2'
    } else if d == 3 {
        '3'
    } else if d == 4 {
        '4'
    } else if d == 5 {
        '5'
    } else if d == 6 {
        '6'
    } else if d == 7 {
        '7'
    } else if d == 8 {
        '8'
    } else {
        '9'
    }
}

/// The usual decimal rendering of a non-negative integer, most
/// significant digit first, with no leading zeros.
pub open spec fn dec_seq(n: nat) -> Seq<char>
    decreases n,
{
    if n < 10 {
        seq![dec_digit(n as int)]
    } else {
        dec_seq(n / 10).push(dec_digit((n % 10) as int))
    }
}

fn digit_string(d: usize) -> (r: String)
    requires
        d < 10,
    ensures
        r@ == seq![dec_digit(d as int)],
{
    let s = match d {
        0 => String::from_str("0"),
        1 => String::from_str("1"),
        2 => String::from_str("2"),
        3 => String::from_str("3"),
        4 => String::from_str("4"),
        5 => String::from_str("5"),
        6 => String::from_str("6"),
        7 => String::from_str("7"),
        8 => String::from_str("8"),
        _ => String::from_str("9"),
    };
    proof {
        reveal_strlit("0");
        reveal_strlit("1");
        reveal_strlit("2");
        reveal_strlit("3");
        reveal_strlit("4");
        reveal_strlit("5");
        reveal_strlit("6");
        reveal_strlit("7");
        reveal_strlit("8");
        reveal_strlit("9");
        assert(s@ =~= seq![dec_digit(d as int)]);
    }
    s
}

fn decimal_string(n: usize) -> (r: String)
    ensures
        r@ == dec_seq(n as nat),
    decreases n,
{
    if n < 10 {
        digit_string(n)
    } else {
        let mut s = decimal_string(n / 10);
        let d = digit_string(n % 10);
        s.append(d.as_str());
        proof {
            assert(s@ =~= dec_seq((n / 10) as nat).push(dec_digit((n % 10) as int)));
        }
        s
    }
}

/// The name of a color as shown in the game report.
pub open spec fn color_name(c: Color) -> Seq<char> {
    match c {
        Color::Black => "Black"@,
        Color::White => "White"@,
    }
}

/// The name of a game status as shown in the game report.
pub open spec fn status_name(s: GameStatus) -> Seq<char> {
    match s {
        GameStatus::Playing => "Playing"@,
        GameStatus::Finished => "Finished"@,
    }
}

/// The header lines of the textual game report: turn, move count and
/// status, one per line.
pub open spec fn game_header(g: Game) -> Seq<char> {
    "Current Turn: "@ + color_name(g.current_turn) + "\n"@ + "Move Count: "@ + dec_seq(
        g.move_count as nat,
    ) + "\n"@ + "Game Status: "@ + status_name(g.status) + "\n"@
}

/// A cell of the snapshot at row `x`, column `y` lies within the row-major
/// layout of an `n`-by-`n` board with one newline per row.
proof fn lemma_render_bounds(n: int, x: int, y: int)
    requires
        0 <= x < n,
        0 <= y <= n,
    ensures
        0 <= x * (n + 1) + y < n * (n + 1),
{
    assert(0 <= x * (n + 1) + y < n * (n + 1)) by (nonlinear_arith)
        requires
            0 <= x < n,
            0 <= y <= n,
    ;
}

/// Whether a game is still being played or has ended.
#[derive(Copy, Clone, Debug, PartialEq, Eq, Structural)]
pub enum GameStatus {
    Playing,
    Finished,
}

/// A record of an accepted move, naming the color that made it.
#[derive(Copy, Clone, Debug, PartialEq, Eq, Structural)]
pub enum Move {
    Pass(Color),
    Resign(Color),
    Play(Color, Point),
}

/// One game: a board plus the turn state.  `status` moves from `Playing`
/// to `Finished` exactly once, on the second consecutive pass or on a
/// resignation; operations on a finished game fail with `GameOver`.
#[derive(Debug)]
pub struct Game {
    pub board: Board,
    pub current_turn: Color,
    pub move_count: usize,
    pub status: GameStatus,
    pub winner: Option<Color>,
    pub consecutive_passes: u8,
}

impl Game {
    /// The consecutive-pass counter.
    pub open spec fn spec_passes(self) -> int {
        self.consecutive_passes as int
    }

    /// The game invariant: the board is well formed, the pass counter
    /// never exceeds two, and reaching two passes has finished the game.
    pub open spec fn well_formed(self) -> bool {
        &&& self.board.well_formed()
        &&& 0 <= self.spec_passes() <= 2
        &&& self.spec_passes() == 2 ==> self.status == GameStatus::Finished
    }

    pub fn new(size: usize) -> (r: Game)
        requires
            size * size <= usize::MAX,
        ensures
            r.well_formed(),
            r.board.spec_size() == size,
            forall|p: Point| r.board.occupant(p) is None,
            r.current_turn == Color::Black,
            r.move_count == 0,
            r.status == GameStatus::Playing,
            r.winner is None,
            r.spec_passes() == 0,
    {
        Game {
            board: Board::new(size),
            current_turn: Color::Black,
            move_count: 0,
            status: GameStatus::Playing,
            winner: None,
            consecutive_passes: 0,
        }
    }

    /// Plays a stone for the color whose turn it is.  On success the turn
    /// passes to the opponent, the move count rises by one and the pass
    /// counter resets; on any failure nothing changes and the error of the
    /// underlying placement (or `GameOver`) is reported unchanged.
    pub fn play(&mut self, point: Point) -> (r: Result<Move, IllegalMove>)
        requires
            old(self).well_formed(),
            old(self).move_count < usize::MAX,
        ensures
            final(self).well_formed(),
            old(self).status == GameStatus::Finished ==> r == Err::<Move, IllegalMove>(
                IllegalMove::GameOver,
            ) && *final(self) == *old(self),
            r is Err ==> *final(self) == *old(self),
            old(self).status == GameStatus::Playing ==> {
                &&& (r is Ok <==> old(self).board.legal_play(old(self).current_turn, point))
                &&& (r == Err::<Move, IllegalMove>(IllegalMove::OffBoard) <==> !old(
                    self,
                ).board.in_bounds(point))
                &&& (r == Err::<Move, IllegalMove>(IllegalMove::Occupied) <==> old(
                    self,
                ).board.in_bounds(point) && old(self).board.occupant(point) is Some)
                &&& (r == Err::<Move, IllegalMove>(IllegalMove::Suicide) <==> old(
                    self,
                ).board.in_bounds(point) && old(self).board.occupant(point) is None && !old(
                    self,
                ).board.legal_play(old(self).current_turn, point))
            },
            r is Ok ==> {
                &&& old(self).status == GameStatus::Playing
                &&& r == Ok::<Move, IllegalMove>(Move::Play(old(self).current_turn, point))
                &&& final(self).current_turn == old(self).current_turn.opposite()
                &&& final(self).move_count == old(self).move_count + 1
                &&& final(self).spec_passes() == 0
                &&& final(self).status == old(self).status
                &&& final(self).winner == old(self).winner
                &&& final(self).board.spec_size() == old(self).board.spec_size()
                &&& final(self).board.occupant(point) == Some(old(self).current_turn)
                &&& forall|q: Point|
                    old(self).board.in_bounds(q) && q != point ==> final(self).board.occupant(q)
                        == (if old(self).board.occupant(q) == Some(
                        old(self).current_turn.opposite(),
                    ) && old(self).board.group_captured_by(q, point) {
                        None::<Color>
                    } else {
                        old(self).board.occupant(q)
                    })
            },
    {
        match self.status {
            GameStatus::Finished => Err(IllegalMove::GameOver),
            GameStatus::Playing => {
                let mover = self.current_turn;
                match self.board.place_stone(mover, point) {
                    Ok(()) => {
                        self.move_count = self.move_count + 1;
                        self.consecutive_passes = 0;
                        self.current_turn = mover.next();
                        Ok(Move::Play(mover, point))
                    },
                    Err(e) => Err(e),
                }
            },
        }
    }

    /// Passes for the color whose turn it is.  The move count and the pass
    /// counter rise by one and the turn passes to the opponent; a second
    /// consecutive pass finishes the game without computing a winner.
    pub fn pass(&mut self) -> (r: Result<Move, IllegalMove>)
        requires
            old(self).well_formed(),
            old(self).move_count < usize::MAX,
        ensures
            final(self).well_formed(),
            old(self).status == GameStatus::Finished ==> r == Err::<Move, IllegalMove>(
                IllegalMove::GameOver,
            ) && *final(self) == *old(self),
            old(self).status == GameStatus::Playing ==> {
                &&& r == Ok::<Move, IllegalMove>(Move::Pass(old(self).current_turn))
                &&& final(self).board == old(self).board
                &&& final(self).current_turn == old(self).current_turn.opposite()
                &&& final(self).move_count == old(self).move_count + 1
                &&& final(self).spec_passes() == old(self).spec_passes() + 1
                &&& final(self).status == (if old(self).spec_passes() + 1 >= 2 {
                    GameStatus::Finished
                } else {
                    GameStatus::Playing
                })
                &&& final(self).winner == old(self).winner
            },
    {
        match self.status {
            GameStatus::Finished => Err(IllegalMove::GameOver),
            GameStatus::Playing => {
                let passer = self.current_turn;
                self.move_count = self.move_count + 1;
                self.consecutive_passes = self.consecutive_passes + 1;
                self.current_turn = passer.next();
                if self.consecutive_passes >= 2 {
                    self.status = GameStatus::Finished;
                }
                Ok(Move::Pass(passer))
            },
        }
    }

    /// The textual game report: the header lines (turn, move count,
    /// status) followed by the board snapshot, suitable for rendering
    /// verbatim.
    pub fn to_string(&self) -> (r: String)
        requires
            self.well_formed(),
        ensures
            r@.len() == game_header(*self).len() + self.board.spec_size() * (
            self.board.spec_size() + 1),
            r@.subrange(0, game_header(*self).len() as int) == game_header(*self),
            forall|x: int, y: int|
                0 <= x < self.board.spec_size() && 0 <= y < self.board.spec_size()
                    ==> #[trigger] r@[game_header(*self).len() + x * (self.board.spec_size() + 1)
                    + y] == crate::board::cell_char(
                    self.board.occupant(Point(x as usize, y as usize)),
                ),
            forall|x: int|
                0 <= x < self.board.spec_size() ==> #[trigger] r@[game_header(*self).len() + x * (
                self.board.spec_size() + 1) + self.board.spec_size()] == '\n',
    {
        let mut s = String::from_str("Current Turn: ");
        match self.current_turn {
            Color::Black => s.append("Black"),
            Color::White => s.append("White"),
        }
        s.append("\n");
        s.append("Move Count: ");
        let count = decimal_string(self.move_count);
        s.append(count.as_str());
        s.append("\n");
        s.append("Game Status: ");
        match self.status {
            GameStatus::Playing => s.append("Playing"),
            GameStatus::Finished => s.append("Finished"),
        }
        s.append("\n");
        proof {
            assert(s@ == game_header(*self));
        }
        let board_part = self.board.to_string();
        let ghost header = s@;
        s.append(board_part.as_str());
        proof {
            assert(s@ == header + board_part@);
            assert(s@.subrange(0, header.len() as int) =~= header);
            let n = self.board.spec_size();
            assert forall|x: int, y: int| 0 <= x < n && 0 <= y < n
                implies #[trigger] s@[header.len() + x * (n + 1) + y]
                    == crate::board::cell_char(
                    self.board.occupant(Point(x as usize, y as usize)),
                ) by {
                lemma_render_bounds(n, x, y);
                assert(s@[header.len() + x * (n + 1) + y] == board_part@[x * (n + 1) + y]);
            }
            assert forall|x: int| 0 <= x < n
                implies #[trigger] s@[header.len() + x * (n + 1) + n] == '\n' by {
                lemma_render_bounds(n, x, n);
                assert(s@[header.len() + x * (n + 1) + n] == board_part@[x * (n + 1) + n]);
            }
        }
        s
    }

    /// Resigns for the color whose turn it is: the game finishes at once
    /// and the opponent is recorded as the winner.  The turn and the move
    /// count are left as they were.
    pub fn resign(&mut self) -> (r: Result<Move, IllegalMove>)
        requires
            old(self).well_formed(),
        ensures
            final(self).well_formed(),
            old(self).status == GameStatus::Finished ==> r == Err::<Move, IllegalMove>(
                IllegalMove::GameOver,
            ) && *final(self) == *old(self),
            old(self).status == GameStatus::Playing ==> {
                &&& r == Ok::<Move, IllegalMove>(Move::Resign(old(self).current_turn))
                &&& final(self).status == GameStatus::Finished
                &&& final(self).winner == Some(old(self).current_turn.opposite())
                &&& final(self).current_turn == old(self).current_turn
                &&& final(self).move_count == old(self).move_count
                &&& final(self).board == old(self).board
                &&& final(self).spec_passes() == old(self).spec_passes()
            },
    {
        match self.status {
            GameStatus::Finished => Err(IllegalMove::GameOver),
            GameStatus::Playing => {
                self.status = GameStatus::Finished;
                self.winner = Some(self.current_turn.next());
                Ok(Move::Resign(self.current_turn))
            },
        }
    }
}

} // verus!
