//! Session logic: dispatching parsed commands against the shared board,
//! and the username bookkeeping of the broadcast transport.
//!
//! The transports themselves (a line-oriented text connection and a
//! message-oriented broadcast channel) live outside the library; they
//! hand whole lines in and send the returned strings out.  Holding the
//! board lock is the caller's duty: every function here takes the board
//! by exclusive reference for the duration of one command.

use vstd::prelude::*;
use vstd::string::StringExecFns;

use crate::board::{
    Board, BoardView, Cell, board_render, complete_spec, deflag_spec, dig_boom, dig_spec,
    flag_spec, valid_coord, wf,
};
use crate::protocol::{parse_command, parse_spec, Command};

verus! {

/// What becomes of a session after one command.
#[derive(Clone, Copy, PartialEq, Eq, Structural, Debug)]
pub enum SessionStatus {
    /// The session keeps looping.
    Continue,
    /// The client said goodbye; nothing more is sent.
    Bye,
    /// The client detonated a bomb; the notice is sent and the session
    /// ends.
    Boom,
}

/// The usage text sent for `help` and for any line the grammar does not
/// recognize.
pub open spec fn help_view() -> Seq<char> {
    "Commands: \nlook\ndig [X] [Y]\nflag [X] [Y]\ndeflag [X] [Y]\nbye\n"@
}

/// The board after one command line.  Commands carry the column first,
/// so `dig x y` digs row `y`, column `x`.
pub open spec fn line_next(v: BoardView, s: Seq<char>) -> BoardView {
    match parse_spec(s) {
        Command::Dig(x, y) => dig_spec(v, y as int, x as int),
        Command::Flag(x, y) => flag_spec(v, y as int, x as int),
        Command::Deflag(x, y) => deflag_spec(v, y as int, x as int),
        _ => v,
    }
}

/// The text answered to one command line.
pub open spec fn line_response(v: BoardView, s: Seq<char>) -> Seq<char> {
    match parse_spec(s) {
        Command::Look => board_render(v.cells),
        Command::Help => help_view(),
        Command::Unknown => help_view(),
        Command::Bye => Seq::empty(),
        Command::Dig(x, y) => if dig_boom(v, y as int, x as int) {
            "BOOM"@
        } else {
            board_render(dig_spec(v, y as int, x as int).cells)
        },
        Command::Flag(x, y) => board_render(flag_spec(v, y as int, x as int).cells),
        Command::Deflag(x, y) => board_render(deflag_spec(v, y as int, x as int).cells),
    }
}

/// Whether the session survives one command line.
pub open spec fn line_status(v: BoardView, s: Seq<char>) -> SessionStatus {
    match parse_spec(s) {
        Command::Bye => SessionStatus::Bye,
        Command::Dig(x, y) => if dig_boom(v, y as int, x as int) {
            SessionStatus::Boom
        } else {
            SessionStatus::Continue
        },
        _ => SessionStatus::Continue,
    }
}

/// The help text as a value.
pub fn help_text() -> (r: String)
    ensures
        r@ == help_view(),
{
    String::from_str("Commands: \nlook\ndig [X] [Y]\nflag [X] [Y]\ndeflag [X] [Y]\nbye\n")
}

/// The decimal digit `d` as a character.
pub open spec fn dec_digit(d: int) -> char {
    ((48 + d) as u8) as char
}

/// The decimal numeral of `n`, most significant digit first.
pub open spec fn dec_str(n: int) -> Seq<char>
    decreases n,
{
    if n < 10 {
        seq![dec_digit(n)]
    } else {
        dec_str(n / 10) + seq![dec_digit(n % 10)]
    }
}

/// One decimal digit as a string slice.
fn digit_str(d: usize) -> (r: &'static str)
    requires
        d < 10,
    ensures
        r@ == seq![dec_digit(d as int)],
{
    if d == 0 {
        proof {
            reveal_strlit("0");
            assert("0"@ =~= seq![dec_digit(0)]);
        }
        "0"
    } else if d == 1 {
        proof {
            reveal_strlit("1");
            assert("1"@ =~= seq![dec_digit(1)]);
        }
        "1"
    } else if d == 2 {
        proof {
            reveal_strlit("2");
            assert("2"@ =~= seq![dec_digit(2)]);
        }
        "2"
    } else if d == 3 {
        proof {
            reveal_strlit("3");
            assert("3"@ =~= seq![dec_digit(3)]);
        }
        "3"
    } else if d == 4 {
        proof {
            reveal_strlit("4");
            assert("4"@ =~= seq![dec_digit(4)]);
        }
        "4"
    } else if d == 5 {
        proof {
            reveal_strlit("5");
            assert("5"@ =~= seq![dec_digit(5)]);
        }
        "5"
    } else if d == 6 {
        proof {
            reveal_strlit("6");
            assert("6"@ =~= seq![dec_digit(6)]);
        }
        "6"
    } else if d == 7 {
        proof {
            reveal_strlit("7");
            assert("7"@ =~= seq![dec_digit(7)]);
        }
        "7"
    } else if d == 8 {
        proof {
            reveal_strlit("8");
            assert("8"@ =~= seq![dec_digit(8)]);
        }
        "8"
    } else {
        proof {
            reveal_strlit("9");
            assert("9"@ =~= seq![dec_digit(9)]);
        }
        "9"
    }
}

/// The decimal numeral of `n`.
fn usize_dec(n: usize) -> (r: String)
    ensures
        r@ == dec_str(n as int),
    decreases n,
{
    if n < 10 {
        String::from_str(digit_str(n))
    } else {
        let mut s = usize_dec(n / 10);
        s.append(digit_str(n % 10));
        s
    }
}

/// The greeting of the text transport, naming the player count and the
/// board's dimensions.
pub open spec fn welcome_view(players: int, cols: int, rows: int) -> Seq<char> {
    "Welcome to Minesweeper. Player "@ + dec_str(players) + " including you. Board: "@ + dec_str(
        cols,
    ) + " columns by "@ + dec_str(rows) + " rows. Type 'help' for help. \n> "@
}

/// Builds the greeting sent when a session joins the text transport.
pub fn welcome_message(players: usize, cols: usize, rows: usize) -> (r: String)
    ensures
        r@ == welcome_view(players as int, cols as int, rows as int),
{
    let mut s = String::from_str("Welcome to Minesweeper. Player ");
    let p = usize_dec(players);
    s.append(p.as_str());
    s.append(" including you. Board: ");
    let c = usize_dec(cols);
    s.append(c.as_str());
    s.append(" columns by ");
    let w = usize_dec(rows);
    s.append(w.as_str());
    s.append(" rows. Type 'help' for help. \n> ");
    s
}

/// Handles one line of the text protocol: parses it, applies it to the
/// board, and returns the response together with the fate of the
/// session.  Malformed lines are answered with the help text and the
/// session continues.
pub fn handle_line(board: &mut Board, line: &str) -> (r: (String, SessionStatus))
    requires
        wf(old(board)@),
    ensures
        wf(final(board)@),
        final(board)@ == line_next(old(board)@, line@),
        r.0@ == line_response(old(board)@, line@),
        r.1 == line_status(old(board)@, line@),
{
    match parse_command(line) {
        Command::Look => (board.render(), SessionStatus::Continue),
        Command::Help => (help_text(), SessionStatus::Continue),
        Command::Unknown => (help_text(), SessionStatus::Continue),
        Command::Bye => (String::new(), SessionStatus::Bye),
        Command::Dig(x, y) => {
            let boom = dig_would_boom(board, y, x);
            let out = board.dig(y, x);
            if boom {
                (out, SessionStatus::Boom)
            } else {
                (out, SessionStatus::Continue)
            }
        },
        Command::Flag(x, y) => (board.flag(y, x), SessionStatus::Continue),
        Command::Deflag(x, y) => (board.deflag(y, x), SessionStatus::Continue),
    }
}

/// Whether digging `(x, y)` would detonate: on the grid, untouched and
/// bomb-laden.
fn dig_would_boom(board: &Board, x: i32, y: i32) -> (r: bool)
    requires
        wf(board@),
    ensures
        r == dig_boom(board@, x as int, y as int),
{
    if !board.is_valid_coordinate(x, y) {
        return false;
    }
    board.cell_is_untouched_bomb(x as usize, y as usize)
}

/// What the broadcast transport sends after one command.
#[derive(Clone, Copy, PartialEq, Eq, Structural, Debug)]
pub enum WsReply {
    /// Send the board state to everyone.
    Board,
    /// Tell the digging client it detonated, and everyone else the new
    /// board state; that session then ends.
    Boom,
    /// The board is complete: tell everyone, after resetting in place.
    Win,
}

/// A board freshly regenerated from `v`: same shape, same players, all
/// cells untouched again.
pub open spec fn is_reset_of(v: BoardView, r: BoardView) -> bool {
    &&& wf(r)
    &&& r.size_x == v.size_x
    &&& r.size_y == v.size_y
    &&& r.players == v.players
    &&& r.percent == v.percent
    &&& forall|x: int, y: int| valid_coord(r, x, y) ==> r.cells[x][y] == Cell::Untouched
}

/// Handles one command of the broadcast transport.  A dig that
/// completes the board wins the round and resets the board in place; a
/// detonation ends only the digging session; everything else just
/// republishes the board.
pub fn ws_step(board: &mut Board, line: &str) -> (r: WsReply)
    requires
        wf(old(board)@),
    ensures
        wf(final(board)@),
        match parse_spec(line@) {
            Command::Dig(x, y) => {
                let v1 = dig_spec(old(board)@, y as int, x as int);
                if complete_spec(v1) {
                    r == WsReply::Win && is_reset_of(v1, final(board)@)
                } else {
                    final(board)@ == v1 && r == (if dig_boom(old(board)@, y as int, x as int) {
                        WsReply::Boom
                    } else {
                        WsReply::Board
                    })
                }
            },
            Command::Flag(x, y) => final(board)@ == flag_spec(old(board)@, y as int, x as int) && r
                == WsReply::Board,
            Command::Deflag(x, y) => final(board)@ == deflag_spec(old(board)@, y as int, x as int) && r
                == WsReply::Board,
            _ => final(board)@ == old(board)@ && r == WsReply::Board,
        },
{
    match parse_command(line) {
        Command::Dig(x, y) => {
            let boom = dig_would_boom(board, y, x);
            let _render = board.dig(y, x);
            if board.is_complete() {
                board.reset();
                WsReply::Win
            } else if boom {
                WsReply::Boom
            } else {
                WsReply::Board
            }
        },
        Command::Flag(x, y) => {
            let _render = board.flag(y, x);
            WsReply::Board
        },
        Command::Deflag(x, y) => {
            let _render = board.deflag(y, x);
            WsReply::Board
        },
        _ => WsReply::Board,
    }
}

/// The set of usernames currently connected on the broadcast
/// transport; a name may be held by at most one session.
pub struct UserSet {
    names: Vec<String>,
}

impl View for UserSet {
    type V = Seq<Seq<char>>;

    closed spec fn view(&self) -> Seq<Seq<char>> {
        self.names.deep_view()
    }
}

impl UserSet {
    /// An empty registry.
    pub fn new() -> (r: UserSet)
        ensures
            r@ == Seq::<Seq<char>>::empty(),
    {
        let r = UserSet { names: Vec::new() };
        proof {
            assert(r@ =~= Seq::<Seq<char>>::empty());
        }
        r
    }

    /// Whether a name is already taken.
    pub fn contains_name(&self, name: &String) -> (r: bool)
        ensures
            r == self@.contains(name@),
    {
        let mut i: usize = 0;
        while i < self.names.len()
            invariant
                i <= self@.len(),
                self@.len() == self.names@.len(),
                forall|k: int| 0 <= k < i ==> self@[k] != name@,
            decreases self@.len() - i,
        {
            let hit = self.names[i] == *name;
            proof {
                assert(self@[i as int] == self.names@[i as int].deep_view());
                assert(self.names@[i as int].deep_view() == self.names@[i as int]@);
            }
            if hit {
                proof {
                    assert(self@[i as int] == name@);
                }
                return true;
            }
            i = i + 1;
        }
        proof {
            if self@.contains(name@) {
                let k = choose|k: int| 0 <= k < self@.len() && self@[k] == name@;
                assert(self@[k] != name@);
            }
        }
        false
    }

    /// Claims a name: succeeds and records it exactly when no connected
    /// session holds it already.
    pub fn claim(&mut self, name: &String) -> (r: bool)
        ensures
            r == !old(self)@.contains(name@),
            r ==> final(self)@ == old(self)@.push(name@),
            !r ==> final(self)@ == old(self)@,
    {
        if self.contains_name(name) {
            false
        } else {
            self.names.push(name.clone());
            proof {
                assert(self@ =~= old(self)@.push(name@));
            }
            true
        }
    }

    /// Releases a name when its session ends, so a new client may take
    /// it again.
    pub fn release(&mut self, name: &String)
        ensures
            final(self)@ == old(self)@.remove_value(name@),
    {
        let ghost v0 = self@;
        let mut i: usize = 0;
        while i < self.names.len()
            invariant
                v0 == old(self)@,
                i <= v0.len(),
                self@ == v0,
                v0.len() == self.names@.len(),
                forall|k: int| 0 <= k < i ==> v0[k] != name@,
            decreases v0.len() - i,
        {
            let hit = self.names[i] == *name;
            proof {
                assert(self@[i as int] == self.names@[i as int].deep_view());
                assert(self.names@[i as int].deep_view() == self.names@[i as int]@);
            }
            if hit {
                proof {
                    assert(v0[i as int] == name@);
                    v0.index_of_first_ensures(name@);
                    assert(v0.index_of_first(name@) == Some(i as int));
                }
                self.names.remove(i);
                proof {
                    assert(self@ =~= v0.remove(i as int));
                    assert(self@ == v0.remove_value(name@));
                }
                return ;
            }
            i = i + 1;
        }
        proof {
            v0.index_of_first_ensures(name@);
            if v0.contains(name@) {
                let k = v0.index_of_first(name@)->Some_0;
                assert(v0[k] != name@);
            }
        }
    }
}

/// A session joining the broadcast transport: the proposed name is
/// claimed if free, and only then does the player count grow.  A taken
/// name rejects the session and leaves the board untouched.
pub fn ws_join(users: &mut UserSet, board: &mut Board, name: &String) -> (r: bool)
    requires
        wf(old(board)@),
        old(board)@.players < usize::MAX,
    ensures
        wf(final(board)@),
        r == !old(users)@.contains(name@),
        r ==> final(users)@ == old(users)@.push(name@) && final(board)@ == (BoardView {
            players: old(board)@.players + 1,
            ..old(board)@
        }),
        !r ==> final(users)@ == old(users)@ && final(board)@ == old(board)@,
{
    if users.claim(name) {
        board.add_player();
        proof {
            crate::board::lemma_wf_players(old(board)@, old(board)@.players + 1);
        }
        true
    } else {
        false
    }
}

/// A session leaving the broadcast transport: the player count shrinks
/// and the name is freed.
pub fn ws_leave(users: &mut UserSet, board: &mut Board, name: &String)
    requires
        wf(old(board)@),
        old(board)@.players > 0,
    ensures
        wf(final(board)@),
        final(users)@ == old(users)@.remove_value(name@),
        final(board)@ == (BoardView { players: old(board)@.players - 1, ..old(board)@ }),
{
    board.remove_player();
    proof {
        crate::board::lemma_wf_players(old(board)@, old(board)@.players - 1);
    }
    users.release(name);
}

} // verus!

