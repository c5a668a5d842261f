//! The state of a turn-based 3-by-3 board game, and the decisions a match
//! session makes on each incoming event.
//!
//! The board holds one symbol string per cell (`"O"`, `"X"`, or a blank);
//! positions on the wire are compass names (`"NW"`, `"N"`, ..., `"SE"`).
use vstd::prelude::*;
use vstd::string::StrSliceExecFns;
use rand::RngExt;

verus! {

/// The body of a battle-start request: the battle identifier.
pub struct TicTacToePostRequest {
    pub battle_id: String,
}

/// Compares two strings character by character.
fn str_eq(a: &str, b: &str) -> (r: bool)
    ensures
        r == (a@ == b@),
{
    let la = a.unicode_len();
    let lb = b.unicode_len();
    if la != lb {
        return false;
    }
    let mut k: usize = 0;
    while k < la
        invariant
            k <= la,
            la == a@.len(),
            la == b@.len(),
            forall|t: int| 0 <= t < k ==> a@[t] == b@[t],
        decreases la - k,
    {
        if a.get_char(k) != b.get_char(k) {
            return false;
        }
        k = k + 1;
    }
    proof {
        assert(a@ =~= b@);
    }
    true
}

fn blank_string() -> (r: String)
    ensures
        r@ == seq![' '],
{
    proof {
        reveal_strlit(" ");
        assert(" "@ =~= seq![' ']);
    }
    " ".to_owned()
}

/// The compass name of a board position.
pub open spec fn position_name(i: int, j: int) -> Seq<char> {
    if i == 0 && j == 0 {
        seq!['N', 'W']
    } else if i == 0 && j == 1 {
        seq!['N']
    } else if i == 0 && j == 2 {
        seq!['N', 'E']
    } else if i == 1 && j == 0 {
        seq!['W']
    } else if i == 1 && j == 1 {
        seq!['C']
    } else if i == 1 && j == 2 {
        seq!['E']
    } else if i == 2 && j == 0 {
        seq!['S', 'W']
    } else if i == 2 && j == 1 {
        seq!['S']
    } else {
        seq!['S', 'E']
    }
}

/// The board position a compass name denotes, if it denotes one.
pub open spec fn position_index(s: Seq<char>) -> Option<(usize, usize)> {
    if s == seq!['N', 'W'] {
        Some((0usize, 0usize))
    } else if s == seq!['N'] {
        Some((0usize, 1usize))
    } else if s == seq!['N', 'E'] {
        Some((0usize, 2usize))
    } else if s == seq!['W'] {
        Some((1usize, 0usize))
    } else if s == seq!['C'] {
        Some((1usize, 1usize))
    } else if s == seq!['E'] {
        Some((1usize, 2usize))
    } else if s == seq!['S', 'W'] {
        Some((2usize, 0usize))
    } else if s == seq!['S'] {
        Some((2usize, 1usize))
    } else if s == seq!['S', 'E'] {
        Some((2usize, 2usize))
    } else {
        None
    }
}

/// A game in progress: which symbol this service plays, whose turn it is,
/// and the 3-by-3 board of cell symbols.
pub struct TicTacToe {
    pub player: String,
    pub turn: String,
    pub board: Vec<Vec<String>>,
}

impl TicTacToe {
    /// The board is 3 by 3 and the turn holds one of the two symbols.
    pub open spec fn wf(self) -> bool {
        &&& self.board@.len() == 3
        &&& forall|i: int| 0 <= i < 3 ==> (#[trigger] self.board@[i])@.len() == 3
        &&& (self.turn@ == seq!['O'] || self.turn@ == seq!['X'])
    }

    /// Starts a fresh game for the given symbol: an all-blank board, with
    /// `"O"` to move first.
    pub fn new(player: &str) -> (r: TicTacToe)
        ensures
            r.wf(),
            r.player@ == player@,
            r.turn@ == seq!['O'],
            forall|i: int, j: int|
                0 <= i < 3 && 0 <= j < 3 ==> (#[trigger] r.board@[i]@[j])@ == seq![' '],
    {
        proof {
            reveal_strlit("O");
            assert("O"@ =~= seq!['O']);
        }
        let mut board: Vec<Vec<String>> = Vec::new();
        let mut i: usize = 0;
        while i < 3
            invariant
                i <= 3,
                board@.len() == i,
                forall|r: int| 0 <= r < i ==> (#[trigger] board@[r])@.len() == 3,
                forall|r: int, c: int|
                    0 <= r < i && 0 <= c < 3 ==> (#[trigger] board@[r]@[c])@ == seq![' '],
            decreases 3 - i,
        {
            let mut row: Vec<String> = Vec::new();
            let mut j: usize = 0;
            while j < 3
                invariant
                    j <= 3,
                    row@.len() == j,
                    forall|c: int| 0 <= c < j ==> (#[trigger] row@[c])@ == seq![' '],
                decreases 3 - j,
            {
                row.push(blank_string());
                j = j + 1;
            }
            board.push(row);
            i = i + 1;
        }
        TicTacToe { player: player.to_owned(), turn: "O".to_owned(), board }
    }

    /// Whether the symbol to move is the one this service plays.
    pub fn is_my_turn(&self) -> (r: bool)
        ensures
            r == (self.turn@ == self.player@),
    {
        self.turn == self.player
    }

    /// The compass name of a board position.
    pub fn index_to_position(i: usize, j: usize) -> (r: String)
        requires
            i < 3,
            j < 3,
        ensures
            r@ == position_name(i as int, j as int),
    {
        proof {
            reveal_strlit("NW");
            reveal_strlit("N");
            reveal_strlit("NE");
            reveal_strlit("W");
            reveal_strlit("C");
            reveal_strlit("E");
            reveal_strlit("SW");
            reveal_strlit("S");
            reveal_strlit("SE");
            assert("NW"@ =~= seq!['N', 'W']);
            assert("N"@ =~= seq!['N']);
            assert("NE"@ =~= seq!['N', 'E']);
            assert("W"@ =~= seq!['W']);
            assert("C"@ =~= seq!['C']);
            assert("E"@ =~= seq!['E']);
            assert("SW"@ =~= seq!['S', 'W']);
            assert("S"@ =~= seq!['S']);
            assert("SE"@ =~= seq!['S', 'E']);
        }
        let p: &str = if i == 0 && j == 0 {
            "NW"
        } else if i == 0 && j == 1 {
            "N"
        } else if i == 0 && j == 2 {
            "NE"
        } else if i == 1 && j == 0 {
            "W"
        } else if i == 1 && j == 1 {
            "C"
        } else if i == 1 && j == 2 {
            "E"
        } else if i == 2 && j == 0 {
            "SW"
        } else if i == 2 && j == 1 {
            "S"
        } else {
            "SE"
        };
        p.to_owned()
    }

    /// The board position a compass name denotes; callers pass only names
    /// that denote one.
    pub fn position_to_index(pos: &str) -> (r: (usize, usize))
        requires
            position_index(pos@) is Some,
        ensures
            Some(r) == position_index(pos@),
    {
        proof {
            reveal_strlit("NW");
            reveal_strlit("N");
            reveal_strlit("NE");
            reveal_strlit("W");
            reveal_strlit("C");
            reveal_strlit("E");
            reveal_strlit("SW");
            reveal_strlit("S");
            reveal_strlit("SE");
            assert("NW"@ =~= seq!['N', 'W']);
            assert("N"@ =~= seq!['N']);
            assert("NE"@ =~= seq!['N', 'E']);
            assert("W"@ =~= seq!['W']);
            assert("C"@ =~= seq!['C']);
            assert("E"@ =~= seq!['E']);
            assert("SW"@ =~= seq!['S', 'W']);
            assert("S"@ =~= seq!['S']);
            assert("SE"@ =~= seq!['S', 'E']);
        }
        if str_eq(pos, "NW") {
            (0, 0)
        } else if str_eq(pos, "N") {
            (0, 1)
        } else if str_eq(pos, "NE") {
            (0, 2)
        } else if str_eq(pos, "W") {
            (1, 0)
        } else if str_eq(pos, "C") {
            (1, 1)
        } else if str_eq(pos, "E") {
            (1, 2)
        } else if str_eq(pos, "SW") {
            (2, 0)
        } else if str_eq(pos, "S") {
            (2, 1)
        } else {
            (2, 2)
        }
    }

    /// Flips whose turn it is: `"O"` becomes `"X"`, anything else `"O"`.
    pub fn next_turn(&mut self)
        ensures
            final (self).player == old(self).player,
            final (self).board == old(self).board,
            final (self).turn@ == (if old(self).turn@ == seq!['O'] {
                seq!['X']
            } else {
                seq!['O']
            }),
    {
        proof {
            reveal_strlit("O");
            reveal_strlit("X");
            assert("O"@ =~= seq!['O']);
            assert("X"@ =~= seq!['X']);
        }
        if str_eq(self.turn.as_str(), "O") {
            self.turn = "X".to_owned();
        } else {
            self.turn = "O".to_owned();
        }
    }

    /// Plays the current symbol at the named position: a blank cell takes
    /// the symbol, an occupied cell is left as it is; either way the turn
    /// passes to the other symbol.
    pub fn play_symbol(&mut self, pos: String)
        requires
            old(self).wf(),
            position_index(pos@) is Some,
        ensures
            final (self).wf(),
            final (self).player == old(self).player,
            final (self).turn@ == (if old(self).turn@ == seq!['O'] {
                seq!['X']
            } else {
                seq!['O']
            }),
            ({
                let p = position_index(pos@).unwrap();
                forall|r: int, c: int|
                    0 <= r < 3 && 0 <= c < 3 ==> (#[trigger] final (self).board@[r]@[c])@ == (if r
                        == p.0 as int && c == p.1 as int && old(self).board@[r]@[c]@ == seq![' '] {
                        old(self).turn@
                    } else {
                        old(self).board@[r]@[c]@
                    })
            }),
    {
        proof {
            reveal_strlit(" ");
            assert(" "@ =~= seq![' ']);
        }
        let (i, j) = Self::position_to_index(pos.as_str());
        proof {
            assert(i < 3 && j < 3);
        }
        let ghost pre = self.board@;
        if str_eq(self.board[i][j].as_str(), " ") {
            let sym = self.turn.clone();
            self.board[i][j] = sym;
            proof {
                assert forall|r: int, c: int| 0 <= r < 3 && 0 <= c < 3 implies (#[trigger] self
                    .board@[r]@[c])@ == (if r == i as int && c == j as int {
                    old(self).turn@
                } else {
                    pre[r]@[c]@
                }) by {
                    if r == i as int {
                        assert(self.board@[r]@ == pre[r]@.update(j as int, old(self).turn));
                    } else {
                        assert(self.board@[r] == pre[r]);
                    }
                }
            }
        }
        self.next_turn();
    }

    /// Whether some cell of the board is still blank.
    pub fn has_blank(&self) -> (r: bool)
        requires
            self.wf(),
        ensures
            r == exists|i: int, j: int|
                0 <= i < 3 && 0 <= j < 3 && (#[trigger] self.board@[i]@[j])@ == seq![' '],
    {
        proof {
            reveal_strlit(" ");
            assert(" "@ =~= seq![' ']);
        }
        let mut i: usize = 0;
        while i < 3
            invariant
                i <= 3,
                self.wf(),
                forall|r: int, c: int|
                    0 <= r < i && 0 <= c < 3 ==> (#[trigger] self.board@[r]@[c])@ != seq![' '],
            decreases 3 - i,
        {
            let mut j: usize = 0;
            while j < 3
                invariant
                    i < 3,
                    j <= 3,
                    self.wf(),
                    forall|r: int, c: int|
                        0 <= r < i && 0 <= c < 3 ==> (#[trigger] self.board@[r]@[c])@ != seq![' '],
                    forall|c: int|
                        0 <= c < j ==> (#[trigger] self.board@[i as int]@[c])@ != seq![' '],
                decreases 3 - j,
            {
                proof {
                    reveal_strlit(" ");
                    assert(" "@ =~= seq![' ']);
                }
                if str_eq(self.board[i][j].as_str(), " ") {
                    return true;
                }
                j = j + 1;
            }
            i = i + 1;
        }
        false
    }

    /// Marks a uniformly chosen blank cell with the current symbol, passes
    /// the turn, and returns the compass name of the chosen cell.
    pub fn random_move(&mut self) -> (r: String)
        requires
            old(self).wf(),
            exists|i: int, j: int|
                0 <= i < 3 && 0 <= j < 3 && (#[trigger] old(self).board@[i]@[j])@ == seq![' '],
        ensures
            final (self).wf(),
            final (self).player == old(self).player,
            final (self).turn@ == (if old(self).turn@ == seq!['O'] {
                seq!['X']
            } else {
                seq!['O']
            }),
            exists|i: int, j: int|
                0 <= i < 3 && 0 <= j < 3 && (#[trigger] old(self).board@[i]@[j])@ == seq![' ']
                    && r@ == position_name(i, j) && final (self).board@[i]@[j]@ == old(self).turn@
                    && (forall|r2: int, c2: int|
                    0 <= r2 < 3 && 0 <= c2 < 3 && !(r2 == i && c2 == j)
                        ==> (#[trigger] final (self).board@[r2]@[c2])@
                            == old(self).board@[r2]@[c2]@),
    {
        proof {
            reveal_strlit(" ");
            assert(" "@ =~= seq![' ']);
        }
        let mut blanks: Vec<(usize, usize)> = Vec::new();
        let mut i: usize = 0;
        while i < 3
            invariant
                i <= 3,
                self.wf(),
                self == old(self),
                forall|k: int|
                    0 <= k < blanks@.len() ==> (#[trigger] blanks@[k]).0 < 3 && blanks@[k].1 < 3
                        && self.board@[blanks@[k].0 as int]@[blanks@[k].1 as int]@ == seq![' '],
                forall|r: int, c: int|
                    0 <= r < i && 0 <= c < 3 && (#[trigger] self.board@[r]@[c])@ == seq![' ']
                        ==> blanks@.len() > 0,
            decreases 3 - i,
        {
            let mut j: usize = 0;
            while j < 3
                invariant
                    i < 3,
                    j <= 3,
                    self.wf(),
                    self == old(self),
                    forall|k: int|
                        0 <= k < blanks@.len() ==> (#[trigger] blanks@[k]).0 < 3 && blanks@[k].1 < 3
                            && self.board@[blanks@[k].0 as int]@[blanks@[k].1 as int]@ == seq![' '],
                    forall|r: int, c: int|
                        0 <= r < i && 0 <= c < 3 && (#[trigger] self.board@[r]@[c])@ == seq![' ']
                            ==> blanks@.len() > 0,
                    forall|c: int|
                        0 <= c < j && (#[trigger] self.board@[i as int]@[c])@ == seq![' ']
                            ==> blanks@.len() > 0,
                decreases 3 - j,
            {
                proof {
                    reveal_strlit(" ");
                    assert(" "@ =~= seq![' ']);
                }
                if str_eq(self.board[i][j].as_str(), " ") {
                    blanks.push((i, j));
                }
                j = j + 1;
            }
            i = i + 1;
        }
        proof {
            assert(blanks@.len() > 0);
        }
        let idx = random_index_below(blanks.len());
        let p = blanks[idx];
        let bi = p.0;
        let bj = p.1;
        let ghost pre = self.board@;
        let sym = self.turn.clone();
        self.board[bi][bj] = sym;
        proof {
            assert forall|r2: int, c2: int|
                0 <= r2 < 3 && 0 <= c2 < 3 && !(r2 == bi as int && c2 == bj as int) implies (
            #[trigger] self.board@[r2]@[c2])@ == pre[r2]@[c2]@ by {
                if r2 == bi as int {
                    assert(self.board@[r2]@ == pre[r2]@.update(bj as int, old(self).turn));
                } else {
                    assert(self.board@[r2] == pre[r2]);
                }
            }
            assert(self.board@[bi as int]@[bj as int]@ == old(self).turn@);
        }
        self.next_turn();
        Self::index_to_position(bi, bj)
    }
}

/// Relies on rand::rng and RngExt::random_range: the drawn value lies in
/// `0..n`; the call panics only on an empty range, which the caller rules
/// out.
#[verifier::external_body]
fn random_index_below(n: usize) -> (r: usize)
    requires
        1 <= n,
    ensures
        r < n,
{
    rand::rng().random_range(0..n)
}

/// One line of the match event stream, already decoded.
pub enum GameEvent {
    Initial { you_are: String },
    Move { player: String, position: String },
    GameEnd,
    FlipTable,
    Other,
}

/// What the session does next: send a move naming a position, stop
/// following the match, or wait for the next event.
pub enum GameAction {
    Send(String),
    Stop,
    Wait,
}

/// Advances a match session by one incoming event and decides the action:
/// an initial event starts a game and answers with a move when this service
/// moves first; an opponent move is played onto the board and answered with
/// a move while a blank cell remains; end-of-game events stop the session.
pub fn handle_event(game: &mut Option<TicTacToe>, event: GameEvent) -> (r: GameAction)
    requires
        match event {
            GameEvent::Move { player, position } => (*old(game)) is Some && (*old(game)).unwrap().wf()
                && position_index(position@) is Some,
            _ => true,
        },
    ensures
        match event {
            GameEvent::Initial { you_are } => (*final (game)) is Some && (*final (game)).unwrap().wf()
                && (*final (game)).unwrap().player@ == you_are@ && ((you_are@ == seq!['O']) == (
            r is Send)) && (you_are@ != seq!['O'] ==> (*final (game)).unwrap().turn@ == seq!['O']),
            GameEvent::Move { player, position } => (*final (game)) is Some
                && (*final (game)).unwrap().wf()
                && (*final (game)).unwrap().player == (*old(game)).unwrap().player
                && (player@ == (*old(game)).unwrap().player@
                    ==> r == GameAction::Wait && *final (game) == *old(game))
                && (player@ != (*old(game)).unwrap().player@ ==> (r is Send || r is Stop)),
            GameEvent::GameEnd => r == GameAction::Stop && *final (game) == *old(game),
            GameEvent::FlipTable => r == GameAction::Stop && *final (game) == *old(game),
            GameEvent::Other => r == GameAction::Wait && *final (game) == *old(game),
        },
{
    match event {
        GameEvent::Initial { you_are } => {
            let mut g = TicTacToe::new(you_are.as_str());
            let mine = g.is_my_turn();
            proof {
                reveal_strlit("O");
                assert("O"@ =~= seq!['O']);
            }
            if mine {
                proof {
                    assert(g.board@[0]@[0]@ == seq![' ']);
                }
                let pos = g.random_move();
                *game = Some(g);
                GameAction::Send(pos)
            } else {
                *game = Some(g);
                GameAction::Wait
            }
        },
        GameEvent::Move { player, position } => {
            let taken = game.take();
            match taken {
                Some(mut g) => {
                    if player == g.player {
                        *game = Some(g);
                        proof {
                            assert(*final (game) == *old(game));
                        }
                        GameAction::Wait
                    } else {
                        g.play_symbol(position);
                        if g.has_blank() {
                            let pos = g.random_move();
                            *game = Some(g);
                            GameAction::Send(pos)
                        } else {
                            *game = Some(g);
                            GameAction::Stop
                        }
                    }
                },
                None => {
                    proof {
                        assert(false);
                    }
                    GameAction::Stop
                },
            }
        },
        GameEvent::GameEnd => GameAction::Stop,
        GameEvent::FlipTable => GameAction::Stop,
        GameEvent::Other => GameAction::Wait,
    }
}

} // verus!
