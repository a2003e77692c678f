//! The board, the interface of a player, and the loop that plays one game.

use vstd::prelude::*;
use vstd::slice::slice_subrange;
use vstd::string::StringExecFns;
use crate::bits::{field, shift_of, valid_bits, flip_bits, put_bits, lemma_empty_word, lemma_field_range, lemma_put_field, lemma_put_valid, lemma_flip_field, lemma_flip_valid, lemma_flip_twice, lemma_fields_determine, lemma_line_masks, lemma_open_mask};

verus! {

/// What a cell holds, from the point of view of the side about to move:
/// `X` is a piece of the mover, `O` a piece of the opponent, `A` is available.
#[derive(Clone, Copy, Debug, Hash, PartialEq, Eq, Structural)]
pub enum Spot {
    X,
    O,
    A,
}

/// A verdict. On a position (`Game::x_wins`): `X` the mover has a line,
/// `A` the board is full without one, `O` the game is still open.
/// On a finished game (`play`): `X` the first player won, `O` the second
/// player won, `A` a draw.
#[derive(Clone, Copy, Debug, Hash, PartialEq, Eq, Structural)]
pub enum GameResult {
    X,
    O,
    A,
}

/// Nine cells packed two bits each: `00` mover, `11` opponent, `10` available.
#[derive(Clone, Copy, Debug, Hash, PartialEq, Eq, Structural)]
pub struct Game(u32);

impl Spot {
    /// The same cell seen from the other side.
    pub open spec fn swapped(self) -> Spot {
        match self {
            Spot::X => Spot::O,
            Spot::O => Spot::X,
            Spot::A => Spot::A,
        }
    }
}

/// The cell that a two-bit field stands for.
pub open spec fn spot_of(code: u32) -> Spot {
    if code == 0 {
        Spot::X
    } else if code == 3 {
        Spot::O
    } else {
        Spot::A
    }
}

/// A position seen from the other side: every piece changes its label.
pub open spec fn flip_cells(cells: Seq<Spot>) -> Seq<Spot> {
    Seq::new(cells.len(), |i: int| cells[i].swapped())
}

/// The mover holds the three cells `i`, `j` and `k`.
pub open spec fn line(cells: Seq<Spot>, i: int, j: int, k: int) -> bool {
    cells[i] == Spot::X && cells[j] == Spot::X && cells[k] == Spot::X
}

/// The mover holds a full row, column or diagonal.
pub open spec fn mover_has_line(cells: Seq<Spot>) -> bool {
    ||| line(cells, 0, 1, 2)
    ||| line(cells, 3, 4, 5)
    ||| line(cells, 6, 7, 8)
    ||| line(cells, 0, 3, 6)
    ||| line(cells, 1, 4, 7)
    ||| line(cells, 2, 5, 8)
    ||| line(cells, 0, 4, 8)
    ||| line(cells, 2, 4, 6)
}

/// Some cell is still available.
pub open spec fn has_available(cells: Seq<Spot>) -> bool {
    exists|i: int| 0 <= i < 9 && cells[i] == Spot::A
}

/// The verdict on a position: a line of the mover wins, whatever the other
/// cells hold; otherwise the game is open while a cell is available, and
/// drawn when none is.
pub open spec fn verdict(cells: Seq<Spot>) -> GameResult {
    if mover_has_line(cells) {
        GameResult::X
    } else if has_available(cells) {
        GameResult::O
    } else {
        GameResult::A
    }
}

/// The character that shows a cell.
pub open spec fn glyph(spot: Spot) -> char {
    match spot {
        Spot::X => 'X',
        Spot::O => 'O',
        Spot::A => '-',
    }
}

/// The text of the first `n` cells: one character per cell, and a line
/// break behind every third.
pub open spec fn text_of(cells: Seq<Spot>, n: nat) -> Seq<char>
    decreases n,
{
    if n == 0 {
        Seq::empty()
    } else {
        let shown = text_of(cells, (n - 1) as nat).push(glyph(cells[n - 1]));
        if n % 3 == 0 {
            shown.push('\n')
        } else {
            shown
        }
    }
}

/// A walk over the nine cells of a board in index order.
pub struct GameIter {
    board: Game,
    at: u8,
}

impl View for GameIter {
    type V = Seq<Spot>;

    /// The cells still to come.
    closed spec fn view(&self) -> Seq<Spot> {
        self.board@.skip(self.at as int)
    }
}

impl GameIter {
    /// The walk has not run past the board.
    pub closed spec fn wf(&self) -> bool {
        self.at <= 9
    }

    /// The next cell, or `None` when all nine were handed out.
    pub fn next(&mut self) -> (r: Option<Spot>)
        requires
            old(self).wf(),
        ensures
            final(self).wf(),
            old(self)@.len() == 0 ==> r is None && final(self)@ == old(self)@,
            old(self)@.len() > 0 ==> r == Some(old(self)@[0]) && final(self)@ == old(self)@.skip(1),
    {
        if self.at >= 9 {
            None
        } else {
            let spot = self.board.get(self.at);
            proof {
                assert(self.board@.skip(self.at as int).skip(1) =~= self.board@.skip(
                    self.at + 1,
                ));
            }
            self.at = self.at + 1;
            Some(spot)
        }
    }
}

impl View for Game {
    type V = Seq<Spot>;

    /// The nine cells in index order.
    open spec fn view(&self) -> Seq<Spot> {
        Seq::new(9, |i: int| self.cell(i))
    }
}

impl Game {
    /// The packed word.
    pub closed spec fn bits(self) -> u32 {
        self.0
    }

    /// The word uses only the three cell patterns, so that equal positions
    /// are equal values.
    pub closed spec fn wf(self) -> bool {
        valid_bits(self.0)
    }

    /// The cell at index `i`.
    pub closed spec fn cell(self, i: int) -> Spot {
        spot_of(field(self.0, shift_of(i)))
    }

    /// The position seen from the other side.
    pub closed spec fn flipped(self) -> Game {
        Game(flip_bits(self.0))
    }

    /// The position with cell `i` replaced by `val`.
    pub closed spec fn with_cell(self, i: int, val: Spot) -> Game {
        Game(put_bits(self.0, shift_of(i), code_of(val)))
    }

    /// The board on which every cell is available.
    pub closed spec fn blank() -> Game {
        Game(0x2AAAA)
    }

    /// The board on which every cell is available.
    pub fn new() -> (g: Game)
        ensures
            g == Game::blank(),
            g.wf(),
            g@ =~= Seq::new(9, |i: int| Spot::A),
    {
        proof {
            Game::lemma_blank();
        }
        Game(0x2AAAA)
    }

    /// A walk over the cells from index 0. The board is a value: a walk can
    /// be started afresh at any time.
    pub fn into_iter(self) -> (it: GameIter)
        ensures
            it.wf(),
            it@ == self@,
    {
        proof {
            assert(self@.skip(0) =~= self@);
        }
        GameIter { board: self, at: 0 }
    }

    /// The board as text: `X` for the mover, `O` for the opponent, `-` for
    /// an available cell, three cells to a line.
    pub fn text(&self) -> (out: String)
        ensures
            out@ == text_of(self@, 9),
    {
        let mut out = String::new();
        let mut i: u8 = 0;
        proof {
            reveal_strlit("X");
            reveal_strlit("O");
            reveal_strlit("-");
            reveal_strlit("\n");
        }
        while i < 9
            invariant
                i <= 9,
                out@ == text_of(self@, i as nat),
                "X"@ =~= seq!['X'],
                "O"@ =~= seq!['O'],
                "-"@ =~= seq!['-'],
                "\n"@ =~= seq!['\n'],
            decreases 9 - i,
        {
            let ghost shown = out@;
            match self.get(i) {
                Spot::X => out.append("X"),
                Spot::O => out.append("O"),
                Spot::A => out.append("-"),
            }
            proof {
                assert(out@ =~= shown.push(glyph(self@[i as int])));
            }
            if i % 3 == 2 {
                let ghost line = out@;
                out.append("\n");
                proof {
                    assert(out@ =~= line.push('\n'));
                }
            }
            i += 1;
        }
        out
    }

    /// The packed word, by which a table can key the board.
    pub fn key(&self) -> (k: u32)
        ensures
            k == self.bits(),
    {
        self.0
    }

    /// Writes `val` into cell `idx`, whatever the cell held.
    pub fn set(&mut self, idx: u8, val: Spot)
        requires
            old(self).wf(),
            idx < 9,
        ensures
            final(self).wf(),
            *final(self) == old(self).with_cell(idx as int, val),
            final(self)@ =~= old(self)@.update(idx as int, val),
    {
        let s: u32 = 2 * (idx as u32);
        let code: u32 = match val {
            Spot::X => 0,
            Spot::O => 3,
            Spot::A => 2,
        };
        proof {
            old(self).lemma_with_cell(idx as int, val);
        }
        self.0 = (self.0 & !(3u32 << s)) | (code << s);
    }

    /// The cell at index `idx`.
    pub fn get(&self, idx: u8) -> (r: Spot)
        requires
            idx < 9,
        ensures
            r == self@[idx as int],
    {
        let s: u32 = 2 * (idx as u32);
        let code: u32 = (self.0 >> s) & 3;
        if code == 0 {
            Spot::X
        } else if code == 3 {
            Spot::O
        } else {
            Spot::A
        }
    }

    /// Exchanges the labels of the two sides; available cells stay.
    pub fn flip_board(&mut self)
        requires
            old(self).wf(),
        ensures
            final(self).wf(),
            *final(self) == old(self).flipped(),
            final(self)@ =~= flip_cells(old(self)@),
    {
        let v: u32 = self.0;
        let occ: u32 = ((v ^ (v >> 1)) & 0x15555) ^ 0x15555;
        proof {
            old(self).lemma_flipped();
        }
        self.0 = v ^ (occ | (occ << 1));
    }

    /// The verdict on the position, for the side whose pieces are `X`.
    pub fn x_wins(&self) -> (r: GameResult)
        requires
            self.wf(),
        ensures
            r == verdict(self@),
            mover_has_line(self@) ==> r == GameResult::X,
    {
        let v: u32 = self.0;
        proof {
            lemma_line_masks(v);
            lemma_open_mask(v);
            self.lemma_cells();
        }
        if (v & 0x3f) == 0 || (v & 0xfc0) == 0 || (v & 0x3f000) == 0 || (v & 0x30c3) == 0 || (v
            & 0xc30c) == 0 || (v & 0x30c30) == 0 || (v & 0x30303) == 0 || (v & 0x3330) == 0 {
            GameResult::X
        } else if ((v ^ (v >> 1)) & 0x15555) != 0 {
            proof {
                let i = choose|i: int| 0 <= i < 9 && field(v, shift_of(i)) == 2;
                assert(self@[i] == Spot::A);
            }
            GameResult::O
        } else {
            GameResult::A
        }
    }

    /// Each cell of a well-formed board is read off its field, and the field
    /// off the cell.
    pub proof fn lemma_cells(self)
        requires
            self.wf(),
        ensures
            forall|i: int|
                0 <= i < 9 ==> (#[trigger] self@[i] == Spot::X <==> field(
                    self.bits(),
                    shift_of(i),
                ) == 0),
            forall|i: int|
                0 <= i < 9 ==> (#[trigger] self@[i] == Spot::A <==> field(
                    self.bits(),
                    shift_of(i),
                ) == 2),
            forall|i: int|
                0 <= i < 9 ==> (#[trigger] self@[i] == Spot::O <==> field(
                    self.bits(),
                    shift_of(i),
                ) == 3),
    {
        assert forall|i: int| 0 <= i < 9 implies {
            let f = field(self.bits(), #[trigger] shift_of(i));
            f == 0 || f == 2 || f == 3
        } by {
            lemma_field_range(self.0, shift_of(i));
        }
    }

    /// What `with_cell` yields: a well-formed board that differs from this
    /// one in cell `i` alone.
    pub proof fn lemma_with_cell(self, i: int, val: Spot)
        requires
            self.wf(),
            0 <= i < 9,
        ensures
            self.with_cell(i, val).wf(),
            self.with_cell(i, val)@ =~= self@.update(i, val),
    {
        let s = shift_of(i);
        let c = code_of(val);
        lemma_put_valid(self.0, s, c);
        assert forall|j: int| 0 <= j < 9 implies #[trigger] self.with_cell(i, val).cell(j) == self@.update(
            i,
            val,
        )[j] by {
            lemma_put_field(self.0, s, c, shift_of(j));
        }
    }

    /// What `flipped` yields: a well-formed board with every piece relabelled.
    pub proof fn lemma_flipped(self)
        requires
            self.wf(),
        ensures
            self.flipped().wf(),
            self.flipped()@ =~= flip_cells(self@),
    {
        lemma_flip_valid(self.0);
        assert forall|j: int| 0 <= j < 9 implies #[trigger] self.flipped().cell(j) == flip_cells(
            self@,
        )[j] by {
            lemma_flip_field(self.0, shift_of(j));
        }
    }

    /// The blank board is well formed and holds no piece.
    pub proof fn lemma_blank()
        ensures
            Game::blank().wf(),
            Game::blank()@ =~= Seq::new(9, |i: int| Spot::A),
            filled(Game::blank()@) == 0,
    {
        lemma_empty_word();
        assert forall|i: int| 0 <= i < 9 implies #[trigger] Game::blank().cell(i) == Spot::A by {
            let s = shift_of(i);
            assert(s < 18 && s % 2 == 0);
        }
    }

    /// Boards with the same packed word are the same board.
    pub proof fn lemma_bits_determine()
        ensures
            forall|a: Game, b: Game| #[trigger] a.bits() == #[trigger] b.bits() ==> a == b,
    {
    }

    /// Flipping twice gives the board back.
    pub proof fn lemma_flip_involution(self)
        ensures
            self.flipped().flipped() == self,
    {
        lemma_flip_twice(self.0);
    }

    /// Two well-formed boards with the same cells are the same value.
    pub proof fn lemma_cells_determine(self, other: Game)
        requires
            self.wf(),
            other.wf(),
            self@ == other@,
        ensures
            self == other,
    {
        self.lemma_cells();
        other.lemma_cells();
        assert forall|i: int| 0 <= i < 9 implies field(self.0, #[trigger] shift_of(i)) == field(
            other.0,
            shift_of(i),
        ) by {
            lemma_field_range(self.0, shift_of(i));
            lemma_field_range(other.0, shift_of(i));
            assert(self@[i] == self.cell(i));
            assert(other@[i] == other.cell(i));
        }
        assert(field(self.0, shift_of(0)) == field(other.0, 0));
        assert(field(self.0, shift_of(1)) == field(other.0, 2));
        assert(field(self.0, shift_of(2)) == field(other.0, 4));
        assert(field(self.0, shift_of(3)) == field(other.0, 6));
        assert(field(self.0, shift_of(4)) == field(other.0, 8));
        assert(field(self.0, shift_of(5)) == field(other.0, 10));
        assert(field(self.0, shift_of(6)) == field(other.0, 12));
        assert(field(self.0, shift_of(7)) == field(other.0, 14));
        assert(field(self.0, shift_of(8)) == field(other.0, 16));
        lemma_fields_determine(self.0, other.0);
    }
}

/// The two-bit field that stands for a cell.
pub open spec fn code_of(val: Spot) -> u32 {
    match val {
        Spot::X => 0u32,
        Spot::O => 3u32,
        Spot::A => 2u32,
    }
}

/// A strategy: it proposes moves and may learn from finished games.
pub trait Player {
    /// Proposes the index of a cell for the board `b`, on which the
    /// proposer's own pieces are `Spot::X`. Nothing is promised of the
    /// index: the game loop treats an illegal one as a forfeit.
    fn mv(&mut self, b: Game) -> (r: u8)
        requires
            b.wf(),
    ;

    /// Takes in the outcome of a finished game. `good` is the sign of the
    /// outcome for this player and `scale` its weight: 2 for a decisive game,
    /// 1 for a draw, 0 to discard the game. `choices` are the boards that the
    /// game went through, each as its mover left it, without the board that
    /// ended it. A strategy that does not learn ignores all of it.
    fn feedback(&mut self, good: bool, scale: u32, choices: &[Game]) {
    }
}

/// The index names an available cell.
pub open spec fn legal(cells: Seq<Spot>, mv: u8) -> bool {
    mv < 9 && cells[mv as int] == Spot::A
}

/// 1 where cell `i` holds a piece, 0 where it is available.
pub open spec fn taken(cells: Seq<Spot>, i: int) -> int {
    if cells[i] == Spot::A {
        0
    } else {
        1
    }
}

/// The number of pieces on a position.
pub open spec fn filled(cells: Seq<Spot>) -> int {
    taken(cells, 0) + taken(cells, 1) + taken(cells, 2) + taken(cells, 3) + taken(cells, 4)
        + taken(cells, 5) + taken(cells, 6) + taken(cells, 7) + taken(cells, 8)
}

/// What one proposal does to a game.
#[derive(Clone, Copy, Debug, PartialEq, Eq, Structural)]
pub enum Step {
    /// The proposal was illegal; the board is untouched and the proposer
    /// forfeits.
    Forfeit,
    /// The piece was placed and the game goes on from this board, which is
    /// still seen from the side that moved.
    Open(Game),
    /// The piece was placed and ended the game on this board: the mover won
    /// (`true`) or the board is full without a line (`false`).
    Over(Game, bool),
}

/// What the proposal `mv` does on the board `game`.
pub open spec fn step_of(game: Game, mv: u8) -> Step {
    if !legal(game@, mv) {
        Step::Forfeit
    } else {
        let placed = game.with_cell(mv as int, Spot::X);
        match verdict(placed@) {
            GameResult::O => Step::Open(placed),
            GameResult::X => Step::Over(placed, true),
            GameResult::A => Step::Over(placed, false),
        }
    }
}

/// Applies one proposal: an index out of range or on a taken cell is a
/// forfeit, any other places the mover's piece and judges the board.
pub fn step(game: Game, mv: u8) -> (r: Step)
    requires
        game.wf(),
    ensures
        r == step_of(game, mv),
        match r {
            Step::Forfeit => true,
            Step::Open(b) | Step::Over(b, _) => b.wf() && filled(b@) == filled(game@) + 1,
        },
{
    if mv > 8 || game.get(mv) != Spot::A {
        Step::Forfeit
    } else {
        let mut placed = game;
        placed.set(mv, Spot::X);
        match placed.x_wins() {
            GameResult::O => Step::Open(placed),
            GameResult::X => Step::Over(placed, true),
            GameResult::A => Step::Over(placed, false),
        }
    }
}

/// Whether the second player is the one to propose move `k` of a game in
/// which the second player moves first exactly if `player` is set.
pub open spec fn second_moves(player: bool, k: int) -> bool {
    player != (k % 2 == 1)
}

/// The winner of a game that its last mover won (`mover_won`) or lost.
pub open spec fn winner_of(second: bool, mover_won: bool) -> GameResult {
    if second == mover_won {
        GameResult::O
    } else {
        GameResult::X
    }
}

/// The winner of a game that its last mover won or lost; the last mover
/// was the second player if `second` is set.
pub fn award(second: bool, mover_won: bool) -> (r: GameResult)
    ensures
        r == winner_of(second, mover_won),
{
    if second == mover_won {
        GameResult::O
    } else {
        GameResult::X
    }
}

/// What a player is told of a finished game: whether the outcome is good
/// for it, and the weight of the outcome. A decisive game weighs 2, good for
/// the winner and bad for the loser; a draw weighs 1 and is good for both.
pub open spec fn told(winner: GameResult, second: bool) -> (bool, u32) {
    match winner {
        GameResult::A => (true, 1u32),
        GameResult::X => (!second, 2u32),
        GameResult::O => (second, 2u32),
    }
}

/// What the first player (`second` unset) or the second is told of a game
/// with this winner.
pub fn outcome_for(winner: GameResult, second: bool) -> (r: (bool, u32))
    ensures
        r == told(winner, second),
{
    match winner {
        GameResult::A => (true, 1),
        GameResult::X => (!second, 2),
        GameResult::O => (second, 2),
    }
}

/// How many boards of a record the players are handed: all but the one
/// that ended the game, and all of them after a forfeit, which no board
/// ended.
pub fn handed(boards: usize, forfeit: bool) -> (n: usize)
    ensures
        n == (if forfeit || boards == 0 {
            boards
        } else {
            (boards - 1) as usize
        }),
{
    if forfeit || boards == 0 {
        boards
    } else {
        boards - 1
    }
}

/// The record of a finished game.
pub struct Played {
    /// `X`: the first player won; `O`: the second player won; `A`: a draw.
    pub winner: GameResult,
    /// The game ended on an illegal proposal.
    pub forfeit: bool,
    /// Every proposal in order, the illegal one included.
    pub moves: Vec<u8>,
    /// The board after each placed piece, as its mover left it.
    pub boards: Vec<Game>,
}

/// The board that the proposer of move `k` faced, given the boards left by
/// the moves before it.
pub open spec fn faced(boards: Seq<Game>, k: int) -> Game {
    if k == 0 {
        Game::blank()
    } else {
        boards[k - 1].flipped()
    }
}

/// Every proposal before move `n` was placed and left the game open.
pub open spec fn open_until(moves: Seq<u8>, boards: Seq<Game>, n: int) -> bool {
    forall|k: int|
        0 <= k < n ==> step_of(faced(boards, k), #[trigger] moves[k]) == Step::Open(boards[k])
}

impl Played {
    /// The record is that of one whole game started by the first player
    /// (`player` unset) or the second (`player` set): every proposal but the
    /// last was placed and left the game open, the last one ended it, and
    /// the winner is read off the last step. An illegal proposal loses the
    /// game for the side that made it.
    pub open spec fn complete(self, player: bool) -> bool {
        let n = self.moves@.len() as int;
        &&& n >= 1
        &&& self.boards@.len() == (if self.forfeit {
            n - 1
        } else {
            n
        })
        &&& open_until(self.moves@, self.boards@, n - 1)
        &&& match step_of(faced(self.boards@, n - 1), self.moves@[n - 1]) {
            Step::Forfeit => self.forfeit && self.winner == winner_of(
                second_moves(player, n - 1),
                false,
            ),
            Step::Open(_) => false,
            Step::Over(b, won) => !self.forfeit && self.boards@[n - 1] == b && self.winner == (
            if won {
                winner_of(second_moves(player, n - 1), true)
            } else {
                GameResult::A
            }),
        }
    }
}

/// Plays one game between `first`, the first player, and `second`. The second
/// player opens if `player` is set. Each proposer sees the board from its
/// own side. When the game is over both players are told what
/// `outcome_for` gives for them, the first player first unless the second
/// one won, and are handed the first `handed` boards of the record.
pub fn play<F: Player, S: Player>(first: &mut F, second: &mut S, player: bool) -> (r: Played)
    ensures
        r.complete(player),
        r.boards@.len() <= 9,
        r.moves@.len() <= 9,
        forall|k: int| 0 <= k < r.boards@.len() ==> (#[trigger] r.boards@[k]).wf(),
{
    let mut game = Game::new();
    let mut boards: Vec<Game> = Vec::new();
    let mut moves: Vec<u8> = Vec::new();
    let mut turn: bool = player;
    let mut forfeit: bool = false;
    let mut winner: Option<GameResult> = None;
    proof {
        Game::lemma_blank();
    }
    while winner.is_none()
        invariant
            game.wf(),
            moves@.len() <= 9,
            forall|k: int| 0 <= k < boards@.len() ==> (#[trigger] boards@[k]).wf(),
            winner is None ==> {
                &&& moves@.len() == boards@.len()
                &&& filled(game@) == boards@.len()
                &&& boards@.len() < 9
                &&& turn == second_moves(player, moves@.len() as int)
                &&& !forfeit
                &&& game == faced(boards@, moves@.len() as int)
                &&& open_until(moves@, boards@, moves@.len() as int)
            },
            winner is Some ==> {
                &&& moves@.len() >= 1
                &&& boards@.len() == (if forfeit {
                    moves@.len() - 1
                } else {
                    moves@.len() as int
                })
                &&& (Played { winner: winner->0, forfeit, moves, boards }).complete(player)
            },
        decreases (if winner is None { 10 - boards@.len() } else { 0 }),
    {
        let ghost moves0 = moves@;
        let ghost boards0 = boards@;
        let ghost n = moves@.len() as int;
        let mv: u8 = if turn {
            second.mv(game)
        } else {
            first.mv(game)
        };
        moves.push(mv);
        let taken = step(game, mv);
        match taken {
            Step::Forfeit => {
                forfeit = true;
                winner = Some(award(turn, false));
                proof {
                    lemma_open_kept(moves0, boards0, moves@, boards@, n);
                    assert(faced(boards@, n) == game);
                }
            },
            Step::Open(placed) => {
                boards.push(placed);
                proof {
                    lemma_open_kept(moves0, boards0, moves@, boards@, n);
                    assert(faced(boards@, n) == game);
                    placed.lemma_flipped();
                    lemma_flip_filled(placed@);
                    lemma_open_not_full(placed@);
                    assert(faced(boards@, n + 1) == placed.flipped());
                }
                game = placed;
                game.flip_board();
                turn = !turn;
            },
            Step::Over(placed, won) => {
                boards.push(placed);
                winner = Some(
                    if won {
                        award(turn, true)
                    } else {
                        GameResult::A
                    },
                );
                proof {
                    lemma_open_kept(moves0, boards0, moves@, boards@, n);
                    assert(faced(boards@, n) == game);
                }
                game = placed;
            },
        }
    }
    let result = winner.unwrap();
    let seen = slice_subrange(boards.as_slice(), 0, handed(boards.len(), forfeit));
    let for_first = outcome_for(result, false);
    let for_second = outcome_for(result, true);
    match result {
        GameResult::O => {
            second.feedback(for_second.0, for_second.1, seen);
            first.feedback(for_first.0, for_first.1, seen);
        },
        _ => {
            first.feedback(for_first.0, for_first.1, seen);
            second.feedback(for_second.0, for_second.1, seen);
        },
    }
    Played { winner: result, forfeit, moves, boards }
}

/// In a run of open moves the board left by move `k` is well formed, holds
/// `k + 1` pieces and has a cell to spare.
pub proof fn lemma_open_boards(moves: Seq<u8>, boards: Seq<Game>, n: int, k: int)
    requires
        open_until(moves, boards, n),
        0 <= k < n,
    ensures
        boards[k].wf(),
        filled(boards[k]@) == k + 1,
        filled(boards[k]@) < 9,
        faced(boards, k + 1).wf(),
        filled(faced(boards, k + 1)@) == k + 1,
    decreases k,
{
    let before = faced(boards, k);
    if k == 0 {
        Game::lemma_blank();
    } else {
        lemma_open_boards(moves, boards, n, k - 1);
    }
    assert(step_of(before, moves[k]) == Step::Open(boards[k]));
    lemma_step_open(before, moves[k], boards[k]);
    boards[k].lemma_flipped();
    lemma_flip_filled(boards[k]@);
}

/// A piece on an available cell raises the number of pieces by one.
pub proof fn lemma_place_filled(cells: Seq<Spot>, i: int)
    requires
        cells.len() == 9,
        0 <= i < 9,
        cells[i] == Spot::A,
    ensures
        filled(cells.update(i, Spot::X)) == filled(cells) + 1,
{
}

/// A step that leaves the game open leaves a well-formed board with one
/// piece more and a cell to spare.
pub proof fn lemma_step_open(game: Game, mv: u8, left: Game)
    requires
        game.wf(),
        step_of(game, mv) == Step::Open(left),
    ensures
        left.wf(),
        filled(left@) == filled(game@) + 1,
        filled(left@) < 9,
{
    game.lemma_with_cell(mv as int, Spot::X);
    lemma_place_filled(game@, mv as int);
    lemma_open_not_full(left@);
}

/// A whole game is over after nine proposals at most, and leaves nine
/// boards at most.
pub proof fn lemma_complete_is_short(played: Played, player: bool)
    requires
        played.complete(player),
    ensures
        1 <= played.moves@.len() <= 9,
        played.boards@.len() <= played.moves@.len(),
{
    let n = played.moves@.len() as int;
    if n >= 2 {
        lemma_open_boards(played.moves@, played.boards@, n - 1, n - 2);
    }
}

/// A run of open moves stays one when the record grows behind it.
proof fn lemma_open_kept(
    moves0: Seq<u8>,
    boards0: Seq<Game>,
    moves: Seq<u8>,
    boards: Seq<Game>,
    n: int,
)
    requires
        open_until(moves0, boards0, n),
        0 <= n <= moves0.len(),
        n <= boards0.len(),
        moves0.len() <= moves.len(),
        boards0.len() <= boards.len(),
        forall|k: int| 0 <= k < moves0.len() ==> moves[k] == moves0[k],
        forall|k: int| 0 <= k < boards0.len() ==> boards[k] == boards0[k],
    ensures
        open_until(moves, boards, n),
        faced(boards, n) == faced(boards0, n),
{
    assert forall|k: int| 0 <= k < n implies step_of(faced(boards, k), #[trigger] moves[k])
        == Step::Open(boards[k]) by {
        assert(moves[k] == moves0[k]);
        assert(faced(boards, k) == faced(boards0, k));
        assert(step_of(faced(boards0, k), moves0[k]) == Step::Open(boards0[k]));
    }
}

/// A position with an available cell holds at most eight pieces.
pub proof fn lemma_open_not_full(cells: Seq<Spot>)
    requires
        cells.len() == 9,
        has_available(cells),
    ensures
        filled(cells) < 9,
{
    let i = choose|i: int| 0 <= i < 9 && cells[i] == Spot::A;
    assert(taken(cells, i) == 0);
}

/// Flipping a position keeps the number of its pieces.
pub proof fn lemma_flip_filled(cells: Seq<Spot>)
    requires
        cells.len() == 9,
    ensures
        filled(flip_cells(cells)) == filled(cells),
{
}

} // verus!
