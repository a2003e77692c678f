//! Strategies: a learner over a table of outcomes, two random movers, and
//! the rule for what a person at the keyboard may answer.

use vstd::prelude::*;
use std::collections::HashMap;
use rand::XorShiftRng;
use crate::engine::{Game, Spot, GameResult, Player, has_available, mover_has_line};

verus! {

broadcast use vstd::std_specs::hash::group_hash_axioms;

/// The generator that the strategies draw from. Nothing is known of its state.
#[verifier::external_type_specification]
#[verifier::external_body]
pub struct ExXorShiftRng(rand::XorShiftRng);

/// `rand::Rng::choose` on a slice of cell indices: `None` for an empty
/// slice; for any other, one of its elements, whichever the generator picks.
#[verifier::external_body]
fn pick(rng: &mut XorShiftRng, values: &[u8]) -> (r: Option<u8>)
    ensures
        values@.len() == 0 ==> r is None,
        values@.len() > 0 ==> r is Some && values@.contains(r->0),
{
    rand::Rng::choose(rng, values).copied()
}

/// The cell that was picked, or cell 0 where there was none to pick from.
pub fn settle(picked: Option<u8>) -> (r: u8)
    ensures
        r == (match picked {
            Some(i) => i,
            None => 0u8,
        }),
{
    match picked {
        Some(i) => i,
        None => 0,
    }
}

/// The available cells of a board, in index order.
pub fn open_cells(b: Game) -> (v: Vec<u8>)
    ensures
        forall|k: int| 0 <= k < v@.len() ==> v@[k] < 9 && b@[#[trigger] v@[k] as int] == Spot::A,
        forall|i: u8| i < 9 && b@[i as int] == Spot::A ==> v@.contains(i),
        forall|j: int, k: int| 0 <= j < k < v@.len() ==> v@[j] < v@[k],
{
    let mut v: Vec<u8> = Vec::new();
    let mut i: u8 = 0;
    while i < 9
        invariant
            i <= 9,
            forall|k: int|
                0 <= k < v@.len() ==> v@[k] < i && b@[#[trigger] v@[k] as int] == Spot::A,
            forall|c: u8| c < i && b@[c as int] == Spot::A ==> v@.contains(c),
            forall|j: int, k: int| 0 <= j < k < v@.len() ==> v@[j] < v@[k],
        decreases 9 - i,
    {
        if b.get(i) == Spot::A {
            let ghost before = v@;
            v.push(i);
            proof {
                assert(v@[before.len() as int] == i);
                assert forall|c: u8| c < i + 1 && b@[c as int] == Spot::A implies v@.contains(
                    c,
                ) by {
                    if c < i {
                        let k = choose|k: int| 0 <= k < before.len() && before[k] == c;
                        assert(v@[k] == c);
                    }
                }
            }
        }
        i += 1;
    }
    v
}

/// A mover that picks any available cell.
pub struct UniformAi {
    rng: XorShiftRng,
}

impl UniformAi {
    /// The generator that the mover draws from.
    pub closed spec fn source(&self) -> XorShiftRng {
        self.rng
    }

    /// A mover that draws from `rng`.
    pub fn new(rng: XorShiftRng) -> (ai: Self)
        ensures
            ai.source() == rng,
    {
        UniformAi { rng }
    }
}

impl Player for UniformAi {
    /// Some available cell; cell 0 on a full board.
    fn mv(&mut self, b: Game) -> (r: u8)
        ensures
            has_available(b@) ==> r < 9 && b@[r as int] == Spot::A,
            !has_available(b@) ==> r == 0,
    {
        let cells = open_cells(b);
        let picked = pick(&mut self.rng, cells.as_slice());
        proof {
            if has_available(b@) {
                let i = choose|i: int| 0 <= i < 9 && b@[i] == Spot::A;
                assert(cells@.contains(i as u8));
            }
        }
        settle(picked)
    }
}

/// Placing the mover's piece on cell `i` is legal and completes a line.
pub open spec fn wins_at(b: Game, i: int) -> bool {
    0 <= i < 9 && b@[i] == Spot::A && mover_has_line(b@.update(i, Spot::X))
}

/// The first cell on which the mover wins at once, if there is one.
pub fn winning_cell(b: Game) -> (r: Option<u8>)
    requires
        b.wf(),
    ensures
        match r {
            Some(i) => wins_at(b, i as int) && forall|j: int| 0 <= j < i ==> !wins_at(b, j),
            None => forall|j: int| !wins_at(b, j),
        },
{
    let mut i: u8 = 0;
    while i < 9
        invariant
            i <= 9,
            b.wf(),
            forall|j: int| 0 <= j < i ==> !wins_at(b, j),
        decreases 9 - i,
    {
        if b.get(i) == Spot::A {
            let mut tried = b;
            tried.set(i, Spot::X);
            if tried.x_wins() == GameResult::X {
                return Some(i);
            }
        }
        i += 1;
    }
    None
}

/// A random mover that takes a win when one move away from it.
pub struct RngAi {
    rng: XorShiftRng,
}

impl RngAi {
    /// The generator that the mover draws from.
    pub closed spec fn source(&self) -> XorShiftRng {
        self.rng
    }

    /// A mover that draws from `rng`.
    pub fn new(rng: XorShiftRng) -> (ai: Self)
        ensures
            ai.source() == rng,
    {
        RngAi { rng }
    }
}

impl Player for RngAi {
    /// The first cell that wins at once; where there is none, some
    /// available cell; cell 0 on a full board.
    fn mv(&mut self, b: Game) -> (r: u8)
        ensures
            (exists|i: int| wins_at(b, i)) ==> wins_at(b, r as int) && forall|j: int|
                0 <= j < r ==> !wins_at(b, j),
            has_available(b@) ==> r < 9 && b@[r as int] == Spot::A,
            !has_available(b@) ==> r == 0,
    {
        match winning_cell(b) {
            Some(i) => i,
            None => {
                let cells = open_cells(b);
                let picked = pick(&mut self.rng, cells.as_slice());
                proof {
                    if has_available(b@) {
                        let i = choose|i: int| 0 <= i < 9 && b@[i] == Spot::A;
                        assert(cells@.contains(i as u8));
                    }
                }
                settle(picked)
            },
        }
    }
}

/// How far below the best score a cell may lie and still be a candidate.
pub const SLACK: i64 = 3;

/// The counts that a table holds for a board: successes, then failures.
/// A board that the table has not seen counts as `(0, 0)`.
pub open spec fn lookup(table: Map<Game, (u32, u32)>, key: Game) -> (u32, u32) {
    if table.contains_key(key) {
        table[key]
    } else {
        (0u32, 0u32)
    }
}

/// Successes less failures.
pub open spec fn score(counts: (u32, u32)) -> int {
    counts.0 - counts.1
}

/// The score of the board that placing the mover's piece on cell `i` leaves.
pub open spec fn worth(table: Map<Game, (u32, u32)>, b: Game, i: int) -> int {
    score(lookup(table, b.with_cell(i, Spot::X)))
}

/// Cell `i` is available, and no available cell scores `SLACK` or more
/// above it: it is the best cell or close to it.
pub open spec fn candidate(table: Map<Game, (u32, u32)>, b: Game, i: int) -> bool {
    &&& 0 <= i < 9
    &&& b@[i] == Spot::A
    &&& forall|j: int|
        0 <= j < 9 && b@[j] == Spot::A ==> #[trigger] worth(table, b, j) < worth(table, b, i)
            + SLACK
}

/// A counter raised by `scale`, held at the largest value it can take.
pub open spec fn raised(count: u32, scale: u32) -> u32 {
    if count + scale > u32::MAX {
        u32::MAX
    } else {
        (count + scale) as u32
    }
}

/// The counts after an outcome of weight `scale`: a good one is added to
/// the successes, a bad one to the failures.
pub open spec fn bump(counts: (u32, u32), good: bool, scale: u32) -> (u32, u32) {
    if good {
        (raised(counts.0, scale), counts.1)
    } else {
        (counts.0, raised(counts.1, scale))
    }
}

/// The table after the outcome was applied to one board.
pub open spec fn credit(table: Map<Game, (u32, u32)>, key: Game, good: bool, scale: u32) -> Map<
    Game,
    (u32, u32),
> {
    table.insert(key, bump(lookup(table, key), good, scale))
}

/// The table after the outcome was applied to every board of the log, in
/// order. An outcome of weight 0 leaves the table as it is.
pub open spec fn absorb(table: Map<Game, (u32, u32)>, log: Seq<Game>, good: bool, scale: u32) -> Map<
    Game,
    (u32, u32),
>
    decreases log.len(),
{
    if scale == 0 || log.len() == 0 {
        table
    } else {
        credit(absorb(table, log.drop_last(), good, scale), log.last(), good, scale)
    }
}

/// The learner: it scores each move by what became of the games in which
/// the move's board was reached before, and picks among the best.
///
/// The learner keeps its own log of the boards that its moves left. An
/// outcome applies to the whole log with one sign; the boards that the game
/// loop hands to `feedback` are not used.
pub struct Ai {
    rng: XorShiftRng,
    lut: HashMap<u32, (u32, u32)>,
    log: Vec<Game>,
}

impl Ai {
    /// The value table: the counts of every board seen so far.
    pub closed spec fn table(&self) -> Map<Game, (u32, u32)> {
        Map::new(|g: Game| self.lut@.contains_key(g.bits()), |g: Game| self.lut@[g.bits()])
    }

    /// The boards left by the moves proposed since the last outcome.
    pub closed spec fn log(&self) -> Seq<Game> {
        self.log@
    }

    /// The generator that the learner draws from.
    pub closed spec fn source(&self) -> XorShiftRng {
        self.rng
    }

    /// A learner with an empty table that draws from `rng`.
    pub fn new(rng: XorShiftRng) -> (ai: Self)
        ensures
            ai.source() == rng,
            ai.table() =~= Map::<Game, (u32, u32)>::empty(),
            ai.log() =~= Seq::<Game>::empty(),
    {
        Ai { rng, lut: HashMap::new(), log: Vec::new() }
    }

    /// The counts held for a board, `(0, 0)` for one not seen.
    pub fn stats(&self, key: Game) -> (r: (u32, u32))
        ensures
            r == lookup(self.table(), key),
    {
        let k: u32 = key.key();
        match self.lut.get(&k) {
            Some(counts) => *counts,
            None => (0, 0),
        }
    }

    /// The boards left by the moves proposed since the last outcome.
    pub fn pending(&self) -> (v: &[Game])
        ensures
            v@ == self.log(),
    {
        self.log.as_slice()
    }

    /// The score of the board that a piece on cell `i` leaves.
    fn worth_at(&self, b: Game, i: u8) -> (w: i64)
        requires
            b.wf(),
            i < 9,
        ensures
            w == worth(self.table(), b, i as int),
    {
        let mut placed = b;
        placed.set(i, Spot::X);
        let counts = self.stats(placed);
        let won: i64 = counts.0 as i64;
        let lost: i64 = counts.1 as i64;
        won - lost
    }

    /// The candidate cells of a board, in index order: the available cells
    /// whose score lies less than `SLACK` below the best.
    pub fn candidates(&self, b: Game) -> (v: Vec<u8>)
        requires
            b.wf(),
        ensures
            forall|k: int|
                0 <= k < v@.len() ==> v@[k] < 9 && candidate(
                    self.table(),
                    b,
                    #[trigger] v@[k] as int,
                ),
            forall|i: u8| candidate(self.table(), b, i as int) ==> v@.contains(i),
            forall|j: int, k: int| 0 <= j < k < v@.len() ==> v@[j] < v@[k],
            has_available(b@) ==> v@.len() > 0,
    {
        let cells = open_cells(b);
        let ghost t = self.table();
        let mut best: i64 = i64::MIN;
        let mut k: usize = 0;
        while k < cells.len()
            invariant
                b.wf(),
                t == self.table(),
                k <= cells@.len(),
                forall|j: int| 0 <= j < cells@.len() ==> cells@[j] < 9,
                forall|j: int| 0 <= j < k ==> worth(t, b, #[trigger] cells@[j] as int) <= best,
                k > 0 ==> exists|j: int| 0 <= j < k && worth(t, b, cells@[j] as int) == best,
                k == 0 ==> best == i64::MIN,
            decreases cells@.len() - k,
        {
            let w: i64 = self.worth_at(b, cells[k]);
            if w > best || k == 0 {
                best = w;
            }
            k += 1;
        }
        proof {
            assert forall|i: int| 0 <= i < 9 && b@[i] == Spot::A implies worth(t, b, i)
                <= best by {
                assert(cells@.contains(i as u8));
                let j = choose|j: int| 0 <= j < cells@.len() && cells@[j] == i as u8;
                assert(worth(t, b, cells@[j] as int) <= best);
            }
        }
        let mut v: Vec<u8> = Vec::new();
        k = 0;
        while k < cells.len()
            invariant
                b.wf(),
                t == self.table(),
                k <= cells@.len(),
                -0x1_0000_0000 < best < 0x1_0000_0000 || cells@.len() == 0,
                forall|j: int|
                    0 <= j < cells@.len() ==> cells@[j] < 9 && b@[#[trigger] cells@[j] as int]
                        == Spot::A,
                forall|i: int, j: int| 0 <= i < j < cells@.len() ==> cells@[i] < cells@[j],
                forall|i: int| 0 <= i < 9 && b@[i] == Spot::A ==> worth(t, b, i) <= best,
                cells@.len() > 0 ==> exists|j: int|
                    0 <= j < cells@.len() && worth(t, b, cells@[j] as int) == best,
                forall|j: int|
                    0 <= j < v@.len() ==> v@[j] < 9 && candidate(t, b, #[trigger] v@[j] as int),
                forall|j: int|
                    0 <= j < v@.len() ==> exists|i: int| 0 <= i < k && cells@[i] == #[trigger] v@[j],
                forall|j: int|
                    0 <= j < k && candidate(t, b, cells@[j] as int) ==> v@.contains(
                        #[trigger] cells@[j],
                    ),
                forall|i: int, j: int| 0 <= i < j < v@.len() ==> v@[i] < v@[j],
                (exists|j: int| 0 <= j < k && worth(t, b, cells@[j] as int) == best) ==> v@.len()
                    > 0,
            decreases cells@.len() - k,
        {
            let c: u8 = cells[k];
            let w: i64 = self.worth_at(b, c);
            let ghost before = v@;
            if w + SLACK > best {
                v.push(c);
                proof {
                    assert(v@[before.len() as int] == c);
                    assert forall|j: int| 0 <= j < v@.len() implies exists|i: int|
                        0 <= i < k + 1 && cells@[i] == #[trigger] v@[j] by {
                        if j < before.len() {
                            let i = choose|i: int| 0 <= i < k && cells@[i] == before[j];
                            assert(cells@[i] == v@[j]);
                        } else {
                            assert(cells@[k as int] == v@[j]);
                        }
                    }
                    assert forall|i: int, j: int| 0 <= i < j < v@.len() implies v@[i] < v@[j] by {
                        if j == before.len() {
                            let m = choose|m: int| 0 <= m < k && cells@[m] == before[i];
                            assert(cells@[m] < cells@[k as int]);
                        }
                    }
                    assert forall|j: int|
                        0 <= j < k + 1 && candidate(t, b, cells@[j] as int) implies v@.contains(
                        #[trigger] cells@[j],
                    ) by {
                        if j < k {
                            assert(before.contains(cells@[j]));
                            let m = choose|m: int| 0 <= m < before.len() && before[m] == cells@[j];
                            assert(v@[m] == cells@[j]);
                        } else {
                            assert(v@[before.len() as int] == cells@[j]);
                        }
                    }
                }
            } else {
                proof {
                    let m = choose|m: int|
                        0 <= m < cells@.len() && worth(t, b, cells@[m] as int) == best;
                    assert(b@[cells@[m] as int] == Spot::A);
                    assert(!candidate(t, b, c as int));
                }
            }
            k += 1;
        }
        proof {
            assert forall|i: u8| candidate(t, b, i as int) implies v@.contains(i) by {
                assert(cells@.contains(i));
                let j = choose|j: int| 0 <= j < cells@.len() && cells@[j] == i;
                assert(v@.contains(cells@[j]));
            }
            if has_available(b@) {
                let i = choose|i: int| 0 <= i < 9 && b@[i] == Spot::A;
                assert(cells@.contains(i as u8));
            }
        }
        v
    }

    /// Takes note of the cell that was picked on the board `b`: the board
    /// that the move leaves joins the log. Where nothing was picked the log
    /// stays and the answer is cell 0.
    pub fn record(&mut self, b: Game, picked: Option<u8>) -> (r: u8)
        requires
            b.wf(),
            picked is Some ==> picked->0 < 9,
        ensures
            final(self).table() == old(self).table(),
            final(self).source() == old(self).source(),
            r == (match picked {
                Some(i) => i,
                None => 0u8,
            }),
            final(self).log() == (match picked {
                Some(i) => old(self).log().push(b.with_cell(i as int, Spot::X)),
                None => old(self).log(),
            }),
    {
        match picked {
            Some(i) => {
                let mut placed = b;
                placed.set(i, Spot::X);
                self.log.push(placed);
                i
            },
            None => 0,
        }
    }
}

impl Player for Ai {
    /// A candidate cell of the board, whichever the generator picks; the
    /// board that the move leaves joins the log. On a full board the answer
    /// is cell 0 and the log stays. The table is not touched.
    fn mv(&mut self, b: Game) -> (r: u8)
        ensures
            final(self).table() == old(self).table(),
            has_available(b@) ==> candidate(old(self).table(), b, r as int) && final(self).log()
                == old(self).log().push(b.with_cell(r as int, Spot::X)),
            !has_available(b@) ==> r == 0 && final(self).log() == old(self).log(),
    {
        let cands = self.candidates(b);
        let picked = pick(&mut self.rng, cands.as_slice());
        proof {
            if !has_available(b@) && cands@.len() > 0 {
                assert(candidate(self.table(), b, cands@[0] as int));
            }
        }
        self.record(b, picked)
    }

    /// Applies an outcome to every board of the log, in order, and empties
    /// the log: a good outcome raises the successes of each board by
    /// `scale`, a bad one its failures. With `scale` 0 the log is dropped
    /// and the table stays as it is.
    fn feedback(&mut self, good: bool, scale: u32, _choices: &[Game])
        ensures
            final(self).table() == absorb(old(self).table(), old(self).log(), good, scale),
            scale == 0 ==> final(self).table() == old(self).table(),
            final(self).log() == Seq::<Game>::empty(),
            final(self).source() == old(self).source(),
    {
        if scale != 0 {
            let mut i: usize = 0;
            while i < self.log.len()
                invariant
                    scale != 0,
                    i <= self.log@.len(),
                    self.log@ == old(self).log@,
                    self.rng == old(self).rng,
                    self.table() == absorb(old(self).table(), self.log@.take(i as int), good, scale),
                decreases self.log@.len() - i,
            {
                let ghost before = self.table();
                let board = self.log[i];
                let k: u32 = board.key();
                let counts = self.stats(board);
                let next = if good {
                    (counts.0.saturating_add(scale), counts.1)
                } else {
                    (counts.0, counts.1.saturating_add(scale))
                };
                self.lut.insert(k, next);
                proof {
                    Game::lemma_bits_determine();
                    assert(self.table() =~= credit(before, board, good, scale));
                    let grown = self.log@.take(i + 1);
                    assert(grown.drop_last() =~= self.log@.take(i as int));
                    assert(grown.last() == board);
                }
                i += 1;
            }
            proof {
                assert(self.log@.take(i as int) =~= self.log@);
            }
        }
        self.log.clear();
    }
}

/// An outcome of weight 0 leaves every table as it is, whatever the log
/// holds.
pub proof fn lemma_absorb_nothing(table: Map<Game, (u32, u32)>, log: Seq<Game>, good: bool)
    ensures
        absorb(table, log, good, 0) == table,
{
}

/// A good outcome of weight `scale` on a log of the one board `key`, whose
/// counts were `(s, f)`, leaves that board with `(s + scale, f)` as long as
/// the counter can hold the sum, and every other board with what it had.
pub proof fn lemma_absorb_single(table: Map<Game, (u32, u32)>, key: Game, scale: u32)
    requires
        lookup(table, key).0 + scale <= u32::MAX,
    ensures
        lookup(absorb(table, seq![key], true, scale), key) == (
            (lookup(table, key).0 + scale) as u32,
            lookup(table, key).1,
        ),
        forall|g: Game|
            g != key ==> lookup(#[trigger] absorb(table, seq![key], true, scale), g) == lookup(
                table,
                g,
            ),
{
    let log = seq![key];
    assert(log.drop_last() =~= Seq::<Game>::empty());
    assert(log.last() == key);
    assert(absorb(table, log.drop_last(), true, scale) == table);
    reveal_with_fuel(absorb, 2);
}

/// How often a board stands in a log.
pub open spec fn hits(log: Seq<Game>, g: Game) -> nat
    decreases log.len(),
{
    if log.len() == 0 {
        0
    } else {
        hits(log.drop_last(), g) + (if log.last() == g {
            1nat
        } else {
            0nat
        })
    }
}

/// A count that has reached `n`, held at the largest value a counter can take.
pub open spec fn capped(n: int) -> u32 {
    if n > u32::MAX {
        u32::MAX
    } else {
        n as u32
    }
}

/// What an outcome does to one board, in one step: its successes (after a
/// good outcome) or failures (after a bad one) rise by `scale` for every
/// time the board stands in the log, and stop at the largest value a counter
/// can take; the other counter stays.
pub proof fn lemma_absorb_counts(
    table: Map<Game, (u32, u32)>,
    log: Seq<Game>,
    good: bool,
    scale: u32,
    g: Game,
)
    ensures
        lookup(absorb(table, log, good, scale), g) == (if good {
            (capped(lookup(table, g).0 + scale * hits(log, g)), lookup(table, g).1)
        } else {
            (lookup(table, g).0, capped(lookup(table, g).1 + scale * hits(log, g)))
        }),
    decreases log.len(),
{
    if scale == 0 {
        assert(scale * hits(log, g) == 0) by (nonlinear_arith)
            requires
                scale == 0,
        ;
    } else if log.len() == 0 {
        assert(scale * hits(log, g) == 0) by (nonlinear_arith)
            requires
                hits(log, g) == 0,
        ;
    } else {
        let rest = log.drop_last();
        lemma_absorb_counts(table, rest, good, scale, g);
        let h = hits(rest, g);
        assert(scale * (h + 1) == scale * h + scale) by (nonlinear_arith);
        assert(scale * h >= 0) by (nonlinear_arith)
            requires
                scale >= 0,
                h >= 0,
        ;
    }
}

/// The counters only grow: whatever the outcome and the log, no board's
/// successes or failures are lower afterwards.
pub proof fn lemma_absorb_grows(
    table: Map<Game, (u32, u32)>,
    log: Seq<Game>,
    good: bool,
    scale: u32,
    g: Game,
)
    ensures
        lookup(absorb(table, log, good, scale), g).0 >= lookup(table, g).0,
        lookup(absorb(table, log, good, scale), g).1 >= lookup(table, g).1,
    decreases log.len(),
{
    if scale != 0 && log.len() > 0 {
        lemma_absorb_grows(table, log.drop_last(), good, scale, g);
    }
}

/// The text without the white space at its two ends, as `str::trim` gives it.
pub uninterp spec fn trimmed(text: Seq<char>) -> Seq<char>;

/// The value of a decimal digit; `None` for any other character.
pub open spec fn digit(c: char) -> Option<nat> {
    if 48 <= c as u32 && c as u32 <= 57 {
        Some((c as u32 - 48) as nat)
    } else {
        None
    }
}

/// The number that a run of decimal digits spells; `None` for an empty run
/// and for one that holds anything but digits.
pub open spec fn number(digits: Seq<char>) -> Option<nat>
    decreases digits.len(),
{
    if digits.len() == 0 {
        None
    } else {
        match digit(digits.last()) {
            None => None,
            Some(d) => if digits.len() == 1 {
                Some(d)
            } else {
                match number(digits.drop_last()) {
                    Some(n) => Some(10 * n + d),
                    None => None,
                }
            },
        }
    }
}

/// The number that a text spells as a `u8`: an optional `+`, then decimal
/// digits, whose number must not exceed 255.
pub open spec fn parsed(text: Seq<char>) -> Option<u8> {
    let digits = if text.len() > 0 && text[0] == '+' {
        text.skip(1)
    } else {
        text
    };
    match number(digits) {
        Some(n) => if n <= 255 {
            Some(n as u8)
        } else {
            None
        },
        None => None,
    }
}

/// `str::trim`: the same text without leading and trailing white space.
#[verifier::external_body]
fn trim(text: &str) -> (r: &str)
    ensures
        r@ == trimmed(text@),
{
    text.trim()
}

/// `str::parse::<u8>`: the text must be an optional `+` followed by decimal
/// digits and nothing else, and the number must fit; any other text is an
/// error, which is handed on as `None`.
#[verifier::external_body]
fn parse(text: &str) -> (r: Option<u8>)
    ensures
        r == parsed(text@),
{
    text.parse::<u8>().ok()
}

/// A number that names a cell is kept, anything else is turned down.
pub fn in_range(answer: Option<u8>) -> (r: Option<u8>)
    ensures
        r == (match answer {
            Some(i) if i < 9 => Some(i),
            _ => None,
        }),
{
    match answer {
        Some(i) => if i < 9 {
            Some(i)
        } else {
            None
        },
        None => None,
    }
}

/// A player at the keyboard. Reading a line is left to the program; what
/// counts as an answer is decided here.
pub struct Human;

impl Human {
    /// The cell that a line of input names: the line, trimmed, must spell a
    /// number from 0 to 8. `None` asks for another line.
    pub fn accept(line: &str) -> (r: Option<u8>)
        ensures
            r == (match parsed(trimmed(line@)) {
                Some(i) if i < 9 => Some(i),
                _ => None,
            }),
    {
        in_range(parse(trim(line)))
    }
}

} // verus!
