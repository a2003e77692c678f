use rand::{SeedableRng, XorShiftRng};
use tictactoe::ai::{Ai, RngAi, UniformAi};
use tictactoe::engine::{award, handed, outcome_for, play, step, Game, GameResult, Player, Spot, Step};

struct Script {
    moves: Vec<u8>,
    at: usize,
    seen: Vec<Game>,
    told: Vec<(bool, u32, Vec<Game>)>,
}

impl Script {
    fn new(moves: &[u8]) -> Script {
        Script { moves: moves.to_vec(), at: 0, seen: Vec::new(), told: Vec::new() }
    }
}

impl Player for Script {
    fn mv(&mut self, b: Game) -> u8 {
        self.seen.push(b);
        let m = self.moves[self.at];
        self.at += 1;
        m
    }

    fn feedback(&mut self, good: bool, scale: u32, choices: &[Game]) {
        self.told.push((good, scale, choices.to_vec()));
    }
}

struct Silent {
    moves: Vec<u8>,
    at: usize,
}

impl Player for Silent {
    fn mv(&mut self, _b: Game) -> u8 {
        let m = self.moves[self.at];
        self.at += 1;
        m
    }
}

fn placed(cells: &[(u8, Spot)]) -> Game {
    let mut g = Game::new();
    for (i, s) in cells.iter() {
        g.set(*i, *s);
    }
    g
}

#[test]
fn step_out_of_range_is_a_forfeit() {
    assert_eq!(step(Game::new(), 9), Step::Forfeit);
    assert_eq!(step(Game::new(), 255), Step::Forfeit);
}

#[test]
fn step_on_a_taken_cell_is_a_forfeit() {
    let g = placed(&[(4, Spot::X), (0, Spot::O)]);
    assert_eq!(step(g, 4), Step::Forfeit);
    assert_eq!(step(g, 0), Step::Forfeit);
}

#[test]
fn step_places_the_piece_and_goes_on() {
    let g = placed(&[(0, Spot::O)]);
    assert_eq!(step(g, 8), Step::Open(placed(&[(0, Spot::O), (8, Spot::X)])));
}

#[test]
fn step_that_completes_a_line_wins() {
    let g = placed(&[(0, Spot::X), (1, Spot::X), (3, Spot::O), (4, Spot::O)]);
    let after = placed(&[(0, Spot::X), (1, Spot::X), (2, Spot::X), (3, Spot::O), (4, Spot::O)]);
    assert_eq!(step(g, 2), Step::Over(after, true));
}

#[test]
fn step_that_fills_the_board_draws() {
    let mut g = Game::new();
    let cells = [Spot::X, Spot::O, Spot::X, Spot::X, Spot::O, Spot::O, Spot::O, Spot::X];
    for (i, s) in cells.iter().enumerate() {
        g.set(i as u8, *s);
    }
    let mut after = g;
    after.set(8, Spot::X);
    assert_eq!(step(g, 8), Step::Over(after, false));
}

#[test]
fn first_player_wins_on_the_top_row() {
    let mut one = Script::new(&[0, 1, 2]);
    let mut two = Script::new(&[3, 4]);
    let r = play(&mut one, &mut two, false);
    assert_eq!(r.winner, GameResult::X);
    assert!(!r.forfeit);
    assert_eq!(r.moves, vec![0, 3, 1, 4, 2]);
    assert_eq!(r.boards.len(), 5);
    assert_eq!(r.boards[0], placed(&[(0, Spot::X)]));
    assert_eq!(r.boards[1], placed(&[(0, Spot::O), (3, Spot::X)]));
    assert_eq!(
        r.boards[4],
        placed(&[(0, Spot::X), (1, Spot::X), (2, Spot::X), (3, Spot::O), (4, Spot::O)])
    );
    assert_eq!(one.told, vec![(true, 2, r.boards[..4].to_vec())]);
    assert_eq!(two.told, vec![(false, 2, r.boards[..4].to_vec())]);
}

#[test]
fn each_mover_sees_its_own_pieces_as_x() {
    let mut one = Script::new(&[0, 1, 2]);
    let mut two = Script::new(&[3, 4]);
    play(&mut one, &mut two, false);
    assert_eq!(one.seen[0], Game::new());
    assert_eq!(two.seen[0], placed(&[(0, Spot::O)]));
    assert_eq!(one.seen[1], placed(&[(0, Spot::X), (3, Spot::O)]));
}

#[test]
fn second_player_opens_and_wins() {
    let mut one = Script::new(&[3, 5]);
    let mut two = Script::new(&[2, 4, 6]);
    let r = play(&mut one, &mut two, true);
    assert_eq!(r.winner, GameResult::O);
    assert_eq!(r.moves, vec![2, 3, 4, 5, 6]);
    assert!(!r.forfeit);
    assert_eq!(r.boards.len(), 5);
    assert_eq!(two.seen[0], Game::new());
    assert_eq!(two.told, vec![(true, 2, r.boards[..4].to_vec())]);
    assert_eq!(one.told, vec![(false, 2, r.boards[..4].to_vec())]);
}

#[test]
fn second_player_wins_after_the_first_opened() {
    let mut one = Script::new(&[0, 1, 8]);
    let mut two = Script::new(&[2, 4, 6]);
    let r = play(&mut one, &mut two, false);
    assert_eq!(r.winner, GameResult::O);
    assert!(!r.forfeit);
    assert_eq!(r.boards.len(), 6);
    assert_eq!(two.told, vec![(true, 2, r.boards[..5].to_vec())]);
    assert_eq!(one.told, vec![(false, 2, r.boards[..5].to_vec())]);
}

#[test]
fn full_board_is_a_draw_after_nine_moves() {
    let mut one = Script::new(&[0, 2, 3, 7, 8]);
    let mut two = Script::new(&[1, 4, 5, 6]);
    let r = play(&mut one, &mut two, false);
    assert_eq!(r.winner, GameResult::A);
    assert!(!r.forfeit);
    assert_eq!(r.boards.len(), 9);
    assert_eq!(r.moves.len(), 9);
    assert_eq!(one.told, vec![(true, 1, r.boards[..8].to_vec())]);
    assert_eq!(two.told, vec![(true, 1, r.boards[..8].to_vec())]);
}

#[test]
fn illegal_opening_of_the_first_player_gives_the_game_to_the_second() {
    let mut one = Script::new(&[9]);
    let mut two = Script::new(&[]);
    let r = play(&mut one, &mut two, false);
    assert_eq!(r.winner, GameResult::O);
    assert!(r.forfeit);
    assert_eq!(r.moves, vec![9]);
    assert!(r.boards.is_empty());
    assert_eq!(two.told, vec![(true, 2, Vec::new())]);
    assert_eq!(one.told, vec![(false, 2, Vec::new())]);
}

#[test]
fn move_on_a_taken_cell_gives_the_game_to_the_other_side() {
    let mut one = Script::new(&[0]);
    let mut two = Script::new(&[0]);
    let r = play(&mut one, &mut two, false);
    assert_eq!(r.winner, GameResult::X);
    assert!(r.forfeit);
    assert_eq!(r.moves, vec![0, 0]);
    assert_eq!(r.boards, vec![placed(&[(0, Spot::X)])]);
    assert_eq!(one.told, vec![(true, 2, r.boards.clone())]);
    assert_eq!(two.told, vec![(false, 2, r.boards.clone())]);
}

#[test]
fn illegal_move_of_the_second_player_who_opened() {
    let mut one = Script::new(&[]);
    let mut two = Script::new(&[200]);
    let r = play(&mut one, &mut two, true);
    assert_eq!(r.winner, GameResult::X);
    assert!(r.forfeit);
}

#[test]
fn a_player_without_feedback_hook_can_play() {
    let mut one = Silent { moves: vec![4, 0, 8], at: 0 };
    let mut two = Silent { moves: vec![1, 2], at: 0 };
    let r = play(&mut one, &mut two, false);
    assert_eq!(r.winner, GameResult::X);
}

#[test]
fn random_games_end_within_nine_boards() {
    for seed in 1..200u32 {
        let mut one = UniformAi::new(XorShiftRng::from_seed([seed, 2, 3, 4]));
        let mut two = UniformAi::new(XorShiftRng::from_seed([5, seed, 7, 8]));
        let r = play(&mut one, &mut two, seed % 2 == 0);
        assert!(!r.forfeit);
        assert!(r.boards.len() >= 5 && r.boards.len() <= 9);
        assert_eq!(r.moves.len(), r.boards.len());
        let last = r.boards[r.boards.len() - 1];
        assert_ne!(last.x_wins(), GameResult::O);
        for b in r.boards[..r.boards.len() - 1].iter() {
            assert_eq!(b.x_wins(), GameResult::O);
        }
    }
}

#[test]
fn same_seeds_give_the_same_game() {
    for seed in 1..50u32 {
        let mut a1 = UniformAi::new(XorShiftRng::from_seed([seed, 11, 12, 13]));
        let mut a2 = UniformAi::new(XorShiftRng::from_seed([21, seed, 23, 24]));
        let first = play(&mut a1, &mut a2, false);
        let mut b1 = UniformAi::new(XorShiftRng::from_seed([seed, 11, 12, 13]));
        let mut b2 = UniformAi::new(XorShiftRng::from_seed([21, seed, 23, 24]));
        let second = play(&mut b1, &mut b2, false);
        assert_eq!(first.winner, second.winner);
        assert_eq!(first.moves, second.moves);
        assert_eq!(first.boards, second.boards);
        assert_eq!(first.forfeit, second.forfeit);
    }
}

#[test]
fn learners_play_whole_games_and_empty_their_logs() {
    let mut one = Ai::new(XorShiftRng::from_seed([1, 2, 3, 4]));
    let mut two = RngAi::new(XorShiftRng::from_seed([5, 6, 7, 8]));
    for n in 0..300u32 {
        let r = play(&mut one, &mut two, n % 2 == 1);
        assert!(!r.forfeit);
        assert!(r.boards.len() <= 9);
        assert!(one.pending().is_empty());
    }
}

#[test]
fn outcome_is_good_for_the_winner_and_bad_for_the_loser() {
    assert_eq!(outcome_for(GameResult::X, false), (true, 2));
    assert_eq!(outcome_for(GameResult::X, true), (false, 2));
    assert_eq!(outcome_for(GameResult::O, false), (false, 2));
    assert_eq!(outcome_for(GameResult::O, true), (true, 2));
    assert_eq!(outcome_for(GameResult::A, false), (true, 1));
    assert_eq!(outcome_for(GameResult::A, true), (true, 1));
}

#[test]
fn board_that_ended_the_game_is_not_handed_over() {
    assert_eq!(handed(5, false), 4);
    assert_eq!(handed(9, false), 8);
    assert_eq!(handed(3, true), 3);
    assert_eq!(handed(0, true), 0);
    assert_eq!(handed(0, false), 0);
}

#[test]
fn last_mover_wins_or_forfeits() {
    assert_eq!(award(false, true), GameResult::X);
    assert_eq!(award(true, true), GameResult::O);
    assert_eq!(award(false, false), GameResult::O);
    assert_eq!(award(true, false), GameResult::X);
}
