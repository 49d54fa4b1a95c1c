use mcts_engine::{Color, GamePosition, GameResult, MonteCarloTree, Score, SearchError};
use rand::rngs::StdRng;
use rand::Rng;
use rand::SeedableRng;

/// A small game given by a rule table over the sequence of moves played.
#[derive(Clone, Debug, PartialEq)]
struct Toy {
    history: Vec<usize>,
    rules: fn(&[usize]) -> (Option<GameResult>, usize),
}

impl GamePosition for Toy {
    type Undo = ();

    fn result_of(&self) -> Option<GameResult> {
        self.game_result()
    }

    fn move_count(&self) -> usize {
        self.legal_move_count()
    }

    fn black_to_move(&self) -> bool {
        self.history.len() % 2 == 0
    }

    fn after(&self, index: usize) -> Toy {
        let mut t = self.clone();
        t.history.push(index);
        t
    }

    fn undone(&self, _undo: ()) -> Toy {
        let mut t = self.clone();
        t.history.pop();
        t
    }

    fn side_to_move(&self) -> Color {
        if self.history.len() % 2 == 0 {
            Color::Black
        } else {
            Color::White
        }
    }

    fn game_result(&self) -> Option<GameResult> {
        (self.rules)(&self.history).0
    }

    fn legal_move_count(&self) -> usize {
        (self.rules)(&self.history).1
    }

    fn do_move(&mut self, index: usize) {
        assert!(index < self.legal_move_count());
        self.history.push(index);
    }

    fn undo_move(&mut self, _undo: ()) {
        self.history.pop();
    }

    fn copy_position(&self) -> Toy {
        self.clone()
    }

    fn do_random_move(&mut self, rng: &mut StdRng) {
        let n = self.legal_move_count();
        let i = rng.gen_range(0..n);
        self.history.push(i);
    }
}

/// Black to move with three moves: the middle one wins at once; the others lead to a
/// White reply that ends the game in a White win or a draw.
fn forced_win_rules(h: &[usize]) -> (Option<GameResult>, usize) {
    match h {
        [] => (None, 3),
        [1] => (Some(GameResult::BlackWin), 0),
        [_] => (None, 2),
        [0, 0] => (Some(GameResult::WhiteWin), 0),
        [_, _] => (Some(GameResult::Draw), 0),
        _ => (Some(GameResult::Draw), 0),
    }
}

/// A game already over by repetition, though moves are still legal.
fn repetition_rules(_h: &[usize]) -> (Option<GameResult>, usize) {
    (Some(GameResult::Draw), 2)
}

fn draw_rules(_h: &[usize]) -> (Option<GameResult>, usize) {
    (Some(GameResult::Draw), 0)
}

/// A deeper game: four plies of two moves each, the result set by the parity of the sum.
fn deep_rules(h: &[usize]) -> (Option<GameResult>, usize) {
    if h.len() < 4 {
        (None, 2)
    } else {
        let s: usize = h.iter().sum();
        match s % 3 {
            0 => (Some(GameResult::BlackWin), 0),
            1 => (Some(GameResult::WhiteWin), 0),
            _ => (Some(GameResult::Draw), 0),
        }
    }
}

fn endless_rules(_h: &[usize]) -> (Option<GameResult>, usize) {
    (None, 1)
}

fn wide_rules(h: &[usize]) -> (Option<GameResult>, usize) {
    if h.is_empty() {
        (None, 10001)
    } else {
        (Some(GameResult::Draw), 0)
    }
}

fn toy(rules: fn(&[usize]) -> (Option<GameResult>, usize)) -> Toy {
    Toy { history: Vec::new(), rules }
}

fn node(searches: u64, white: u64, black: u64, draws: u64, maximizing: bool) -> MonteCarloTree {
    MonteCarloTree {
        children: Vec::new(),
        score: Score { white_wins: white, black_wins: black, draws },
        searches,
        is_fully_expanded: true,
        maximizing,
    }
}

fn stats(t: &MonteCarloTree, out: &mut Vec<(u64, u64, u64, u64, bool)>) {
    out.push((t.searches, t.score.white_wins, t.score.black_wins, t.score.draws, t.is_fully_expanded));
    for c in t.children.iter() {
        match c {
            Some(c) => stats(c, out),
            None => out.push((0, 0, 0, 0, false)),
        }
    }
}

fn children_sum(t: &MonteCarloTree) -> u64 {
    t.children.iter().map(|c| c.as_ref().map_or(0, |c| c.searches)).sum()
}

fn check_counts(t: &MonteCarloTree) {
    assert_eq!(t.searches, t.score.white_wins + t.score.black_wins + t.score.draws);
    for c in t.children.iter().flatten() {
        assert_eq!(c.maximizing, !t.maximizing);
        check_counts(c);
    }
}

#[test]
fn forced_win_is_found() {
    let mut pos = toy(forced_win_rules);
    let mut rng = StdRng::seed_from_u64(1);
    let mut tree = MonteCarloTree::new_root(&mut pos, &mut rng).unwrap();
    assert_eq!(tree.children.len(), 3);
    assert!(tree.maximizing);
    for _ in 0..400 {
        let total = tree.searches;
        tree.select(&mut pos, &mut rng, total).unwrap();
    }
    assert_eq!(tree.best_child(), Some(1));
    let best = tree.children[1].as_ref().unwrap();
    let (num, den) = best.score();
    assert_eq!(num, den);
    assert_eq!(best.score.black_wins, best.searches);
}

#[test]
fn terminal_draw_root() {
    let mut pos = toy(draw_rules);
    let mut rng = StdRng::seed_from_u64(2);
    let tree = MonteCarloTree::new_root(&mut pos, &mut rng).unwrap();
    assert!(tree.is_fully_expanded);
    assert_eq!(tree.children.len(), 0);
    assert_eq!(tree.searches, 1);
    assert_eq!(tree.score.draws, 1);
    assert_eq!(tree.best_child(), None);
}

#[test]
fn terminal_draw_expand() {
    let mut pos = toy(draw_rules);
    let mut rng = StdRng::seed_from_u64(2);
    let mut t = MonteCarloTree { children: Vec::new(), score: Score::new(), searches: 0, is_fully_expanded: false, maximizing: true };
    assert_eq!(t.expand(&mut pos, &mut rng), Ok(GameResult::Draw));
    assert!(t.is_fully_expanded);
    assert_eq!(t.searches, 1);
    assert_eq!(t.score.draws, 1);
}

#[test]
fn select_restores_position() {
    let mut pos = toy(deep_rules);
    let mut rng = StdRng::seed_from_u64(3);
    let mut tree = MonteCarloTree::new_root(&mut pos, &mut rng).unwrap();
    for _ in 0..200 {
        let before = pos.clone();
        let total = tree.searches;
        tree.select(&mut pos, &mut rng, total).unwrap();
        assert_eq!(pos, before);
    }
}

#[test]
fn parallel_with_budget_one_matches_sequential() {
    let mut pos = toy(deep_rules);
    let mut a = MonteCarloTree::new_root(&mut pos, &mut StdRng::seed_from_u64(4)).unwrap();
    let mut b = MonteCarloTree::new_root(&mut pos, &mut StdRng::seed_from_u64(4)).unwrap();
    let mut rng_a = StdRng::seed_from_u64(5);
    let mut rng_b = StdRng::seed_from_u64(5);
    for _ in 0..150 {
        let total = a.searches;
        let r = a.select(&mut pos, &mut rng_a, total).unwrap();
        let total = b.searches;
        let s = b.select_parallel(&pos, &mut rng_b, total, 1).unwrap();
        assert_eq!(s, Score::from_game_result(&r));
    }
    let mut sa = Vec::new();
    let mut sb = Vec::new();
    stats(&a, &mut sa);
    stats(&b, &mut sb);
    assert_eq!(sa, sb);
}

#[test]
fn visits_equal_outcomes_and_children_sum() {
    let mut pos = toy(deep_rules);
    let mut rng = StdRng::seed_from_u64(6);
    let mut tree = MonteCarloTree::new_root(&mut pos, &mut rng).unwrap();
    assert_eq!(tree.searches, children_sum(&tree));
    for _ in 0..300 {
        let total = tree.searches;
        tree.select(&mut pos, &mut rng, total).unwrap();
        assert_eq!(tree.searches, children_sum(&tree));
        check_counts(&tree);
    }
    assert_eq!(tree.searches, 302);
}

#[test]
fn parallel_descent_keeps_counts() {
    let mut pos = toy(deep_rules);
    let mut rng = StdRng::seed_from_u64(7);
    let mut tree = MonteCarloTree::new_root(&mut pos, &mut rng).unwrap();
    for _ in 0..100 {
        let before = tree.searches;
        let total = tree.searches;
        let s = tree.select_parallel(&pos, &mut rng, total, 4).unwrap();
        assert_eq!(tree.searches, before + s.sum_score());
        assert!(s.sum_score() >= 1 && s.sum_score() <= 4);
        assert_eq!(tree.searches, children_sum(&tree));
        check_counts(&tree);
    }
    assert!(pos.history.is_empty());
}

#[test]
fn unvisited_child_is_selected_first() {
    let mut t = node(5, 0, 5, 0, true);
    t.children = vec![
        Some(node(3, 0, 3, 0, false)),
        Some(node(0, 0, 0, 0, false)),
        Some(node(2, 0, 2, 0, false)),
    ];
    assert_eq!(t.select_child_index(5), 1);
}

#[test]
fn best_child_maximizing_and_ties() {
    let mut t = node(6, 0, 0, 0, true);
    t.children = vec![
        Some(node(2, 1, 1, 0, false)),
        Some(node(2, 0, 2, 0, false)),
        Some(node(1, 0, 1, 0, false)),
        None,
    ];
    t.score = Score { white_wins: 1, black_wins: 4, draws: 0 };
    t.searches = 5;
    t.is_fully_expanded = false;
    assert_eq!(t.best_child(), Some(1));
}

#[test]
fn best_child_minimizing() {
    let mut t = node(4, 0, 0, 0, false);
    t.children = vec![
        Some(node(2, 0, 1, 1, true)),
        Some(node(2, 2, 0, 0, true)),
    ];
    t.score = Score { white_wins: 2, black_wins: 1, draws: 1 };
    assert_eq!(t.best_child(), Some(1));
    let empty = node(0, 0, 0, 0, true);
    assert_eq!(empty.best_child(), None);
}

#[test]
fn score_of_unvisited_and_visited() {
    assert_eq!(node(0, 0, 0, 0, true).score(), (1, 2));
    assert_eq!(node(4, 1, 2, 1, true).score(), (5, 8));
}

#[test]
fn selection_values() {
    assert_eq!(node(0, 0, 0, 0, false).move_selection_value(9), u64::MAX);
    assert_eq!(node(0, 0, 0, 0, true).move_selection_value(9), u64::MAX);
    assert_eq!(node(1, 0, 1, 0, false).move_selection_value(1), 1048577);
    assert_eq!(node(1, 1, 0, 0, false).move_selection_value(4), 1745993);
    assert_eq!(node(2, 0, 1, 1, true).move_selection_value(3), 1331342);
}

#[test]
fn new_child_flips_polarity() {
    let t = node(0, 0, 0, 0, true);
    let c = t.new_child(3);
    assert_eq!(c.children.len(), 3);
    assert!(!c.maximizing);
    assert!(!c.is_fully_expanded);
    assert_eq!(c.searches, 0);
    assert!(t.new_child(0).is_fully_expanded);
}

#[test]
fn unexpanded_slots_are_listed() {
    let mut t = node(0, 0, 0, 0, true);
    t.children = vec![None, Some(node(1, 0, 1, 0, false)), None];
    assert_eq!(t.unexpanded_indices(), vec![0, 2]);
}

#[test]
fn expand_reports_move_count_mismatch() {
    let mut pos = toy(forced_win_rules);
    let mut rng = StdRng::seed_from_u64(8);
    let mut t = node(0, 0, 0, 0, true);
    t.children = vec![None, None];
    t.is_fully_expanded = false;
    assert_eq!(t.expand(&mut pos, &mut rng), Err(SearchError::MoveCountMismatch));
    assert_eq!(t.searches, 0);
}

#[test]
fn expand_reports_full_node() {
    let mut pos = toy(forced_win_rules);
    let mut rng = StdRng::seed_from_u64(9);
    let mut tree = MonteCarloTree::new_root(&mut pos, &mut rng).unwrap();
    assert_eq!(tree.expand(&mut pos, &mut rng), Err(SearchError::NoUnexpandedChild));
}

#[test]
fn endless_rollout_is_stopped() {
    let mut rng = StdRng::seed_from_u64(10);
    assert_eq!(MonteCarloTree::simulate(toy(endless_rules), &mut rng), Err(SearchError::RolloutTooLong));
    assert_eq!(MonteCarloTree::simulate(toy(draw_rules), &mut rng), Ok(GameResult::Draw));
}

#[test]
fn root_expansion_cap() {
    let mut pos = toy(wide_rules);
    let mut rng = StdRng::seed_from_u64(11);
    assert_eq!(MonteCarloTree::new_root(&mut pos, &mut rng).err(), Some(SearchError::RootNotExpanded));
}

#[test]
fn select_on_desynchronized_position_changes_nothing() {
    let mut pos = toy(forced_win_rules);
    let mut rng = StdRng::seed_from_u64(12);
    let mut tree = MonteCarloTree::new_root(&mut pos, &mut rng).unwrap();
    let before = tree.searches;
    let mut other = toy(deep_rules);
    let total = tree.searches;
    assert_eq!(tree.select(&mut other, &mut rng, total), Err(SearchError::MoveCountMismatch));
    assert_eq!(tree.searches, before);
}

#[test]
fn unvisited_child_is_selected_first_when_minimizing() {
    let mut t = node(5, 5, 0, 0, false);
    t.children = vec![
        Some(node(3, 3, 0, 0, true)),
        Some(node(2, 2, 0, 0, true)),
        Some(node(0, 0, 0, 0, true)),
    ];
    assert_eq!(t.select_child_index(5), 2);
}

#[test]
fn fresh_root_has_one_visit_per_slot() {
    let mut pos = toy(deep_rules);
    let before = pos.clone();
    let mut rng = StdRng::seed_from_u64(13);
    let tree = MonteCarloTree::new_root(&mut pos, &mut rng).unwrap();
    assert_eq!(pos, before);
    assert_eq!(tree.children.len(), 2);
    assert_eq!(tree.searches, 2);
    assert!(tree.maximizing);
    for c in tree.children.iter() {
        let c = c.as_ref().unwrap();
        assert_eq!(c.searches, 1);
        assert!(!c.maximizing);
        assert_eq!(c.children.len(), 2);
        assert!(c.children.iter().all(|s| s.is_none()));
    }
}

#[test]
fn finished_position_is_recorded_by_select() {
    let mut pos = toy(draw_rules);
    let mut rng = StdRng::seed_from_u64(14);
    let mut t = node(0, 0, 0, 0, true);
    assert_eq!(t.select(&mut pos, &mut rng, 0), Ok(GameResult::Draw));
    assert_eq!(t.searches, 1);
    assert_eq!(t.score.draws, 1);
}

#[test]
fn finished_position_with_moves_is_recorded() {
    let mut pos = toy(repetition_rules);
    let mut rng = StdRng::seed_from_u64(15);
    let mut tree = MonteCarloTree::new_root(&mut pos, &mut rng).unwrap();
    assert!(tree.is_fully_expanded);
    assert_eq!(tree.children.len(), 2);
    assert_eq!(tree.searches, 1);
    assert_eq!(tree.score.draws, 1);
    assert_eq!(tree.select(&mut pos, &mut rng, 1), Ok(GameResult::Draw));
    assert_eq!(tree.searches, 2);
    assert_eq!(tree.select_parallel(&pos, &mut rng, 2, 4), Ok(Score::from_game_result(&GameResult::Draw)));
    assert_eq!(tree.searches, 3);
    assert!(tree.children.iter().all(|c| c.is_none()));
    let mut t = node(0, 0, 0, 0, true);
    t.children = vec![None, None];
    t.is_fully_expanded = false;
    assert_eq!(t.expand(&mut pos, &mut rng), Ok(GameResult::Draw));
    assert!(t.is_fully_expanded);
    assert_eq!(t.searches, 1);
}

#[test]
fn fork_records_two_results() {
    let mut pos = toy(deep_rules);
    let mut rng = StdRng::seed_from_u64(16);
    let mut tree = MonteCarloTree::new_root(&mut pos, &mut rng).unwrap();
    let total = tree.searches;
    let s = tree.select_parallel(&pos, &mut rng, total, 2).unwrap();
    assert_eq!(s.sum_score(), 2);
    assert_eq!(tree.searches, 4);
    for c in tree.children.iter() {
        assert_eq!(c.as_ref().unwrap().searches, 2);
    }
}
