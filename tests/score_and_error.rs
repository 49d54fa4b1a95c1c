use mcts_engine::error::kind_prefix;
use mcts_engine::{Error, ErrorKind, GameResult, Score};

#[test]
fn score_from_results() {
    assert_eq!(Score::from_game_result(&GameResult::WhiteWin), Score { white_wins: 1, black_wins: 0, draws: 0 });
    assert_eq!(Score::from_game_result(&GameResult::BlackWin), Score { white_wins: 0, black_wins: 1, draws: 0 });
    assert_eq!(Score::from_game_result(&GameResult::Draw), Score { white_wins: 0, black_wins: 0, draws: 1 });
    assert_eq!(Score::new().sum_score(), 0);
}

#[test]
fn merge_is_associative_and_commutative() {
    let a = Score { white_wins: 1, black_wins: 2, draws: 3 };
    let b = Score { white_wins: 10, black_wins: 0, draws: 5 };
    let c = Score { white_wins: 7, black_wins: 8, draws: 0 };
    let left = Score::merge(&Score::merge(&a, &b), &c);
    let right = Score::merge(&a, &Score::merge(&b, &c));
    assert_eq!(left, right);
    assert_eq!(left, Score { white_wins: 18, black_wins: 10, draws: 8 });
    assert_eq!(Score::merge(&a, &b), Score::merge(&b, &a));
    assert_eq!(left.sum_score(), 36);
}

#[test]
fn add_score_and_result() {
    let mut a = Score { white_wins: 1, black_wins: 2, draws: 3 };
    a.add_score(&Score { white_wins: 4, black_wins: 5, draws: 6 });
    assert_eq!(a, Score { white_wins: 5, black_wins: 7, draws: 9 });
    a.add_result(GameResult::Draw);
    assert_eq!(a.draws, 10);
}

#[test]
fn error_constructors() {
    let e = Error::new(ErrorKind::IllegalMove, "e2e5".to_string());
    assert_eq!(e.kind(), ErrorKind::IllegalMove);
    assert_eq!(e.message(), "e2e5");
    assert_eq!(e.source_message(), None);
    assert_eq!(e.to_text(), "Illegal move. e2e5");

    let p = Error::new_parse_error("bad fen".to_string());
    assert_eq!(p.kind(), ErrorKind::ParseError);
    assert_eq!(p.to_text(), "Parse error. bad fen");

    let c = Error::new_caused_by(ErrorKind::IoError, "read failed".to_string(), "disk".to_string());
    assert_eq!(c.source_message(), Some("disk"));
    assert_eq!(c.to_text(), "IO error. read failed\nCaused by: disk");

    let o = Error::new(ErrorKind::Other, "x".to_string());
    assert_eq!(o.to_text(), "x");
}

#[test]
fn kind_prefixes() {
    assert_eq!(kind_prefix(ErrorKind::AmbiguousMove), "Ambiguous move. ");
    assert_eq!(kind_prefix(ErrorKind::IllegalPosition), "Illegal position. ");
    assert_eq!(kind_prefix(ErrorKind::Other), "");
}
