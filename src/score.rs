//! Outcomes of finished games and the tallies of them kept by each search node.
use vstd::prelude::*;

verus! {

/// The result of a finished game.
#[derive(Clone, Copy, Debug, PartialEq, Eq)]
pub enum GameResult {
    WhiteWin,
    BlackWin,
    Draw,
}

/// Counts of the finished games seen below a node, by outcome.
#[derive(Clone, Copy, Debug, PartialEq, Eq)]
pub struct Score {
    pub white_wins: u64,
    pub black_wins: u64,
    pub draws: u64,
}

/// The tally of one game with result `r`.
pub open spec fn single(r: GameResult) -> Score {
    match r {
        GameResult::WhiteWin => Score { white_wins: 1, black_wins: 0, draws: 0 },
        GameResult::BlackWin => Score { white_wins: 0, black_wins: 1, draws: 0 },
        GameResult::Draw => Score { white_wins: 0, black_wins: 0, draws: 1 },
    }
}

/// Field-wise sum of two tallies, as mathematical integers.
pub open spec fn merged(a: Score, b: Score) -> (int, int, int) {
    (a.white_wins + b.white_wins, a.black_wins + b.black_wins, a.draws + b.draws)
}

/// The tally `a` with one more game of result `r`.
pub open spec fn with_result(a: Score, r: GameResult) -> Score {
    match r {
        GameResult::WhiteWin => Score { white_wins: (a.white_wins + 1) as u64, ..a },
        GameResult::BlackWin => Score { black_wins: (a.black_wins + 1) as u64, ..a },
        GameResult::Draw => Score { draws: (a.draws + 1) as u64, ..a },
    }
}

impl Score {
    /// The number of games tallied.
    pub open spec fn total(self) -> int {
        self.white_wins + self.black_wins + self.draws
    }

    /// The accumulated value, in half points: two for each black win, one for each draw,
    /// none for a white win.
    pub open spec fn half_points(self) -> int {
        2 * self.black_wins + self.draws
    }

    /// Tuple form of the three counters.
    pub open spec fn counts(self) -> (int, int, int) {
        (self.white_wins as int, self.black_wins as int, self.draws as int)
    }

    /// The empty tally.
    pub fn new() -> (r: Score)
        ensures
            r.total() == 0,
            r.white_wins == 0 && r.black_wins == 0 && r.draws == 0,
    {
        Score { white_wins: 0, black_wins: 0, draws: 0 }
    }

    /// A tally holding the single result `result`.
    pub fn from_game_result(result: &GameResult) -> (r: Score)
        ensures
            r == single(*result),
    {
        let mut score = Score::new();
        match *result {
            GameResult::WhiteWin => score.white_wins = 1,
            GameResult::BlackWin => score.black_wins = 1,
            GameResult::Draw => score.draws = 1,
        }
        score
    }

    /// Adds `other` to this tally, field by field.
    pub fn add_score(&mut self, other: &Score)
        requires
            old(self).white_wins + other.white_wins <= u64::MAX,
            old(self).black_wins + other.black_wins <= u64::MAX,
            old(self).draws + other.draws <= u64::MAX,
        ensures
            final(self).counts() == merged(*old(self), *other),
    {
        self.white_wins = self.white_wins + other.white_wins;
        self.black_wins = self.black_wins + other.black_wins;
        self.draws = self.draws + other.draws;
    }

    /// The field-wise sum of two tallies.
    pub fn merge(a: &Score, b: &Score) -> (r: Score)
        requires
            a.white_wins + b.white_wins <= u64::MAX,
            a.black_wins + b.black_wins <= u64::MAX,
            a.draws + b.draws <= u64::MAX,
        ensures
            r.counts() == merged(*a, *b),
    {
        let mut r = *a;
        r.add_score(b);
        r
    }

    /// Records one more game of result `result`.
    pub fn add_result(&mut self, result: GameResult)
        requires
            old(self).total() < u64::MAX,
        ensures
            *final(self) == with_result(*old(self), result),
            final(self).total() == old(self).total() + 1,
    {
        match result {
            GameResult::WhiteWin => self.white_wins = self.white_wins + 1,
            GameResult::BlackWin => self.black_wins = self.black_wins + 1,
            GameResult::Draw => self.draws = self.draws + 1,
        }
    }

    /// The number of games tallied.
    pub fn sum_score(&self) -> (r: u64)
        requires
            self.total() <= u64::MAX,
        ensures
            r == self.total(),
    {
        self.white_wins + self.black_wins + self.draws
    }
}

/// Merging tallies is associative and commutative, so partial tallies from parallel
/// branches may be combined in any order.
pub proof fn lemma_merge_associative_commutative(a: Score, b: Score, c: Score)
    requires
        a.white_wins + b.white_wins + c.white_wins <= u64::MAX,
        a.black_wins + b.black_wins + c.black_wins <= u64::MAX,
        a.draws + b.draws + c.draws <= u64::MAX,
    ensures
        ({
            let ab = merged(a, b);
            let bc = merged(b, c);
            let ab_s = Score { white_wins: ab.0 as u64, black_wins: ab.1 as u64, draws: ab.2 as u64 };
            let bc_s = Score { white_wins: bc.0 as u64, black_wins: bc.1 as u64, draws: bc.2 as u64 };
            merged(ab_s, c) == merged(a, bc_s)
        }),
        merged(a, b) == merged(b, a),
{
}

} // verus!
