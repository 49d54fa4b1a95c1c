//! The search tree: node statistics, selection, expansion, rollouts and ranking.
use vstd::prelude::*;
use rand::rngs::StdRng;

verus! {

use crate::numeric::{exploration_bonus, exploration_fixed, SCALE};
use crate::position::{Color, GamePosition};
use crate::random::{random_below, random_u64, seeded_rng};
use crate::score::{merged, single, with_result, GameResult, Score};
use vstd::pervasive::VecAdditionalExecFns;

/// Visit counts stay below this bound, so that counters and fixed-point products
/// cannot overflow.
pub const MAX_SEARCHES: u64 = 0x4000_0000_0000_0000;

/// The most expansions that building a root may take before it is given up.
pub const ROOT_EXPANSION_CAP: u64 = 10000;

/// The longest rollout, in moves, before the position is taken to be broken.
pub const MAX_ROLLOUT_PLIES: u64 = 1000000;

/// Fatal conditions that stop a search.
#[derive(Clone, Copy, Debug, PartialEq, Eq)]
pub enum SearchError {
    /// The position's legal-move count disagrees with the node's number of child slots.
    MoveCountMismatch,
    /// A node that was asked to grow has no unexpanded child slot left.
    NoUnexpandedChild,
    /// A rollout did not reach the end of the game.
    RolloutTooLong,
    /// The root was not fully expanded within the expansion cap.
    RootNotExpanded,
    /// A rollout reached a position that is not finished but has no legal move.
    NoLegalMoves,
}

/// A node of the search tree, for one position reached by a sequence of moves.
#[derive(Debug)]
pub struct MonteCarloTree {
    /// One slot per legal move, in the position's move order: `None` until expanded.
    pub children: Vec<Option<MonteCarloTree>>,
    /// Results of the rollouts recorded through this node.
    pub score: Score,
    /// The number of rollouts recorded through this node.
    pub searches: u64,
    /// True iff every child slot holds a node.
    pub is_fully_expanded: bool,
    /// True iff this node prefers children with higher scores; the negation of its parent's.
    pub maximizing: bool,
}

/// `p` is reached from `start` by `n` legal moves.
pub open spec fn reachable<B: GamePosition>(start: B, p: B, n: nat) -> bool
    decreases n,
{
    if n == 0 {
        p == start
    } else {
        exists|q: B, i: usize|
            reachable(start, q, (n - 1) as nat) && i < q.move_count() && p == #[trigger] q.after(i)
    }
}

/// The visit count of a child slot (zero when unexpanded).
pub open spec fn slot_visits(c: Option<MonteCarloTree>) -> int {
    match c {
        Some(t) => t.searches as int,
        None => 0,
    }
}

/// The sum of the visit counts of a sequence of child slots.
pub open spec fn child_visits(s: Seq<Option<MonteCarloTree>>) -> int
    decreases s.len(),
{
    if s.len() == 0 {
        0
    } else {
        child_visits(s.drop_last()) + slot_visits(s.last())
    }
}

/// Every slot holds a node.
pub open spec fn all_expanded(s: Seq<Option<MonteCarloTree>>) -> bool {
    forall|i: int| 0 <= i < s.len() ==> (#[trigger] s[i]) is Some
}

proof fn lemma_child_visits_update(s: Seq<Option<MonteCarloTree>>, i: int, x: Option<MonteCarloTree>)
    requires
        0 <= i < s.len(),
    ensures
        child_visits(s.update(i, x)) == child_visits(s) - slot_visits(s[i]) + slot_visits(x),
    decreases s.len(),
{
    let t = s.update(i, x);
    if i == s.len() - 1 {
        assert(t.drop_last() =~= s.drop_last());
    } else {
        lemma_child_visits_update(s.drop_last(), i, x);
        assert(t.drop_last() =~= s.drop_last().update(i, x));
    }
}

proof fn lemma_child_visits_bound(s: Seq<Option<MonteCarloTree>>, i: int)
    requires
        0 <= i < s.len(),
    ensures
        slot_visits(s[i]) <= child_visits(s),
    decreases s.len(),
{
    lemma_child_visits_nonneg(s.drop_last());
    if i < s.len() - 1 {
        lemma_child_visits_bound(s.drop_last(), i);
    }
}

proof fn lemma_child_visits_all_one(s: Seq<Option<MonteCarloTree>>)
    requires
        forall|j: int| 0 <= j < s.len() ==> (#[trigger] s[j]) is Some,
        forall|j: int| 0 <= j < s.len() && (#[trigger] s[j]) is Some ==> s[j]->Some_0.searches == 1,
    ensures
        child_visits(s) == s.len(),
    decreases s.len(),
{
    if s.len() > 0 {
        let t = s.drop_last();
        assert forall|j: int| 0 <= j < t.len() implies (#[trigger] t[j]) is Some by {
            assert(t[j] == s[j]);
        }
        assert forall|j: int| 0 <= j < t.len() && (#[trigger] t[j]) is Some implies t[j]->Some_0.searches == 1 by {
            assert(t[j] == s[j]);
        }
        lemma_child_visits_all_one(t);
        assert(s[s.len() - 1] is Some);
    }
}

proof fn lemma_child_visits_ones(s: Seq<Option<MonteCarloTree>>)
    requires
        forall|j: int| 0 <= j < s.len() && (#[trigger] s[j]) is Some ==> s[j]->Some_0.searches == 1,
    ensures
        child_visits(s) <= s.len(),
        child_visits(s) == s.len() ==> all_expanded(s),
    decreases s.len(),
{
    if s.len() > 0 {
        let t = s.drop_last();
        assert forall|j: int| 0 <= j < t.len() && (#[trigger] t[j]) is Some implies t[j]->Some_0.searches == 1 by {
            assert(t[j] == s[j]);
        }
        lemma_child_visits_ones(t);
        if child_visits(s) == s.len() {
            assert(s[s.len() - 1] is Some);
            assert forall|j: int| 0 <= j < s.len() implies (#[trigger] s[j]) is Some by {
                if j < s.len() - 1 {
                    assert(t[j] == s[j]);
                }
            }
        }
    }
}

proof fn lemma_child_visits_nonneg(s: Seq<Option<MonteCarloTree>>)
    ensures
        child_visits(s) >= 0,
    decreases s.len(),
{
    if s.len() > 0 {
        lemma_child_visits_nonneg(s.drop_last());
    }
}

impl MonteCarloTree {
    /// Rollouts recorded at this node beyond those of its children: zero for a root,
    /// one for a node grown by expansion (its own first rollout).
    pub open spec fn surplus(self) -> int {
        self.searches - child_visits(self.children@)
    }

    /// The node invariant, for the node and all of its descendants.
    pub open spec fn wf(self) -> bool
        decreases self,
    {
        &&& self.score.total() == self.searches
        &&& self.searches <= MAX_SEARCHES
        &&& (all_expanded(self.children@) ==> self.is_fully_expanded)
        &&& child_visits(self.children@) <= self.searches
        &&& forall|i: int|
            0 <= i < self.children.len() && (#[trigger] self.children@[i]) is Some ==> {
                &&& self.children@[i]->Some_0.wf()
                &&& self.children@[i]->Some_0.maximizing == !self.maximizing
            }
    }

    /// A node with `num_of_children` unexpanded slots and the opposite polarity of this one.
    pub fn new_child(&self, num_of_children: usize) -> (r: MonteCarloTree)
        ensures
            r.wf(),
            r.children.len() == num_of_children,
            forall|i: int| 0 <= i < num_of_children ==> r.children@[i] is None,
            r.searches == 0,
            r.score.total() == 0,
            r.maximizing == !self.maximizing,
            r.is_fully_expanded == (num_of_children == 0),
    {
        MonteCarloTree::leaf(num_of_children, !self.maximizing)
    }

    fn leaf(n: usize, maximizing: bool) -> (r: MonteCarloTree)
        ensures
            r.wf(),
            r.children.len() == n,
            forall|i: int| 0 <= i < n ==> r.children@[i] is None,
            r.searches == 0,
            r.score.total() == 0,
            r.maximizing == maximizing,
            r.is_fully_expanded == (n == 0),
            child_visits(r.children@) == 0,
    {
        let mut children: Vec<Option<MonteCarloTree>> = Vec::new();
        let mut i: usize = 0;
        while i < n
            invariant
                i <= n,
                children@.len() == i,
                forall|j: int| 0 <= j < i ==> children@[j] is None,
                child_visits(children@) == 0,
            decreases n - i,
        {
            let ghost prev = children@;
            children.push(None);
            proof {
                assert(children@.drop_last() =~= prev);
            }
            i = i + 1;
        }
        let r = MonteCarloTree {
            children,
            score: Score::new(),
            searches: 0,
            is_fully_expanded: n == 0,
            maximizing,
        };
        proof {
            if n > 0 {
                assert(!(r.children@[0] is Some));
            }
        }
        r
    }

    /// Records one more rollout with result `result` at this node.
    fn add_value(&mut self, result: GameResult)
        requires
            old(self).score.total() == old(self).searches,
            old(self).searches < MAX_SEARCHES,
        ensures
            final(self).searches == old(self).searches + 1,
            final(self).score == with_result(old(self).score, result),
            final(self).score.total() == old(self).score.total() + 1,
            final(self).children == old(self).children,
            final(self).is_fully_expanded == old(self).is_fully_expanded,
            final(self).maximizing == old(self).maximizing,
    {
        self.searches = self.searches + 1;
        self.score.add_result(result);
    }
}


/// `a / b < c / d` for positive denominators, by cross-multiplication.
pub open spec fn frac_less(a: int, b: int, c: int, d: int) -> bool {
    a * d < c * b
}

proof fn lemma_frac_trans(a: int, b: int, c: int, d: int, e: int, f: int)
    requires
        b > 0,
        d > 0,
        f > 0,
        frac_less(c, d, a, b),
        !frac_less(c, d, e, f),
    ensures
        frac_less(e, f, a, b),
{
    assert(c * b * f < a * d * f) by (nonlinear_arith)
        requires c * b < a * d, f > 0;
    assert(e * d * b <= c * f * b) by (nonlinear_arith)
        requires e * d <= c * f, b > 0;
    assert(e * b * d < a * f * d) by (nonlinear_arith)
        requires c * b * f < a * d * f, e * d * b <= c * f * b;
    assert(e * b < a * f) by (nonlinear_arith)
        requires e * b * d < a * f * d, d > 0;
}

proof fn lemma_frac_trans_min(a: int, b: int, c: int, d: int, e: int, f: int)
    requires
        b > 0,
        d > 0,
        f > 0,
        frac_less(a, b, c, d),
        !frac_less(e, f, c, d),
    ensures
        frac_less(a, b, e, f),
{
    assert(a * d * f < c * b * f) by (nonlinear_arith)
        requires a * d < c * b, f > 0;
    assert(c * f * b <= e * d * b) by (nonlinear_arith)
        requires c * f <= e * d, b > 0;
    assert(a * f * d < e * b * d) by (nonlinear_arith)
        requires a * d * f < c * b * f, c * f * b <= e * d * b;
    assert(a * f < e * b) by (nonlinear_arith)
        requires a * f * d < e * b * d, d > 0;
}

impl MonteCarloTree {
    /// Numerator of the node's score, in half points (a neutral one half when unvisited).
    pub open spec fn score_num(self) -> int {
        if self.searches == 0 { 1 } else { self.score.half_points() }
    }

    /// Denominator of the node's score.
    pub open spec fn score_den(self) -> int {
        if self.searches == 0 { 2 } else { 2 * self.searches }
    }

    /// The node's score `value / searches` as a fraction: `(half points, 2 * searches)`,
    /// or one half when the node has no visits.
    pub fn score(&self) -> (r: (u64, u64))
        requires
            self.wf(),
        ensures
            r.0 == self.score_num(),
            r.1 == self.score_den(),
            r.0 <= r.1,
            r.1 > 0,
    {
        if self.searches == 0 {
            (1, 2)
        } else {
            (2 * self.score.black_wins + self.score.draws, 2 * self.searches)
        }
    }

    /// `a` ranks strictly before `b` for a node of polarity `maximizing`.
    pub open spec fn ranks_before(maximizing: bool, a: MonteCarloTree, b: MonteCarloTree) -> bool {
        if maximizing {
            frac_less(b.score_num(), b.score_den(), a.score_num(), a.score_den())
        } else {
            frac_less(a.score_num(), a.score_den(), b.score_num(), b.score_den())
        }
    }

    /// Slot `i` holds the best expanded child: none ranks before it, and it ranks
    /// strictly before every expanded child at a lower index.
    pub open spec fn is_best_child(self, i: int) -> bool {
        &&& 0 <= i < self.children.len()
        &&& self.children@[i] is Some
        &&& forall|j: int|
            0 <= j < self.children.len() && (#[trigger] self.children@[j]) is Some
                ==> !Self::ranks_before(self.maximizing, self.children@[j]->Some_0, self.children@[i]->Some_0)
        &&& forall|j: int|
            0 <= j < i && (#[trigger] self.children@[j]) is Some
                ==> Self::ranks_before(self.maximizing, self.children@[i]->Some_0, self.children@[j]->Some_0)
    }

    /// The index of the expanded child with the highest score (lowest when minimizing),
    /// the first such on ties; `None` when no child is expanded.
    pub fn best_child(&self) -> (r: Option<usize>)
        requires
            self.wf(),
        ensures
            match r {
                Some(i) => self.is_best_child(i as int),
                None => forall|i: int| 0 <= i < self.children.len() ==> (#[trigger] self.children@[i]) is None,
            },
    {
        let mut best: Option<usize> = None;
        let mut best_num: u64 = 0;
        let mut best_den: u64 = 1;
        let mut i: usize = 0;
        while i < self.children.len()
            invariant
                self.wf(),
                i <= self.children.len(),
                match best {
                    None => forall|j: int| 0 <= j < i ==> (#[trigger] self.children@[j]) is None,
                    Some(b) => {
                        &&& b < i
                        &&& self.children@[b as int] is Some
                        &&& best_num == self.children@[b as int]->Some_0.score_num()
                        &&& best_den == self.children@[b as int]->Some_0.score_den()
                        &&& forall|j: int|
                            0 <= j < i && (#[trigger] self.children@[j]) is Some ==> !Self::ranks_before(
                                self.maximizing,
                                self.children@[j]->Some_0,
                                self.children@[b as int]->Some_0,
                            )
                        &&& forall|j: int|
                            0 <= j < b && (#[trigger] self.children@[j]) is Some ==> Self::ranks_before(
                                self.maximizing,
                                self.children@[b as int]->Some_0,
                                self.children@[j]->Some_0,
                            )
                    },
                },
            decreases self.children.len() - i,
        {
            match &self.children[i] {
                None => {},
                Some(c) => {
                    assert(self.children@[i as int] is Some);
                    let (num, den) = c.score();
                    match best {
                        None => {
                            best = Some(i);
                            best_num = num;
                            best_den = den;
                        },
                        Some(b) => {
                            proof {
                                assert((best_num as int) * (den as int) <= 0xffff_ffff_ffff_ffff * 0xffff_ffff_ffff_ffff)
                                    by (nonlinear_arith)
                                    requires best_num <= 0xffff_ffff_ffff_ffff, den <= 0xffff_ffff_ffff_ffff;
                                assert((num as int) * (best_den as int) <= 0xffff_ffff_ffff_ffff * 0xffff_ffff_ffff_ffff)
                                    by (nonlinear_arith)
                                    requires num <= 0xffff_ffff_ffff_ffff, best_den <= 0xffff_ffff_ffff_ffff;
                            }
                            let lhs: u128 = (best_num as u128) * (den as u128);
                            let rhs: u128 = (num as u128) * (best_den as u128);
                            let better = if self.maximizing { lhs < rhs } else { rhs < lhs };
                            if better {
                                proof {
                                    assert forall|j: int|
                                        0 <= j < i && (#[trigger] self.children@[j]) is Some implies Self::ranks_before(
                                            self.maximizing,
                                            self.children@[i as int]->Some_0,
                                            self.children@[j]->Some_0,
                                        ) by {
                                        let cj = self.children@[j]->Some_0;
                                        if self.maximizing {
                                            lemma_frac_trans(num as int, den as int, best_num as int, best_den as int, cj.score_num(), cj.score_den());
                                        } else {
                                            lemma_frac_trans_min(num as int, den as int, best_num as int, best_den as int, cj.score_num(), cj.score_den());
                                        }
                                    }
                                }
                                best = Some(i);
                                best_num = num;
                                best_den = den;
                            }
                        },
                    }
                },
            }
            i = i + 1;
        }
        best
    }

    /// A node's appeal for further exploration, seen from its parent of polarity
    /// `parent_max`; higher is always better. Unvisited children score the extreme
    /// `u64::MAX` under either polarity, so every child is tried before any is revisited.
    pub open spec fn selection_value(parent_max: bool, total: u64, c: MonteCarloTree) -> int {
        if c.searches == 0 {
            u64::MAX as int
        } else {
            let s = (SCALE * c.score.half_points()) / (2 * c.searches);
            1 + (if parent_max { s } else { SCALE - s }) + exploration_fixed(total as nat, c.searches as nat)
        }
    }

    /// This node's selection value under a parent searched `total_searches` times:
    /// `adjusted score + sqrt(2) * sqrt(ln(total_searches) / searches)` in fixed point,
    /// where the score counts for the parent's side.
    pub fn move_selection_value(&self, total_searches: u64) -> (r: u64)
        requires
            self.wf(),
        ensures
            r == Self::selection_value(!self.maximizing, total_searches, *self),
            self.searches > 0 ==> 1 <= r <= 1 + SCALE + 0x100_0000,
    {
        let parent_max = !self.maximizing;
        if self.searches == 0 {
            u64::MAX
        } else {
            let half: u64 = 2 * self.score.black_wins + self.score.draws;
            let den: u64 = 2 * self.searches;
            let s128: u128 = (SCALE as u128) * (half as u128) / (den as u128);
            proof {
                assert(SCALE * half <= SCALE * den) by (nonlinear_arith)
                    requires half <= den;
                vstd::arithmetic::div_mod::lemma_div_is_ordered((SCALE * half) as int, (SCALE * den) as int, den as int);
                vstd::arithmetic::div_mod::lemma_div_by_multiple(SCALE as int, den as int);
            }
            let s: u64 = s128 as u64;
            let adjusted: u64 = if parent_max { s } else { SCALE - s };
            let bonus = exploration_bonus(total_searches, self.searches);
            1 + adjusted + bonus
        }
    }

    /// The child that selection descends into: the first child of maximum selection
    /// value. An unvisited child, if there is one, is always preferred.
    pub fn select_child_index(&self, total_searches: u64) -> (r: usize)
        requires
            self.wf(),
            all_expanded(self.children@),
            self.children.len() > 0,
        ensures
            r < self.children.len(),
            forall|j: int|
                0 <= j < self.children.len() ==> Self::selection_value(
                    self.maximizing,
                    total_searches,
                    #[trigger] self.children@[j]->Some_0,
                ) <= Self::selection_value(self.maximizing, total_searches, self.children@[r as int]->Some_0),
            forall|j: int|
                0 <= j < r ==> Self::selection_value(
                    self.maximizing,
                    total_searches,
                    #[trigger] self.children@[j]->Some_0,
                ) < Self::selection_value(self.maximizing, total_searches, self.children@[r as int]->Some_0),
            Self::has_unvisited(*self) ==> self.children@[r as int]->Some_0.searches == 0,
    {
        let mut best: usize = 0;
        let mut best_value: u64 = 0;
        let mut i: usize = 0;
        while i < self.children.len()
            invariant
                self.wf(),
                all_expanded(self.children@),
                self.children.len() > 0,
                i <= self.children.len(),
                best < self.children.len(),
                i > 0 ==> best < i,
                i > 0 ==> best_value == Self::selection_value(
                    self.maximizing,
                    total_searches,
                    self.children@[best as int]->Some_0,
                ),
                forall|j: int|
                    0 <= j < i ==> Self::selection_value(
                        self.maximizing,
                        total_searches,
                        #[trigger] self.children@[j]->Some_0,
                    ) <= best_value,
                forall|j: int|
                    0 <= j < best ==> Self::selection_value(
                        self.maximizing,
                        total_searches,
                        #[trigger] self.children@[j]->Some_0,
                    ) < best_value,
                forall|j: int|
                    0 <= j < i && (#[trigger] self.children@[j])->Some_0.searches > 0
                        ==> Self::selection_value(self.maximizing, total_searches, self.children@[j]->Some_0)
                        <= 1 + SCALE + 0x100_0000,
                i == 0 ==> best == 0,
            decreases self.children.len() - i,
        {
            assert(self.children@[i as int] is Some);
            match &self.children[i] {
                Some(c) => {
                    assert(c.wf() && c.maximizing == !self.maximizing);
                    let v = c.move_selection_value(total_searches);
                    assert(v == Self::selection_value(self.maximizing, total_searches, self.children@[i as int]->Some_0));
                    if i == 0 || v > best_value {
                        best = i;
                        best_value = v;
                    }
                },
                None => {},
            }
            i = i + 1;
        }
        proof {
            {
                let rb = self.children@[best as int]->Some_0;
                if exists|j: int| 0 <= j < self.children.len() && (#[trigger] self.children@[j])->Some_0.searches == 0 {
                    let j = choose|j: int| 0 <= j < self.children.len() && (#[trigger] self.children@[j])->Some_0.searches == 0;
                    assert(Self::selection_value(self.maximizing, total_searches, self.children@[j]->Some_0) == u64::MAX);
                    if rb.searches > 0 {
                        assert(Self::selection_value(self.maximizing, total_searches, rb) <= 1 + SCALE + 0x100_0000);
                    }
                }
            }
        }
        best
    }

    /// Whether every child slot holds a node.
    fn all_children_expanded(&self) -> (r: bool)
        ensures
            r == all_expanded(self.children@),
    {
        let mut i: usize = 0;
        while i < self.children.len()
            invariant
                i <= self.children.len(),
                forall|j: int| 0 <= j < i ==> (#[trigger] self.children@[j]) is Some,
            decreases self.children.len() - i,
        {
            if self.children[i].is_none() {
                return false;
            }
            i = i + 1;
        }
        true
    }

    /// The indices of the unexpanded child slots, in increasing order.
    pub fn unexpanded_indices(&self) -> (r: Vec<usize>)
        ensures
            forall|k: int| 0 <= k < r.len() ==> {
                &&& (#[trigger] r@[k]) < self.children.len()
                &&& self.children@[r@[k] as int] is None
            },
            forall|i: int| 0 <= i < self.children.len() && (#[trigger] self.children@[i]) is None
                ==> r@.contains(i as usize),
            forall|k1: int, k2: int| 0 <= k1 < k2 < r.len() ==> r@[k1] < r@[k2],
    {
        let mut r: Vec<usize> = Vec::new();
        let mut i: usize = 0;
        while i < self.children.len()
            invariant
                i <= self.children.len(),
                forall|k: int| 0 <= k < r.len() ==> {
                    &&& (#[trigger] r@[k]) < i
                    &&& self.children@[r@[k] as int] is None
                },
                forall|j: int| 0 <= j < i && (#[trigger] self.children@[j]) is None ==> r@.contains(j as usize),
                forall|k1: int, k2: int| 0 <= k1 < k2 < r.len() ==> r@[k1] < r@[k2],
            decreases self.children.len() - i,
        {
            if self.children[i].is_none() {
                let ghost prev = r@;
                r.push(i);
                proof {
                    assert forall|j: int| 0 <= j < i + 1 && (#[trigger] self.children@[j]) is None implies r@.contains(
                        j as usize,
                    ) by {
                        if j < i {
                            let k = choose|k: int| 0 <= k < prev.len() && prev[k] == j as usize;
                            assert(r@[k] == j as usize);
                        } else {
                            assert(r@[prev.len() as int] == j as usize);
                        }
                    }
                }
            }
            i = i + 1;
        }
        r
    }

    /// After a descent that recorded the result `r`: one more visit, tallied under `r`.
    pub open spec fn recorded(before: MonteCarloTree, after: MonteCarloTree, r: GameResult) -> bool {
        &&& after.searches == before.searches + 1
        &&& after.score == with_result(before.score, r)
    }

    /// What every descent keeps: the invariant, the polarity, the number of slots,
    /// and full expansion once reached.
    pub open spec fn kept(before: MonteCarloTree, after: MonteCarloTree) -> bool {
        &&& after.wf()
        &&& after.maximizing == before.maximizing
        &&& after.children.len() == before.children.len()
        &&& (before.is_fully_expanded ==> after.is_fully_expanded)
    }

    /// A descent below a node with children kept its surplus.
    pub open spec fn balanced(before: MonteCarloTree, after: MonteCarloTree) -> bool {
        before.children.len() > 0 ==> after.surplus() == before.surplus()
    }

    /// After a descent that failed: the node's statistics are as they were.
    pub open spec fn untouched(before: MonteCarloTree, after: MonteCarloTree) -> bool {
        &&& after.searches == before.searches
        &&& after.score == before.score
    }

    /// Slot `i` is the child that selection enters: the first of maximum selection value.
    pub open spec fn is_selection_choice(t: MonteCarloTree, total: u64, i: int) -> bool {
        &&& 0 <= i < t.children.len()
        &&& forall|j: int|
            0 <= j < t.children.len() ==> Self::selection_value(t.maximizing, total, #[trigger] t.children@[j]->Some_0)
                <= Self::selection_value(t.maximizing, total, t.children@[i]->Some_0)
        &&& forall|j: int|
            0 <= j < i ==> Self::selection_value(t.maximizing, total, #[trigger] t.children@[j]->Some_0)
                < Self::selection_value(t.maximizing, total, t.children@[i]->Some_0)
    }

    /// Every slot but `i` is as it was.
    pub open spec fn others_unchanged(before: MonteCarloTree, after: MonteCarloTree, i: int) -> bool {
        forall|j: int| 0 <= j < before.children.len() && j != i ==> (#[trigger] after.children@[j]) == before.children@[j]
    }

    /// Some child of `t` has never been visited.
    pub open spec fn has_unvisited(t: MonteCarloTree) -> bool {
        exists|j: int| 0 <= j < t.children.len() && (#[trigger] t.children@[j])->Some_0.searches == 0
    }

    /// Selection entered slot `i`, whose child recorded `res`; no other slot changed.
    /// When some child is unvisited, the child entered was unvisited.
    pub open spec fn entered(before: MonteCarloTree, after: MonteCarloTree, total: u64, i: int, res: GameResult) -> bool {
        &&& Self::is_selection_choice(before, total, i)
        &&& (Self::has_unvisited(before) ==> before.children@[i]->Some_0.searches == 0)
        &&& Self::others_unchanged(before, after, i)
        &&& after.children@[i] is Some
        &&& Self::recorded(before.children@[i]->Some_0, after.children@[i]->Some_0, res)
    }

    /// Expansion filled the empty slot `i` with a new child holding the single result `res`;
    /// no other slot changed.
    pub open spec fn grown(before: MonteCarloTree, after: MonteCarloTree, i: int, res: GameResult) -> bool {
        &&& 0 <= i < before.children.len()
        &&& before.children@[i] is None
        &&& after.children@[i] is Some
        &&& after.children@[i]->Some_0.searches == 1
        &&& after.children@[i]->Some_0.score == with_result((Score { white_wins: 0, black_wins: 0, draws: 0 }), res)
        &&& after.children@[i]->Some_0.maximizing == !before.maximizing
        &&& forall|k: int|
            0 <= k < after.children@[i]->Some_0.children.len() ==> (#[trigger] after.children@[i]->Some_0.children@[k]) is None
        &&& after.children@[i]->Some_0.is_fully_expanded == (after.children@[i]->Some_0.children.len() == 0)
        &&& Self::others_unchanged(before, after, i)
    }

    /// Plays random moves on a copy of the position until the game ends, and returns
    /// the result; gives up after `MAX_ROLLOUT_PLIES` moves.
    pub fn simulate<B: GamePosition>(board: B, rng: &mut StdRng) -> (r: Result<GameResult, SearchError>)
        ensures
            board.result_of() is Some ==> r == Ok::<GameResult, SearchError>(board.result_of()->Some_0),
            match r {
                Ok(res) => exists|p: B, n: nat|
                    n <= MAX_ROLLOUT_PLIES && #[trigger] reachable(board, p, n) && p.result_of() == Some(res),
                Err(e) => {
                    ||| (e == SearchError::RolloutTooLong && exists|p: B| #[trigger]
                        reachable(board, p, MAX_ROLLOUT_PLIES as nat) && p.result_of() is None)
                    ||| (e == SearchError::NoLegalMoves && exists|p: B, n: nat|
                        #[trigger] reachable(board, p, n) && p.result_of() is None && p.move_count() == 0)
                },
            },
    {
        let ghost start = board;
        let mut pos = board;
        let mut plies: u64 = 0;
        proof {
            assert(reachable(start, pos, 0));
        }
        while plies < MAX_ROLLOUT_PLIES
            invariant
                start == board,
                plies <= MAX_ROLLOUT_PLIES,
                plies == 0 ==> pos == start,
                plies > 0 ==> start.result_of() is None,
                reachable(start, pos, plies as nat),
            decreases MAX_ROLLOUT_PLIES - plies,
        {
            match pos.game_result() {
                Some(result) => {
                    return Ok(result);
                },
                None => {},
            }
            if pos.legal_move_count() == 0 {
                return Err(SearchError::NoLegalMoves);
            }
            let ghost prev = pos;
            pos.do_random_move(rng);
            proof {
                let i = choose|i: usize| i < prev.move_count() && pos == #[trigger] prev.after(i);
                assert(reachable(start, prev, plies as nat) && i < prev.move_count() && pos == prev.after(i));
                assert(reachable(start, pos, (plies + 1) as nat));
            }
            plies = plies + 1;
        }
        match pos.game_result() {
            Some(result) => Ok(result),
            None => Err(SearchError::RolloutTooLong),
        }
    }

    /// Grows the tree by one node. At a finished game the result is recorded here and the
    /// node counts as fully expanded. Otherwise a uniformly drawn unexpanded slot gets a
    /// new child, sized to the legal moves after its move, holding one rollout from there;
    /// the rollout's result is recorded in the child and here. The position is restored.
    pub fn expand<B: GamePosition>(&mut self, board: &mut B, rng: &mut StdRng) -> (r: Result<GameResult, SearchError>)
        requires
            old(self).wf(),
            old(self).searches < MAX_SEARCHES,
        ensures
            Self::kept(*old(self), *final(self)),
            match r {
                Ok(res) => {
                    &&& Self::recorded(*old(self), *final(self), res)
                    &&& (old(board).result_of() is None ==> exists|i: int| #[trigger]
                        Self::grown(*old(self), *final(self), i, res))
                },
                Err(_) => Self::untouched(*old(self), *final(self)),
            },
            *final(board) == *old(board),
            old(board).result_of() is None ==> Self::balanced(*old(self), *final(self)),
            old(board).result_of() is None && r is Ok ==> final(self).is_fully_expanded == (old(self).is_fully_expanded
                || all_expanded(final(self).children@)),
            old(board).result_of() is Some ==> {
                &&& r == Ok::<GameResult, SearchError>(old(board).result_of()->Some_0)
                &&& final(self).is_fully_expanded
                &&& final(self).children@ == old(self).children@
            },
            (r == Err::<GameResult, SearchError>(SearchError::MoveCountMismatch)) <==> (old(board).result_of() is None
                && old(board).move_count() != old(self).children.len()),
            (r == Err::<GameResult, SearchError>(SearchError::NoUnexpandedChild)) <==> (old(board).result_of() is None
                && old(board).move_count() == old(self).children.len() && all_expanded(old(self).children@)),
            r is Err ==> r == Err::<GameResult, SearchError>(SearchError::MoveCountMismatch) || r == Err::<
                GameResult,
                SearchError,
            >(SearchError::NoUnexpandedChild) || r == Err::<GameResult, SearchError>(SearchError::RolloutTooLong)
                || r == Err::<GameResult, SearchError>(SearchError::NoLegalMoves),
    {
        match board.game_result() {
            Some(result) => {
                self.is_fully_expanded = true;
                self.add_value(result);
                Ok(result)
            },
            None => {
                let n = board.legal_move_count();
                if n != self.children.len() {
                    return Err(SearchError::MoveCountMismatch);
                }
                let empty = self.unexpanded_indices();
                if empty.len() == 0 {
                    return Err(SearchError::NoUnexpandedChild);
                }
                let pick = random_below(rng, empty.len());
                let index = empty[pick];
                let undo = board.do_move(index);
                let child_moves = board.legal_move_count();
                let rollout = Self::simulate(board.copy_position(), rng);
                board.undo_move(undo);
                let value = match rollout {
                    Ok(v) => v,
                    Err(e) => {
                        return Err(e);
                    },
                };
                let mut child = self.new_child(child_moves);
                child.add_value(value);
                let ghost before = self.children@;
                proof {
                    lemma_child_visits_update(before, index as int, Some(child));
                    assert(child.wf());
                }
                self.children.set(index, Some(child));
                let filled = self.all_children_expanded();
                self.is_fully_expanded = self.is_fully_expanded || filled;
                proof {
                    assert forall|j: int|
                        0 <= j < self.children.len() && (#[trigger] self.children@[j]) is Some implies {
                        &&& self.children@[j]->Some_0.wf()
                        &&& self.children@[j]->Some_0.maximizing == !self.maximizing
                    } by {
                        if j != index {
                            assert(self.children@[j] == before[j]);
                        }
                    }
                }
                self.add_value(value);
                proof {
                    assert(Self::grown(*old(self), *self, index as int, value));
                }
                Ok(value)
            },
        }
    }

    /// One search iteration from a fully expanded node. At a finished game the result
    /// is recorded here. Otherwise the child of highest selection value is entered
    /// (by selection when it is fully expanded, by expansion when not), its result is
    /// recorded here, and the position is restored.
    pub fn select<B: GamePosition>(&mut self, board: &mut B, rng: &mut StdRng, total_searches: u64) -> (r: Result<
        GameResult,
        SearchError,
    >)
        requires
            old(self).wf(),
            old(self).is_fully_expanded,
            old(self).searches < MAX_SEARCHES,
        ensures
            Self::kept(*old(self), *final(self)),
            match r {
                Ok(res) => {
                    &&& Self::recorded(*old(self), *final(self), res)
                    &&& (old(board).result_of() is None ==> exists|i: int| #[trigger]
                        Self::entered(*old(self), *final(self), total_searches, i, res))
                },
                Err(_) => Self::untouched(*old(self), *final(self)),
            },
            *final(board) == *old(board),
            old(board).result_of() is None ==> Self::balanced(*old(self), *final(self)),
            old(board).result_of() is Some ==> {
                &&& r == Ok::<GameResult, SearchError>(old(board).result_of()->Some_0)
                &&& final(self).children@ == old(self).children@
            },
            old(board).result_of() is None && (old(board).move_count() != old(self).children.len()
                || old(self).children.len() == 0 || !all_expanded(old(self).children@))
                ==> r == Err::<GameResult, SearchError>(SearchError::MoveCountMismatch),
            r != Err::<GameResult, SearchError>(SearchError::NoUnexpandedChild),
        decreases *old(self),
    {
        match board.game_result() {
            Some(result) => {
                self.add_value(result);
                return Ok(result);
            },
            None => {},
        }
        let n = board.legal_move_count();
        if n != self.children.len() || n == 0 || !self.all_children_expanded() {
            return Err(SearchError::MoveCountMismatch);
        }
        let index = self.select_child_index(total_searches);
        let ghost before = self.children@;
        proof {
            assert(before[index as int] is Some);
            lemma_child_visits_bound(before, index as int);
        }
        let mut slot: Option<MonteCarloTree> = None;
        self.children.set_and_swap(index, &mut slot);
        let mut child = slot.unwrap();
        let ghost child_before = child;
        assert(child.wf());
        let undo = board.do_move(index);
        let res = if child.is_fully_expanded {
            proof {
                assert(decreases_to!(before => before[index as int]));
            }
            child.select(board, rng, total_searches)
        } else {
            child.expand(board, rng)
        };
        board.undo_move(undo);
        proof {
            lemma_child_visits_update(before, index as int, Some(child));
        }
        self.children.set(index, Some(child));
        proof {
            assert(self.children@ =~= before.update(index as int, Some(child)));
            assert forall|j: int|
                0 <= j < self.children.len() && (#[trigger] self.children@[j]) is Some implies {
                &&& self.children@[j]->Some_0.wf()
                &&& self.children@[j]->Some_0.maximizing == !self.maximizing
            } by {
                if j != index {
                    assert(self.children@[j] == before[j]);
                }
            }
            assert forall|j: int| 0 <= j < self.children.len() implies (#[trigger] self.children@[j]) is Some by {
                if j != index {
                    assert(self.children@[j] == before[j]);
                }
            }
        }
        match res {
            Ok(v) => {
                self.add_value(v);
                proof {
                    assert(Self::entered(*old(self), *self, total_searches, index as int, v));
                }
                Ok(v)
            },
            Err(e) => Err(e),
        }
    }

    /// Builds the root for a position: one slot per legal move, maximizing when Black is
    /// to move, then expanded until every slot holds a child. At a finished position the
    /// result is recorded once. Gives up with `RootNotExpanded` after `ROOT_EXPANSION_CAP`
    /// expansions, which only a position with more legal moves than that can reach.
    pub fn new_root<B: GamePosition>(board: &mut B, rng: &mut StdRng) -> (r: Result<MonteCarloTree, SearchError>)
        ensures
            *final(board) == *old(board),
            match r {
                Ok(t) => {
                    &&& t.wf()
                    &&& t.is_fully_expanded
                    &&& t.searches >= 1
                    &&& t.children.len() == old(board).move_count()
                    &&& t.maximizing == old(board).black_to_move()
                    &&& (old(board).result_of() is None ==> {
                        &&& all_expanded(t.children@)
                        &&& t.searches == t.children.len()
                        &&& t.surplus() == 0
                        &&& forall|j: int|
                            0 <= j < t.children.len() ==> (#[trigger] t.children@[j])->Some_0.searches == 1
                    })
                },
                Err(e) => {
                    &&& old(board).result_of() is None
                    &&& (e == SearchError::RootNotExpanded ==> old(board).move_count() > ROOT_EXPANSION_CAP)
                    &&& (e == SearchError::NoUnexpandedChild ==> old(board).move_count() == 0)
                    &&& e != SearchError::MoveCountMismatch
                },
            },
            old(board).result_of() is Some ==> {
                &&& r is Ok
                &&& r->Ok_0.searches == 1
                &&& r->Ok_0.score == single(old(board).result_of()->Some_0)
            },
    {
        let maximizing = match board.side_to_move() {
            Color::Black => true,
            Color::White => false,
        };
        let mut root = Self::leaf(board.legal_move_count(), maximizing);
        let mut attempts: u64 = 0;
        loop
            invariant
                *board == *old(board),
                root.wf(),
                root.searches == attempts,
                attempts <= ROOT_EXPANSION_CAP,
                root.children.len() == board.move_count(),
                root.maximizing == board.black_to_move(),
                root.children.len() > 0 ==> root.surplus() == 0,
                forall|j: int|
                    0 <= j < root.children.len() && (#[trigger] root.children@[j]) is Some
                        ==> root.children@[j]->Some_0.searches == 1,
                board.result_of() is Some ==> attempts == 0,
                attempts > 0 ==> !root.is_fully_expanded,
                attempts == 0 ==> forall|j: int| 0 <= j < root.children.len() ==> (#[trigger] root.children@[j]) is None,
                attempts == 0 ==> root.score == (Score { white_wins: 0, black_wins: 0, draws: 0 }),
                attempts == 0 ==> root.is_fully_expanded == (root.children.len() == 0),
            decreases ROOT_EXPANSION_CAP - attempts,
        {
            if attempts >= ROOT_EXPANSION_CAP {
                proof {
                    lemma_child_visits_ones(root.children@);
                }
                return Err(SearchError::RootNotExpanded);
            }
            let ghost before = root;
            proof {
                if before.children.len() > 0 && all_expanded(before.children@) {
                    assert(before.children@[0] is Some);
                }
            }
            match root.expand(board, rng) {
                Ok(_) => {},
                Err(e) => {
                    return Err(e);
                },
            }
            proof {
                if board.result_of() is None {
                    let res = choose|res: GameResult| root.score == with_result(before.score, res);
                    assert(Self::recorded(before, root, res));
                    let i = choose|i: int| #[trigger] Self::grown(before, root, i, res);
                    assert forall|j: int|
                        0 <= j < root.children.len() && (#[trigger] root.children@[j]) is Some implies root.children@[j]->Some_0.searches
                        == 1 by {
                        if j != i {
                            assert(root.children@[j] == before.children@[j]);
                        }
                    }
                }
            }
            attempts = attempts + 1;
            if root.is_fully_expanded {
                proof {
                    if board.result_of() is None {
                        lemma_child_visits_ones(root.children@);
                        if root.children.len() > 0 {
                            lemma_child_visits_all_one(root.children@);
                        }
                    }
                }
                return Ok(root);
            }
        }
    }

    /// The first child of maximum selection value among all but slot `except`.
    pub fn select_child_index_except(&self, total_searches: u64, except: usize) -> (r: usize)
        requires
            self.wf(),
            all_expanded(self.children@),
            self.children.len() >= 2,
            except < self.children.len(),
        ensures
            r < self.children.len(),
            r != except,
            forall|j: int|
                0 <= j < self.children.len() && j != except ==> Self::selection_value(
                    self.maximizing,
                    total_searches,
                    #[trigger] self.children@[j]->Some_0,
                ) <= Self::selection_value(self.maximizing, total_searches, self.children@[r as int]->Some_0),
            forall|j: int|
                0 <= j < r && j != except ==> Self::selection_value(
                    self.maximizing,
                    total_searches,
                    #[trigger] self.children@[j]->Some_0,
                ) < Self::selection_value(self.maximizing, total_searches, self.children@[r as int]->Some_0),
    {
        let mut best: Option<usize> = None;
        let mut best_value: u64 = 0;
        let mut i: usize = 0;
        while i < self.children.len()
            invariant
                self.wf(),
                all_expanded(self.children@),
                self.children.len() >= 2,
                except < self.children.len(),
                i <= self.children.len(),
                match best {
                    None => i == 0 || (i == 1 && except == 0),
                    Some(b) => {
                        &&& b < i
                        &&& b != except
                        &&& best_value == Self::selection_value(
                            self.maximizing,
                            total_searches,
                            self.children@[b as int]->Some_0,
                        )
                        &&& forall|j: int|
                            0 <= j < i && j != except ==> Self::selection_value(
                                self.maximizing,
                                total_searches,
                                #[trigger] self.children@[j]->Some_0,
                            ) <= best_value
                        &&& forall|j: int|
                            0 <= j < b && j != except ==> Self::selection_value(
                                self.maximizing,
                                total_searches,
                                #[trigger] self.children@[j]->Some_0,
                            ) < best_value
                    },
                },
            decreases self.children.len() - i,
        {
            assert(self.children@[i as int] is Some);
            if i != except {
                match &self.children[i] {
                    Some(c) => {
                        assert(c.wf() && c.maximizing == !self.maximizing);
                        let v = c.move_selection_value(total_searches);
                        match best {
                            None => {
                                best = Some(i);
                                best_value = v;
                            },
                            Some(_) => {
                                if v > best_value {
                                    best = Some(i);
                                    best_value = v;
                                }
                            },
                        }
                    },
                    None => {},
                }
            }
            i = i + 1;
        }
        match best {
            Some(b) => b,
            None => 0,
        }
    }

    /// The most results a parallel descent with budget `threads` can record.
    pub open spec fn budget(threads: u16) -> int {
        if threads < 2 { 1 } else { threads as int }
    }

    /// From `before` to `after` no count went down, and at most `budget(threads)` visits
    /// were added.
    pub open spec fn grew(before: MonteCarloTree, after: MonteCarloTree, threads: u16) -> bool {
        &&& after.score.white_wins >= before.score.white_wins
        &&& after.score.black_wins >= before.score.black_wins
        &&& after.score.draws >= before.score.draws
        &&& after.searches >= before.searches
        &&& after.searches <= before.searches + Self::budget(threads)
    }

    /// A parallel descent from `before` to `after` that returned `r`: the shape is kept,
    /// the counts grew within the budget, and on success the returned tally is exactly
    /// what was added.
    pub open spec fn descended(before: MonteCarloTree, after: MonteCarloTree, threads: u16, r: Result<Score, SearchError>) -> bool {
        &&& Self::kept(before, after)
        &&& Self::grew(before, after, threads)
        &&& match r {
            Ok(s) => {
                &&& after.score.counts() == merged(before.score, s)
                &&& after.searches == before.searches + s.total()
                &&& s.total() >= 1
            },
            Err(e) => e != SearchError::NoUnexpandedChild,
        }
    }

    /// A sequential step: the tally is one result, recorded here and, below a node with
    /// children, in the child that selection entered.
    /// When the position was still `live`, the child that selection entered recorded it
    /// too; otherwise no slot changed.
    pub open spec fn stepped(before: MonteCarloTree, after: MonteCarloTree, total: u64, s: Score, live: bool) -> bool {
        exists|res: GameResult|
            {
                &&& s == #[trigger] single(res)
                &&& Self::recorded(before, after, res)
                &&& (live ==> exists|i: int| #[trigger] Self::entered(before, after, total, i, res))
                &&& (!live ==> after.children@ == before.children@)
            }
    }

    /// A parallel step entered slot `i1`, the first of maximum selection value, and slot
    /// `i2`, the first of maximum selection value among the others; no other slot changed.
    /// When both branches succeeded (`ok`), each entered child gained at least one visit.
    pub open spec fn forked(before: MonteCarloTree, after: MonteCarloTree, total: u64, i1: int, i2: int, ok: bool) -> bool {
        &&& (ok ==> {
            &&& after.children@[i1]->Some_0.searches > before.children@[i1]->Some_0.searches
            &&& after.children@[i2]->Some_0.searches > before.children@[i2]->Some_0.searches
        })
        &&& Self::is_selection_choice(before, total, i1)
        &&& 0 <= i2 < before.children.len()
        &&& i2 != i1
        &&& forall|j: int|
            0 <= j < before.children.len() && j != i1 ==> Self::selection_value(
                before.maximizing,
                total,
                #[trigger] before.children@[j]->Some_0,
            ) <= Self::selection_value(before.maximizing, total, before.children@[i2]->Some_0)
        &&& forall|j: int|
            0 <= j < i2 && j != i1 ==> Self::selection_value(
                before.maximizing,
                total,
                #[trigger] before.children@[j]->Some_0,
            ) < Self::selection_value(before.maximizing, total, before.children@[i2]->Some_0)
        &&& forall|j: int|
            0 <= j < before.children.len() && j != i1 && j != i2 ==> (#[trigger] after.children@[j])
                == before.children@[j]
    }

    /// What a branch of a parallel descent starts from.
    pub open spec fn branch_ready<B>(b: Branch<B>) -> bool {
        &&& b.child.wf()
        &&& b.child.searches + Self::budget(b.threads) <= MAX_SEARCHES
    }

    /// What a branch of a parallel descent hands back.
    pub open spec fn branch_done<B>(b: Branch<B>, out: (MonteCarloTree, Result<Score, SearchError>)) -> bool {
        Self::descended(b.child, out.0, b.threads, out.1)
    }

    /// Runs one branch of a parallel descent on its own copy of the position: a fully
    /// expanded child is descended into in parallel with the branch's budget, any other
    /// child is expanded.
    pub fn run_branch<B: GamePosition + Send + Sync>(branch: Branch<B>) -> (r: (MonteCarloTree, Result<Score, SearchError>))
        requires
            Self::branch_ready(branch),
        ensures
            Self::branch_done(branch, r),
    {
        let Branch { mut child, mut board, mut rng, total_searches, threads } = branch;
        if child.is_fully_expanded {
            let res = child.select_parallel(&board, &mut rng, total_searches, threads);
            (child, res)
        } else {
            let res = child.expand(&mut board, &mut rng);
            match res {
                Ok(v) => (child, Ok(Score::from_game_result(&v))),
                Err(e) => (child, Err(e)),
            }
        }
    }

    /// The tally added from `before` to `after`, field by field.
    fn added(before: Score, after: Score) -> (r: Score)
        requires
            after.white_wins >= before.white_wins,
            after.black_wins >= before.black_wins,
            after.draws >= before.draws,
        ensures
            merged(before, r) == after.counts(),
    {
        Score {
            white_wins: after.white_wins - before.white_wins,
            black_wins: after.black_wins - before.black_wins,
            draws: after.draws - before.draws,
        }
    }

    /// One search iteration that descends into the two children of highest selection
    /// value at once, each on its own copy of the position and with its own generator,
    /// seeded from `rng`, and half of the budget `threads`. With a budget under two, or
    /// a single child, it is a sequential `select` on a copy of the position. Returns the
    /// tally of the results recorded, which is also added to this node.
    pub fn select_parallel<B: GamePosition + Send + Sync>(
        &mut self,
        board: &B,
        rng: &mut StdRng,
        total_searches: u64,
        threads: u16,
    ) -> (r: Result<Score, SearchError>)
        requires
            old(self).wf(),
            old(self).is_fully_expanded,
            old(self).searches + Self::budget(threads) <= MAX_SEARCHES,
        ensures
            Self::descended(*old(self), *final(self), threads, r),
            (threads < 2 || old(self).children.len() < 2) && r is Ok ==> Self::stepped(
                *old(self),
                *final(self),
                total_searches,
                r->Ok_0,
                board.result_of() is None,
            ),
            board.result_of() is None ==> Self::balanced(*old(self), *final(self)),
            board.result_of() is None && (board.move_count() != old(self).children.len()
                || old(self).children.len() == 0 || !all_expanded(old(self).children@))
                ==> r == Err::<Score, SearchError>(SearchError::MoveCountMismatch),
            board.result_of() is Some ==> r == Ok::<Score, SearchError>(single(board.result_of()->Some_0)),
            threads >= 2 && old(self).children.len() >= 2 && board.result_of() is None && board.move_count()
                == old(self).children.len() && all_expanded(old(self).children@) ==> {
                &&& exists|i1: int, i2: int| #[trigger]
                    Self::forked(*old(self), *final(self), total_searches, i1, i2, r is Ok)
                &&& (r is Ok ==> r->Ok_0.total() >= 2)
            },
    {
        if threads < 2 || self.children.len() < 2 {
            return self.select_sequential(board, rng, total_searches);
        }
        match board.game_result() {
            Some(_) => {
                return self.select_sequential(board, rng, total_searches);
            },
            None => {},
        }
        if board.legal_move_count() != self.children.len() || !self.all_children_expanded() {
            return Err(SearchError::MoveCountMismatch);
        }
        self.fork(board, rng, total_searches, threads)
    }

    /// The forking step of `select_parallel`, on a live position that agrees with a node
    /// of at least two filled slots.
    #[verifier::rlimit(40)]
    fn fork<B: GamePosition + Send + Sync>(
        &mut self,
        board: &B,
        rng: &mut StdRng,
        total_searches: u64,
        threads: u16,
    ) -> (r: Result<Score, SearchError>)
        requires
            old(self).wf(),
            old(self).searches + Self::budget(threads) <= MAX_SEARCHES,
            threads >= 2,
            old(self).children.len() >= 2,
            board.result_of() is None,
            board.move_count() == old(self).children.len(),
            all_expanded(old(self).children@),
        ensures
            Self::descended(*old(self), *final(self), threads, r),
            Self::balanced(*old(self), *final(self)),
            exists|i1: int, i2: int| #[trigger] Self::forked(*old(self), *final(self), total_searches, i1, i2, r is Ok),
            r is Ok ==> r->Ok_0.total() >= 2,
    {
        let first = self.select_child_index(total_searches);
        let second = self.select_child_index_except(total_searches, first);
        let seed1 = random_u64(rng);
        let seed2 = random_u64(rng);
        let ghost before = self.children@;
        proof {
            assert(before[first as int] is Some);
            assert(before[second as int] is Some);
            lemma_child_visits_bound(before, first as int);
            lemma_child_visits_bound(before, second as int);
            lemma_child_visits_pair(before, first as int, second as int);
        }
        let mut slot1: Option<MonteCarloTree> = None;
        self.children.set_and_swap(first, &mut slot1);
        let mut slot2: Option<MonteCarloTree> = None;
        self.children.set_and_swap(second, &mut slot2);
        let child1 = slot1.unwrap();
        let child2 = slot2.unwrap();
        let ghost c1_before = child1;
        let ghost c2_before = child2;
        let score1 = child1.score;
        let score2 = child2.score;
        let mut board1 = board.copy_position();
        let _undo1 = board1.do_move(first);
        let mut board2 = board.copy_position();
        let _undo2 = board2.do_move(second);
        let half = threads / 2;
        let branch1 = Branch { child: child1, board: board1, rng: seeded_rng(seed1), total_searches, threads: half };
        let branch2 = Branch { child: child2, board: board2, rng: seeded_rng(seed2), total_searches, threads: half };
        let (out1, out2) = join_branches(branch1, branch2);
        let (new1, res1) = out1;
        let (new2, res2) = out2;
        let delta1 = Self::added(score1, new1.score);
        let delta2 = Self::added(score2, new2.score);
        proof {
            lemma_child_visits_update(before, first as int, Some(new1));
            lemma_child_visits_update(before.update(first as int, Some(new1)), second as int, Some(new2));
        }
        self.children.set(first, Some(new1));
        self.children.set(second, Some(new2));
        proof {
            assert(self.children@ =~= before.update(first as int, Some(new1)).update(second as int, Some(new2)));
            assert forall|j: int|
                0 <= j < self.children.len() && (#[trigger] self.children@[j]) is Some implies {
                &&& self.children@[j]->Some_0.wf()
                &&& self.children@[j]->Some_0.maximizing == !self.maximizing
            } by {
                if j != first && j != second {
                    assert(self.children@[j] == before[j]);
                }
            }
            assert forall|j: int| 0 <= j < self.children.len() implies (#[trigger] self.children@[j]) is Some by {
                if j != first && j != second {
                    assert(self.children@[j] == before[j]);
                }
            }
            assert(Self::budget(half) + Self::budget(half) <= Self::budget(threads));
        }
        self.searches = self.searches + (delta1.sum_score() + delta2.sum_score());
        self.score.add_score(&delta1);
        self.score.add_score(&delta2);
        proof {
            // The two children came out of the old slots, and each satisfied the invariant.
            assert(old(self).children@[first as int] is Some);
            assert(old(self).children@[second as int] is Some);
            assert(c1_before.wf() && c2_before.wf());
            assert forall|j: int| 0 <= j < before.len() && j != first && j != second implies (#[trigger] self.children@[j])
                == before[j] by {}
        }
        match (res1, res2) {
            (Ok(a), Ok(b)) => {
                let m = Score::merge(&a, &b);
                proof {
                    assert(new1.searches > c1_before.searches);
                    assert(new2.searches > c2_before.searches);
                    assert(m.total() == a.total() + b.total());
                    assert(Self::forked(*old(self), *self, total_searches, first as int, second as int, true));
                }
                Ok(m)
            },
            (Err(e), _) => {
                assert(Self::forked(*old(self), *self, total_searches, first as int, second as int, false));
                Err(e)
            },
            (_, Err(e)) => {
                assert(Self::forked(*old(self), *self, total_searches, first as int, second as int, false));
                Err(e)
            },
        }
    }

    /// `select` on a copy of the position, with its result as a tally.
    fn select_sequential<B: GamePosition>(&mut self, board: &B, rng: &mut StdRng, total_searches: u64) -> (r: Result<
        Score,
        SearchError,
    >)
        requires
            old(self).wf(),
            old(self).is_fully_expanded,
            old(self).searches < MAX_SEARCHES,
        ensures
            Self::descended(*old(self), *final(self), 1, r),
            r is Ok ==> Self::stepped(*old(self), *final(self), total_searches, r->Ok_0, board.result_of() is None),
            board.result_of() is None ==> Self::balanced(*old(self), *final(self)),
            board.result_of() is None && (board.move_count() != old(self).children.len()
                || old(self).children.len() == 0 || !all_expanded(old(self).children@))
                ==> r == Err::<Score, SearchError>(SearchError::MoveCountMismatch),
            board.result_of() is Some ==> r == Ok::<Score, SearchError>(single(board.result_of()->Some_0)),
    {
        let mut copy = board.copy_position();
        match self.select(&mut copy, rng, total_searches) {
            Ok(v) => {
                let s = Score::from_game_result(&v);
                proof {
                    assert(s == single(v));
                }
                Ok(s)
            },
            Err(e) => Err(e),
        }
    }
}

/// One branch of a parallel descent: a child taken out of its slot, a copy of the
/// position after the child's move, the branch's own generator, and its budget.
pub struct Branch<B> {
    pub child: MonteCarloTree,
    pub board: B,
    pub rng: StdRng,
    pub total_searches: u64,
    pub threads: u16,
}

/// Relies on rayon::join: both closures run to completion, possibly at the same time,
/// and their results come back as a pair. Each closure only calls `run_branch`.
/// This call hides the recursion `select_parallel` -> `run_branch` -> `select_parallel`
/// from the termination check; it ends because each level halves `threads`, and under
/// a budget of two no join is made.
#[verifier::external_body]
fn join_branches<B: GamePosition + Send + Sync>(a: Branch<B>, b: Branch<B>) -> (r: (
    (MonteCarloTree, Result<Score, SearchError>),
    (MonteCarloTree, Result<Score, SearchError>),
))
    requires
        MonteCarloTree::branch_ready(a),
        MonteCarloTree::branch_ready(b),
    ensures
        MonteCarloTree::branch_done(a, r.0),
        MonteCarloTree::branch_done(b, r.1),
{
    rayon::join(move || MonteCarloTree::run_branch(a), move || MonteCarloTree::run_branch(b))
}

proof fn lemma_child_visits_pair(s: Seq<Option<MonteCarloTree>>, i: int, j: int)
    requires
        0 <= i < s.len(),
        0 <= j < s.len(),
        i != j,
    ensures
        slot_visits(s[i]) + slot_visits(s[j]) <= child_visits(s),
{
    lemma_child_visits_update(s, i, None);
    let t = s.update(i, None);
    lemma_child_visits_bound(t, j);
}

/// Every node's visit count equals the number of results tallied in its outcome counts,
/// at the node and at each of its children.
pub proof fn lemma_visits_equal_outcomes(t: MonteCarloTree)
    requires
        t.wf(),
    ensures
        t.searches == t.score.total(),
        forall|i: int|
            0 <= i < t.children.len() && (#[trigger] t.children@[i]) is Some ==> t.children@[i]->Some_0.searches
                == t.children@[i]->Some_0.score.total(),
{
    assert forall|i: int| 0 <= i < t.children.len() && (#[trigger] t.children@[i]) is Some implies t.children@[i]->Some_0.searches
        == t.children@[i]->Some_0.score.total() by {
        assert(t.children@[i]->Some_0.wf());
    }
}

/// A node with children whose visit count equals the sum of its children's visit counts
/// (as a root built by `new_root` does) still has that property after any descent from
/// a position that is not finished (which `select`, `expand` and `select_parallel` state
/// as `balanced`).
pub proof fn lemma_children_sum(before: MonteCarloTree, after: MonteCarloTree)
    requires
        before.wf(),
        before.children.len() > 0,
        before.searches == child_visits(before.children@),
        MonteCarloTree::kept(before, after),
        MonteCarloTree::balanced(before, after),
    ensures
        after.searches == child_visits(after.children@),
{
}

} // verus!
