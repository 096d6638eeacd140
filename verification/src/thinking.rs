//! Hands, round results and the strategies that pick the next hand.

use crate::random::{draw_below, thread_source};
use vstd::prelude::*;

verus! {

#[derive(Debug, PartialEq, Eq, Copy, Clone, Structural)]
pub enum Hand {
    Rock,
    Paper,
    Scissors,
}

#[derive(Debug, PartialEq, Eq, Copy, Clone, Structural)]
pub enum GameResult {
    Win,
    Lose,
    Even,
}

/// The hand at a position of the fixed order rock, paper, scissors.
pub open spec fn hand_at(i: int) -> Hand {
    if i == 0 {
        Hand::Rock
    } else if i == 1 {
        Hand::Paper
    } else {
        Hand::Scissors
    }
}

/// The hand that follows `h` in the cycle rock, paper, scissors, rock.
pub open spec fn hand_after(h: Hand) -> Hand {
    match h {
        Hand::Rock => Hand::Paper,
        Hand::Paper => Hand::Scissors,
        Hand::Scissors => Hand::Rock,
    }
}

pub fn hand_of_index(i: usize) -> (h: Hand)
    ensures
        h == hand_at(i as int),
{
    if i == 0 {
        Hand::Rock
    } else if i == 1 {
        Hand::Paper
    } else {
        Hand::Scissors
    }
}

/// What the outcome of a round lets a repeat-on-win player keep: after a
/// win the hand stays, otherwise the hand at position `draw` is taken.
pub fn hand_after_round(prev: Hand, win: GameResult, draw: usize) -> (h: Hand)
    ensures
        h == (if win == GameResult::Win {
            prev
        } else {
            hand_at(draw as int)
        }),
{
    match win {
        GameResult::Win => prev,
        GameResult::Lose => hand_of_index(draw),
        GameResult::Even => hand_of_index(draw),
    }
}

/// `a` wins against `b`: rock breaks scissors, scissors cut paper, paper
/// wraps rock.
pub open spec fn beats(a: Hand, b: Hand) -> bool {
    (a == Hand::Rock && b == Hand::Scissors) || (a == Hand::Scissors && b == Hand::Paper) || (a
        == Hand::Paper && b == Hand::Rock)
}

/// The result of a round for the player who showed `mine`.
pub open spec fn outcome_of(mine: Hand, theirs: Hand) -> GameResult {
    if beats(mine, theirs) {
        GameResult::Win
    } else if beats(theirs, mine) {
        GameResult::Lose
    } else {
        GameResult::Even
    }
}

/// One player's win is the other's loss, and a round is even exactly when
/// both show the same hand.
pub proof fn lemma_outcome_mirrors(a: Hand, b: Hand)
    ensures
        outcome_of(a, b) == GameResult::Win <==> outcome_of(b, a) == GameResult::Lose,
        outcome_of(a, b) == GameResult::Even <==> a == b,
{
}

pub fn outcome(mine: Hand, theirs: Hand) -> (r: GameResult)
    ensures
        r == outcome_of(mine, theirs),
{
    match mine {
        Hand::Rock => match theirs {
            Hand::Scissors => GameResult::Win,
            Hand::Paper => GameResult::Lose,
            Hand::Rock => GameResult::Even,
        },
        Hand::Scissors => match theirs {
            Hand::Paper => GameResult::Win,
            Hand::Rock => GameResult::Lose,
            Hand::Scissors => GameResult::Even,
        },
        Hand::Paper => match theirs {
            Hand::Rock => GameResult::Win,
            Hand::Scissors => GameResult::Lose,
            Hand::Paper => GameResult::Even,
        },
    }
}

/// A strategy: it names the next hand and learns from each round's result.
///
/// Each strategy says for itself what its two methods may do, as relations
/// between its state before, its state after, and the hand or the result;
/// a caller learns from a call exactly that.
pub trait Thinking {
    /// Naming the next hand may lead from `self` to `after` and give `h`.
    spec fn shows(&self, after: &Self, h: Hand) -> bool;

    /// Studying the result `win` may lead from `self` to `after`.
    spec fn learns(&self, win: GameResult, after: &Self) -> bool;

    fn next_hand(&mut self) -> (h: Hand)
        ensures
            old(self).shows(final(self), h),
    ;

    fn study(&mut self, win: GameResult)
        ensures
            old(self).learns(win, final(self)),
    ;
}

/// Repeats its hand after a win; after a loss or a draw it picks rock or
/// paper at random.
#[derive(Debug, Copy, Clone)]
pub struct Way1 {
    prev_hand: Hand,
}

impl Way1 {
    pub closed spec fn hand(&self) -> Hand {
        self.prev_hand
    }

    pub fn new() -> (w: Self)
        ensures
            w.hand() == Hand::Rock,
    {
        Self { prev_hand: Hand::Rock }
    }
}

impl Thinking for Way1 {
    open spec fn shows(&self, after: &Self, h: Hand) -> bool {
        *after == *self && h == self.hand()
    }

    open spec fn learns(&self, win: GameResult, after: &Self) -> bool {
        if win == GameResult::Win {
            after.hand() == self.hand()
        } else {
            after.hand() == Hand::Rock || after.hand() == Hand::Paper
        }
    }

    fn next_hand(&mut self) -> (h: Hand) {
        self.prev_hand
    }

    fn study(&mut self, win: GameResult) {
        match win {
            GameResult::Win => {},
            _ => {
                let mut rng = thread_source();
                let number: usize = draw_below(&mut rng, 2);
                self.prev_hand = hand_after_round(self.prev_hand, win, number);
            },
        }
    }
}

/// Cycles rock, paper, scissors whatever the result.
#[derive(Debug, Copy, Clone)]
pub struct Way2 {
    hand: Hand,
}

impl Way2 {
    pub closed spec fn hand(&self) -> Hand {
        self.hand
    }

    pub fn new() -> (w: Self)
        ensures
            w.hand() == Hand::Rock,
    {
        Self { hand: Hand::Rock }
    }
}

impl Thinking for Way2 {
    open spec fn shows(&self, after: &Self, h: Hand) -> bool {
        *after == *self && h == self.hand()
    }

    open spec fn learns(&self, win: GameResult, after: &Self) -> bool {
        after.hand() == hand_after(self.hand())
    }

    fn next_hand(&mut self) -> (h: Hand) {
        self.hand
    }

    fn study(&mut self, _win: GameResult) {
        match self.hand {
            Hand::Rock => self.hand = Hand::Paper,
            Hand::Paper => self.hand = Hand::Scissors,
            Hand::Scissors => self.hand = Hand::Rock,
        }
    }
}

} // verus!
