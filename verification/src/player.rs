//! A named player: a strategy and the tally of its rounds.

use crate::thinking::{outcome, outcome_of, GameResult, Hand, Thinking};
use vstd::prelude::*;

verus! {

#[derive(Debug)]
pub struct Player<T> {
    name: String,
    strategy: T,
    wincount: u32,
    losecount: u32,
    evencount: u32,
    gamecount: u32,
}

/// The tally of a player, as plain numbers.
pub struct Tally {
    pub wins: nat,
    pub losses: nat,
    pub draws: nat,
    pub games: nat,
}

impl<T: Thinking> Player<T> {
    pub closed spec fn tally(&self) -> Tally {
        Tally {
            wins: self.wincount as nat,
            losses: self.losecount as nat,
            draws: self.evencount as nat,
            games: self.gamecount as nat,
        }
    }

    pub closed spec fn spec_strategy(&self) -> T {
        self.strategy
    }

    pub closed spec fn spec_name(&self) -> Seq<char> {
        self.name@
    }

    /// Every round played was won, lost or drawn.
    pub open spec fn wf(&self) -> bool {
        self.tally().games == self.tally().wins + self.tally().losses + self.tally().draws
    }

    /// One more round can be counted: fewer than `u32::MAX` were played.
    pub open spec fn has_room(&self) -> bool {
        self.tally().games < u32::MAX
    }

    pub fn new(name: String, strategy: T) -> (p: Self)
        ensures
            p.spec_name() == name@,
            p.spec_strategy() == strategy,
            p.tally() == (Tally { wins: 0, losses: 0, draws: 0, games: 0 }),
            p.wf(),
            p.has_room(),
    {
        Self { name, strategy, wincount: 0, losecount: 0, evencount: 0, gamecount: 0 }
    }

    pub fn next_hand(&mut self) -> (h: Hand)
        ensures
            old(self).spec_strategy().shows(&final(self).spec_strategy(), h),
            final(self).tally() == old(self).tally(),
            final(self).spec_name() == old(self).spec_name(),
    {
        self.strategy.next_hand()
    }

    pub fn win(&mut self)
        requires
            old(self).wf(),
            old(self).has_room(),
        ensures
            final(self).wf(),
            final(self).spec_name() == old(self).spec_name(),
            old(self).spec_strategy().learns(GameResult::Win, &final(self).spec_strategy()),
            final(self).tally() == (Tally {
                wins: old(self).tally().wins + 1,
                games: old(self).tally().games + 1,
                ..old(self).tally()
            }),
    {
        self.strategy.study(GameResult::Win);
        self.wincount += 1;
        self.gamecount += 1;
    }

    pub fn lose(&mut self)
        requires
            old(self).wf(),
            old(self).has_room(),
        ensures
            final(self).wf(),
            final(self).spec_name() == old(self).spec_name(),
            old(self).spec_strategy().learns(GameResult::Lose, &final(self).spec_strategy()),
            final(self).tally() == (Tally {
                losses: old(self).tally().losses + 1,
                games: old(self).tally().games + 1,
                ..old(self).tally()
            }),
    {
        self.strategy.study(GameResult::Lose);
        self.losecount += 1;
        self.gamecount += 1;
    }

    pub fn even(&mut self)
        requires
            old(self).wf(),
            old(self).has_room(),
        ensures
            final(self).wf(),
            final(self).spec_name() == old(self).spec_name(),
            old(self).spec_strategy().learns(GameResult::Even, &final(self).spec_strategy()),
            final(self).tally() == (Tally {
                draws: old(self).tally().draws + 1,
                games: old(self).tally().games + 1,
                ..old(self).tally()
            }),
    {
        self.strategy.study(GameResult::Even);
        self.evencount += 1;
        self.gamecount += 1;
    }

    /// Whether another round can be counted: fewer than `u32::MAX` were
    /// played.
    pub fn can_count(&self) -> (b: bool)
        ensures
            b == self.has_room(),
    {
        self.gamecount < u32::MAX
    }

    pub fn name(&self) -> (s: &String)
        ensures
            s@ == self.spec_name(),
    {
        &self.name
    }

    pub fn wins(&self) -> (n: u32)
        ensures
            n == self.tally().wins,
    {
        self.wincount
    }

    pub fn losses(&self) -> (n: u32)
        ensures
            n == self.tally().losses,
    {
        self.losecount
    }

    pub fn draws(&self) -> (n: u32)
        ensures
            n == self.tally().draws,
    {
        self.evencount
    }

    pub fn games(&self) -> (n: u32)
        ensures
            n == self.tally().games,
    {
        self.gamecount
    }
}

/// The tally after one more round that ended in `r`.
pub open spec fn tally_after(t: Tally, r: GameResult) -> Tally {
    match r {
        GameResult::Win => Tally { wins: t.wins + 1, games: t.games + 1, ..t },
        GameResult::Lose => Tally { losses: t.losses + 1, games: t.games + 1, ..t },
        GameResult::Even => Tally { draws: t.draws + 1, games: t.games + 1, ..t },
    }
}

/// The opposite side's view of a result.
pub open spec fn mirrored(r: GameResult) -> GameResult {
    match r {
        GameResult::Win => GameResult::Lose,
        GameResult::Lose => GameResult::Win,
        GameResult::Even => GameResult::Even,
    }
}

/// A player's part in a round: its strategy shows `h`, then learns `r`.
pub open spec fn took_part<T: Thinking>(before: Player<T>, after: Player<T>, h: Hand, r: GameResult) -> bool {
    exists|mid: T|
        before.spec_strategy().shows(&mid, h) && #[trigger] mid.learns(r, &after.spec_strategy())
}

/// Plays one round: both players show a hand, the round is judged, and each
/// player counts and studies its own result. Returns the first player's
/// result.
pub fn play_round<A: Thinking, B: Thinking>(first: &mut Player<A>, second: &mut Player<B>) -> (r:
    GameResult)
    requires
        old(first).wf(),
        old(second).wf(),
        old(first).has_room(),
        old(second).has_room(),
    ensures
        final(first).wf(),
        final(second).wf(),
        final(first).spec_name() == old(first).spec_name(),
        final(second).spec_name() == old(second).spec_name(),
        final(first).tally() == tally_after(old(first).tally(), r),
        final(second).tally() == tally_after(old(second).tally(), mirrored(r)),
        exists|h1: Hand, h2: Hand|
            r == outcome_of(h1, h2) && #[trigger] took_part(*old(first), *final(first), h1, r)
                && #[trigger] took_part(*old(second), *final(second), h2, mirrored(r)),
{
    let hand1: Hand = first.next_hand();
    let hand2: Hand = second.next_hand();
    let ghost mid1 = first.spec_strategy();
    let ghost mid2 = second.spec_strategy();
    let r: GameResult = outcome(hand1, hand2);
    match r {
        GameResult::Win => {
            first.win();
            second.lose();
        },
        GameResult::Lose => {
            first.lose();
            second.win();
        },
        GameResult::Even => {
            first.even();
            second.even();
        },
    }
    proof {
        assert(mid1.learns(r, &first.spec_strategy()));
        assert(mid2.learns(mirrored(r), &second.spec_strategy()));
        assert(took_part(*old(first), *first, hand1, r));
        assert(took_part(*old(second), *second, hand2, mirrored(r)));
    }
    r
}

} // verus!
