//! The registry of games in progress, with their deadlines and scores.

use vstd::prelude::*;
use crate::protocol::{Outbound, ServerEvent};

verus! {

/// How long a game lasts, in milliseconds.
pub const GAME_DURATION_MS: u64 = 30_000;

/// One participant of a game and the clicks counted for it.
#[derive(Clone, Copy, Debug, PartialEq, Eq, Structural)]
pub struct Player {
    pub id: u64,
    pub click_count: u64,
}

/// One match between two connections.
///
/// `first` is the connection whose request completed the match, `second` the
/// one that was waiting; on equal scores `first` ranks on top.
#[derive(Clone, Copy, Debug, PartialEq, Eq, Structural)]
pub struct Game {
    pub first: Player,
    pub second: Player,
    /// The instant from which clicks no longer count.
    pub deadline: u64,
}

/// `now + d`, held at `u64::MAX`.
pub open spec fn deadline_after(now: u64, d: u64) -> u64 {
    if now + d <= u64::MAX {
        (now + d) as u64
    } else {
        u64::MAX
    }
}

/// One more click, held at `u64::MAX`.
pub open spec fn bumped(c: u64) -> u64 {
    if c < u64::MAX {
        (c + 1) as u64
    } else {
        c
    }
}

pub open spec fn plays_in(g: Game, id: u64) -> bool {
    g.first.id == id || g.second.id == id
}

/// The game as it is right after the match.
pub open spec fn new_game_spec(a: u64, b: u64, now: u64, duration: u64) -> Game {
    Game {
        first: Player { id: a, click_count: 0 },
        second: Player { id: b, click_count: 0 },
        deadline: deadline_after(now, duration),
    }
}

/// The game after one click of `id`, a participant, before the deadline.
pub open spec fn clicked(g: Game, id: u64) -> Game {
    if g.first.id == id {
        Game { first: Player { id, click_count: bumped(g.first.click_count) }, ..g }
    } else {
        Game { second: Player { id, click_count: bumped(g.second.click_count) }, ..g }
    }
}

/// The connection ranked on top: the higher score, `first` on a tie.
pub open spec fn winner_of(g: Game) -> u64 {
    if g.first.click_count >= g.second.click_count {
        g.first.id
    } else {
        g.second.id
    }
}

/// The other participant.
pub open spec fn loser_of(g: Game) -> u64 {
    if g.first.click_count >= g.second.click_count {
        g.second.id
    } else {
        g.first.id
    }
}

/// The messages that end a game: the winner's first.
pub open spec fn conclusion_spec(g: Game) -> Seq<Outbound> {
    seq![
        Outbound { to: winner_of(g), event: ServerEvent::YouWin },
        Outbound { to: loser_of(g), event: ServerEvent::YouLost },
    ]
}

/// The games still running at `now`, and the notices of those that ended,
/// in registry order.
pub open spec fn sweep_spec(games: Seq<Game>, now: u64) -> (Seq<Game>, Seq<Outbound>)
    decreases games.len(),
{
    if games.len() == 0 {
        (Seq::empty(), Seq::empty())
    } else {
        let (rest, notices) = sweep_spec(games.drop_first(), now);
        if now >= games[0].deadline {
            (rest, conclusion_spec(games[0]) + notices)
        } else {
            (seq![games[0]] + rest, notices)
        }
    }
}

/// Some game of `games` has `id` as a participant.
pub open spec fn in_some_game(games: Seq<Game>, id: u64) -> bool {
    exists|i: int| 0 <= i < games.len() && plays_in(#[trigger] games[i], id)
}

/// Each game has two distinct participants, and no connection plays in two games.
pub open spec fn games_wf(games: Seq<Game>) -> bool {
    &&& forall|i: int| 0 <= i < games.len() ==> (#[trigger] games[i]).first.id != games[i].second.id
    &&& forall|i: int, j: int|
        0 <= i < games.len() && 0 <= j < games.len() && i != j ==> {
            &&& !plays_in(#[trigger] games[j], (#[trigger] games[i]).first.id)
            &&& !plays_in(games[j], games[i].second.id)
        }
}

impl Game {
    /// A fresh game between `a` and `b` with both scores at zero.
    pub fn new(a: u64, b: u64, now: u64, duration: u64) -> (r: Game)
        ensures
            r == new_game_spec(a, b, now, duration),
    {
        Game {
            first: Player { id: a, click_count: 0 },
            second: Player { id: b, click_count: 0 },
            deadline: now.saturating_add(duration),
        }
    }

    pub fn has_player(&self, id: u64) -> (r: bool)
        ensures
            r == plays_in(*self, id),
    {
        self.first.id == id || self.second.id == id
    }

    /// Whether clicks at `now` no longer count.
    pub fn is_over(&self, now: u64) -> (r: bool)
        ensures
            r == (now >= self.deadline),
    {
        now >= self.deadline
    }

    /// Counts one click of `id`, a participant.
    pub fn record_click(&mut self, id: u64)
        requires
            plays_in(*old(self), id),
        ensures
            *final(self) == clicked(*old(self), id),
    {
        if self.first.id == id {
            self.first.click_count = self.first.click_count.saturating_add(1);
        } else {
            self.second.click_count = self.second.click_count.saturating_add(1);
        }
    }

    /// The win and loss notices, ranked by score with `first` on top on a tie.
    pub fn conclusion(&self) -> (r: Vec<Outbound>)
        ensures
            r@ == conclusion_spec(*self),
    {
        let (top, other) = if self.first.click_count >= self.second.click_count {
            (self.first.id, self.second.id)
        } else {
            (self.second.id, self.first.id)
        };
        let mut r: Vec<Outbound> = Vec::new();
        r.push(Outbound { to: top, event: ServerEvent::YouWin });
        r.push(Outbound { to: other, event: ServerEvent::YouLost });
        proof {
            assert(r@ =~= conclusion_spec(*self));
        }
        r
    }
}

/// The games in progress, in the order they were created.
pub struct GameRegistry {
    games: Vec<Game>,
}

impl View for GameRegistry {
    type V = Seq<Game>;

    closed spec fn view(&self) -> Seq<Game> {
        self.games@
    }
}

impl GameRegistry {
    pub open spec fn wf(&self) -> bool {
        games_wf(self@)
    }

    pub fn new() -> (r: GameRegistry)
        ensures
            r@ == Seq::<Game>::empty(),
            r.wf(),
    {
        GameRegistry { games: Vec::new() }
    }

    pub fn len(&self) -> (r: usize)
        ensures
            r == self@.len(),
    {
        self.games.len()
    }

    pub fn get(&self, i: usize) -> (r: Game)
        requires
            i < self@.len(),
        ensures
            r == self@[i as int],
    {
        self.games[i]
    }

    /// The position of the game that `id` plays in, if any.
    pub fn find_by_participant(&self, id: u64) -> (r: Option<usize>)
        ensures
            match r {
                Some(i) => i < self@.len() && plays_in(self@[i as int], id),
                None => !in_some_game(self@, id),
            },
    {
        let mut i: usize = 0;
        while i < self.games.len()
            invariant
                i <= self.games@.len(),
                forall|k: int| 0 <= k < i ==> !plays_in(#[trigger] self.games@[k], id),
            decreases self.games@.len() - i,
        {
            if self.games[i].has_player(id) {
                return Some(i);
            }
            i = i + 1;
        }
        None
    }

    /// Adds a game between two connections that play in no game yet.
    pub fn add(&mut self, g: Game)
        requires
            old(self).wf(),
            g.first.id != g.second.id,
            !in_some_game(old(self)@, g.first.id),
            !in_some_game(old(self)@, g.second.id),
        ensures
            final(self)@ == old(self)@.push(g),
            final(self).wf(),
    {
        self.games.push(g);
        proof {
            let s = self@;
            assert forall|i: int, j: int|
                0 <= i < s.len() && 0 <= j < s.len() && i != j implies {
                &&& !plays_in(#[trigger] s[j], (#[trigger] s[i]).first.id)
                &&& !plays_in(s[j], s[i].second.id)
            } by {
                if i == s.len() - 1 {
                    assert(!plays_in(old(self)@[j], g.first.id));
                    assert(!plays_in(old(self)@[j], g.second.id));
                } else if j == s.len() - 1 {
                    assert(!plays_in(old(self)@[i], g.first.id));
                    assert(!plays_in(old(self)@[i], g.second.id));
                }
            }
        }
    }

    /// Counts one click of `id` in the game at `i`, where it plays.
    pub fn record_click(&mut self, i: usize, id: u64)
        requires
            old(self).wf(),
            i < old(self)@.len(),
            plays_in(old(self)@[i as int], id),
        ensures
            final(self)@ == old(self)@.update(i as int, clicked(old(self)@[i as int], id)),
            final(self).wf(),
    {
        let mut g = self.games[i];
        g.record_click(id);
        self.games.set(i, g);
        proof {
            let s = self@;
            assert forall|a: int, b: int|
                0 <= a < s.len() && 0 <= b < s.len() && a != b implies {
                &&& !plays_in(#[trigger] s[b], (#[trigger] s[a]).first.id)
                &&& !plays_in(s[b], s[a].second.id)
            } by {
                assert(old(self)@[a].first.id == s[a].first.id);
                assert(old(self)@[b].first.id == s[b].first.id);
            }
            assert forall|k: int| 0 <= k < s.len() implies (#[trigger] s[k]).first.id != s[k].second.id by {
                assert(old(self)@[k].first.id == s[k].first.id);
            }
        }
    }

    /// Removes the game at `i` and returns the win and loss notices it ends with.
    pub fn conclude(&mut self, i: usize) -> (r: Vec<Outbound>)
        requires
            old(self).wf(),
            i < old(self)@.len(),
        ensures
            r@ == conclusion_spec(old(self)@[i as int]),
            final(self)@ == old(self)@.remove(i as int),
            final(self).wf(),
            forall|x: u64| in_some_game(final(self)@, x) ==> in_some_game(old(self)@, x),
    {
        let g = self.games.remove(i);
        proof {
            let s = self@;
            let o = old(self)@;
            assert forall|a: int, b: int|
                0 <= a < s.len() && 0 <= b < s.len() && a != b implies {
                &&& !plays_in(#[trigger] s[b], (#[trigger] s[a]).first.id)
                &&& !plays_in(s[b], s[a].second.id)
            } by {
                let oa = if a < i { a } else { a + 1 };
                let ob = if b < i { b } else { b + 1 };
                assert(s[a] == o[oa]);
                assert(s[b] == o[ob]);
            }
            assert forall|k: int| 0 <= k < s.len() implies (#[trigger] s[k]).first.id != s[k].second.id by {
                let ok = if k < i { k } else { k + 1 };
                assert(s[k] == o[ok]);
            }
            assert forall|x: u64| in_some_game(s, x) implies in_some_game(o, x) by {
                let k = choose|k: int| 0 <= k < s.len() && plays_in(#[trigger] s[k], x);
                let ok = if k < i { k } else { k + 1 };
                assert(s[k] == o[ok]);
            }
        }
        g.conclusion()
    }

    /// Ends every game whose deadline has come by `now`, and returns their
    /// win and loss notices in registry order.
    pub fn sweep(&mut self, now: u64) -> (r: Vec<Outbound>)
        requires
            old(self).wf(),
        ensures
            (final(self)@, r@) == sweep_spec(old(self)@, now),
            final(self).wf(),
            forall|x: u64| in_some_game(final(self)@, x) ==> in_some_game(old(self)@, x),
    {
        let mut out: Vec<Outbound> = Vec::new();
        let mut i: usize = 0;
        proof {
            assert(self@.subrange(0, 0) + sweep_spec(self@.subrange(0, self@.len() as int), now).0
                =~= sweep_spec(old(self)@, now).0) by {
                assert(self@.subrange(0, self@.len() as int) =~= self@);
            }
            assert(out@ + sweep_spec(self@.subrange(0, self@.len() as int), now).1
                =~= sweep_spec(old(self)@, now).1) by {
                assert(self@.subrange(0, self@.len() as int) =~= self@);
            }
        }
        while i < self.games.len()
            invariant
                self.wf(),
                i <= self@.len(),
                self@.subrange(0, i as int) + sweep_spec(self@.subrange(i as int, self@.len() as int), now).0
                    == sweep_spec(old(self)@, now).0,
                out@ + sweep_spec(self@.subrange(i as int, self@.len() as int), now).1
                    == sweep_spec(old(self)@, now).1,
                forall|x: u64| in_some_game(self@, x) ==> in_some_game(old(self)@, x),
            decreases self@.len() - i,
        {
            let ghost before = self@;
            let ghost rem = before.subrange(i as int, before.len() as int);
            assert(rem.drop_first() =~= before.subrange(i + 1, before.len() as int));
            if self.games[i].is_over(now) {
                let mut notices = self.conclude(i);
                proof {
                    assert(self@.subrange(0, i as int) =~= before.subrange(0, i as int));
                    assert(self@.subrange(i as int, self@.len() as int) =~= rem.drop_first());
                    assert(out@ + notices@ + sweep_spec(rem.drop_first(), now).1 =~= out@ + (notices@
                        + sweep_spec(rem.drop_first(), now).1));
                }
                out.append(&mut notices);
            } else {
                i = i + 1;
                proof {
                    assert(self@.subrange(0, i as int) =~= before.subrange(0, i - 1) + seq![rem[0]]);
                    assert(before.subrange(0, i - 1) + seq![rem[0]] + sweep_spec(rem.drop_first(), now).0
                        =~= before.subrange(0, i - 1) + (seq![rem[0]] + sweep_spec(rem.drop_first(), now).0));
                }
            }
        }
        proof {
            assert(self@.subrange(0, i as int) =~= self@);
            assert(sweep_spec(self@.subrange(i as int, self@.len() as int), now).0 =~= Seq::<Game>::empty());
            assert(sweep_spec(self@.subrange(i as int, self@.len() as int), now).1 =~= Seq::<Outbound>::empty());
            assert(self@ + Seq::<Game>::empty() =~= self@);
            assert(out@ + Seq::<Outbound>::empty() =~= out@);
        }
        out
    }
}

} // verus!
