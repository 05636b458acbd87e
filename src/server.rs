//! The event dispatcher: one transport event at a time, against the
//! connection registry, the matchmaking queue and the game registry.

use vstd::prelude::*;
use crate::connections::ConnectionRegistry;
use crate::games::{
    bumped, clicked, sweep_spec, conclusion_spec, games_wf, in_some_game, new_game_spec, plays_in, Game,
    GameRegistry, GAME_DURATION_MS,
};
use crate::protocol::{client_event_of, ClientEvent, CookieEvent, Outbound, ServerEvent};
use crate::queue::{lemma_tail, lemma_without, try_match_spec, without, MatchQueue};

verus! {

/// The matchmaking state: who waits, and the games in progress.
pub struct Core {
    pub queue: Seq<u64>,
    pub games: Seq<Game>,
}

/// No connection waits twice, no connection plays in two games, each game has
/// two distinct participants, and nobody who plays also waits.
pub open spec fn core_wf(c: Core) -> bool {
    &&& c.queue.no_duplicates()
    &&& games_wf(c.games)
    &&& forall|id: u64| #[trigger] c.queue.contains(id) ==> !in_some_game(c.games, id)
}

/// The position of the game that `id` plays in.
pub open spec fn game_index(games: Seq<Game>, id: u64) -> int {
    choose|i: int| 0 <= i < games.len() && plays_in(games[i], id)
}

/// The state and the messages after `id` asks to play at `now`.
///
/// A connection that already plays is ignored; otherwise the queue decides,
/// and a pairing starts a game and tells both players.
pub open spec fn after_queue(c: Core, id: u64, now: u64) -> (Core, Seq<Outbound>) {
    if in_some_game(c.games, id) {
        (c, Seq::empty())
    } else {
        let (q, m) = try_match_spec(c.queue, id);
        match m {
            None => (Core { queue: q, games: c.games }, Seq::empty()),
            Some(other) => (
                Core {
                    queue: q,
                    games: c.games.push(new_game_spec(id, other, now, GAME_DURATION_MS)),
                },
                seq![
                    Outbound { to: id, event: ServerEvent::Connected },
                    Outbound { to: other, event: ServerEvent::Connected },
                ],
            ),
        }
    }
}

/// The state and the messages after a click of `id` at `now`.
///
/// Outside any game it is ignored; before the deadline it counts for `id`;
/// from the deadline on it ends the game instead.
pub open spec fn after_click(c: Core, id: u64, now: u64) -> (Core, Seq<Outbound>) {
    if !in_some_game(c.games, id) {
        (c, Seq::empty())
    } else {
        let i = game_index(c.games, id);
        let g = c.games[i];
        if now >= g.deadline {
            (Core { queue: c.queue, games: c.games.remove(i) }, conclusion_spec(g))
        } else {
            (Core { queue: c.queue, games: c.games.update(i, clicked(g, id)) }, Seq::empty())
        }
    }
}

/// The state and the messages after a message of kind `kind` from `id`;
/// `None` stands for a payload that did not decode.
pub open spec fn after_message(c: Core, id: u64, kind: Option<ClientEvent>, now: u64) -> (
    Core,
    Seq<Outbound>,
) {
    match kind {
        Some(ClientEvent::Queue) => after_queue(c, id, now),
        Some(ClientEvent::Click) => after_click(c, id, now),
        _ => (c, Seq::empty()),
    }
}

/// The kind of a decoded message, or `None` for one that did not decode.
pub open spec fn kind_of(msg: Option<CookieEvent>) -> Option<ClientEvent> {
    match msg {
        Some(e) => Some(client_event_of(e.event@)),
        None => None,
    }
}

/// The state and the messages after the clock reaches `now`: every game whose
/// deadline has come ends, as a click at `now` would end it.
pub open spec fn after_tick(c: Core, now: u64) -> (Core, Seq<Outbound>) {
    let (games, notices) = sweep_spec(c.games, now);
    (Core { queue: c.queue, games }, notices)
}

/// A connection that leaves stops waiting; its games stay as they are.
pub open spec fn after_disconnect(c: Core, id: u64) -> Core {
    Core { queue: without(c.queue, id), games: c.games }
}

/// The one game that `id` plays in is the one at `game_index`.
pub proof fn lemma_game_index(games: Seq<Game>, id: u64, k: int)
    requires
        games_wf(games),
        0 <= k < games.len(),
        plays_in(games[k], id),
    ensures
        game_index(games, id) == k,
{
    let i = game_index(games, id);
    assert(plays_in(games[i], id));
    if i != k {
        assert(!plays_in(games[i], games[k].first.id));
        assert(!plays_in(games[i], games[k].second.id));
    }
}

/// A request to play keeps the matchmaking state well formed; a game it
/// starts is between two distinct connections that played in no game before
/// and wait no longer.
pub proof fn lemma_queue_step(c: Core, id: u64, now: u64)
    requires
        core_wf(c),
    ensures
        core_wf(after_queue(c, id, now).0),
        after_queue(c, id, now).0.games.len() == c.games.len() + 1 ==> {
            let g = after_queue(c, id, now).0.games.last();
            &&& g.first.id != g.second.id
            &&& !in_some_game(c.games, g.first.id)
            &&& !in_some_game(c.games, g.second.id)
            &&& !after_queue(c, id, now).0.queue.contains(g.first.id)
            &&& !after_queue(c, id, now).0.queue.contains(g.second.id)
        },
        after_queue(c, id, now).0.games.len() == c.games.len() || after_queue(c, id, now).0.games.len()
            == c.games.len() + 1,
{
    if !in_some_game(c.games, id) {
        let q0 = c.queue;
        let (q, m) = try_match_spec(q0, id);
        match m {
            None => {
                assert forall|x: u64| #[trigger] q.contains(x) implies !in_some_game(c.games, x) by {
                    if q0.len() == 0 {
                        assert(q[0] == id);
                    }
                }
                if q0.len() == 0 {
                    assert(q.no_duplicates());
                }
            },
            Some(other) => {
                assert(q0[0] == other);
                assert(q0.contains(other));
                lemma_tail(q0);
                lemma_without(q0.subrange(1, q0.len() as int), id);
                let g = new_game_spec(id, other, now, GAME_DURATION_MS);
                let gs = c.games.push(g);
                assert(gs.last() == g);
                assert forall|i: int, j: int|
                    0 <= i < gs.len() && 0 <= j < gs.len() && i != j implies {
                    &&& !plays_in(#[trigger] gs[j], (#[trigger] gs[i]).first.id)
                    &&& !plays_in(gs[j], gs[i].second.id)
                } by {
                    if i == gs.len() - 1 {
                        assert(!plays_in(c.games[j], id));
                        assert(!plays_in(c.games[j], other));
                    } else if j == gs.len() - 1 {
                        assert(!plays_in(c.games[i], id));
                        assert(!plays_in(c.games[i], other));
                    }
                }
                assert forall|k: int| 0 <= k < gs.len() implies (#[trigger] gs[k]).first.id != gs[k].second.id by {
                    if k < gs.len() - 1 {
                        assert(gs[k] == c.games[k]);
                    }
                }
                assert forall|x: u64| #[trigger] q.contains(x) implies !in_some_game(gs, x) by {
                    assert(q0.contains(x));
                    if in_some_game(gs, x) {
                        let k = choose|k: int| 0 <= k < gs.len() && plays_in(#[trigger] gs[k], x);
                        if k < gs.len() - 1 {
                            assert(plays_in(c.games[k], x));
                        }
                    }
                }
            },
        }
    }
}

/// A click keeps the matchmaking state well formed.
pub proof fn lemma_click_step(c: Core, id: u64, now: u64)
    requires
        core_wf(c),
    ensures
        core_wf(after_click(c, id, now).0),
{
    if in_some_game(c.games, id) {
        let i = game_index(c.games, id);
        let g = c.games[i];
        let gs = after_click(c, id, now).0.games;
        if now >= g.deadline {
            assert forall|a: int, b: int|
                0 <= a < gs.len() && 0 <= b < gs.len() && a != b implies {
                &&& !plays_in(#[trigger] gs[b], (#[trigger] gs[a]).first.id)
                &&& !plays_in(gs[b], gs[a].second.id)
            } by {
                let oa = if a < i { a } else { a + 1 };
                let ob = if b < i { b } else { b + 1 };
                assert(gs[a] == c.games[oa]);
                assert(gs[b] == c.games[ob]);
            }
            assert forall|k: int| 0 <= k < gs.len() implies (#[trigger] gs[k]).first.id != gs[k].second.id by {
                let ok = if k < i { k } else { k + 1 };
                assert(gs[k] == c.games[ok]);
            }
            assert forall|x: u64| #[trigger] c.queue.contains(x) implies !in_some_game(gs, x) by {
                if in_some_game(gs, x) {
                    let k = choose|k: int| 0 <= k < gs.len() && plays_in(#[trigger] gs[k], x);
                    let ok = if k < i { k } else { k + 1 };
                    assert(gs[k] == c.games[ok]);
                }
            }
        } else {
            assert forall|a: int, b: int|
                0 <= a < gs.len() && 0 <= b < gs.len() && a != b implies {
                &&& !plays_in(#[trigger] gs[b], (#[trigger] gs[a]).first.id)
                &&& !plays_in(gs[b], gs[a].second.id)
            } by {
                assert(c.games[a].first.id == gs[a].first.id && c.games[a].second.id == gs[a].second.id);
                assert(c.games[b].first.id == gs[b].first.id && c.games[b].second.id == gs[b].second.id);
            }
            assert forall|k: int| 0 <= k < gs.len() implies (#[trigger] gs[k]).first.id != gs[k].second.id by {
                assert(c.games[k].first.id == gs[k].first.id && c.games[k].second.id == gs[k].second.id);
            }
            assert forall|x: u64| #[trigger] c.queue.contains(x) implies !in_some_game(gs, x) by {
                if in_some_game(gs, x) {
                    let k = choose|k: int| 0 <= k < gs.len() && plays_in(#[trigger] gs[k], x);
                    assert(plays_in(c.games[k], x));
                }
            }
        }
    }
}

/// The matchmaking state after a run of requests to play, each an identifier
/// and the instant it came at.
pub open spec fn after_queue_requests(c: Core, reqs: Seq<(u64, u64)>) -> Core
    decreases reqs.len(),
{
    if reqs.len() == 0 {
        c
    } else {
        after_queue_requests(after_queue(c, reqs[0].0, reqs[0].1).0, reqs.drop_first())
    }
}

/// Whatever run of requests to play comes in, no connection ever plays in two
/// games at once, each game has two distinct players, and nobody who plays is
/// still waiting.
pub proof fn lemma_queue_requests_keep_games_apart(c: Core, reqs: Seq<(u64, u64)>)
    requires
        core_wf(c),
    ensures
        core_wf(after_queue_requests(c, reqs)),
    decreases reqs.len(),
{
    if reqs.len() > 0 {
        lemma_queue_step(c, reqs[0].0, reqs[0].1);
        lemma_queue_requests_keep_games_apart(after_queue(c, reqs[0].0, reqs[0].1).0, reqs.drop_first());
    }
}

/// A connection that asks to play twice in a row, with no match in between,
/// waits exactly once: it is in the queue, the queue holds no entry twice, and
/// the second request changes nothing and sends nothing.
pub proof fn lemma_queue_twice(c: Core, id: u64, now1: u64, now2: u64)
    requires
        core_wf(c),
        !in_some_game(c.games, id),
        after_queue(c, id, now1).1.len() == 0,
    ensures
        ({
            let c1 = after_queue(c, id, now1).0;
            let (c2, out2) = after_queue(c1, id, now2);
            &&& c2 == c1
            &&& out2.len() == 0
            &&& c2.queue.contains(id)
            &&& c2.queue.no_duplicates()
        }),
{
    lemma_queue_step(c, id, now1);
    let c1 = after_queue(c, id, now1).0;
    assert(c1.queue[0] == id);
    assert(c1.queue.contains(id));
}

/// A connection that asks to play right after it was put in the queue is not
/// paired with itself: no game is started, and no game of any state pairs a
/// connection with itself.
pub proof fn lemma_no_self_match(c: Core, id: u64, now1: u64, now2: u64)
    requires
        core_wf(c),
        !in_some_game(c.games, id),
        after_queue(c, id, now1).1.len() == 0,
    ensures
        ({
            let c1 = after_queue(c, id, now1).0;
            let c2 = after_queue(c1, id, now2).0;
            &&& c2.games == c1.games
            &&& forall|k: int| 0 <= k < c2.games.len() ==> (#[trigger] c2.games[k]).first.id != c2.games[k].second.id
        }),
{
    lemma_queue_twice(c, id, now1, now2);
}

/// With `a` waiting longest, a request of another connection `b` pairs `b`
/// with `a`: a game between the two starts, both are told, and neither waits.
pub proof fn lemma_first_waiting_is_matched(c: Core, a: u64, b: u64, now: u64)
    requires
        core_wf(c),
        c.queue.len() > 0,
        c.queue[0] == a,
        a != b,
        !in_some_game(c.games, b),
    ensures
        ({
            let (c1, out) = after_queue(c, b, now);
            &&& c1.games == c.games.push(new_game_spec(b, a, now, GAME_DURATION_MS))
            &&& out == seq![
                Outbound { to: b, event: ServerEvent::Connected },
                Outbound { to: a, event: ServerEvent::Connected },
            ]
            &&& !c1.queue.contains(a)
            &&& !c1.queue.contains(b)
        }),
{
    lemma_queue_step(c, b, now);
    let c1 = after_queue(c, b, now).0;
    assert(c1.games.last() == new_game_spec(b, a, now, GAME_DURATION_MS));
}

/// Before the deadline a click of a participant adds one to its own score and
/// to no other: the other player, the deadline and all other games stay.
pub proof fn lemma_click_before_deadline(c: Core, id: u64, now: u64, k: int)
    requires
        core_wf(c),
        0 <= k < c.games.len(),
        plays_in(c.games[k], id),
        now < c.games[k].deadline,
    ensures
        ({
            let (c1, out) = after_click(c, id, now);
            let g = c.games[k];
            let h = c1.games[k];
            &&& out.len() == 0
            &&& c1.queue == c.queue
            &&& c1.games.len() == c.games.len()
            &&& forall|j: int| 0 <= j < c.games.len() && j != k ==> c1.games[j] == c.games[j]
            &&& h.deadline == g.deadline
            &&& h.first.id == g.first.id
            &&& h.second.id == g.second.id
            &&& g.first.id == id ==> h.first.click_count == bumped(g.first.click_count)
                && h.second.click_count == g.second.click_count
            &&& g.second.id == id ==> h.second.click_count == bumped(g.second.click_count)
                && h.first.click_count == g.first.click_count
        }),
{
    lemma_game_index(c.games, id, k);
}

/// From the deadline on, a click of a participant ends its game: the player
/// with the strictly higher score is told it won, the other that it lost, and
/// neither plays in any game afterwards.
pub proof fn lemma_click_after_deadline(c: Core, id: u64, now: u64, k: int)
    requires
        core_wf(c),
        0 <= k < c.games.len(),
        plays_in(c.games[k], id),
        now >= c.games[k].deadline,
    ensures
        ({
            let (c1, out) = after_click(c, id, now);
            let g = c.games[k];
            &&& g.first.click_count > g.second.click_count ==> out == seq![
                Outbound { to: g.first.id, event: ServerEvent::YouWin },
                Outbound { to: g.second.id, event: ServerEvent::YouLost },
            ]
            &&& g.second.click_count > g.first.click_count ==> out == seq![
                Outbound { to: g.second.id, event: ServerEvent::YouWin },
                Outbound { to: g.first.id, event: ServerEvent::YouLost },
            ]
            &&& c1.games == c.games.remove(k)
            &&& !in_some_game(c1.games, g.first.id)
            &&& !in_some_game(c1.games, g.second.id)
        }),
{
    lemma_game_index(c.games, id, k);
    let g = c.games[k];
    let gs = c.games.remove(k);
    assert forall|x: u64| plays_in(g, x) implies !in_some_game(gs, x) by {
        if in_some_game(gs, x) {
            let j = choose|j: int| 0 <= j < gs.len() && plays_in(#[trigger] gs[j], x);
            let oj = if j < k { j } else { j + 1 };
            assert(gs[j] == c.games[oj]);
        }
    }
    assert(plays_in(g, g.first.id));
    assert(plays_in(g, g.second.id));
}

/// Everything the dispatcher keeps.
pub struct Server<H> {
    clients: ConnectionRegistry<H>,
    queue: MatchQueue,
    games: GameRegistry,
}

impl<H> Server<H> {
    /// The matchmaking state.
    pub closed spec fn state(&self) -> Core {
        Core { queue: self.queue@, games: self.games@ }
    }

    /// The open connections.
    pub closed spec fn connections(&self) -> Map<u64, H> {
        self.clients@
    }

    /// The matchmaking state is well formed.
    pub closed spec fn wf(&self) -> bool {
        core_wf(self.state())
    }

    pub fn new() -> (r: Server<H>)
        ensures
            r.wf(),
            r.state().queue == Seq::<u64>::empty(),
            r.state().games == Seq::<Game>::empty(),
            r.connections() == Map::<u64, H>::empty(),
    {
        Server { clients: ConnectionRegistry::new(), queue: MatchQueue::new(), games: GameRegistry::new() }
    }

    /// A connection opened: its handle is registered.
    pub fn on_connect(&mut self, id: u64, handle: H)
        requires
            old(self).wf(),
        ensures
            final(self).wf(),
            final(self).state() == old(self).state(),
            final(self).connections() == old(self).connections().insert(id, handle),
    {
        self.clients.on_connect(id, handle);
    }

    /// A connection closed: its handle is dropped and it stops waiting.
    pub fn on_disconnect(&mut self, id: u64)
        requires
            old(self).wf(),
        ensures
            final(self).wf(),
            final(self).state() == after_disconnect(old(self).state(), id),
            final(self).connections() == old(self).connections().remove(id),
    {
        self.clients.on_disconnect(id);
        proof {
            lemma_without(self.queue@, id);
        }
        self.queue.remove(id);
    }

    /// The handle to deliver to `id` through, or `None` where it is gone.
    pub fn handle(&self, id: u64) -> (r: Option<&H>)
        ensures
            match r {
                Some(h) => self.connections().contains_key(id) && *h == self.connections()[id],
                None => !self.connections().contains_key(id),
            },
    {
        self.clients.get(id)
    }

    /// The connections waiting for an opponent, earliest first.
    pub fn waiting(&self) -> (r: &MatchQueue)
        ensures
            r@ == self.state().queue,
    {
        &self.queue
    }

    /// The games in progress.
    pub fn games(&self) -> (r: &GameRegistry)
        ensures
            r@ == self.state().games,
    {
        &self.games
    }

    /// Handles a request of `id` to play at `now`.
    pub fn on_queue(&mut self, id: u64, now: u64) -> (r: Vec<Outbound>)
        requires
            old(self).wf(),
        ensures
            final(self).wf(),
            (final(self).state(), r@) == after_queue(old(self).state(), id, now),
            final(self).connections() == old(self).connections(),
    {
        proof {
            lemma_queue_step(self.state(), id, now);
        }
        if self.games.find_by_participant(id).is_some() {
            return Vec::new();
        }
        let mut out: Vec<Outbound> = Vec::new();
        match self.queue.try_match(id) {
            None => {},
            Some(other) => {
                self.games.add(Game::new(id, other, now, GAME_DURATION_MS));
                out.push(Outbound { to: id, event: ServerEvent::Connected });
                out.push(Outbound { to: other, event: ServerEvent::Connected });
            },
        }
        proof {
            let (c2, o2) = after_queue(old(self).state(), id, now);
            assert(out@ =~= o2);
            assert(self.state() == c2);
        }
        out
    }

    /// Handles a click of `id` at `now`.
    pub fn on_click(&mut self, id: u64, now: u64) -> (r: Vec<Outbound>)
        requires
            old(self).wf(),
        ensures
            final(self).wf(),
            (final(self).state(), r@) == after_click(old(self).state(), id, now),
            final(self).connections() == old(self).connections(),
    {
        proof {
            lemma_click_step(self.state(), id, now);
        }
        match self.games.find_by_participant(id) {
            None => Vec::new(),
            Some(i) => {
                proof {
                    lemma_game_index(self.games@, id, i as int);
                }
                if self.games.get(i).is_over(now) {
                    self.games.conclude(i)
                } else {
                    self.games.record_click(i, id);
                    Vec::new()
                }
            },
        }
    }

    /// Ends every game whose deadline has come by `now`, without waiting for
    /// a click in it.
    pub fn on_tick(&mut self, now: u64) -> (r: Vec<Outbound>)
        requires
            old(self).wf(),
        ensures
            final(self).wf(),
            (final(self).state(), r@) == after_tick(old(self).state(), now),
            final(self).connections() == old(self).connections(),
    {
        let r = self.games.sweep(now);
        proof {
            assert forall|x: u64| #[trigger] self.queue@.contains(x) implies !in_some_game(
                self.games@,
                x,
            ) by {}
        }
        r
    }

    /// Handles a message from `id` at `now`; `None` stands for a payload that
    /// did not decode, which changes nothing.
    pub fn on_message(&mut self, id: u64, msg: Option<CookieEvent>, now: u64) -> (r: Vec<Outbound>)
        requires
            old(self).wf(),
        ensures
            final(self).wf(),
            (final(self).state(), r@) == after_message(old(self).state(), id, kind_of(msg), now),
            final(self).connections() == old(self).connections(),
    {
        match msg {
            None => Vec::new(),
            Some(e) => match e.kind() {
                ClientEvent::Queue => self.on_queue(id, now),
                ClientEvent::Click => self.on_click(id, now),
                ClientEvent::Unknown => Vec::new(),
            },
        }
    }
}

} // verus!
