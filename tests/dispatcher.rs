use cookie_clicker::games::{Game, GAME_DURATION_MS};
use cookie_clicker::protocol::{ClientEvent, CookieEvent, Outbound, ServerEvent};
use cookie_clicker::server::Server;

fn msg(name: &str) -> Option<CookieEvent> {
    Some(CookieEvent { event: name.to_string() })
}

fn connected(ids: &[u64]) -> Server<u32> {
    let mut s: Server<u32> = Server::new();
    for (k, id) in ids.iter().enumerate() {
        s.on_connect(*id, k as u32);
    }
    s
}

fn queue_of(s: &Server<u32>) -> Vec<u64> {
    let q = s.waiting();
    (0..q.len()).map(|i| q.get(i)).collect()
}

fn games_of(s: &Server<u32>) -> Vec<Game> {
    let g = s.games();
    (0..g.len()).map(|i| g.get(i)).collect()
}

fn out(to: u64, event: ServerEvent) -> Outbound {
    Outbound { to, event }
}

#[test]
fn two_players_race_and_higher_score_wins() {
    let mut s = connected(&[1, 2]);
    assert!(s.on_message(1, msg("queue"), 0).is_empty());
    let start = s.on_message(2, msg("queue"), 0);
    assert_eq!(start, vec![out(2, ServerEvent::Connected), out(1, ServerEvent::Connected)]);
    for t in 0..5u64 {
        assert!(s.on_message(1, msg("click"), 100 + t).is_empty());
    }
    for t in 0..3u64 {
        assert!(s.on_message(2, msg("click"), 200 + t).is_empty());
    }
    let g = games_of(&s)[0];
    assert_eq!(g.second.id, 1);
    assert_eq!(g.second.click_count, 5);
    assert_eq!(g.first.click_count, 3);
    let end = s.on_message(1, msg("click"), GAME_DURATION_MS + 1);
    assert_eq!(end, vec![out(1, ServerEvent::YouWin), out(2, ServerEvent::YouLost)]);
    assert!(games_of(&s).is_empty());
}

#[test]
fn click_outside_any_game_does_nothing() {
    let mut s = connected(&[1, 2, 3]);
    s.on_message(1, msg("queue"), 0);
    s.on_message(2, msg("queue"), 0);
    let before = games_of(&s);
    assert!(s.on_message(3, msg("click"), 10).is_empty());
    assert_eq!(games_of(&s), before);
    assert!(queue_of(&s).is_empty());
}

#[test]
fn malformed_payload_does_nothing() {
    let mut s = connected(&[1, 2]);
    s.on_message(1, msg("queue"), 0);
    let decoded = serde_json::from_str::<serde_json::Value>("{not json");
    assert!(decoded.is_err());
    assert!(s.on_message(2, None, 5).is_empty());
    assert_eq!(queue_of(&s), vec![1]);
    assert!(games_of(&s).is_empty());
}

#[test]
fn unknown_event_does_nothing() {
    let mut s = connected(&[1, 2]);
    s.on_message(1, msg("queue"), 0);
    assert!(s.on_message(2, msg("dance"), 5).is_empty());
    assert_eq!(queue_of(&s), vec![1]);
    assert!(games_of(&s).is_empty());
}

#[test]
fn queueing_twice_leaves_one_entry() {
    let mut s = connected(&[7]);
    assert!(s.on_message(7, msg("queue"), 0).is_empty());
    assert!(s.on_message(7, msg("queue"), 1).is_empty());
    assert_eq!(queue_of(&s), vec![7]);
    assert!(games_of(&s).is_empty());
}

#[test]
fn earliest_waiting_is_matched_first() {
    let mut s = connected(&[10, 20, 30]);
    s.on_queue(10, 0);
    let r = s.on_queue(20, 3);
    assert_eq!(r, vec![out(20, ServerEvent::Connected), out(10, ServerEvent::Connected)]);
    let g = games_of(&s)[0];
    assert_eq!((g.first.id, g.second.id), (20, 10));
    assert_eq!(g.deadline, 3 + GAME_DURATION_MS);
    assert!(queue_of(&s).is_empty());
    assert!(s.on_queue(30, 4).is_empty());
    assert_eq!(queue_of(&s), vec![30]);
}

#[test]
fn player_in_a_game_cannot_queue_again() {
    let mut s = connected(&[1, 2, 3]);
    s.on_queue(1, 0);
    s.on_queue(2, 0);
    assert!(s.on_queue(1, 1).is_empty());
    assert!(queue_of(&s).is_empty());
    s.on_queue(3, 2);
    assert!(s.on_queue(2, 3).is_empty());
    assert_eq!(queue_of(&s), vec![3]);
    assert_eq!(games_of(&s).len(), 1);
}

#[test]
fn click_before_deadline_counts_for_sender_only() {
    let mut s = connected(&[1, 2]);
    s.on_queue(1, 1000);
    s.on_queue(2, 1000);
    let deadline = 1000 + GAME_DURATION_MS;
    assert!(s.on_click(2, deadline - 1).is_empty());
    let g = games_of(&s)[0];
    assert_eq!(g.first.id, 2);
    assert_eq!(g.first.click_count, 1);
    assert_eq!(g.second.click_count, 0);
    assert_eq!(g.deadline, deadline);
}

#[test]
fn click_at_deadline_concludes_without_counting() {
    let mut s = connected(&[1, 2]);
    s.on_queue(1, 0);
    s.on_queue(2, 0);
    s.on_click(1, 10);
    let r = s.on_click(2, GAME_DURATION_MS);
    assert_eq!(r, vec![out(1, ServerEvent::YouWin), out(2, ServerEvent::YouLost)]);
    assert!(games_of(&s).is_empty());
    assert!(s.on_click(1, GAME_DURATION_MS + 1).is_empty());
}

#[test]
fn tie_goes_to_the_player_who_completed_the_match() {
    let mut s = connected(&[1, 2]);
    s.on_queue(1, 0);
    s.on_queue(2, 0);
    s.on_click(1, 1);
    s.on_click(2, 2);
    let r = s.on_click(1, GAME_DURATION_MS + 5);
    assert_eq!(r, vec![out(2, ServerEvent::YouWin), out(1, ServerEvent::YouLost)]);
}

#[test]
fn deadline_saturates_at_the_end_of_time() {
    let g = Game::new(1, 2, u64::MAX - 5, GAME_DURATION_MS);
    assert_eq!(g.deadline, u64::MAX);
    assert_eq!(g.first.click_count, 0);
    assert!(!g.is_over(u64::MAX - 1));
    assert!(g.is_over(u64::MAX));
}

#[test]
fn disconnect_leaves_the_queue_and_drops_the_handle() {
    let mut s = connected(&[1, 2]);
    assert_eq!(s.handle(2), Some(&1));
    s.on_queue(1, 0);
    s.on_disconnect(1);
    assert!(queue_of(&s).is_empty());
    assert_eq!(s.handle(1), None);
    assert!(s.on_queue(2, 1).is_empty());
    assert_eq!(queue_of(&s), vec![2]);
}

#[test]
fn disconnect_keeps_the_game() {
    let mut s = connected(&[1, 2]);
    s.on_queue(1, 0);
    s.on_queue(2, 0);
    s.on_disconnect(2);
    assert!(s.on_click(1, 5).is_empty());
    assert_eq!(games_of(&s)[0].second.click_count, 1);
    let r = s.on_click(1, GAME_DURATION_MS);
    assert_eq!(r, vec![out(1, ServerEvent::YouWin), out(2, ServerEvent::YouLost)]);
    assert_eq!(s.handle(2), None);
}

#[test]
fn event_names_classify() {
    assert_eq!(ClientEvent::from_name("queue"), ClientEvent::Queue);
    assert_eq!(ClientEvent::from_name("click"), ClientEvent::Click);
    assert_eq!(ClientEvent::from_name("Queue"), ClientEvent::Unknown);
    assert_eq!(ClientEvent::from_name(""), ClientEvent::Unknown);
    assert_eq!(CookieEvent { event: "click".to_string() }.kind(), ClientEvent::Click);
}

#[test]
fn outbound_names() {
    assert_eq!(ServerEvent::Connected.name(), "connected");
    assert_eq!(ServerEvent::YouWin.name(), "you_win");
    assert_eq!(ServerEvent::YouLost.to_cookie_event().event, "you_lost");
}

#[test]
fn tick_ends_only_expired_games() {
    let mut s = connected(&[1, 2, 3, 4]);
    s.on_queue(1, 0);
    s.on_queue(2, 0);
    s.on_queue(3, 10);
    s.on_queue(4, 10);
    s.on_click(3, 20);
    assert!(s.on_tick(GAME_DURATION_MS - 1).is_empty());
    assert_eq!(games_of(&s).len(), 2);
    let r = s.on_tick(GAME_DURATION_MS);
    assert_eq!(r, vec![out(2, ServerEvent::YouWin), out(1, ServerEvent::YouLost)]);
    let left = games_of(&s);
    assert_eq!(left.len(), 1);
    assert_eq!((left[0].first.id, left[0].second.id), (4, 3));
    let r = s.on_tick(GAME_DURATION_MS + 10);
    assert_eq!(r, vec![out(3, ServerEvent::YouWin), out(4, ServerEvent::YouLost)]);
    assert!(games_of(&s).is_empty());
}

#[test]
fn tick_ends_several_games_in_registry_order() {
    let mut s = connected(&[1, 2, 3, 4]);
    s.on_queue(1, 0);
    s.on_queue(2, 0);
    s.on_queue(3, 0);
    s.on_queue(4, 0);
    s.on_click(1, 1);
    let r = s.on_tick(u64::MAX);
    assert_eq!(
        r,
        vec![
            out(1, ServerEvent::YouWin),
            out(2, ServerEvent::YouLost),
            out(4, ServerEvent::YouWin),
            out(3, ServerEvent::YouLost),
        ]
    );
    assert!(games_of(&s).is_empty());
    assert!(s.on_click(1, u64::MAX).is_empty());
}
