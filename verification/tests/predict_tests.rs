use tablebot::predict::{find_scenario, try_find_scenario};
use tablebot::table_utils::{ScheduledMatch, Team};

fn team(pos: usize, club: &str, pts: i32) -> Team {
    Team { pos, club: club.to_string(), pl: 0, w: 0, d: 0, l: 0, gd: 0, pts }
}

fn sm(h: &str, a: &str) -> ScheduledMatch {
    ScheduledMatch { gameweek: 1, home_team: h.to_string(), away_team: a.to_string(), played: false }
}

fn table() -> Vec<Team> {
    vec![team(1, "A", 6), team(2, "B", 3), team(3, "C", 0)]
}

#[test]
fn title_needs_two_wins() {
    let r = find_scenario(&table(), &vec![sm("C", "A"), sm("B", "C")], &"C".to_string(), 1);
    assert_eq!(r.games_left, 2);
    let s = r.found.expect("a scenario exists");
    assert_eq!((s.wins, s.draws, s.losses), (2, 0, 0));
}

#[test]
fn last_place_needs_nothing() {
    let r = find_scenario(&table(), &vec![sm("C", "A"), sm("B", "C")], &"C".to_string(), 3);
    let s = r.found.expect("a scenario exists");
    assert_eq!((s.wins, s.draws, s.losses), (0, 0, 2));
}

#[test]
fn impossible_target_is_reported() {
    let t = vec![team(1, "A", 30), team(2, "B", 3), team(3, "C", 0)];
    let r = find_scenario(&t, &vec![sm("C", "B"), sm("A", "B")], &"C".to_string(), 1);
    assert_eq!(r.games_left, 1);
    assert!(r.found.is_none());
}

#[test]
fn draws_are_tried_before_more_wins() {
    let t = vec![team(1, "A", 3), team(2, "B", 3), team(3, "C", 3)];
    let r = find_scenario(&t, &vec![sm("A", "B"), sm("C", "B")], &"B".to_string(), 2);
    let s = r.found.expect("a scenario exists");
    assert_eq!((s.wins, s.draws, s.losses), (0, 2, 0));
}

#[test]
fn rivals_win_their_home_games() {
    let t = vec![team(1, "A", 3), team(2, "B", 3), team(3, "C", 3), team(4, "D", 0)];
    let ms = vec![sm("A", "D"), sm("B", "C")];
    let r = find_scenario(&t, &ms, &"B".to_string(), 2);
    let s = r.found.expect("a scenario exists");
    assert_eq!((s.wins, s.draws, s.losses), (0, 1, 0));
    let r = find_scenario(&t, &ms, &"B".to_string(), 1);
    assert_eq!(r.games_left, 1);
    assert!(r.found.is_none());
}

#[test]
fn a_search_that_would_overflow_stops() {
    let t = vec![team(1, "A", i32::MAX - 1), team(2, "B", 3), team(3, "C", 0)];
    let ms = vec![sm("A", "B"), sm("C", "B")];
    assert!(try_find_scenario(&t, &ms, &"C".to_string(), 1).is_none());
    let ok = try_find_scenario(&table(), &vec![sm("C", "A"), sm("B", "C")], &"C".to_string(), 1).expect("fits");
    assert_eq!(ok.games_left, 2);
}
