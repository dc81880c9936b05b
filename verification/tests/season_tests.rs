use tablebot::season::{
    advance_knockout, build_schedule, eq_ignore_ascii_case, fixture_result, kind_label, outcome_badge,
    parse_schedule_kind, resolve_schedule, resolve_team_list, schedule_summary, select_fixtures, upsert_schedule,
    ResolveError, ScheduleError,
};
use tablebot::table_utils::{Fixture, NamedSchedule, ScheduleKind, ScheduledMatch, Team};

fn sm(gw: u32, h: &str, a: &str, played: bool) -> ScheduledMatch {
    ScheduledMatch { gameweek: gw, home_team: h.to_string(), away_team: a.to_string(), played }
}

fn res(h: &str, hs: i32, a: &str, as_: i32) -> Fixture {
    Fixture { home_team: h.to_string(), away_team: a.to_string(), home_score: hs, away_score: as_ }
}

fn sched(name: &str, kind: ScheduleKind, matches: Vec<ScheduledMatch>) -> NamedSchedule {
    NamedSchedule { name: name.to_string(), kind, matches }
}

#[test]
fn schedule_kind_is_parsed_case_insensitively() {
    assert_eq!(parse_schedule_kind(None), ScheduleKind::RoundRobin);
    assert_eq!(parse_schedule_kind(Some("Single")), ScheduleKind::SingleRoundRobin);
    assert_eq!(parse_schedule_kind(Some("single_robin")), ScheduleKind::SingleRoundRobin);
    assert_eq!(parse_schedule_kind(Some("SINGLEROBIN")), ScheduleKind::SingleRoundRobin);
    assert_eq!(parse_schedule_kind(Some("KO")), ScheduleKind::Knockout);
    assert_eq!(parse_schedule_kind(Some("knockout")), ScheduleKind::Knockout);
    assert_eq!(parse_schedule_kind(Some("league")), ScheduleKind::RoundRobin);
}

#[test]
fn schedule_kind_labels() {
    assert_eq!(kind_label(&ScheduleKind::RoundRobin), "round-robin");
    assert_eq!(kind_label(&ScheduleKind::SingleRoundRobin), "single round-robin");
    assert_eq!(kind_label(&ScheduleKind::Knockout), "knockout");
}

#[test]
fn ascii_case_is_ignored() {
    assert!(eq_ignore_ascii_case("Group A", "group a"));
    assert!(!eq_ignore_ascii_case("Group A", "Group B"));
    assert!(!eq_ignore_ascii_case("ab", "abc"));
}

#[test]
fn team_list_from_argument_or_table() {
    let table = vec![
        Team { pos: 1, club: "PSG".to_string(), pl: 0, w: 0, d: 0, l: 0, gd: 0, pts: 0 },
        Team { pos: 2, club: "ARSENAL".to_string(), pl: 0, w: 0, d: 0, l: 0, gd: 0, pts: 0 },
    ];
    assert_eq!(resolve_team_list(&table, Some(" roma, ,lazio ")), vec!["ROMA", "LAZIO"]);
    assert_eq!(resolve_team_list(&table, None), vec!["PSG", "ARSENAL"]);
}

#[test]
fn knockout_advances_winners() {
    let existing = vec![sm(1, "A", "D", true), sm(1, "B", "C", true)];
    let fixtures = vec![res("A", 0, "D", 2), res("B", 1, "C", 1)];
    let r = advance_knockout(&existing, &fixtures);
    match r {
        Ok(ms) => {
            assert_eq!(ms.len(), 3);
            assert_eq!((ms[2].gameweek, ms[2].home_team.as_str(), ms[2].away_team.as_str()), (2, "D", "B"));
            assert!(!ms[2].played);
        }
        Err(_) => panic!("round should advance"),
    }
}

#[test]
fn knockout_waits_for_unfinished_round() {
    let existing = vec![sm(1, "A", "D", true), sm(1, "B", "C", false)];
    match advance_knockout(&existing, &vec![]) {
        Err(ScheduleError::RoundNotFinished { round, done, total }) => assert_eq!((round, done, total), (1, 1, 2)),
        _ => panic!("round is not finished"),
    }
    match advance_knockout(&vec![], &vec![]) {
        Err(ScheduleError::RoundNotFinished { round, done, total }) => assert_eq!((round, done, total), (0, 0, 0)),
        _ => panic!("empty bracket"),
    }
}

#[test]
fn knockout_with_odd_winners_gives_the_top_winner_a_bye() {
    let existing = vec![sm(1, "A", "F", true), sm(1, "B", "E", true), sm(1, "C", "D", true)];
    let fixtures = vec![res("A", 1, "F", 0), res("B", 0, "E", 2), res("C", 3, "D", 3)];
    let ms = advance_knockout(&existing, &fixtures).ok().unwrap();
    assert_eq!(ms.len(), 4);
    assert_eq!((ms[3].gameweek, ms[3].home_team.as_str(), ms[3].away_team.as_str()), (2, "E", "C"));
}

#[test]
fn knockout_needs_two_winners() {
    let existing = vec![sm(1, "A", "B", true)];
    let fixtures = vec![res("A", 3, "B", 0)];
    assert!(matches!(advance_knockout(&existing, &fixtures), Err(ScheduleError::NotEnoughWinners)));
}

#[test]
fn building_round_robin_and_knockout() {
    let teams: Vec<String> = vec!["A".to_string(), "B".to_string(), "C".to_string(), "D".to_string()];
    let s = build_schedule(&vec![], &vec![], &"League".to_string(), ScheduleKind::RoundRobin, &teams, 1).ok().unwrap();
    assert_eq!(s.matches.len(), 12);
    assert_eq!(s.kind, ScheduleKind::RoundRobin);
    let s = build_schedule(&vec![], &vec![], &"Cup".to_string(), ScheduleKind::Knockout, &teams, 1).ok().unwrap();
    assert_eq!(s.matches.len(), 2);
    assert_eq!(s.matches[0].home_team, "A");
    assert_eq!(s.matches[0].away_team, "D");
    assert_eq!(s.matches[0].gameweek, 1);
}

#[test]
fn building_next_knockout_round() {
    let teams: Vec<String> = vec!["A".to_string(), "B".to_string()];
    let cup = sched("Cup", ScheduleKind::Knockout, vec![sm(1, "A", "D", true), sm(1, "B", "C", true)]);
    let fixtures = vec![res("A", 2, "D", 0), res("B", 0, "C", 1)];
    let s = build_schedule(&vec![cup], &fixtures, &"cup".to_string(), ScheduleKind::Knockout, &teams, 1).ok().unwrap();
    assert_eq!(s.matches.len(), 3);
    assert_eq!(s.matches[2].home_team, "A");
    assert_eq!(s.matches[2].away_team, "C");
    assert_eq!(s.matches[2].gameweek, 2);
}

#[test]
fn upsert_replaces_same_name() {
    let mut v = vec![sched("League", ScheduleKind::RoundRobin, vec![]), sched("Cup", ScheduleKind::Knockout, vec![])];
    upsert_schedule(&mut v, sched("league", ScheduleKind::SingleRoundRobin, vec![sm(1, "A", "B", false)]));
    assert_eq!(v.len(), 2);
    assert_eq!(v[0].name, "league");
    assert_eq!(v[0].kind, ScheduleKind::SingleRoundRobin);
    assert_eq!(v[0].matches.len(), 1);
    assert_eq!(v[1].name, "Cup");
    upsert_schedule(&mut v, sched("Friendly", ScheduleKind::RoundRobin, vec![]));
    assert_eq!(v.len(), 3);
    assert_eq!(v[2].name, "Friendly");
}

#[test]
fn schedules_are_resolved_by_name() {
    let v = vec![sched("League", ScheduleKind::RoundRobin, vec![]), sched("Cup", ScheduleKind::Knockout, vec![])];
    assert!(matches!(resolve_schedule(&v, Some("CUP")), Ok(1)));
    assert!(matches!(resolve_schedule(&v, Some("Shield")), Err(ResolveError::NotFound)));
    assert!(matches!(resolve_schedule(&v, None), Err(ResolveError::Ambiguous)));
    assert!(matches!(resolve_schedule(&v[..1].to_vec(), None), Ok(0)));
}

#[test]
fn schedule_summary_counts() {
    let s = sched("L", ScheduleKind::RoundRobin, vec![sm(1, "A", "B", true), sm(2, "B", "A", false), sm(3, "A", "C", false)]);
    assert_eq!(schedule_summary(&s), (3, 1, 3));
}

#[test]
fn fixtures_selected_for_next_gameweek_or_team() {
    let s = sched(
        "L",
        ScheduleKind::RoundRobin,
        vec![sm(1, "A", "B", true), sm(2, "C", "A", false), sm(2, "B", "D", false), sm(3, "A", "D", false)],
    );
    assert_eq!(select_fixtures(&s, None, None), (2, vec![1, 2]));
    assert_eq!(select_fixtures(&s, Some(3), None), (3, vec![3]));
    assert_eq!(select_fixtures(&s, None, Some(&"A".to_string())), (0, vec![0, 1, 3]));
    assert_eq!(select_fixtures(&s, Some(2), Some(&"D".to_string())), (2, vec![2]));
    let done = sched("L", ScheduleKind::RoundRobin, vec![sm(4, "A", "B", true)]);
    assert_eq!(select_fixtures(&done, None, None), (1, vec![]));
}

#[test]
fn results_and_badges_for_schedule() {
    let fixtures = vec![res("A", 1, "B", 2), res("A", 3, "B", 0)];
    assert_eq!(fixture_result(&fixtures, &sm(1, "a", "b", true)), Some(0));
    assert_eq!(fixture_result(&fixtures, &sm(1, "B", "A", true)), None);
    assert_eq!(outcome_badge(&fixtures[0], &"A".to_string()), "❌ L");
    assert_eq!(outcome_badge(&fixtures[0], &"B".to_string()), "✅ W");
    assert_eq!(outcome_badge(&res("A", 1, "B", 1), &"B".to_string()), "🟡 D");
}

#[test]
fn schedule_names_stay_distinct() {
    let mut v: Vec<NamedSchedule> = Vec::new();
    for n in ["Group A", "group a", "Cup", "GROUP A", "cup", "Shield"] {
        upsert_schedule(&mut v, sched(n, ScheduleKind::RoundRobin, vec![]));
    }
    let names: Vec<&str> = v.iter().map(|s| s.name.as_str()).collect();
    assert_eq!(names, vec!["GROUP A", "cup", "Shield"]);
}
