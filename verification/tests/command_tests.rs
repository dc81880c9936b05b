use tablebot::commands::{add_teams, add_teams_to_guild, clear_table, delete_teams, mark_match_played, plan_deletion, record_match, revert_table, try_record_match, UpdateError};
use tablebot::history::{push_fixture, push_snapshot, GuildData, FIXTURES_LIMIT, HISTORY_LIMIT};
use tablebot::table_utils::{Fixture, NamedSchedule, ScheduleKind, ScheduledMatch, Team};
use tablebot::validator::ValidationError;

fn team(pos: usize, club: &str, pts: i32) -> Team {
    Team { pos, club: club.to_string(), pl: 0, w: 0, d: 0, l: 0, gd: 0, pts }
}

fn guild() -> GuildData {
    let mut g = GuildData::default();
    g.table = vec![team(1, "CHELSEA", 0), team(2, "PSG", 0)];
    g
}

fn clubs(t: &[Team]) -> Vec<String> {
    t.iter().map(|x| x.club.clone()).collect()
}

#[test]
fn update_records_a_home_win() {
    let mut g = guild();
    let r = record_match(&mut g, "psg", 2, "Chelsea", 0);
    assert!(matches!(r, Ok((1, 2))));
    assert_eq!(clubs(&g.table), vec!["PSG", "CHELSEA"]);
    let psg = &g.table[0];
    assert_eq!((psg.pos, psg.pl, psg.w, psg.d, psg.l, psg.gd, psg.pts), (1, 1, 1, 0, 0, 2, 3));
    let che = &g.table[1];
    assert_eq!((che.pos, che.pl, che.w, che.d, che.l, che.gd, che.pts), (2, 1, 0, 0, 1, -2, 0));
    assert_eq!(g.history.len(), 1);
    assert_eq!(clubs(&g.history[0]), vec!["CHELSEA", "PSG"]);
    assert_eq!(g.fixtures.len(), 1);
    assert_eq!(g.fixtures[0].home_team, "PSG");
    assert_eq!(g.fixtures[0].away_team, "CHELSEA");
    assert_eq!((g.fixtures[0].home_score, g.fixtures[0].away_score), (2, 0));
}

#[test]
fn update_records_a_draw() {
    let mut g = guild();
    let r = record_match(&mut g, "PSG", 1, "CHELSEA", 1);
    assert!(matches!(r, Ok((2, 1))));
    assert_eq!(clubs(&g.table), vec!["CHELSEA", "PSG"]);
    for t in &g.table {
        assert_eq!((t.pl, t.d, t.pts, t.gd), (1, 1, 1, 0));
    }
}

#[test]
fn update_away_win_changes_order() {
    let mut g = guild();
    g.table = vec![team(1, "CHELSEA", 3), team(2, "PSG", 0)];
    let r = record_match(&mut g, "chelsea", 0, "psg", 3);
    assert!(matches!(r, Ok((2, 1))));
    assert_eq!(g.table[0].club, "PSG");
    assert_eq!(g.table[0].gd, 3);
}

#[test]
fn refused_update_changes_nothing() {
    let mut g = guild();
    let r = record_match(&mut g, "psg", 1, "barca", 0);
    match r {
        Err(UpdateError::Invalid(ValidationError::AwayTeamMissing(n))) => assert_eq!(n, "BARCA"),
        _ => panic!("expected a refusal"),
    }
    assert_eq!(g.history.len(), 0);
    assert_eq!(g.fixtures.len(), 0);
    assert_eq!(g.table[0].pl, 0);
    let e = record_match(&mut g, "psg", -1, "chelsea", 0).unwrap_err();
    assert_eq!(e.message(), "Scores must be zero or greater.");
}

#[test]
fn revert_restores_the_table_before_an_update() {
    let mut g = guild();
    record_match(&mut g, "psg", 2, "chelsea", 0).ok().unwrap();
    assert!(revert_table(&mut g));
    assert_eq!(clubs(&g.table), vec!["CHELSEA", "PSG"]);
    assert_eq!(g.table[1].pl, 0);
    assert_eq!(g.history.len(), 0);
    assert!(!revert_table(&mut g));
    assert_eq!(clubs(&g.table), vec!["CHELSEA", "PSG"]);
}

#[test]
fn clear_table_empties_and_saves() {
    let mut g = guild();
    clear_table(&mut g);
    assert!(g.table.is_empty());
    assert_eq!(g.history.len(), 1);
    assert_eq!(clubs(&g.history[0]), vec!["CHELSEA", "PSG"]);
    assert!(revert_table(&mut g));
    assert_eq!(g.table.len(), 2);
}

#[test]
fn history_keeps_at_most_the_limit() {
    let mut h: Vec<Vec<Team>> = Vec::new();
    for i in 0..(HISTORY_LIMIT + 3) {
        push_snapshot(&mut h, vec![team(1, &format!("T{}", i), 0)], HISTORY_LIMIT);
    }
    assert_eq!(h.len(), HISTORY_LIMIT);
    assert_eq!(h[0][0].club, "T3");
    assert_eq!(h[HISTORY_LIMIT - 1][0].club, format!("T{}", HISTORY_LIMIT + 2));
}

#[test]
fn fixture_log_keeps_the_latest() {
    let mut fs: Vec<Fixture> = Vec::new();
    for i in 0..(FIXTURES_LIMIT + 1) {
        push_fixture(&mut fs, Fixture { home_team: format!("H{}", i), away_team: "A".to_string(), home_score: 1, away_score: 0 });
    }
    assert_eq!(fs.len(), FIXTURES_LIMIT);
    assert_eq!(fs[0].home_team, "H1");
    assert_eq!(fs[FIXTURES_LIMIT - 1].home_team, format!("H{}", FIXTURES_LIMIT));
}

#[test]
fn add_teams_adds_new_and_skips_taken() {
    let mut t = vec![team(1, "CHELSEA", 0)];
    let out = add_teams(&mut t, "psg, chelsea, , Barca, PSG");
    assert_eq!(out.added, vec!["PSG", "BARCA"]);
    assert_eq!(out.skipped, vec!["CHELSEA", "PSG"]);
    assert_eq!(clubs(&t), vec!["BARCA", "CHELSEA", "PSG"]);
    let pos: Vec<usize> = t.iter().map(|x| x.pos).collect();
    assert_eq!(pos, vec![1, 2, 3]);
}

#[test]
fn add_teams_with_nothing_leaves_table() {
    let mut t = vec![team(7, "CHELSEA", 0)];
    let out = add_teams(&mut t, " , ");
    assert!(out.added.is_empty() && out.skipped.is_empty());
    assert_eq!(t[0].pos, 7);
}

#[test]
fn deletion_plan_splits_found_and_missing() {
    let t = vec![team(1, "CHELSEA", 0), team(2, "PSG", 0)];
    let plan = plan_deletion(&t, "psg, barca,,Chelsea");
    assert_eq!(plan.to_delete, vec!["PSG", "CHELSEA"]);
    assert_eq!(plan.not_found, vec!["BARCA"]);
}

#[test]
fn delete_teams_removes_and_ranks() {
    let mut g = GuildData::default();
    g.table = vec![team(1, "A", 9), team(2, "B", 6), team(3, "C", 3)];
    let deleted = delete_teams(&mut g, &vec!["B".to_string(), "Z".to_string()]);
    assert_eq!(deleted, vec!["B"]);
    assert_eq!(clubs(&g.table), vec!["A", "C"]);
    assert_eq!(g.table[1].pos, 2);
    assert_eq!(g.history.len(), 1);
    assert_eq!(g.history[0].len(), 3);
}

fn sm(gw: u32, h: &str, a: &str, played: bool) -> ScheduledMatch {
    ScheduledMatch { gameweek: gw, home_team: h.to_string(), away_team: a.to_string(), played }
}

#[test]
fn marking_a_match_played() {
    let mut s = vec![NamedSchedule {
        name: "League".to_string(),
        kind: ScheduleKind::RoundRobin,
        matches: vec![sm(1, "A", "B", true), sm(2, "A", "B", false), sm(3, "B", "A", false)],
    }];
    assert!(mark_match_played(&mut s, &"A".to_string(), &"B".to_string()));
    assert!(s[0].matches[1].played);
    assert!(!s[0].matches[2].played);
    assert!(mark_match_played(&mut s, &"A".to_string(), &"B".to_string()) == false);
    assert!(mark_match_played(&mut s, &"B".to_string(), &"A".to_string()));
    assert!(s[0].matches[2].played);
}

#[test]
fn an_update_adds_one_match_to_the_totals() {
    let mut g = GuildData::default();
    g.table = vec![team(1, "A", 9), team(2, "B", 4), team(3, "C", 1)];
    g.table[0].pl = 3;
    g.table[1].pl = 3;
    g.table[2].pl = 2;
    let sum = |t: &[Team]| -> (i32, i32, i32) {
        (t.iter().map(|x| x.pl).sum(), t.iter().map(|x| x.pts).sum(), t.iter().map(|x| x.gd).sum())
    };
    let before = sum(&g.table);
    record_match(&mut g, "c", 4, "a", 1).ok().unwrap();
    let after = sum(&g.table);
    assert_eq!(after, (before.0 + 2, before.1 + 3, before.2));
    record_match(&mut g, "b", 2, "c", 2).ok().unwrap();
    let after2 = sum(&g.table);
    assert_eq!(after2, (before.0 + 4, before.1 + 5, before.2));
}

#[test]
fn an_overflowing_result_is_not_entered() {
    let mut g = guild();
    g.table[0].pts = i32::MAX - 1;
    assert!(try_record_match(&mut g, "chelsea", 1, "psg", 0).is_none());
    assert_eq!(g.table[0].pts, i32::MAX - 1);
    assert!(g.history.is_empty());
    let r = try_record_match(&mut g, "chelsea", 0, "psg", 0);
    assert!(matches!(r, Some(Ok(_))));
    assert_eq!(g.table.iter().find(|t| t.club == "CHELSEA").unwrap().pts, i32::MAX);
    assert!(matches!(try_record_match(&mut g, "chelsea", 0, "madrid", 0), Some(Err(UpdateError::Invalid(_)))));
}

#[test]
fn club_names_stay_distinct() {
    let mut g = GuildData::default();
    add_teams(&mut g.table, "Chelsea, PSG, chelsea, Roma, ROMA ");
    record_match(&mut g, "roma", 2, "psg", 2).ok().unwrap();
    add_teams(&mut g.table, "psg,Lazio");
    delete_teams(&mut g, &vec!["CHELSEA".to_string()]);
    let mut names = clubs(&g.table);
    let n = names.len();
    names.sort();
    names.dedup();
    assert_eq!(names.len(), n);
    assert_eq!(names, vec!["LAZIO", "PSG", "ROMA"]);
}

#[test]
fn adding_teams_saves_the_table_first() {

    let mut g = guild();
    let out = add_teams_to_guild(&mut g, "Roma");
    assert_eq!(out.added, vec!["ROMA"]);
    assert_eq!(g.history.len(), 1);
    assert_eq!(clubs(&g.history[0]), vec!["CHELSEA", "PSG"]);
    assert_eq!(clubs(&g.table), vec!["CHELSEA", "PSG", "ROMA"]);
    assert!(revert_table(&mut g));
    assert_eq!(clubs(&g.table), vec!["CHELSEA", "PSG"]);
    let none = add_teams_to_guild(&mut g, " , ");
    assert!(none.added.is_empty() && none.skipped.is_empty());
    assert!(g.history.is_empty());
}

#[test]
fn records_still_add_up_after_updates() {
    let mut g = GuildData::default();
    add_teams(&mut g.table, "A, B, C");
    record_match(&mut g, "a", 3, "b", 1).ok().unwrap();
    record_match(&mut g, "c", 2, "a", 2).ok().unwrap();
    record_match(&mut g, "b", 0, "c", 4).ok().unwrap();
    for t in &g.table {
        assert_eq!(t.pl, t.w + t.d + t.l);
        assert_eq!(t.pts, 3 * t.w + t.d);
    }
    assert_eq!(g.table.iter().map(|t| t.gd).sum::<i32>(), 0);
    assert_eq!(g.table.iter().map(|t| t.w).sum::<i32>(), g.table.iter().map(|t| t.l).sum::<i32>());
}
