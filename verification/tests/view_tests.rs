use tablebot::fixtures::Fixture as LoggedResult;
use tablebot::table_utils::{Fixture, Team};
use tablebot::views::{
    autocomplete_team, check_head_to_head, form_badges, head_to_head, landing_target, may_administer,
    recent_results, sort_ids, starts_with, table_description, table_url, HeadToHeadError,
};

fn team(pos: usize, club: &str) -> Team {
    Team { pos, club: club.to_string(), pl: 0, w: 0, d: 0, l: 0, gd: 0, pts: 0 }
}

fn res(h: &str, hs: i32, a: &str, as_: i32) -> Fixture {
    Fixture { home_team: h.to_string(), away_team: a.to_string(), home_score: hs, away_score: as_ }
}

fn logged(h: &str, hs: i64, a: &str, as_: i64) -> LoggedResult {
    LoggedResult { home: h.to_string(), home_score: hs, away: a.to_string(), away_score: as_, timestamp: "t".to_string() }
}

#[test]
fn empty_table_gets_a_hint() {
    assert_eq!(table_description(&vec![]), "No teams have been added yet! Use `/addteam` to get started.");
}

#[test]
fn table_is_shown_in_a_code_block() {
    let s = table_description(&vec![team(1, "PSG")]);
    assert_eq!(s, "```\n # CLUB     PL  W  D  L  GD PTS\n 1 PSG       0  0  0  0  +0   0\n```");
}

#[test]
fn recent_results_show_the_last_ten() {
    let fs: Vec<Fixture> = (0..12).map(|i| res(&format!("H{}", i), i, "AWAY", 0)).collect();
    let lines = recent_results(&fs);
    assert_eq!(lines.len(), 10);
    assert_eq!(lines[0], "**H2** 2-0 **AWAY**");
    assert_eq!(lines[9], "**H11** 11-0 **AWAY**");
    assert_eq!(recent_results(&vec![res("A", -1, "B", 3)]), vec!["**A** -1-3 **B**"]);
}

#[test]
fn form_badges_cover_the_last_five() {
    let mut fs = vec![res("A", 1, "B", 0), res("C", 0, "D", 0)];
    for i in 0..5 {
        fs.push(res("B", i, "A", 1));
    }
    let badges = form_badges(&fs, &"A".to_string());
    assert_eq!(badges, vec!["🟢 W", "🟡 D", "🔴 L", "🔴 L", "🔴 L"]);
    let b = form_badges(&fs, &"C".to_string());
    assert_eq!(b, vec!["🟡 D"]);
}

#[test]
fn head_to_head_checks_names() {
    let t = vec![team(1, "PSG"), team(2, "ROMA")];
    match check_head_to_head(&t, " psg", "roma") {
        Ok((a, b)) => assert_eq!((a.as_str(), b.as_str()), ("PSG", "ROMA")),
        Err(_) => panic!("both teams exist"),
    }
    match check_head_to_head(&t, "psg", "lazio") {
        Err(HeadToHeadError::NotInTable(n)) => assert_eq!(n, "LAZIO"),
        _ => panic!("LAZIO is not in the table"),
    }
    assert!(matches!(check_head_to_head(&t, "psg", "PSG"), Err(HeadToHeadError::SameTeam)));
}

#[test]
fn head_to_head_tallies_meetings() {
    let fs = vec![
        logged("PSG", 2, "ROMA", 1),
        logged("ROMA", 0, "LAZIO", 0),
        logged("ROMA", 3, "PSG", 3),
        logged("ROMA", 2, "PSG", 0),
    ];
    let h = head_to_head(&fs, &"PSG".to_string(), &"ROMA".to_string());
    assert_eq!(h.lines, vec!["PSG 2 - 1 ROMA", "ROMA 3 - 3 PSG", "ROMA 2 - 0 PSG"]);
    assert_eq!((h.t1_wins, h.t2_wins, h.draws), (1, 1, 1));
}

#[test]
fn website_link() {
    assert_eq!(table_url("https://example.org//", 42), "https://example.org/g/42");
    assert_eq!(table_url("http://localhost:3000", 7), "http://localhost:3000/g/7");
}

#[test]
fn who_may_administer() {
    assert!(!may_administer(false, true, None, &vec![]));
    assert!(may_administer(true, true, None, &vec![]));
    assert!(may_administer(true, false, Some(5), &vec![3, 5]));
    assert!(!may_administer(true, false, Some(5), &vec![3]));
    assert!(!may_administer(true, false, None, &vec![5]));
}

#[test]
fn prefixes_and_completions() {
    assert!(starts_with("chelsea", "che"));
    assert!(!starts_with("che", "chelsea"));
    let t = vec![team(1, "CHELSEA"), team(2, "PSG"), team(3, "CHARLTON")];
    assert_eq!(autocomplete_team(&t, "ch"), vec!["CHELSEA", "CHARLTON"]);
    assert_eq!(autocomplete_team(&t, ""), vec!["CHELSEA", "PSG", "CHARLTON"]);
    assert!(autocomplete_team(&t, "x").is_empty());
}

#[test]
fn ids_are_sorted_and_landing_is_chosen() {
    let mut ids = vec![30, 10, 20, 10];
    sort_ids(&mut ids);
    assert_eq!(ids, vec![10, 10, 20, 30]);
    assert_eq!(landing_target(Some(9), &vec![1, 2]), Some(9));
    assert_eq!(landing_target(None, &vec![4]), Some(4));
    assert_eq!(landing_target(None, &vec![4, 5]), None);
    assert_eq!(landing_target(None, &vec![]), None);
}
