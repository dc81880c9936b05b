use std::collections::HashSet;
use tablebot::schedule::{generate_knockout_round, generate_schedule, generate_single_robin};

fn names(v: &[&str]) -> Vec<String> {
    v.iter().map(|s| s.to_string()).collect()
}

fn pairs(ms: &[tablebot::table_utils::ScheduledMatch]) -> Vec<(String, String)> {
    ms.iter().map(|m| (m.home_team.clone(), m.away_team.clone())).collect()
}

#[test]
fn double_round_robin_of_four() {
    let teams = names(&["A", "B", "C", "D"]);
    let ms = generate_schedule(&teams, 2);
    assert_eq!(ms.len(), 12);
    let p = pairs(&ms);
    assert_eq!(p[0], ("A".to_string(), "C".to_string()));
    assert_eq!(p[1], ("B".to_string(), "D".to_string()));
    assert_eq!(p[6], ("C".to_string(), "A".to_string()));
    let set: HashSet<(String, String)> = p.iter().cloned().collect();
    assert_eq!(set.len(), 12);
    for h in &teams {
        for a in &teams {
            if h != a {
                assert!(set.contains(&(h.clone(), a.clone())));
            }
        }
    }
    let gws: Vec<u32> = ms.iter().map(|m| m.gameweek).collect();
    assert_eq!(gws, vec![1, 1, 1, 1, 2, 2, 2, 2, 3, 3, 3, 3]);
    assert!(ms.iter().all(|m| !m.played));
}

#[test]
fn odd_team_count_gets_byes() {
    let teams = names(&["A", "B", "C"]);
    let ms = generate_schedule(&teams, 1);
    assert_eq!(ms.len(), 6);
    assert!(ms.iter().all(|m| m.home_team != "BYE" && m.away_team != "BYE"));
    let gws: Vec<u32> = ms.iter().map(|m| m.gameweek).collect();
    assert_eq!(gws, vec![1, 2, 3, 4, 5, 6]);
    let set: HashSet<(String, String)> = pairs(&ms).into_iter().collect();
    assert_eq!(set.len(), 6);
}

#[test]
fn no_team_plays_twice_in_a_round() {
    let teams = names(&["A", "B", "C", "D", "E", "F"]);
    let ms = generate_schedule(&teams, 1);
    assert_eq!(ms.len(), 30);
    for gw in 1..=10u32 {
        let mut seen = HashSet::new();
        for m in ms.iter().filter(|m| m.gameweek == gw) {
            assert!(seen.insert(m.home_team.clone()));
            assert!(seen.insert(m.away_team.clone()));
        }
        assert_eq!(seen.len(), 6);
    }
}

#[test]
fn single_round_robin_meets_each_pair_once() {
    let teams = names(&["A", "B", "C", "D", "E"]);
    let ms = generate_single_robin(&teams, 3);
    assert_eq!(ms.len(), 10);
    let mut set = HashSet::new();
    for m in &ms {
        let mut k = vec![m.home_team.clone(), m.away_team.clone()];
        k.sort();
        assert!(set.insert(k));
    }
    assert_eq!(ms.last().unwrap().gameweek, 2);
}

#[test]
fn one_team_has_no_fixtures() {
    assert!(generate_schedule(&names(&["A"]), 1).is_empty());
    assert!(generate_single_robin(&names(&["A"]), 0).is_empty());
}

#[test]
fn knockout_pairs_by_seed() {
    let ms = generate_knockout_round(&names(&["A", "B", "C", "D", "E"]), 4);
    assert_eq!(pairs(&ms), vec![("B".to_string(), "E".to_string()), ("C".to_string(), "D".to_string())]);
    assert!(ms.iter().all(|m| m.gameweek == 4 && !m.played));
    assert!(generate_knockout_round(&names(&["A"]), 1).is_empty());
}

#[test]
fn top_seed_gets_the_bye() {
    let ms = generate_knockout_round(&names(&["A", "B", "C"]), 1);
    assert_eq!(ms.len(), 1);
    assert_eq!((ms[0].gameweek, ms[0].home_team.as_str(), ms[0].away_team.as_str(), ms[0].played), (1, "B", "C", false));
    let even = generate_knockout_round(&names(&["A", "B", "C", "D"]), 2);
    assert_eq!(pairs(&even), vec![("A".to_string(), "D".to_string()), ("B".to_string(), "C".to_string())]);
}

#[test]
fn double_round_robin_begins_with_the_single_one() {
    for n in 1..8 {
        let teams: Vec<String> = (0..n).map(|i| format!("T{}", i)).collect();
        let single = generate_single_robin(&teams, 2);
        let double = generate_schedule(&teams, 2);
        assert_eq!(double.len(), 2 * single.len());
        for (a, b) in single.iter().zip(double.iter()) {
            assert_eq!((a.gameweek, &a.home_team, &a.away_team, a.played), (b.gameweek, &b.home_team, &b.away_team, b.played));
        }
    }
}
