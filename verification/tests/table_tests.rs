use tablebot::table_utils::{find_team_index, format_table_monospace, recalculate_positions, sort_table, Team};
use tablebot::text::normalize_team_name;

fn team(club: &str, pts: i32, gd: i32, w: i32) -> Team {
    Team { pos: 0, club: club.to_string(), pl: 0, w, d: 0, l: 0, gd, pts }
}

#[test]
fn normalize_trims_and_uppercases() {
    assert_eq!(normalize_team_name("  Chelsea "), "CHELSEA");
}

#[test]
fn sort_orders_by_points_then_gd_then_wins_then_name() {
    let mut t = vec![team("B", 3, 1, 1), team("A", 3, 1, 1), team("C", 6, 0, 2), team("D", 3, 2, 1)];
    sort_table(&mut t);
    recalculate_positions(&mut t);
    let names: Vec<&str> = t.iter().map(|x| x.club.as_str()).collect();
    assert_eq!(names, vec!["C", "D", "A", "B"]);
    assert_eq!(t[0].pos, 1);
    assert_eq!(t[3].pos, 4);
}

#[test]
fn find_team_is_case_insensitive() {
    let t = vec![team("CHELSEA", 0, 0, 0), team("PSG", 0, 0, 0)];
    assert_eq!(find_team_index(&t, " psg"), Some(1));
    assert_eq!(find_team_index(&t, "Barca"), None);
}

#[test]
fn format_table_layout() {
    let mut t = vec![Team { pos: 1, club: "MANCHESTER UNITED".to_string(), pl: 2, w: 1, d: 1, l: 0, gd: 3, pts: 4 }];
    recalculate_positions(&mut t);
    let s = format_table_monospace(&t);
    assert_eq!(s, " # CLUB     PL  W  D  L  GD PTS\n 1 MANCHES…  2  1  1  0  +3   4");
}
