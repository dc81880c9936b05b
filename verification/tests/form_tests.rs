use tablebot::fixtures::{append_fixture, format_result_badge, streak_description, team_form, Fixture};

fn fx(home: &str, hs: i64, away: &str, as_: i64) -> Fixture {
    Fixture { home: home.to_string(), home_score: hs, away: away.to_string(), away_score: as_, timestamp: String::new() }
}

fn log() -> Vec<Fixture> {
    vec![
        fx("ARSENAL", 2, "CHELSEA", 1),
        fx("CHELSEA", 0, "PSG", 0),
        fx("PSG", 3, "ARSENAL", 1),
        fx("CHELSEA", 1, "ARSENAL", 4),
        fx("ARSENAL", 1, "PSG", 0),
    ]
}

#[test]
fn form_lists_results_oldest_first() {
    assert_eq!(team_form(&log(), "arsenal", 10), vec!['W', 'L', 'W', 'W']);
    assert_eq!(team_form(&log(), "Chelsea", 10), vec!['L', 'D', 'L']);
    assert_eq!(team_form(&log(), "PSG", 10), vec!['D', 'W', 'L']);
}

#[test]
fn form_keeps_only_the_last_count() {
    assert_eq!(team_form(&log(), "ARSENAL", 2), vec!['W', 'W']);
    assert_eq!(team_form(&log(), "ARSENAL", 0), Vec::<char>::new());
    assert_eq!(team_form(&log(), "BARCA", 5), Vec::<char>::new());
}

#[test]
fn streaks_are_described() {
    assert_eq!(streak_description(&[]), "No games played yet");
    assert_eq!(streak_description(&['L', 'W', 'W', 'W']), "3 game winning streak 🔥");
    assert_eq!(streak_description(&['W', 'L', 'L']), "2 game losing streak");
    assert_eq!(streak_description(&['W', 'D']), "1 draw");
    assert_eq!(streak_description(&['D', 'D', 'D', 'D']), "4 game unbeaten run");
    assert_eq!(streak_description(&['W', 'X']), "");
}

#[test]
fn result_badges() {
    assert_eq!(format_result_badge('W'), "🟢 W");
    assert_eq!(format_result_badge('L'), "🔴 L");
    assert_eq!(format_result_badge('D'), "🟡 D");
    assert_eq!(format_result_badge('?'), "❓");
}

#[test]
fn appending_a_result_puts_it_last() {
    let mut fs = log();
    append_fixture(&mut fs, fx("PSG", 5, "CHELSEA", 0));
    assert_eq!(fs.len(), 6);
    assert_eq!(fs[5].home, "PSG");
    assert_eq!(team_form(&fs, "psg", 1), vec!['W']);
}
