use tablebot::table_utils::Team;
use tablebot::validator::{validate_match_input, validate_new_team_name, ValidationError};

fn team(club: &str) -> Team {
    Team { pos: 0, club: club.to_string(), pl: 0, w: 0, d: 0, l: 0, gd: 0, pts: 0 }
}

fn table() -> Vec<Team> {
    vec![team("CHELSEA"), team("PSG")]
}

#[test]
fn negative_score_is_refused() {
    let r = validate_match_input(&table(), "Chelsea", -1, "PSG", 0);
    match r {
        Err(e) => {
            assert!(matches!(e, ValidationError::NegativeScore));
            assert_eq!(e.message(), "Scores must be zero or greater.");
        }
        Ok(()) => panic!("accepted a negative score"),
    }
    assert!(matches!(validate_match_input(&table(), "Chelsea", 0, "PSG", -3), Err(ValidationError::NegativeScore)));
}

#[test]
fn same_team_twice_is_refused() {
    let r = validate_match_input(&table(), "chelsea", 1, "  CHELSEA ", 2);
    match r {
        Err(e) => {
            assert!(matches!(e, ValidationError::SameTeams));
            assert_eq!(e.message(), "Home and away teams must be different.");
        }
        Ok(()) => panic!("accepted the same team twice"),
    }
}

#[test]
fn missing_home_team_is_named() {
    match validate_match_input(&table(), "barca", 1, "PSG", 0) {
        Err(ValidationError::HomeTeamMissing(n)) => assert_eq!(n, "BARCA"),
        _ => panic!("expected a missing home team"),
    }
    let e = validate_match_input(&table(), "barca", 1, "PSG", 0).unwrap_err();
    assert_eq!(e.message(), "Home team 'BARCA' does not exist.");
}

#[test]
fn missing_away_team_is_named() {
    match validate_match_input(&table(), "psg", 1, " real ", 0) {
        Err(ValidationError::AwayTeamMissing(n)) => assert_eq!(n, "REAL"),
        _ => panic!("expected a missing away team"),
    }
    let e = validate_match_input(&table(), "psg", 1, "real", 0).unwrap_err();
    assert_eq!(e.message(), "Away team 'REAL' does not exist.");
}

#[test]
fn valid_result_is_accepted() {
    assert!(validate_match_input(&table(), "chelsea", 0, "psg", 0).is_ok());
}

#[test]
fn empty_team_name_is_refused() {
    match validate_new_team_name(&table(), "   ") {
        Err(e) => {
            assert!(matches!(e, ValidationError::EmptyName));
            assert_eq!(e.message(), "Team name cannot be empty.");
        }
        Ok(()) => panic!("accepted an empty name"),
    }
}

#[test]
fn existing_team_name_is_refused() {
    match validate_new_team_name(&table(), " Chelsea") {
        Err(ValidationError::TeamExists(n)) => assert_eq!(n, "CHELSEA"),
        _ => panic!("accepted a taken name"),
    }
    let e = validate_new_team_name(&table(), "psg").unwrap_err();
    assert_eq!(e.message(), "Team 'PSG' already exists.");
}

#[test]
fn new_team_name_is_accepted() {
    assert!(validate_new_team_name(&table(), "Arsenal").is_ok());
}
