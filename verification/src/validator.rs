//! Checks on user input before the table is changed.
use vstd::prelude::*;

use crate::table_utils::{find_team_index, spec_find_team, Team};
use crate::text::{normalize_team_name, owned, push_str, spec_normalize};

verus! {

/// Why an input was refused.
pub enum ValidationError {
    /// A score below zero.
    NegativeScore,
    /// The same team on both sides.
    SameTeams,
    /// The (normalised) home team is not in the table.
    HomeTeamMissing(String),
    /// The (normalised) away team is not in the table.
    AwayTeamMissing(String),
    /// A team name that is empty once trimmed.
    EmptyName,
    /// A team with that (normalised) name is already in the table.
    TeamExists(String),
}

/// The message shown to the user for each refusal.
pub open spec fn spec_error_message(e: ValidationError) -> Seq<char> {
    match e {
        ValidationError::NegativeScore => "Scores must be zero or greater."@,
        ValidationError::SameTeams => "Home and away teams must be different."@,
        ValidationError::HomeTeamMissing(n) => "Home team '"@ + n@ + "' does not exist."@,
        ValidationError::AwayTeamMissing(n) => "Away team '"@ + n@ + "' does not exist."@,
        ValidationError::EmptyName => "Team name cannot be empty."@,
        ValidationError::TeamExists(n) => "Team '"@ + n@ + "' already exists."@,
    }
}

impl ValidationError {
    /// The message shown to the user.
    pub fn message(&self) -> (r: String)
        ensures
            r@ == spec_error_message(*self),
    {
        match self {
            ValidationError::NegativeScore => owned("Scores must be zero or greater."),
            ValidationError::SameTeams => owned("Home and away teams must be different."),
            ValidationError::HomeTeamMissing(n) => {
                let mut s = owned("Home team '");
                push_str(&mut s, n.as_str());
                push_str(&mut s, "' does not exist.");
                s
            },
            ValidationError::AwayTeamMissing(n) => {
                let mut s = owned("Away team '");
                push_str(&mut s, n.as_str());
                push_str(&mut s, "' does not exist.");
                s
            },
            ValidationError::EmptyName => owned("Team name cannot be empty."),
            ValidationError::TeamExists(n) => {
                let mut s = owned("Team '");
                push_str(&mut s, n.as_str());
                push_str(&mut s, "' already exists.");
                s
            },
        }
    }
}

/// A match result may be entered: scores not negative, two different teams,
/// both in the table.
pub open spec fn match_input_ok(
    table: Seq<Team>,
    home: Seq<char>,
    home_score: int,
    away: Seq<char>,
    away_score: int,
) -> bool {
    let h = spec_normalize(home);
    let a = spec_normalize(away);
    &&& home_score >= 0 && away_score >= 0
    &&& h != a
    &&& spec_find_team(table, h) is Some
    &&& spec_find_team(table, a) is Some
}

/// `e` is the refusal for a match result, the first check failing in the
/// order scores, distinct teams, home team known, away team known.
pub open spec fn match_error_is(
    table: Seq<Team>,
    home: Seq<char>,
    home_score: int,
    away: Seq<char>,
    away_score: int,
    e: ValidationError,
) -> bool {
    let h = spec_normalize(home);
    let a = spec_normalize(away);
    match e {
        ValidationError::NegativeScore => home_score < 0 || away_score < 0,
        ValidationError::SameTeams => home_score >= 0 && away_score >= 0 && h == a,
        ValidationError::HomeTeamMissing(n) => home_score >= 0 && away_score >= 0 && h != a && n@
            == h && spec_find_team(table, h) is None,
        ValidationError::AwayTeamMissing(n) => home_score >= 0 && away_score >= 0 && h != a
            && spec_find_team(table, h) is Some && n@ == a && spec_find_team(table, a) is None,
        _ => false,
    }
}

/// `validate_match_input`: accepts a result exactly when `match_input_ok`
/// holds, and otherwise names the first check that fails.
pub fn validate_match_input(
    table: &Vec<Team>,
    home_team: &str,
    home_score: i64,
    away_team: &str,
    away_score: i64,
) -> (r: Result<(), ValidationError>)
    ensures
        r is Ok <==> match_input_ok(table@, home_team@, home_score as int, away_team@, away_score as int),
        r matches Err(e) ==> match_error_is(
            table@,
            home_team@,
            home_score as int,
            away_team@,
            away_score as int,
            e,
        ),
{
    if home_score < 0 || away_score < 0 {
        return Err(ValidationError::NegativeScore);
    }
    let home = normalize_team_name(home_team);
    let away = normalize_team_name(away_team);
    if home == away {
        return Err(ValidationError::SameTeams);
    }
    if find_team_index(table, home.as_str()).is_none() {
        return Err(ValidationError::HomeTeamMissing(home));
    }
    if find_team_index(table, away.as_str()).is_none() {
        return Err(ValidationError::AwayTeamMissing(away));
    }
    Ok(())
}

/// `e` is the refusal for a new team name: empty once trimmed, or already taken.
pub open spec fn new_team_error_is(table: Seq<Team>, name: Seq<char>, e: ValidationError) -> bool {
    let n = spec_normalize(name);
    match e {
        ValidationError::EmptyName => n.len() == 0,
        ValidationError::TeamExists(x) => n.len() > 0 && x@ == n && spec_find_team(table, n) is Some,
        _ => false,
    }
}

/// `validate_new_team_name`: a new team's name is accepted when it is not
/// empty once normalised and no team has that name yet.
pub fn validate_new_team_name(table: &Vec<Team>, team_name: &str) -> (r: Result<(), ValidationError>)
    ensures
        r is Ok <==> (spec_normalize(team_name@).len() > 0 && spec_find_team(
            table@,
            spec_normalize(team_name@),
        ) is None),
        r matches Err(e) ==> new_team_error_is(table@, team_name@, e),
{
    let normalized = normalize_team_name(team_name);
    if normalized.as_str().unicode_len() == 0 {
        return Err(ValidationError::EmptyName);
    }
    if find_team_index(table, normalized.as_str()).is_some() {
        return Err(ValidationError::TeamExists(normalized));
    }
    Ok(())
}

} // verus!
