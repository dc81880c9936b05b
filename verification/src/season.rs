//! Managing named schedules (`/generateschedule`, `/schedule`, `/predict`):
//! choosing the competition type, the teams, advancing a knockout bracket,
//! replacing a schedule of the same name, and picking fixtures to show.
use vstd::prelude::*;

use crate::schedule::{generate_knockout_round, generate_schedule, generate_single_robin, matches_are, spec_rounds, with_gameweeks};
use crate::table_utils::{Fixture, NamedSchedule, ScheduleKind, ScheduledMatch, Team};
use crate::text::{
    normalize_team_name, owned, same_text, spec_normalize, spec_to_lowercase, split_chars, split_on,
    to_lower, views,
};

verus! {

// ---------------------------------------------------------------------------
// Competition type.
// ---------------------------------------------------------------------------

/// The competition type named by the user (case-insensitively);
/// round-robin when none or an unknown one is given.
pub open spec fn spec_schedule_kind(lowered: Seq<char>) -> ScheduleKind {
    if lowered == "single"@ || lowered == "singlerobin"@ || lowered == "single_robin"@ {
        ScheduleKind::SingleRoundRobin
    } else if lowered == "knockout"@ || lowered == "ko"@ {
        ScheduleKind::Knockout
    } else {
        ScheduleKind::RoundRobin
    }
}

/// The competition type for the optional `schedule_type` argument.
pub fn parse_schedule_kind(schedule_type: Option<&str>) -> (r: ScheduleKind)
    ensures
        r == spec_schedule_kind(
            spec_to_lowercase(
                match schedule_type {
                    Some(t) => t@,
                    None => "roundrobin"@,
                },
            ),
        ),
{
    let given: &str = match schedule_type {
        Some(t) => t,
        None => "roundrobin",
    };
    let lowered = to_lower(given);
    let l = lowered.as_str();
    if same_text(l, "single") || same_text(l, "singlerobin") || same_text(l, "single_robin") {
        ScheduleKind::SingleRoundRobin
    } else if same_text(l, "knockout") || same_text(l, "ko") {
        ScheduleKind::Knockout
    } else {
        ScheduleKind::RoundRobin
    }
}

/// The label of a competition type.
pub open spec fn spec_kind_label(kind: ScheduleKind) -> Seq<char> {
    match kind {
        ScheduleKind::RoundRobin => "round-robin"@,
        ScheduleKind::SingleRoundRobin => "single round-robin"@,
        ScheduleKind::Knockout => "knockout"@,
    }
}

/// `kind_label`: the label shown for a competition type.
pub fn kind_label(kind: &ScheduleKind) -> (r: &'static str)
    ensures
        r@ == spec_kind_label(*kind),
{
    match kind {
        ScheduleKind::RoundRobin => "round-robin",
        ScheduleKind::SingleRoundRobin => "single round-robin",
        ScheduleKind::Knockout => "knockout",
    }
}

// ---------------------------------------------------------------------------
// ASCII case-insensitive names.
// ---------------------------------------------------------------------------

/// The code of a character with 'A'..='Z' lowered.
pub open spec fn ascii_lower(c: char) -> int {
    if 65 <= (c as int) <= 90 {
        (c as int) + 32
    } else {
        c as int
    }
}

/// `str::eq_ignore_ascii_case`: equal once ASCII letters are lowered.
pub open spec fn spec_eq_ignore_ascii_case(a: Seq<char>, b: Seq<char>) -> bool {
    a.len() == b.len() && forall|i: int| 0 <= i < a.len() ==> ascii_lower(#[trigger] a[i]) == ascii_lower(b[i])
}

/// Compares two names ignoring the case of ASCII letters.
pub fn eq_ignore_ascii_case(a: &str, b: &str) -> (r: bool)
    ensures
        r == spec_eq_ignore_ascii_case(a@, b@),
{
    let n = a.unicode_len();
    if n != b.unicode_len() {
        return false;
    }
    let mut i: usize = 0;
    while i < n
        invariant
            n == a@.len(),
            n == b@.len(),
            i <= n,
            forall|k: int| 0 <= k < i ==> ascii_lower(#[trigger] a@[k]) == ascii_lower(b@[k]),
        decreases n - i,
    {
        let x = a.get_char(i) as u32;
        let y = b.get_char(i) as u32;
        let lx = if 65 <= x && x <= 90 {
            x + 32
        } else {
            x
        };
        let ly = if 65 <= y && y <= 90 {
            y + 32
        } else {
            y
        };
        if lx != ly {
            return false;
        }
        i = i + 1;
    }
    true
}

// ---------------------------------------------------------------------------
// Teams of a new schedule.
// ---------------------------------------------------------------------------

/// The normalised, non-empty names of a comma-separated list.
pub open spec fn listed_teams(pieces: Seq<Seq<char>>) -> Seq<Seq<char>>
    decreases pieces.len(),
{
    if pieces.len() == 0 {
        Seq::empty()
    } else {
        let prev = listed_teams(pieces.drop_last());
        let n = spec_normalize(pieces.last());
        if n.len() > 0 {
            prev.push(n)
        } else {
            prev
        }
    }
}

/// The teams of a new schedule: the comma-separated list when given,
/// otherwise every club of the table in table order.
pub fn resolve_team_list(table: &Vec<Team>, teams: Option<&str>) -> (r: Vec<String>)
    ensures
        views(r@) == match teams {
            Some(t) => listed_teams(split_chars(t@, ',')),
            None => crate::commands::club_names(table@),
        },
{
    match teams {
        Some(t) => {
            let pieces = split_on(t, ',');
            let ghost ps = views(pieces@);
            let mut out: Vec<String> = Vec::new();
            let mut i: usize = 0;
            while i < pieces.len()
                invariant
                    i <= pieces@.len(),
                    ps == views(pieces@),
                    views(out@) == listed_teams(ps.take(i as int)),
                decreases pieces@.len() - i,
            {
                let n = normalize_team_name(pieces[i].as_str());
                assert(ps.take(i + 1).drop_last() =~= ps.take(i as int));
                assert(ps.take(i + 1).last() == pieces@[i as int]@);
                if n.as_str().unicode_len() > 0 {
                    out.push(n);
                    assert(views(out@) =~= listed_teams(ps.take(i + 1)));
                }
                i = i + 1;
            }
            assert(ps.take(pieces@.len() as int) =~= ps);
            out
        },
        None => {
            let mut out: Vec<String> = Vec::new();
            let mut i: usize = 0;
            while i < table.len()
                invariant
                    i <= table@.len(),
                    out@.len() == i,
                    views(out@) == crate::commands::club_names(table@).take(i as int),
                decreases table@.len() - i,
            {
                let ghost before = out@;
                out.push(table[i].club.clone());
                assert forall|k: int| 0 <= k < i + 1 implies #[trigger] views(out@)[k]
                    == crate::commands::club_names(table@).take(i + 1)[k] by {
                    if k < i {
                        assert(out@[k] == before[k]);
                        assert(views(before)[k] == crate::commands::club_names(table@).take(i as int)[k]);
                    }
                }
                assert(views(out@) =~= crate::commands::club_names(table@).take(i + 1));
                i = i + 1;
            }
            assert(crate::commands::club_names(table@).take(table@.len() as int) =~= crate::commands::club_names(table@));
            out
        },
    }
}

// ---------------------------------------------------------------------------
// Knockout brackets.
// ---------------------------------------------------------------------------

/// The highest gameweek of the fixtures (0 when there are none).
pub open spec fn max_gameweek(ms: Seq<ScheduledMatch>) -> int
    decreases ms.len(),
{
    if ms.len() == 0 {
        0
    } else {
        let prev = max_gameweek(ms.drop_last());
        if ms.last().gameweek > prev {
            ms.last().gameweek as int
        } else {
            prev
        }
    }
}

/// The fixtures of one gameweek, in order.
pub open spec fn round_of_week(ms: Seq<ScheduledMatch>, gw: int) -> Seq<ScheduledMatch> {
    ms.filter(|m: ScheduledMatch| m.gameweek == gw)
}

/// How many of the fixtures have been played.
pub open spec fn played_count(ms: Seq<ScheduledMatch>) -> nat
    decreases ms.len(),
{
    if ms.len() == 0 {
        0
    } else {
        played_count(ms.drop_last()) + if ms.last().played {
            1nat
        } else {
            0nat
        }
    }
}

/// The index of the first logged result of the fixture (by normalised names),
/// at or after `i`.
pub open spec fn result_from(fs: Seq<Fixture>, hn: Seq<char>, an: Seq<char>, i: int) -> Option<int>
    decreases fs.len() - i,
{
    if i < 0 || i >= fs.len() {
        None
    } else if spec_normalize(fs[i].home_team@) == hn && spec_normalize(fs[i].away_team@) == an {
        Some(i)
    } else {
        result_from(fs, hn, an, i + 1)
    }
}

/// The winner of a played knockout fixture by its first logged result: the
/// home side unless the away side scored more.
pub open spec fn fixture_winner(fs: Seq<Fixture>, m: ScheduledMatch) -> Option<Seq<char>> {
    let hn = spec_normalize(m.home_team@);
    let an = spec_normalize(m.away_team@);
    match result_from(fs, hn, an, 0) {
        Some(k) => Some(if fs[k].home_score >= fs[k].away_score { hn } else { an }),
        None => None,
    }
}

/// The winners of a round, in fixture order (fixtures with no logged result
/// are passed over).
pub open spec fn round_winners(fs: Seq<Fixture>, round: Seq<ScheduledMatch>) -> Seq<Seq<char>>
    decreases round.len(),
{
    if round.len() == 0 {
        Seq::empty()
    } else {
        let prev = round_winners(fs, round.drop_last());
        match fixture_winner(fs, round.last()) {
            Some(w) => prev.push(w),
            None => prev,
        }
    }
}

/// How many fixtures of gameweek `gw` have a logged result, by which a winner
/// is known.
pub open spec fn winners_in_week(ms: Seq<ScheduledMatch>, fs: Seq<Fixture>, gw: int) -> nat
    decreases ms.len(),
{
    if ms.len() == 0 {
        0
    } else {
        winners_in_week(ms.drop_last(), fs, gw) + if ms.last().gameweek == gw && fixture_winner(
            fs,
            ms.last(),
        ) is Some {
            1nat
        } else {
            0nat
        }
    }
}

/// The winners advanced from a gameweek are winners of that gameweek's own
/// fixtures, one for each of its fixtures with a logged result.
pub proof fn law_week_winners(ms: Seq<ScheduledMatch>, fs: Seq<Fixture>, gw: int)
    ensures
        round_winners(fs, round_of_week(ms, gw)).len() == winners_in_week(ms, fs, gw),
        forall|j: int|
            #![trigger round_winners(fs, round_of_week(ms, gw))[j]]
            0 <= j < round_winners(fs, round_of_week(ms, gw)).len() ==> exists|k: int|
                0 <= k < ms.len() && ms[k].gameweek == gw && fixture_winner(fs, #[trigger] ms[k]) == Some(
                    round_winners(fs, round_of_week(ms, gw))[j],
                ),
    decreases ms.len(),
{
    if ms.len() > 0 {
        let d = ms.drop_last();
        let x = ms.last();
        law_week_winners(d, fs, gw);
        reveal_with_fuel(Seq::filter, 1);
        let rd = round_of_week(d, gw);
        let rm = round_of_week(ms, gw);
        let wd = round_winners(fs, rd);
        let wm = round_winners(fs, rm);
        if x.gameweek == gw {
            assert(rm == rd.push(x));
            assert(rm.drop_last() =~= rd);
        } else {
            assert(rm == rd);
        }
        assert forall|j: int|
            #![trigger wm[j]]
            0 <= j < wm.len() implies exists|k: int|
            0 <= k < ms.len() && ms[k].gameweek == gw && fixture_winner(fs, #[trigger] ms[k]) == Some(wm[j]) by {
            if j < wd.len() {
                assert(wm[j] == wd[j]);
                let k = choose|k: int|
                    0 <= k < d.len() && d[k].gameweek == gw && fixture_winner(fs, #[trigger] d[k]) == Some(wd[j]);
                assert(ms[k] == d[k]);
            } else {
                assert(ms[ms.len() - 1] == x);
            }
        }
    }
}

/// The first knockout schedule whose name matches `name` ignoring ASCII case.
pub open spec fn knockout_from(scheds: Seq<NamedSchedule>, name: Seq<char>, i: int) -> Option<int>
    decreases scheds.len() - i,
{
    if i < 0 || i >= scheds.len() {
        None
    } else if spec_eq_ignore_ascii_case(scheds[i].name@, name) && scheds[i].kind == ScheduleKind::Knockout {
        Some(i)
    } else {
        knockout_from(scheds, name, i + 1)
    }
}

fn max_gameweek_of(ms: &Vec<ScheduledMatch>) -> (r: u32)
    ensures
        r == max_gameweek(ms@),
{
    let mut best: u32 = 0;
    let mut i: usize = 0;
    while i < ms.len()
        invariant
            i <= ms@.len(),
            best == max_gameweek(ms@.take(i as int)),
        decreases ms@.len() - i,
    {
        assert(ms@.take(i + 1).drop_last() =~= ms@.take(i as int));
        if ms[i].gameweek > best {
            best = ms[i].gameweek;
        }
        i = i + 1;
    }
    assert(ms@.take(ms@.len() as int) =~= ms@);
    best
}

fn find_result(fs: &Vec<Fixture>, hn: &String, an: &String) -> (r: Option<usize>)
    ensures
        r matches Some(k) ==> result_from(fs@, hn@, an@, 0) == Some(k as int) && k < fs@.len(),
        r is None ==> result_from(fs@, hn@, an@, 0) is None,
{
    let mut i: usize = 0;
    while i < fs.len()
        invariant
            i <= fs@.len(),
            result_from(fs@, hn@, an@, 0) == result_from(fs@, hn@, an@, i as int),
        decreases fs@.len() - i,
    {
        let h = normalize_team_name(fs[i].home_team.as_str());
        let a = normalize_team_name(fs[i].away_team.as_str());
        if h == *hn && a == *an {
            return Some(i);
        }
        i = i + 1;
    }
    None
}

/// Why a schedule could not be built.
pub enum ScheduleError {
    /// The bracket's latest round is empty or not all played.
    RoundNotFinished { round: u32, done: usize, total: usize },
    /// Fewer than two winners could be found to advance.
    NotEnoughWinners,
}

/// The next round of an existing knockout bracket: the latest round must be
/// complete; its winners, by logged results, are paired by seed as a new
/// gameweek appended to the bracket.
pub fn advance_knockout(existing: &Vec<ScheduledMatch>, fixtures: &Vec<Fixture>) -> (r: Result<Vec<ScheduledMatch>, ScheduleError>)
    requires
        max_gameweek(existing@) < u32::MAX,
    ensures
        ({
            let gw = max_gameweek(existing@);
            let round = round_of_week(existing@, gw);
            let winners = round_winners(fixtures@, round);
            &&& r matches Err(ScheduleError::RoundNotFinished { round: g, done, total }) ==> (round.len()
                == 0 || played_count(round) < round.len()) && g == gw && done == played_count(round)
                && total == round.len()
            &&& (r matches Err(ScheduleError::NotEnoughWinners)) ==> round.len() > 0 && played_count(round)
                == round.len() && winners.len() < 2
            &&& r is Ok <==> (round.len() > 0 && played_count(round) == round.len() && winners.len() >= 2)
            &&& r matches Ok(ms) ==> ms@.take(existing@.len() as int) == existing@ && ms@.len()
                == existing@.len() + winners.len() / 2 && forall|i: int|
                0 <= i < winners.len() / 2 ==> {
                    &&& (#[trigger] ms@[existing@.len() + i]).gameweek == gw + 1
                    &&& ms@[existing@.len() + i].home_team@ == winners[winners.len() % 2 + i]
                    &&& ms@[existing@.len() + i].away_team@ == winners[winners.len() - 1 - i]
                    &&& !ms@[existing@.len() + i].played
                }
            &&& r matches Ok(ms) ==> ms@.len() == existing@.len() + winners_in_week(existing@, fixtures@, gw) / 2
                && forall|i: int|
                0 <= i < winners_in_week(existing@, fixtures@, gw) / 2 ==> {
                    &&& exists|k: int|
                        0 <= k < existing@.len() && existing@[k].gameweek == gw && fixture_winner(
                            fixtures@,
                            #[trigger] existing@[k],
                        ) == Some((#[trigger] ms@[existing@.len() + i]).home_team@)
                    &&& exists|k: int|
                        0 <= k < existing@.len() && existing@[k].gameweek == gw && fixture_winner(
                            fixtures@,
                            #[trigger] existing@[k],
                        ) == Some(ms@[existing@.len() + i].away_team@)
                }
        }),
{
    let gw = max_gameweek_of(existing);
    let ghost round = round_of_week(existing@, gw as int);
    let mut current: Vec<ScheduledMatch> = Vec::new();
    let mut done: usize = 0;
    let mut i: usize = 0;
    while i < existing.len()
        invariant
            i <= existing@.len(),
            gw == max_gameweek(existing@),
            current@ == round_of_week(existing@.take(i as int), gw as int),
            done == played_count(current@),
            done <= current@.len(),
            current@.len() <= i,
        decreases existing@.len() - i,
    {
        let m = &existing[i];
        proof {
            reveal_with_fuel(Seq::filter, 1);
            assert(existing@.take(i + 1).drop_last() =~= existing@.take(i as int));
        }
        if m.gameweek == gw {
            let ghost before = current@;
            current.push(m.clone());
            assert(current@.drop_last() =~= before);
            if m.played {
                done = done + 1;
            }
        }
        i = i + 1;
    }
    assert(existing@.take(existing@.len() as int) =~= existing@);
    if current.len() == 0 || done < current.len() {
        return Err(ScheduleError::RoundNotFinished { round: gw, done, total: current.len() });
    }
    let mut winners: Vec<String> = Vec::new();
    let mut k: usize = 0;
    while k < current.len()
        invariant
            k <= current@.len(),
            views(winners@) == round_winners(fixtures@, current@.take(k as int)),
        decreases current@.len() - k,
    {
        let m = &current[k];
        assert(current@.take(k + 1).drop_last() =~= current@.take(k as int));
        let hn = normalize_team_name(m.home_team.as_str());
        let an = normalize_team_name(m.away_team.as_str());
        match find_result(fixtures, &hn, &an) {
            Some(j) => {
                let f = &fixtures[j];
                let w = if f.home_score >= f.away_score {
                    hn
                } else {
                    an
                };
                winners.push(w);
                assert(views(winners@) =~= round_winners(fixtures@, current@.take(k + 1)));
            },
            None => {},
        }
        k = k + 1;
    }
    assert(current@.take(current@.len() as int) =~= current@);
    if winners.len() < 2 {
        return Err(ScheduleError::NotEnoughWinners);
    }
    let next_gw = gw + 1;
    let extra = generate_knockout_round(winners.as_slice(), next_gw);
    let mut updated: Vec<ScheduledMatch> = Vec::new();
    let mut q: usize = 0;
    while q < existing.len()
        invariant
            q <= existing@.len(),
            updated@ == existing@.take(q as int),
        decreases existing@.len() - q,
    {
        updated.push(existing[q].clone());
        assert(updated@ =~= existing@.take(q + 1));
        q = q + 1;
    }
    assert(existing@.take(existing@.len() as int) =~= existing@);
    let mut e: usize = 0;
    while e < extra.len()
        invariant
            e <= extra@.len(),
            updated@ == existing@ + extra@.take(e as int),
        decreases extra@.len() - e,
    {
        updated.push(extra[e].clone());
        assert(updated@ =~= existing@ + extra@.take(e + 1));
        e = e + 1;
    }
    assert(extra@.take(extra@.len() as int) =~= extra@);
    assert(updated@.take(existing@.len() as int) =~= existing@);
    assert forall|i: int| 0 <= i < winners@.len() / 2 implies {
        &&& (#[trigger] updated@[existing@.len() + i]).gameweek == gw + 1
        &&& updated@[existing@.len() + i].home_team@ == views(winners@)[views(winners@).len() % 2 + i]
        &&& updated@[existing@.len() + i].away_team@ == views(winners@)[views(winners@).len() - 1 - i]
        &&& !updated@[existing@.len() + i].played
    } by {
        assert(updated@[existing@.len() + i] == extra@[i]);
    }
    proof {
        law_week_winners(existing@, fixtures@, gw as int);
        let ws = views(winners@);
        assert(ws == round_winners(fixtures@, round_of_week(existing@, gw as int)));
        assert forall|i: int| 0 <= i < winners_in_week(existing@, fixtures@, gw as int) / 2 implies {
            &&& exists|k: int|
                0 <= k < existing@.len() && existing@[k].gameweek == gw && fixture_winner(
                    fixtures@,
                    #[trigger] existing@[k],
                ) == Some((#[trigger] updated@[existing@.len() + i]).home_team@)
            &&& exists|k: int|
                0 <= k < existing@.len() && existing@[k].gameweek == gw && fixture_winner(
                    fixtures@,
                    #[trigger] existing@[k],
                ) == Some(updated@[existing@.len() + i].away_team@)
        } by {
            let h = ws.len() % 2 + i;
            let a = ws.len() - 1 - i;
            assert(0 <= h < ws.len());
            assert(0 <= a < ws.len());
            assert(updated@[existing@.len() + i].home_team@ == ws[h]);
            assert(updated@[existing@.len() + i].away_team@ == ws[a]);
        }
    }
    Ok(updated)
}

proof fn lemma_knockout_from(scheds: Seq<NamedSchedule>, name: Seq<char>, i: int)
    requires
        0 <= i,
    ensures
        knockout_from(scheds, name, i) matches Some(k) ==> i <= k < scheds.len(),
    decreases scheds.len() - i,
{
    if i < scheds.len() && !(spec_eq_ignore_ascii_case(scheds[i].name@, name) && scheds[i].kind
        == ScheduleKind::Knockout) {
        lemma_knockout_from(scheds, name, i + 1);
    }
}

fn find_knockout(schedules: &Vec<NamedSchedule>, name: &String) -> (r: Option<usize>)
    ensures
        r matches Some(k) ==> knockout_from(schedules@, name@, 0) == Some(k as int) && k < schedules@.len(),
        r is None ==> knockout_from(schedules@, name@, 0) is None,
{
    proof {
        lemma_knockout_from(schedules@, name@, 0);
    }
    let mut i: usize = 0;
    while i < schedules.len()
        invariant
            i <= schedules@.len(),
            knockout_from(schedules@, name@, 0) == knockout_from(schedules@, name@, i as int),
        decreases schedules@.len() - i,
    {
        if eq_ignore_ascii_case(schedules[i].name.as_str(), name.as_str()) && schedules[i].kind
            == ScheduleKind::Knockout {
            return Some(i);
        }
        i = i + 1;
    }
    None
}

/// The schedule `/generateschedule` builds under the name `name` (already
/// trimmed): a double or single round-robin of `team_list`, or for a
/// knockout either the next round of the existing bracket of that name or
/// a first round seeded from `team_list`.
pub fn build_schedule(
    schedules: &Vec<NamedSchedule>,
    fixtures: &Vec<Fixture>,
    name: &String,
    kind: ScheduleKind,
    team_list: &Vec<String>,
    games_per_week: u32,
) -> (r: Result<NamedSchedule, ScheduleError>)
    requires
        team_list@.len() >= 1,
        team_list@.len() < 0x4000_0000,
        kind == ScheduleKind::RoundRobin ==> (games_per_week > 0 || spec_rounds(views(team_list@), 2).len() == 0),
        kind == ScheduleKind::SingleRoundRobin ==> (games_per_week > 0 || spec_rounds(views(team_list@), 1).len() == 0),
        kind == ScheduleKind::Knockout ==> (knockout_from(schedules@, name@, 0) matches Some(i)
            ==> max_gameweek(schedules@[i].matches@) < u32::MAX),
    ensures
        r matches Ok(s) ==> s.name@ == name@ && s.kind == kind,
        kind == ScheduleKind::RoundRobin ==> (r matches Ok(s) && matches_are(s.matches@, with_gameweeks(spec_rounds(views(team_list@), 2), games_per_week as int))),
        kind == ScheduleKind::SingleRoundRobin ==> (r matches Ok(s) && matches_are(s.matches@, with_gameweeks(spec_rounds(views(team_list@), 1), games_per_week as int))),
        kind == ScheduleKind::Knockout && knockout_from(schedules@, name@, 0) is None ==> (r matches Ok(s)
            && s.matches@.len() == team_list@.len() / 2 && forall|i: int| 0 <= i < s.matches@.len() ==> {
                &&& (#[trigger] s.matches@[i]).gameweek == 1
                &&& s.matches@[i].home_team@ == team_list@[team_list@.len() % 2 + i]@
                &&& s.matches@[i].away_team@ == team_list@[team_list@.len() - 1 - i]@
                &&& !s.matches@[i].played
            }),
        kind == ScheduleKind::Knockout && knockout_from(schedules@, name@, 0) is Some ==> ({
            let ex = schedules@[knockout_from(schedules@, name@, 0)->0].matches@;
            let gw = max_gameweek(ex);
            let round = round_of_week(ex, gw);
            let winners = round_winners(fixtures@, round);
            &&& r matches Err(ScheduleError::RoundNotFinished { round: g, done, total }) ==> (round.len()
                == 0 || played_count(round) < round.len()) && g == gw && done == played_count(round)
                && total == round.len()
            &&& (r matches Err(ScheduleError::NotEnoughWinners)) ==> round.len() > 0 && played_count(round)
                == round.len() && winners.len() < 2
            &&& r is Ok <==> (round.len() > 0 && played_count(round) == round.len() && winners.len() >= 2)
            &&& r matches Ok(s) ==> s.matches@.take(ex.len() as int) == ex && s.matches@.len() == ex.len()
                + winners.len() / 2 && forall|i: int|
                0 <= i < winners.len() / 2 ==> {
                    &&& (#[trigger] s.matches@[ex.len() + i]).gameweek == gw + 1
                    &&& s.matches@[ex.len() + i].home_team@ == winners[winners.len() % 2 + i]
                    &&& s.matches@[ex.len() + i].away_team@ == winners[winners.len() - 1 - i]
                    &&& !s.matches@[ex.len() + i].played
                }
            &&& r matches Ok(s) ==> s.matches@.len() == ex.len() + winners_in_week(ex, fixtures@, gw) / 2
                && forall|i: int|
                0 <= i < winners_in_week(ex, fixtures@, gw) / 2 ==> {
                    &&& exists|k: int|
                        0 <= k < ex.len() && ex[k].gameweek == gw && fixture_winner(fixtures@, #[trigger] ex[k])
                            == Some((#[trigger] s.matches@[ex.len() + i]).home_team@)
                    &&& exists|k: int|
                        0 <= k < ex.len() && ex[k].gameweek == gw && fixture_winner(fixtures@, #[trigger] ex[k])
                            == Some(s.matches@[ex.len() + i].away_team@)
                }
        }),
{
    match kind {
        ScheduleKind::RoundRobin => Ok(
            NamedSchedule {
                name: name.clone(),
                kind: ScheduleKind::RoundRobin,
                matches: generate_schedule(team_list.as_slice(), games_per_week),
            },
        ),
        ScheduleKind::SingleRoundRobin => Ok(
            NamedSchedule {
                name: name.clone(),
                kind: ScheduleKind::SingleRoundRobin,
                matches: generate_single_robin(team_list.as_slice(), games_per_week),
            },
        ),
        ScheduleKind::Knockout => {
            match find_knockout(schedules, name) {
                Some(idx) => {
                    match advance_knockout(&schedules[idx].matches, fixtures) {
                        Ok(ms) => Ok(NamedSchedule { name: name.clone(), kind: ScheduleKind::Knockout, matches: ms }),
                        Err(e) => Err(e),
                    }
                },
                None => Ok(
                    NamedSchedule {
                        name: name.clone(),
                        kind: ScheduleKind::Knockout,
                        matches: generate_knockout_round(team_list.as_slice(), 1),
                    },
                ),
            }
        },
    }
}

/// The first schedule whose name matches `name` ignoring ASCII case.
pub open spec fn named_from(scheds: Seq<NamedSchedule>, name: Seq<char>, i: int) -> Option<int>
    decreases scheds.len() - i,
{
    if i < 0 || i >= scheds.len() {
        None
    } else if spec_eq_ignore_ascii_case(scheds[i].name@, name) {
        Some(i)
    } else {
        named_from(scheds, name, i + 1)
    }
}

/// Stores a schedule: it replaces the first one whose name matches ignoring
/// ASCII case, or is added at the end.
pub fn upsert_schedule(schedules: &mut Vec<NamedSchedule>, schedule: NamedSchedule)
    ensures
        match named_from(old(schedules)@, schedule.name@, 0) {
            Some(i) => final(schedules)@ == old(schedules)@.update(i, schedule),
            None => final(schedules)@ == old(schedules)@.push(schedule),
        },
{
    let mut i: usize = 0;
    while i < schedules.len()
        invariant
            i <= schedules@.len(),
            schedules@ == old(schedules)@,
            named_from(old(schedules)@, schedule.name@, 0) == named_from(old(schedules)@, schedule.name@, i as int),
        decreases schedules@.len() - i,
    {
        if eq_ignore_ascii_case(schedules[i].name.as_str(), schedule.name.as_str()) {
            schedules.set(i, schedule);
            return;
        }
        i = i + 1;
    }
    schedules.push(schedule);
}

/// No two schedules have names equal ignoring ASCII case.
pub open spec fn distinct_names(scheds: Seq<NamedSchedule>) -> bool {
    forall|i: int, j: int|
        0 <= i < j < scheds.len() ==> !spec_eq_ignore_ascii_case(
            (#[trigger] scheds[i]).name@,
            (#[trigger] scheds[j]).name@,
        )
}

/// `named_from` finds the first matching name at or after `i`.
proof fn lemma_named_from(scheds: Seq<NamedSchedule>, name: Seq<char>, i: int)
    requires
        0 <= i,
    ensures
        match named_from(scheds, name, i) {
            Some(k) => i <= k < scheds.len() && spec_eq_ignore_ascii_case(scheds[k].name@, name),
            None => forall|k: int| i <= k < scheds.len() ==> !spec_eq_ignore_ascii_case(#[trigger] scheds[k].name@, name),
        },
    decreases scheds.len() - i,
{
    if i < scheds.len() && !spec_eq_ignore_ascii_case(scheds[i].name@, name) {
        lemma_named_from(scheds, name, i + 1);
    }
}

/// Names equal ignoring ASCII case form an equivalence.
proof fn lemma_eq_ignore_case_equiv(a: Seq<char>, b: Seq<char>, c: Seq<char>)
    ensures
        spec_eq_ignore_ascii_case(a, b) ==> spec_eq_ignore_ascii_case(b, a),
        spec_eq_ignore_ascii_case(a, b) && spec_eq_ignore_ascii_case(b, c) ==> spec_eq_ignore_ascii_case(a, c),
{
    if spec_eq_ignore_ascii_case(a, b) {
        assert forall|i: int| 0 <= i < b.len() implies ascii_lower(#[trigger] b[i]) == ascii_lower(a[i]) by {
            assert(ascii_lower(a[i]) == ascii_lower(b[i]));
        }
    }
    if spec_eq_ignore_ascii_case(a, b) && spec_eq_ignore_ascii_case(b, c) {
        assert forall|i: int| 0 <= i < a.len() implies ascii_lower(#[trigger] a[i]) == ascii_lower(c[i]) by {
            assert(ascii_lower(a[i]) == ascii_lower(b[i]));
            assert(ascii_lower(b[i]) == ascii_lower(c[i]));
        }
    }
}

/// Storing a schedule keeps the names distinct: a schedule whose name
/// matches an existing one (ignoring ASCII case) replaces it rather than
/// being added beside it.
pub proof fn law_upsert_keeps_names_distinct(scheds: Seq<NamedSchedule>, s: NamedSchedule)
    requires
        distinct_names(scheds),
    ensures
        distinct_names(match named_from(scheds, s.name@, 0) {
            Some(i) => scheds.update(i, s),
            None => scheds.push(s),
        }),
{
    lemma_named_from(scheds, s.name@, 0);
    match named_from(scheds, s.name@, 0) {
        Some(k) => {
            let r = scheds.update(k, s);
            assert forall|i: int, j: int| 0 <= i < j < r.len() implies !spec_eq_ignore_ascii_case(
                (#[trigger] r[i]).name@,
                (#[trigger] r[j]).name@,
            ) by {
                if i == k {
                    lemma_eq_ignore_case_equiv(scheds[j].name@, s.name@, scheds[k].name@);
                    lemma_eq_ignore_case_equiv(s.name@, scheds[j].name@, scheds[k].name@);
                    lemma_eq_ignore_case_equiv(scheds[k].name@, s.name@, scheds[j].name@);
                } else if j == k {
                    lemma_eq_ignore_case_equiv(scheds[i].name@, s.name@, scheds[k].name@);
                } else {
                    assert(r[i] == scheds[i] && r[j] == scheds[j]);
                }
            }
        },
        None => {
            let r = scheds.push(s);
            assert forall|i: int, j: int| 0 <= i < j < r.len() implies !spec_eq_ignore_ascii_case(
                (#[trigger] r[i]).name@,
                (#[trigger] r[j]).name@,
            ) by {
                assert(r[i] == scheds[i]);
                if j < scheds.len() {
                    assert(r[j] == scheds[j]);
                }
            }
        },
    }
}

// ---------------------------------------------------------------------------
// Looking a schedule up by name.
// ---------------------------------------------------------------------------

/// The first schedule whose lower-cased name equals `key`.
pub open spec fn lowered_from(scheds: Seq<NamedSchedule>, key: Seq<char>, i: int) -> Option<int>
    decreases scheds.len() - i,
{
    if i < 0 || i >= scheds.len() {
        None
    } else if spec_to_lowercase(scheds[i].name@) == key {
        Some(i)
    } else {
        lowered_from(scheds, key, i + 1)
    }
}

/// Why no schedule was chosen.
pub enum ResolveError {
    /// No schedule has the given name.
    NotFound,
    /// No name was given and there is not exactly one schedule.
    Ambiguous,
}

/// The schedule `/predict` works on: the one named (case-insensitively) when
/// a name is given, else the only one.
pub fn resolve_schedule(schedules: &Vec<NamedSchedule>, schedule_name: Option<&str>) -> (r: Result<usize, ResolveError>)
    ensures
        match schedule_name {
            Some(n) => match lowered_from(schedules@, spec_to_lowercase(n@), 0) {
                Some(i) => r == Ok::<usize, ResolveError>(i as usize),
                None => r matches Err(ResolveError::NotFound),
            },
            None => if schedules@.len() == 1 {
                r == Ok::<usize, ResolveError>(0)
            } else {
                r matches Err(ResolveError::Ambiguous)
            },
        },
        r matches Ok(i) ==> i < schedules@.len(),
{
    match schedule_name {
        Some(n) => {
            let key = to_lower(n);
            match find_lowered(schedules, &key) {
                Some(i) => Ok(i),
                None => Err(ResolveError::NotFound),
            }
        },
        None => {
            if schedules.len() == 1 {
                Ok(0)
            } else {
                Err(ResolveError::Ambiguous)
            }
        },
    }
}

proof fn lemma_lowered_from(scheds: Seq<NamedSchedule>, key: Seq<char>, i: int)
    requires
        0 <= i,
    ensures
        lowered_from(scheds, key, i) matches Some(k) ==> i <= k < scheds.len(),
    decreases scheds.len() - i,
{
    if i < scheds.len() && spec_to_lowercase(scheds[i].name@) != key {
        lemma_lowered_from(scheds, key, i + 1);
    }
}

/// The index of the first schedule whose lower-cased name is `key`
/// (as the `/schedule` command looks one up).
pub fn find_lowered(schedules: &Vec<NamedSchedule>, key: &String) -> (r: Option<usize>)
    ensures
        r matches Some(k) ==> lowered_from(schedules@, key@, 0) == Some(k as int) && k < schedules@.len(),
        r is None ==> lowered_from(schedules@, key@, 0) is None,
{
    proof {
        lemma_lowered_from(schedules@, key@, 0);
    }
    let mut i: usize = 0;
    while i < schedules.len()
        invariant
            i <= schedules@.len(),
            lowered_from(schedules@, key@, 0) == lowered_from(schedules@, key@, i as int),
        decreases schedules@.len() - i,
    {
        let l = to_lower(schedules[i].name.as_str());
        if l == *key {
            return Some(i);
        }
        i = i + 1;
    }
    None
}

// ---------------------------------------------------------------------------
// /schedule
// ---------------------------------------------------------------------------

/// Fixture count, played count and number of gameweeks of a schedule.
pub fn schedule_summary(s: &NamedSchedule) -> (r: (usize, usize, u32))
    ensures
        r.0 == s.matches@.len(),
        r.1 == played_count(s.matches@),
        r.2 == max_gameweek(s.matches@),
{
    let mut played: usize = 0;
    let mut i: usize = 0;
    while i < s.matches.len()
        invariant
            i <= s.matches@.len(),
            played == played_count(s.matches@.take(i as int)),
            played <= i,
        decreases s.matches@.len() - i,
    {
        assert(s.matches@.take(i + 1).drop_last() =~= s.matches@.take(i as int));
        if s.matches[i].played {
            played = played + 1;
        }
        i = i + 1;
    }
    assert(s.matches@.take(s.matches@.len() as int) =~= s.matches@);
    (s.matches.len(), played, max_gameweek_of(&s.matches))
}

/// The lowest gameweek with an unplayed fixture, if any.
pub open spec fn next_gameweek(ms: Seq<ScheduledMatch>) -> Option<int>
    decreases ms.len(),
{
    if ms.len() == 0 {
        None
    } else {
        let prev = next_gameweek(ms.drop_last());
        let m = ms.last();
        if m.played {
            prev
        } else {
            match prev {
                Some(g) => Some(if (m.gameweek as int) < g { m.gameweek as int } else { g }),
                None => Some(m.gameweek as int),
            }
        }
    }
}

/// The gameweek `/schedule` shows: the one asked for; every week (0) when
/// filtering by team; otherwise the next with an unplayed fixture, or 1.
pub open spec fn spec_target_gameweek(ms: Seq<ScheduledMatch>, gameweek: Option<u32>, by_team: bool) -> int {
    match gameweek {
        Some(g) => g as int,
        None => if by_team {
            0
        } else {
            match next_gameweek(ms) {
                Some(g) => g,
                None => 1,
            }
        },
    }
}

/// The fixture is shown for the gameweek and team filter.
pub open spec fn shown(m: ScheduledMatch, gw: int, team: Option<Seq<char>>) -> bool {
    (gw == 0 || m.gameweek == gw) && match team {
        Some(t) => spec_normalize(m.home_team@) == t || spec_normalize(m.away_team@) == t,
        None => true,
    }
}

/// The indices of the fixtures shown, in order.
pub open spec fn shown_indices(ms: Seq<ScheduledMatch>, gw: int, team: Option<Seq<char>>, k: int) -> Seq<int>
    decreases k,
{
    if k <= 0 {
        Seq::empty()
    } else {
        let prev = shown_indices(ms, gw, team, k - 1);
        if shown(ms[k - 1], gw, team) {
            prev.push(k - 1)
        } else {
            prev
        }
    }
}

/// The gameweek shown and the indices of the fixtures shown by `/schedule`.
pub fn select_fixtures(s: &NamedSchedule, gameweek: Option<u32>, team_filter: Option<&String>) -> (r: (u32, Vec<usize>))
    ensures
        r.0 == spec_target_gameweek(s.matches@, gameweek, team_filter is Some),
        r.1@.map_values(|i: usize| i as int) == shown_indices(
            s.matches@,
            r.0 as int,
            match team_filter {
                Some(t) => Some(t@),
                None => None,
            },
            s.matches@.len() as int,
        ),
{
    let ms = &s.matches;
    let target: u32 = match gameweek {
        Some(g) => g,
        None => {
            if team_filter.is_some() {
                0
            } else {
                let mut best: Option<u32> = None;
                let mut i: usize = 0;
                while i < ms.len()
                    invariant
                        i <= ms@.len(),
                        match best {
                            Some(b) => next_gameweek(ms@.take(i as int)) == Some(b as int),
                            None => next_gameweek(ms@.take(i as int)) is None,
                        },
                    decreases ms@.len() - i,
                {
                    assert(ms@.take(i + 1).drop_last() =~= ms@.take(i as int));
                    let m = &ms[i];
                    if !m.played {
                        best = match best {
                            Some(b) => Some(if m.gameweek < b { m.gameweek } else { b }),
                            None => Some(m.gameweek),
                        };
                    }
                    i = i + 1;
                }
                assert(ms@.take(ms@.len() as int) =~= ms@);
                match best {
                    Some(b) => b,
                    None => 1,
                }
            }
        },
    };
    let ghost team = match team_filter {
        Some(t) => Some(t@),
        None => None::<Seq<char>>,
    };
    let mut out: Vec<usize> = Vec::new();
    let mut k: usize = 0;
    while k < ms.len()
        invariant
            k <= ms@.len(),
            team == match team_filter {
                Some(t) => Some(t@),
                None => None::<Seq<char>>,
            },
            out@.map_values(|i: usize| i as int) == shown_indices(ms@, target as int, team, k as int),
        decreases ms@.len() - k,
    {
        let m = &ms[k];
        let gw_ok = target == 0 || m.gameweek == target;
        let team_ok = match team_filter {
            Some(t) => {
                let h = normalize_team_name(m.home_team.as_str());
                let a = normalize_team_name(m.away_team.as_str());
                h == *t || a == *t
            },
            None => true,
        };
        if gw_ok && team_ok {
            out.push(k);
            assert(out@.map_values(|i: usize| i as int) =~= shown_indices(ms@, target as int, team, k as int).push(k as int));
        }
        k = k + 1;
    }
    (target, out)
}

/// The first logged result of a fixture, as `/schedule` shows it.
pub fn fixture_result(fixtures: &Vec<Fixture>, m: &ScheduledMatch) -> (r: Option<usize>)
    ensures
        r matches Some(k) ==> result_from(fixtures@, spec_normalize(m.home_team@), spec_normalize(m.away_team@), 0)
            == Some(k as int) && k < fixtures@.len(),
        r is None ==> result_from(fixtures@, spec_normalize(m.home_team@), spec_normalize(m.away_team@), 0) is None,
{
    let hn = normalize_team_name(m.home_team.as_str());
    let an = normalize_team_name(m.away_team.as_str());
    find_result(fixtures, &hn, &an)
}

/// The badge `/schedule` shows for a result from the filtered team's side.
pub open spec fn spec_outcome_badge(f: Fixture, team: Seq<char>) -> Seq<char> {
    let (mine, theirs) = if spec_normalize(f.home_team@) == team {
        (f.home_score, f.away_score)
    } else {
        (f.away_score, f.home_score)
    };
    if mine > theirs {
        "✅ W"@
    } else if f.home_score == f.away_score {
        "🟡 D"@
    } else {
        "❌ L"@
    }
}

/// The outcome of a result for the filtered team.
pub fn outcome_badge(f: &Fixture, team: &String) -> (r: &'static str)
    ensures
        r@ == spec_outcome_badge(*f, team@),
{
    let h = normalize_team_name(f.home_team.as_str());
    let (mine, theirs) = if h == *team {
        (f.home_score, f.away_score)
    } else {
        (f.away_score, f.home_score)
    };
    if mine > theirs {
        "✅ W"
    } else if f.home_score == f.away_score {
        "🟡 D"
    } else {
        "❌ L"
    }
}

} // verus!
