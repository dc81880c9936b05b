//! What the table-editing commands do to a server's data: entering a result,
//! adding and deleting teams, clearing the table and reverting a change.
use vstd::prelude::*;

use crate::history::{
    guild_wf, positions_recalculated, push_fixture, push_snapshot, rank_table, ranked_from,
    snapshot_views, lemma_push_snapshot_views, spec_pop_snapshot, spec_push_fixture, spec_push_snapshot, GuildData, FIXTURES_LIMIT, HISTORY_LIMIT,
};
use crate::standings::{
    apply_steps, law_result_totals, lemma_result_team_deltas, lemma_steps_keep_clubs, lemma_team_steps,
    record_consistent, records_consistent, lemma_total_renumber, lemma_total_sort,
    result_step_list, result_steps, run_steps, steps_fit, total, Stat,
};
use crate::table_utils::{
    clone_table, club_matches, distinct_clubs, find_from, find_team_index, lemma_find_from, lemma_sort_contains,
    spec_find_team, spec_sort, Fixture, NamedSchedule, ScheduledMatch, Team,
};
use crate::text::{normalize_team_name, owned, spec_normalize, split_chars, split_on, views};
use crate::validator::{match_error_is, match_input_ok, validate_match_input, ValidationError};

verus! {

/// A ranked table still holds a team matching `key` if the table it was
/// ranked from did.
pub proof fn lemma_ranked_keeps_team(new: Seq<Team>, old: Seq<Team>, key: Seq<char>, idx: int)
    requires
        ranked_from(new, old),
        0 <= idx < old.len(),
        club_matches(old[idx], key),
    ensures
        find_from(new, key, 0) is Some,
{
    lemma_sort_contains(old);
    assert(old.contains(old[idx]));
    assert(spec_sort(old).contains(old[idx]));
    let k = choose|k: int| 0 <= k < spec_sort(old).len() && spec_sort(old)[k] == old[idx];
    assert(new[k] == (Team { pos: (k + 1) as usize, ..spec_sort(old)[k] }));
    assert(club_matches(new[k], key));
    lemma_find_from(new, key, 0);
}

// ---------------------------------------------------------------------------
// Entering a result.
// ---------------------------------------------------------------------------

/// Why a result was not recorded.
pub enum UpdateError {
    /// The input was refused.
    Invalid(ValidationError),
    /// The home team could not be found by its normalised name.
    HomeNotFound,
    /// The away team could not be found by its normalised name.
    AwayNotFound,
    /// A team's new position could not be determined.
    PositionUnknown,
}

impl UpdateError {
    /// The message shown to the user.
    pub fn message(&self) -> (r: String)
        ensures
            *self matches UpdateError::Invalid(e) ==> r@ == crate::validator::spec_error_message(e),
            *self is HomeNotFound ==> r@ == "Home team was not found during update"@,
            *self is AwayNotFound ==> r@ == "Away team was not found during update"@,
            *self is PositionUnknown ==> r@ == "Updated team position could not be determined"@,
    {
        match self {
            UpdateError::Invalid(e) => e.message(),
            UpdateError::HomeNotFound => owned("Home team was not found during update"),
            UpdateError::AwayNotFound => owned("Away team was not found during update"),
            UpdateError::PositionUnknown => owned("Updated team position could not be determined"),
        }
    }
}

/// The result is accepted and both teams are found by their normalised names.
pub open spec fn result_applies(table: Seq<Team>, home: Seq<char>, hs: int, away: Seq<char>, as_: int) -> bool {
    let hk = spec_normalize(home);
    let ak = spec_normalize(away);
    &&& match_input_ok(table, hk, hs, ak, as_)
    &&& spec_find_team(table, hk) is Some
    &&& spec_find_team(table, ak) is Some
}

/// The table with the result's changes made, before ranking.
pub open spec fn recorded_table(table: Seq<Team>, home: Seq<char>, hs: int, away: Seq<char>, as_: int) -> Seq<Team> {
    let hi = spec_find_team(table, spec_normalize(home))->0;
    let ai = spec_find_team(table, spec_normalize(away))->0;
    apply_steps(table, result_steps(hi, ai, hs, as_))
}

/// The counters of the two teams stay within `i32` while the result is applied.
pub open spec fn result_fits(table: Seq<Team>, home: Seq<char>, hs: int, away: Seq<char>, as_: int) -> bool {
    let hi = spec_find_team(table, spec_normalize(home))->0;
    let ai = spec_find_team(table, spec_normalize(away))->0;
    steps_fit(table, result_steps(hi, ai, hs, as_))
}

/// What entering a result did: `g0` and `g1` are the server's data before
/// and after, `r` the reply.
pub open spec fn update_outcome(
    g0: GuildData,
    g1: GuildData,
    home: Seq<char>,
    hs: i64,
    away: Seq<char>,
    as_: i64,
    r: Result<(usize, usize), UpdateError>,
) -> bool {
    let hk = spec_normalize(home);
    let ak = spec_normalize(away);
    let t0 = g0.table@;
    &&& r matches Err(UpdateError::Invalid(e)) ==> match_error_is(t0, hk, hs as int, ak, as_ as int, e)
        && g1 == g0
    &&& (r matches Err(UpdateError::HomeNotFound)) <==> (match_input_ok(t0, hk, hs as int, ak, as_ as int)
        && spec_find_team(t0, hk) is None)
    &&& (r matches Err(UpdateError::AwayNotFound)) <==> (match_input_ok(t0, hk, hs as int, ak, as_ as int)
        && spec_find_team(t0, hk) is Some && spec_find_team(t0, ak) is None)
    &&& !((r matches Err(UpdateError::PositionUnknown)))
    &&& ((r matches Err(UpdateError::HomeNotFound)) || (r matches Err(UpdateError::AwayNotFound))) ==> g1 == g0
    &&& r is Ok <==> result_applies(t0, home, hs as int, away, as_ as int)
    &&& r matches Ok((hp, ap)) ==> {
        &&& ranked_from(g1.table@, recorded_table(t0, home, hs as int, away, as_ as int))
        &&& snapshot_views(g1.history@) == spec_push_snapshot(
            snapshot_views(g0.history@),
            g0.table@,
            HISTORY_LIMIT as nat,
        )
        &&& exists|f: Fixture| #![trigger spec_push_fixture(g0.fixtures@, f)]
            f.home_team@ == hk && f.away_team@ == ak && f.home_score == hs as i32
            && f.away_score == as_ as i32
            && g1.fixtures@ == spec_push_fixture(g0.fixtures@, f)
        &&& hp == spec_find_team(g1.table@, hk)->0 + 1
        &&& ap == spec_find_team(g1.table@, ak)->0 + 1
        &&& g1.settings == g0.settings
        &&& g1.schedules == g0.schedules
    }
}

/// Enters a match result (the `/update` command): validates it, saves the
/// current table to the history, updates both teams' records, ranks the
/// table, logs the result and returns the two teams' new positions.
pub fn record_match(
    guild: &mut GuildData,
    home_team: &str,
    home_score: i64,
    away_team: &str,
    away_score: i64,
) -> (r: Result<(usize, usize), UpdateError>)
    requires
        old(guild).table@.len() < usize::MAX,
        result_applies(old(guild).table@, home_team@, home_score as int, away_team@, away_score as int)
            ==> result_fits(old(guild).table@, home_team@, home_score as int, away_team@, away_score as int),
    ensures
        update_outcome(*old(guild), *final(guild), home_team@, home_score, away_team@, away_score, r),
{
    let hk = normalize_team_name(home_team);
    let ak = normalize_team_name(away_team);
    match validate_match_input(&guild.table, hk.as_str(), home_score, ak.as_str(), away_score) {
        Err(e) => {
            return Err(UpdateError::Invalid(e));
        },
        Ok(()) => {},
    }
    let hi = match find_team_index(&guild.table, hk.as_str()) {
        Some(i) => i,
        None => {
            return Err(UpdateError::HomeNotFound);
        },
    };
    let ai = match find_team_index(&guild.table, ak.as_str()) {
        Some(i) => i,
        None => {
            return Err(UpdateError::AwayNotFound);
        },
    };
    let ghost t0 = guild.table@;
    let snapshot = clone_table(&guild.table);
    let ghost snap = snapshot;
    push_snapshot(&mut guild.history, snapshot, HISTORY_LIMIT);
    proof {
        lemma_push_snapshot_views(old(guild).history@, snap, HISTORY_LIMIT as nat);
    }
    let steps = result_step_list(hi, ai, home_score, away_score);
    run_steps(&mut guild.table, &steps);
    let ghost recorded = guild.table@;
    proof {
        lemma_steps_keep_clubs(t0, result_steps(hi as int, ai as int, home_score as int, away_score as int));
        lemma_find_from(t0, spec_normalize(hk@), 0);
        lemma_find_from(t0, spec_normalize(ak@), 0);
        assert(club_matches(recorded[hi as int], spec_normalize(hk@)));
        assert(club_matches(recorded[ai as int], spec_normalize(ak@)));
    }
    rank_table(&mut guild.table);
    proof {
        lemma_ranked_keeps_team(guild.table@, recorded, spec_normalize(hk@), hi as int);
        lemma_ranked_keeps_team(guild.table@, recorded, spec_normalize(ak@), ai as int);
    }
    let hp = match find_team_index(&guild.table, hk.as_str()) {
        Some(i) => i + 1,
        None => {
            return Err(UpdateError::PositionUnknown);
        },
    };
    let ap = match find_team_index(&guild.table, ak.as_str()) {
        Some(i) => i + 1,
        None => {
            return Err(UpdateError::PositionUnknown);
        },
    };
    let fixture = Fixture {
        home_team: hk.clone(),
        away_team: ak.clone(),
        home_score: home_score as i32,
        away_score: away_score as i32,
    };
    let ghost f = fixture;
    push_fixture(&mut guild.fixtures, fixture);
    assert(guild.fixtures@ == spec_push_fixture(old(guild).fixtures@, f));
    Ok((hp, ap))
}

/// Enters a match result when every counter it moves stays within `i32`;
/// otherwise (the result would be accepted but a counter would overflow)
/// returns `None` and changes nothing.
pub fn try_record_match(
    guild: &mut GuildData,
    home_team: &str,
    home_score: i64,
    away_team: &str,
    away_score: i64,
) -> (r: Option<Result<(usize, usize), UpdateError>>)
    requires
        old(guild).table@.len() < usize::MAX,
    ensures
        r is None <==> (result_applies(old(guild).table@, home_team@, home_score as int, away_team@, away_score as int)
            && !result_fits(old(guild).table@, home_team@, home_score as int, away_team@, away_score as int)),
        r is None ==> *final(guild) == *old(guild),
        r matches Some(x) ==> update_outcome(*old(guild), *final(guild), home_team@, home_score, away_team@, away_score, x),
{
    let hk = normalize_team_name(home_team);
    let ak = normalize_team_name(away_team);
    if validate_match_input(&guild.table, hk.as_str(), home_score, ak.as_str(), away_score).is_ok() {
        match (find_team_index(&guild.table, hk.as_str()), find_team_index(&guild.table, ak.as_str())) {
            (Some(hi), Some(ai)) => {
                let steps = result_step_list(hi, ai, home_score, away_score);
                if !crate::standings::steps_fit_exec(&guild.table, &steps) {
                    return None;
                }
            },
            _ => {},
        }
    }
    Some(record_match(guild, home_team, home_score, away_team, away_score))
}

/// Entering a result changes the totals of the ranked table by exactly one
/// match: two more games played, 3 more points for a decisive result and 2
/// for a draw, and the same total goal difference.
pub proof fn law_update_totals(t0: Seq<Team>, home: Seq<char>, hs: int, away: Seq<char>, as_: int, new: Seq<Team>)
    requires
        result_applies(t0, home, hs, away, as_),
        result_fits(t0, home, hs, away, as_),
        ranked_from(new, recorded_table(t0, home, hs, away, as_)),
    ensures
        total(new, Stat::Played) == total(t0, Stat::Played) + 2,
        total(new, Stat::GoalDiff) == total(t0, Stat::GoalDiff),
        total(new, Stat::Points) == total(t0, Stat::Points) + if hs == as_ {
            2int
        } else {
            3int
        },
{
    let hi = spec_find_team(t0, spec_normalize(home))->0;
    let ai = spec_find_team(t0, spec_normalize(away))->0;
    let rec = recorded_table(t0, home, hs, away, as_);
    law_result_totals(t0, hi, ai, hs, as_);
    let sorted = spec_sort(rec);
    lemma_total_sort(rec, Stat::Played);
    lemma_total_sort(rec, Stat::GoalDiff);
    lemma_total_sort(rec, Stat::Points);
    assert forall|i: int| 0 <= i < new.len() implies #[trigger] new[i] == (Team { pos: (i + 1) as usize, ..sorted[i] }) by {
    }
    lemma_total_renumber(new, sorted, Stat::Played);
    lemma_total_renumber(new, sorted, Stat::GoalDiff);
    lemma_total_renumber(new, sorted, Stat::Points);
}

// ---------------------------------------------------------------------------
// Clearing and reverting.
// ---------------------------------------------------------------------------

/// Wipes the table (the `/cleartable` command, once confirmed), saving it to
/// the history first.
pub fn clear_table(guild: &mut GuildData)
    ensures
        final(guild).table@.len() == 0,
        snapshot_views(final(guild).history@) == spec_push_snapshot(
            snapshot_views(old(guild).history@),
            old(guild).table@,
            HISTORY_LIMIT as nat,
        ),
        final(guild).fixtures == old(guild).fixtures,
        final(guild).settings == old(guild).settings,
        final(guild).schedules == old(guild).schedules,
{
    let snapshot = clone_table(&guild.table);
    let ghost snap = snapshot;
    push_snapshot(&mut guild.history, snapshot, HISTORY_LIMIT);
    proof {
        lemma_push_snapshot_views(old(guild).history@, snap, HISTORY_LIMIT as nat);
    }
    guild.table.clear();
}

/// Restores the most recently saved table (the `/revert` command). Returns
/// whether there was a saved state to restore.
pub fn revert_table(guild: &mut GuildData) -> (r: bool)
    ensures
        r == (old(guild).history@.len() > 0),
        r ==> final(guild).table == old(guild).history@.last() && final(guild).history@
            == old(guild).history@.drop_last(),
        !r ==> final(guild).table == old(guild).table && final(guild).history@ == old(guild).history@,
        final(guild).fixtures == old(guild).fixtures,
        final(guild).settings == old(guild).settings,
        final(guild).schedules == old(guild).schedules,
{
    match crate::history::pop_snapshot(&mut guild.history) {
        Some(previous) => {
            guild.table = previous;
            true
        },
        None => false,
    }
}

/// `/revert` undoes the last change: after a change that saved the table `t0`
/// into the history (entering a result, adding, deleting teams, clearing),
/// reverting restores exactly `t0`, and leaves the history as it was before
/// the change (less its oldest state when the history was full).
pub proof fn law_revert_undoes_a_change(h0: Seq<Vec<Team>>, t0: Seq<Team>, h1: Seq<Vec<Team>>)
    requires
        snapshot_views(h1) == spec_push_snapshot(snapshot_views(h0), t0, HISTORY_LIMIT as nat),
    ensures
        h1.len() > 0,
        h1.last()@ == t0,
        snapshot_views(h1.drop_last()) == (if h0.len() >= HISTORY_LIMIT {
            snapshot_views(h0).drop_first()
        } else {
            snapshot_views(h0)
        }),
{
    crate::history::law_revert_restores_saved_state(snapshot_views(h0), t0, HISTORY_LIMIT as nat);
    assert(snapshot_views(h1).len() == h1.len());
    assert(snapshot_views(h1)[h1.len() - 1] == h1.last()@);
    assert(snapshot_views(h1.drop_last()) =~= snapshot_views(h1).drop_last());
}

// ---------------------------------------------------------------------------
// Adding teams.
// ---------------------------------------------------------------------------

/// The club names of a table.
pub open spec fn club_names(t: Seq<Team>) -> Seq<Seq<char>> {
    t.map_values(|x: Team| x.club@)
}

/// Which of the comma-separated names are added and which are skipped: each
/// piece is normalised; empty ones are ignored; a name already held by a
/// team (including one added earlier in the list) is skipped.
pub open spec fn add_plan(clubs: Seq<Seq<char>>, pieces: Seq<Seq<char>>) -> (Seq<Seq<char>>, Seq<Seq<char>>)
    decreases pieces.len(),
{
    if pieces.len() == 0 {
        (Seq::empty(), Seq::empty())
    } else {
        let (added, skipped) = add_plan(clubs, pieces.drop_last());
        let name = spec_normalize(pieces.last());
        if name.len() == 0 {
            (added, skipped)
        } else if (clubs + added).contains(name) {
            (added, skipped.push(name))
        } else {
            (added.push(name), skipped)
        }
    }
}

/// A new team with an empty record.
pub open spec fn is_new_team(t: Team, name: Seq<char>, pos: int) -> bool {
    &&& t.club@ == name
    &&& t.pos == pos
    &&& t.pl == 0 && t.w == 0 && t.d == 0 && t.l == 0 && t.gd == 0 && t.pts == 0
}

/// `mid` is `old` followed by one new team per added name, each numbered
/// after the teams before it.
pub open spec fn appended_new_teams(mid: Seq<Team>, old: Seq<Team>, added: Seq<Seq<char>>) -> bool {
    &&& mid.len() == old.len() + added.len()
    &&& mid.take(old.len() as int) == old
    &&& forall|k: int|
        0 <= k < added.len() ==> is_new_team(
            #[trigger] mid[old.len() + k],
            added[k],
            old.len() + k + 1,
        )
}

/// The names a plan adds are new to the table and to each other.
proof fn lemma_add_plan_fresh(clubs: Seq<Seq<char>>, pieces: Seq<Seq<char>>)
    ensures
        forall|k: int| 0 <= k < add_plan(clubs, pieces).0.len() ==> !clubs.contains(#[trigger] add_plan(clubs, pieces).0[k]),
        forall|a: int, b: int|
            0 <= a < b < add_plan(clubs, pieces).0.len() ==> #[trigger] add_plan(clubs, pieces).0[a]
                != #[trigger] add_plan(clubs, pieces).0[b],
    decreases pieces.len(),
{
    if pieces.len() > 0 {
        lemma_add_plan_fresh(clubs, pieces.drop_last());
        let added = add_plan(clubs, pieces.drop_last()).0;
        let name = spec_normalize(pieces.last());
        if name.len() > 0 && !(clubs + added).contains(name) {
            let now = added.push(name);
            assert(add_plan(clubs, pieces).0 == now);
            assert forall|k: int| 0 <= k < now.len() implies !clubs.contains(#[trigger] now[k]) by {
                if k == added.len() {
                    if clubs.contains(name) {
                        let q = choose|q: int| 0 <= q < clubs.len() && clubs[q] == name;
                        assert((clubs + added)[q] == name);
                    }
                } else {
                    assert(now[k] == added[k]);
                }
            }
            assert forall|a: int, b: int| 0 <= a < b < now.len() implies #[trigger] now[a] != #[trigger] now[b] by {
                if b == added.len() {
                    assert(now[a] == added[a]);
                    assert((clubs + added)[clubs.len() + a] == added[a]);
                } else {
                    assert(now[a] == added[a] && now[b] == added[b]);
                }
            }
        }
    }
}

/// Adding teams keeps club names distinct: `/addteam` skips every name the
/// table (or the same list, earlier) already has, so a table whose clubs are
/// distinct still has distinct clubs afterwards.
pub proof fn law_add_keeps_clubs_distinct(old: Seq<Team>, pieces: Seq<Seq<char>>, mid: Seq<Team>, new: Seq<Team>)
    requires
        distinct_clubs(old),
        appended_new_teams(mid, old, add_plan(club_names(old), pieces).0),
        ranked_from(new, mid) || new == mid,
    ensures
        distinct_clubs(new),
{
    let added = add_plan(club_names(old), pieces).0;
    lemma_add_plan_fresh(club_names(old), pieces);
    assert forall|i: int, j: int| 0 <= i < j < mid.len() implies (#[trigger] mid[i]).club@ != (#[trigger] mid[j]).club@ by {
        if j < old.len() {
            assert(mid[i] == mid.take(old.len() as int)[i]);
            assert(mid[j] == mid.take(old.len() as int)[j]);
        } else if i < old.len() {
            assert(mid[i] == mid.take(old.len() as int)[i]);
            let k = j - old.len();
            assert(mid[old.len() + k].club@ == added[k]);
            assert(club_names(old)[i] == old[i].club@);
            assert(!club_names(old).contains(added[k]));
        } else {
            let a = i - old.len();
            let b = j - old.len();
            assert(mid[old.len() + a].club@ == added[a]);
            assert(mid[old.len() + b].club@ == added[b]);
        }
    }
    if new != mid {
        crate::table_utils::lemma_sort_distinct(mid);
        let sorted = spec_sort(mid);
        assert forall|i: int, j: int| 0 <= i < j < new.len() implies (#[trigger] new[i]).club@ != (#[trigger] new[j]).club@ by {
            assert(new[i] == (Team { pos: (i + 1) as usize, ..sorted[i] }));
            assert(new[j] == (Team { pos: (j + 1) as usize, ..sorted[j] }));
        }
    }
}

/// A ranked table has distinct clubs when the table it was ranked from did.
proof fn lemma_ranked_distinct(new: Seq<Team>, old: Seq<Team>)
    requires
        distinct_clubs(old),
        ranked_from(new, old),
    ensures
        distinct_clubs(new),
{
    crate::table_utils::lemma_sort_distinct(old);
    let sorted = spec_sort(old);
    assert forall|i: int, j: int| 0 <= i < j < new.len() implies (#[trigger] new[i]).club@ != (#[trigger] new[j]).club@ by {
        assert(new[i] == (Team { pos: (i + 1) as usize, ..sorted[i] }));
        assert(new[j] == (Team { pos: (j + 1) as usize, ..sorted[j] }));
    }
}

/// Entering a result keeps club names distinct.
pub proof fn law_update_keeps_clubs_distinct(t0: Seq<Team>, home: Seq<char>, hs: int, away: Seq<char>, as_: int, new: Seq<Team>)
    requires
        distinct_clubs(t0),
        result_applies(t0, home, hs, away, as_),
        result_fits(t0, home, hs, away, as_),
        ranked_from(new, recorded_table(t0, home, hs, away, as_)),
    ensures
        distinct_clubs(new),
{
    let hi = spec_find_team(t0, spec_normalize(home))->0;
    let ai = spec_find_team(t0, spec_normalize(away))->0;
    let rec = recorded_table(t0, home, hs, away, as_);
    lemma_steps_keep_clubs(t0, result_steps(hi, ai, hs, as_));
    assert forall|i: int, j: int| 0 <= i < j < rec.len() implies (#[trigger] rec[i]).club@ != (#[trigger] rec[j]).club@ by {
        assert(rec[i].club == t0[i].club && rec[j].club == t0[j].club);
    }
    lemma_ranked_distinct(new, rec);
}

/// The names added to and skipped by `/addteam`.
pub struct AddOutcome {
    pub added: Vec<String>,
    pub skipped: Vec<String>,
}

/// Whether some team's club name is exactly `name`.
pub fn has_club(table: &Vec<Team>, name: &String) -> (r: bool)
    ensures
        r == club_names(table@).contains(name@),
{
    let mut i: usize = 0;
    while i < table.len()
        invariant
            i <= table.len(),
            forall|k: int| 0 <= k < i ==> club_names(table@)[k] != name@,
        decreases table.len() - i,
    {
        if table[i].club == *name {
            assert(club_names(table@)[i as int] == name@);
            return true;
        }
        i = i + 1;
    }
    false
}

/// Adds the comma-separated teams (the `/addteam` command): new names join
/// the table with an empty record, names already present are skipped. When
/// any name was given the table is then ranked.
pub fn add_teams(table: &mut Vec<Team>, teams: &str) -> (r: AddOutcome)
    requires
        old(table)@.len() + teams@.len() + 2 < usize::MAX,
    ensures
        ({
            let plan = add_plan(club_names(old(table)@), split_chars(teams@, ','));
            &&& views(r.added@) == plan.0
            &&& views(r.skipped@) == plan.1
            &&& exists|mid: Seq<Team>|
                appended_new_teams(mid, old(table)@, plan.0) && (if plan.0.len() + plan.1.len() > 0 {
                    ranked_from(final(table)@, mid)
                } else {
                    final(table)@ == mid
                })
        }),
{
    let pieces = split_on(teams, ',');
    let ghost ps = views(pieces@);
    let ghost clubs = club_names(table@);
    let ghost orig = table@;
    proof {
        crate::text::lemma_split_len(teams@, ',');
    }
    let mut added: Vec<String> = Vec::new();
    let mut skipped: Vec<String> = Vec::new();
    assert(table@.take(orig.len() as int) =~= orig);
    assert(views(added@) =~= Seq::<Seq<char>>::empty());
    let mut i: usize = 0;
    while i < pieces.len()
        invariant
            i <= pieces@.len(),
            ps == views(pieces@),
            pieces@.len() <= teams@.len() + 1,
            orig.len() + teams@.len() + 2 < usize::MAX,
            clubs == club_names(orig),
            views(added@) == add_plan(clubs, ps.take(i as int)).0,
            views(skipped@) == add_plan(clubs, ps.take(i as int)).1,
            added@.len() <= i,
            appended_new_teams(table@, orig, views(added@)),
        decreases pieces@.len() - i,
    {
        let name = normalize_team_name(pieces[i].as_str());
        assert(ps.take(i + 1).drop_last() =~= ps.take(i as int));
        assert(ps.take(i + 1).last() == pieces@[i as int]@);
        proof {
            assert(club_names(table@) =~= clubs + views(added@)) by {
                assert forall|k: int| 0 <= k < table@.len() implies #[trigger] club_names(table@)[k]
                    == (clubs + views(added@))[k] by {
                    if k < orig.len() {
                        assert(table@[k] == table@.take(orig.len() as int)[k]);
                    } else {
                        assert(is_new_team(table@[orig.len() + (k - orig.len())], views(added@)[k - orig.len()], k + 1));
                    }
                }
            }
        }
        if name.as_str().unicode_len() == 0 {
        } else if has_club(table, &name) {
            skipped.push(name);
            assert(views(skipped@) =~= add_plan(clubs, ps.take(i + 1)).1);
        } else {
            let next_pos = table.len() + 1;
            let ghost before = table@;
            let ghost added_before = views(added@);
            table.push(
                Team { pos: next_pos, club: name.clone(), pl: 0, w: 0, d: 0, l: 0, gd: 0, pts: 0 },
            );
            added.push(name);
            assert(views(added@) =~= added_before.push(name@));
            assert(table@.take(orig.len() as int) =~= before.take(orig.len() as int));
            assert forall|k: int| 0 <= k < views(added@).len() implies is_new_team(
                #[trigger] table@[orig.len() + k],
                views(added@)[k],
                orig.len() + k + 1,
            ) by {
                if k < added_before.len() {
                    assert(table@[orig.len() + k] == before[orig.len() + k]);
                }
            }
        }
        i = i + 1;
    }
    assert(ps.take(pieces@.len() as int) =~= ps);
    let ghost mid = table@;
    if added.len() > 0 || skipped.len() > 0 {
        rank_table(table);
    }
    AddOutcome { added, skipped }
}

/// The `/addteam` command on a server's data: when any name was given, the
/// current table is saved to the history first (so `/revert` undoes the
/// addition), then the teams are added as `add_teams` does; when no name was
/// given nothing changes.
pub fn add_teams_to_guild(guild: &mut GuildData, teams: &str) -> (r: AddOutcome)
    requires
        old(guild).table@.len() + teams@.len() + 2 < usize::MAX,
    ensures
        ({
            let plan = add_plan(club_names(old(guild).table@), split_chars(teams@, ','));
            &&& views(r.added@) == plan.0
            &&& views(r.skipped@) == plan.1
            &&& exists|mid: Seq<Team>|
                appended_new_teams(mid, old(guild).table@, plan.0) && (if plan.0.len() + plan.1.len() > 0 {
                    ranked_from(final(guild).table@, mid)
                } else {
                    final(guild).table@ == mid
                })
            &&& if plan.0.len() + plan.1.len() > 0 {
                snapshot_views(final(guild).history@) == spec_push_snapshot(
                    snapshot_views(old(guild).history@),
                    old(guild).table@,
                    HISTORY_LIMIT as nat,
                )
            } else {
                final(guild).history == old(guild).history
            }
        }),
        final(guild).fixtures == old(guild).fixtures,
        final(guild).settings == old(guild).settings,
        final(guild).schedules == old(guild).schedules,
{
    let snapshot = clone_table(&guild.table);
    let ghost snap = snapshot;
    let outcome = add_teams(&mut guild.table, teams);
    if outcome.added.len() > 0 || outcome.skipped.len() > 0 {
        push_snapshot(&mut guild.history, snapshot, HISTORY_LIMIT);
        proof {
            lemma_push_snapshot_views(old(guild).history@, snap, HISTORY_LIMIT as nat);
        }
    }
    outcome
}

// ---------------------------------------------------------------------------
// Deleting teams.
// ---------------------------------------------------------------------------

/// Which of the comma-separated names name a team of the table and which do
/// not; empty names are ignored.
pub open spec fn delete_plan(table: Seq<Team>, pieces: Seq<Seq<char>>) -> (Seq<Seq<char>>, Seq<Seq<char>>)
    decreases pieces.len(),
{
    if pieces.len() == 0 {
        (Seq::empty(), Seq::empty())
    } else {
        let (found, missing) = delete_plan(table, pieces.drop_last());
        let name = spec_normalize(pieces.last());
        if name.len() == 0 {
            (found, missing)
        } else if spec_find_team(table, name) is Some {
            (found.push(name), missing)
        } else {
            (found, missing.push(name))
        }
    }
}

/// The names `/deleteteam` will delete and those it did not find.
pub struct DeletePlan {
    pub to_delete: Vec<String>,
    pub not_found: Vec<String>,
}

/// Sorts the comma-separated names of `/deleteteam` into those found in the
/// table and those not found.
pub fn plan_deletion(table: &Vec<Team>, teams: &str) -> (r: DeletePlan)
    ensures
        views(r.to_delete@) == delete_plan(table@, split_chars(teams@, ',')).0,
        views(r.not_found@) == delete_plan(table@, split_chars(teams@, ',')).1,
{
    let pieces = split_on(teams, ',');
    let ghost ps = views(pieces@);
    let mut to_delete: Vec<String> = Vec::new();
    let mut not_found: Vec<String> = Vec::new();
    let mut i: usize = 0;
    while i < pieces.len()
        invariant
            i <= pieces@.len(),
            ps == views(pieces@),
            views(to_delete@) == delete_plan(table@, ps.take(i as int)).0,
            views(not_found@) == delete_plan(table@, ps.take(i as int)).1,
        decreases pieces@.len() - i,
    {
        let name = normalize_team_name(pieces[i].as_str());
        assert(ps.take(i + 1).drop_last() =~= ps.take(i as int));
        assert(ps.take(i + 1).last() == pieces@[i as int]@);
        if name.as_str().unicode_len() == 0 {
        } else if find_team_index(table, name.as_str()).is_some() {
            to_delete.push(name);
            assert(views(to_delete@) =~= delete_plan(table@, ps.take(i + 1)).0);
        } else {
            not_found.push(name);
            assert(views(not_found@) =~= delete_plan(table@, ps.take(i + 1)).1);
        }
        i = i + 1;
    }
    assert(ps.take(pieces@.len() as int) =~= ps);
    DeletePlan { to_delete, not_found }
}

/// The table after deleting, in order, the first team found by each name,
/// and the names for which a team was deleted.
pub open spec fn after_deletes(t: Seq<Team>, names: Seq<Seq<char>>) -> (Seq<Team>, Seq<Seq<char>>)
    decreases names.len(),
{
    if names.len() == 0 {
        (t, Seq::empty())
    } else {
        let (t1, deleted) = after_deletes(t, names.drop_last());
        match spec_find_team(t1, names.last()) {
            Some(i) => (t1.remove(i), deleted.push(names.last())),
            None => (t1, deleted),
        }
    }
}

/// Deleting keeps club names distinct.
proof fn lemma_deletes_distinct(t: Seq<Team>, names: Seq<Seq<char>>)
    requires
        distinct_clubs(t),
    ensures
        distinct_clubs(after_deletes(t, names).0),
    decreases names.len(),
{
    if names.len() > 0 {
        lemma_deletes_distinct(t, names.drop_last());
        let t1 = after_deletes(t, names.drop_last()).0;
        lemma_find_from(t1, spec_normalize(names.last()), 0);
        match spec_find_team(t1, names.last()) {
            Some(i) => {
                let r = t1.remove(i);
                assert forall|a: int, b: int| 0 <= a < b < r.len() implies (#[trigger] r[a]).club@ != (#[trigger] r[b]).club@ by {
                    let a1 = if a < i { a } else { a + 1 };
                    let b1 = if b < i { b } else { b + 1 };
                    assert(r[a] == t1[a1] && r[b] == t1[b1]);
                }
            },
            None => {},
        }
    }
}

/// Deleting teams keeps club names distinct.
pub proof fn law_delete_keeps_clubs_distinct(t0: Seq<Team>, names: Seq<Seq<char>>, new: Seq<Team>)
    requires
        distinct_clubs(t0),
        ranked_from(new, after_deletes(t0, names).0),
    ensures
        distinct_clubs(new),
{
    lemma_deletes_distinct(t0, names);
    lemma_ranked_distinct(new, after_deletes(t0, names).0);
}

/// Deletes the named teams (the `/deleteteam` command, once confirmed):
/// saves the table to the history, removes the first team found by each
/// name, ranks what remains and returns the names actually deleted.
pub fn delete_teams(guild: &mut GuildData, names: &Vec<String>) -> (r: Vec<String>)
    requires
        old(guild).table@.len() < usize::MAX,
    ensures
        views(r@) == after_deletes(old(guild).table@, views(names@)).1,
        ranked_from(final(guild).table@, after_deletes(old(guild).table@, views(names@)).0),
        snapshot_views(final(guild).history@) == spec_push_snapshot(
            snapshot_views(old(guild).history@),
            old(guild).table@,
            HISTORY_LIMIT as nat,
        ),
        final(guild).fixtures == old(guild).fixtures,
        final(guild).settings == old(guild).settings,
        final(guild).schedules == old(guild).schedules,
{
    let snapshot = clone_table(&guild.table);
    let ghost snap = snapshot;
    push_snapshot(&mut guild.history, snapshot, HISTORY_LIMIT);
    proof {
        lemma_push_snapshot_views(old(guild).history@, snap, HISTORY_LIMIT as nat);
    }
    let ghost t0 = guild.table@;
    let ghost h1 = guild.history;
    let ghost ns = views(names@);
    let mut deleted: Vec<String> = Vec::new();
    let mut i: usize = 0;
    while i < names.len()
        invariant
            i <= names@.len(),
            ns == views(names@),
            t0.len() < usize::MAX,
            guild.table@ == after_deletes(t0, ns.take(i as int)).0,
            views(deleted@) == after_deletes(t0, ns.take(i as int)).1,
            guild.table@.len() <= t0.len(),
            guild.history == h1,
            guild.fixtures == old(guild).fixtures,
            guild.settings == old(guild).settings,
            guild.schedules == old(guild).schedules,
        decreases names@.len() - i,
    {
        assert(ns.take(i + 1).drop_last() =~= ns.take(i as int));
        assert(ns.take(i + 1).last() == names@[i as int]@);
        match find_team_index(&guild.table, names[i].as_str()) {
            Some(idx) => {
                guild.table.remove(idx);
                deleted.push(names[i].clone());
                assert(views(deleted@) =~= after_deletes(t0, ns.take(i + 1)).1);
            },
            None => {},
        }
        i = i + 1;
    }
    assert(ns.take(names@.len() as int) =~= ns);
    rank_table(&mut guild.table);
    deleted
}

// ---------------------------------------------------------------------------
// Ticking off a scheduled fixture.
// ---------------------------------------------------------------------------

/// An unplayed fixture between the two teams, by normalised names.
pub open spec fn is_pending(m: ScheduledMatch, home_key: Seq<char>, away_key: Seq<char>) -> bool {
    !m.played && spec_normalize(m.home_team@) == home_key && spec_normalize(m.away_team@) == away_key
}

/// The first pending fixture at or after index `i`.
pub open spec fn pending_from(ms: Seq<ScheduledMatch>, hk: Seq<char>, ak: Seq<char>, i: int) -> Option<int>
    decreases ms.len() - i,
{
    if i < 0 || i >= ms.len() {
        None
    } else if is_pending(ms[i], hk, ak) {
        Some(i)
    } else {
        pending_from(ms, hk, ak, i + 1)
    }
}

/// The first schedule at or after `s` holding a pending fixture, and that
/// fixture's index.
pub open spec fn pending_schedule_from(
    scheds: Seq<NamedSchedule>,
    hk: Seq<char>,
    ak: Seq<char>,
    s: int,
) -> Option<(int, int)>
    decreases scheds.len() - s,
{
    if s < 0 || s >= scheds.len() {
        None
    } else {
        match pending_from(scheds[s].matches@, hk, ak, 0) {
            Some(k) => Some((s, k)),
            None => pending_schedule_from(scheds, hk, ak, s + 1),
        }
    }
}

proof fn lemma_pending_from(ms: Seq<ScheduledMatch>, hk: Seq<char>, ak: Seq<char>, i: int)
    requires
        0 <= i,
    ensures
        pending_from(ms, hk, ak, i) matches Some(k) ==> i <= k < ms.len() && is_pending(ms[k], hk, ak),
    decreases ms.len() - i,
{
    if i < ms.len() && !is_pending(ms[i], hk, ak) {
        lemma_pending_from(ms, hk, ak, i + 1);
    }
}

fn find_pending(ms: &Vec<ScheduledMatch>, hk: &String, ak: &String) -> (r: Option<usize>)
    ensures
        r matches Some(k) ==> k < ms@.len(),
        pending_from(ms@, hk@, ak@, 0) matches Some(k) ==> 0 <= k < ms@.len(),
        r matches Some(k) ==> pending_from(ms@, hk@, ak@, 0) == Some(k as int),
        r is None ==> pending_from(ms@, hk@, ak@, 0) is None,
{
    proof {
        lemma_pending_from(ms@, hk@, ak@, 0);
    }
    let mut i: usize = 0;
    while i < ms.len()
        invariant
            i <= ms@.len(),
            pending_from(ms@, hk@, ak@, 0) == pending_from(ms@, hk@, ak@, i as int),
        decreases ms@.len() - i,
    {
        let m = &ms[i];
        if !m.played {
            let h = normalize_team_name(m.home_team.as_str());
            let a = normalize_team_name(m.away_team.as_str());
            if h == *hk && a == *ak {
                proof {
                    lemma_pending_from(ms@, hk@, ak@, 0);
                }
                return Some(i);
            }
        }
        i = i + 1;
    }
    None
}

/// Marks the first unplayed fixture between the two teams, in the first
/// schedule that has one, as played. Returns whether one was found.
pub fn mark_match_played(schedules: &mut Vec<NamedSchedule>, home_key: &String, away_key: &String) -> (r: bool)
    ensures
        match pending_schedule_from(old(schedules)@, home_key@, away_key@, 0) {
            None => !r && final(schedules)@ == old(schedules)@,
            Some((s, k)) => r && final(schedules)@.len() == old(schedules)@.len() && (forall|q: int|
                0 <= q < old(schedules)@.len() && q != s ==> #[trigger] final(schedules)@[q]
                    == old(schedules)@[q]) && final(schedules)@[s].name == old(schedules)@[s].name
                && final(schedules)@[s].kind == old(schedules)@[s].kind
                && final(schedules)@[s].matches@ == old(schedules)@[s].matches@.update(
                k,
                ScheduledMatch { played: true, ..old(schedules)@[s].matches@[k] },
            ),
        },
{
    let mut si: usize = 0;
    while si < schedules.len()
        invariant
            si <= schedules@.len(),
            schedules@ == old(schedules)@,
            pending_schedule_from(old(schedules)@, home_key@, away_key@, 0) == pending_schedule_from(
                old(schedules)@,
                home_key@,
                away_key@,
                si as int,
            ),
        decreases schedules@.len() - si,
    {
        let found = find_pending(&schedules[si].matches, home_key, away_key);
        match found {
            Some(k) => {
                let ghost before = schedules@;
                assert(pending_from(before[si as int].matches@, home_key@, away_key@, 0) == Some(k as int));
                assert(pending_schedule_from(old(schedules)@, home_key@, away_key@, si as int) == Some((si as int, k as int)));
                let mut sch = schedules[si].clone();
                let mut m = sch.matches[k].clone();
                m.played = true;
                sch.matches.set(k, m);
                schedules.set(si, sch);
                assert(schedules@[si as int].matches@ == old(schedules)@[si as int].matches@.update(
                    k as int,
                    ScheduledMatch { played: true, ..old(schedules)@[si as int].matches@[k as int] },
                ));
                return true;
            },
            None => {},
        }
        si = si + 1;
    }
    false
}


// ---------------------------------------------------------------------------
// What every command keeps.
// ---------------------------------------------------------------------------

/// Saving a table with distinct clubs into a well-kept history keeps it well kept.
proof fn lemma_saved_history_wf(h0: Seq<Vec<Team>>, t0: Seq<Team>, h1: Seq<Vec<Team>>)
    requires
        h0.len() <= HISTORY_LIMIT,
        forall|k: int| 0 <= k < h0.len() ==> distinct_clubs(#[trigger] h0[k]@),
        distinct_clubs(t0),
        snapshot_views(h1) == spec_push_snapshot(snapshot_views(h0), t0, HISTORY_LIMIT as nat),
    ensures
        h1.len() <= HISTORY_LIMIT,
        forall|k: int| 0 <= k < h1.len() ==> distinct_clubs(#[trigger] h1[k]@),
{
    let v0 = snapshot_views(h0);
    let v1 = snapshot_views(h1);
    crate::history::law_history_capped(v0, t0, HISTORY_LIMIT as nat);
    assert(v1.len() == h1.len());
    assert forall|k: int| 0 <= k < h1.len() implies distinct_clubs(#[trigger] h1[k]@) by {
        assert(v1[k] == h1[k]@);
        if h0.len() >= HISTORY_LIMIT {
            if k < h1.len() - 1 {
                assert(v1[k] == v0[k + 1]);
                assert(v0[k + 1] == h0[k + 1]@);
            }
        } else {
            if k < h1.len() - 1 {
                assert(v1[k] == v0[k]);
                assert(v0[k] == h0[k]@);
            }
        }
    }
}

/// Entering a result keeps a server's data well kept: the history and the
/// results log stay within their caps and club names stay distinct.
pub proof fn law_update_keeps_guild_wf(
    g0: GuildData,
    g1: GuildData,
    home: Seq<char>,
    hs: i64,
    away: Seq<char>,
    as_: i64,
    r: Result<(usize, usize), UpdateError>,
)
    requires
        guild_wf(g0),
        result_applies(g0.table@, home, hs as int, away, as_ as int) ==> result_fits(
            g0.table@,
            home,
            hs as int,
            away,
            as_ as int,
        ),
        update_outcome(g0, g1, home, hs, away, as_, r),
    ensures
        guild_wf(g1),
{
    if r is Ok {
        law_update_keeps_clubs_distinct(g0.table@, home, hs as int, away, as_ as int, g1.table@);
        lemma_saved_history_wf(g0.history@, g0.table@, g1.history@);
        let f = choose|f: Fixture| #![trigger spec_push_fixture(g0.fixtures@, f)]
            f.home_team@ == spec_normalize(home) && f.away_team@ == spec_normalize(away) && f.home_score
                == hs as i32 && f.away_score == as_ as i32 && g1.fixtures@ == spec_push_fixture(
                g0.fixtures@,
                f,
            );
        crate::history::law_fixtures_capped(g0.fixtures@, f);
    }
}

/// Clearing the table keeps a server's data well kept.
pub proof fn law_clear_keeps_guild_wf(g0: GuildData, g1: GuildData)
    requires
        guild_wf(g0),
        g1.table@.len() == 0,
        snapshot_views(g1.history@) == spec_push_snapshot(snapshot_views(g0.history@), g0.table@, HISTORY_LIMIT as nat),
        g1.fixtures == g0.fixtures,
    ensures
        guild_wf(g1),
{
    lemma_saved_history_wf(g0.history@, g0.table@, g1.history@);
}

/// Deleting teams keeps a server's data well kept.
pub proof fn law_delete_keeps_guild_wf(g0: GuildData, g1: GuildData, names: Seq<Seq<char>>)
    requires
        guild_wf(g0),
        ranked_from(g1.table@, after_deletes(g0.table@, names).0),
        snapshot_views(g1.history@) == spec_push_snapshot(snapshot_views(g0.history@), g0.table@, HISTORY_LIMIT as nat),
        g1.fixtures == g0.fixtures,
    ensures
        guild_wf(g1),
{
    law_delete_keeps_clubs_distinct(g0.table@, names, g1.table@);
    lemma_saved_history_wf(g0.history@, g0.table@, g1.history@);
}

/// Reverting keeps a server's data well kept.
pub proof fn law_revert_keeps_guild_wf(g0: GuildData, g1: GuildData, r: bool)
    requires
        guild_wf(g0),
        r == (g0.history@.len() > 0),
        r ==> g1.table == g0.history@.last() && g1.history@ == g0.history@.drop_last(),
        !r ==> g1.table == g0.table && g1.history@ == g0.history@,
        g1.fixtures == g0.fixtures,
    ensures
        guild_wf(g1),
{
    if r {
        assert(distinct_clubs(g0.history@[g0.history@.len() - 1]@));
        assert forall|k: int| 0 <= k < g1.history@.len() implies distinct_clubs(#[trigger] g1.history@[k]@) by {
            assert(g1.history@[k] == g0.history@[k]);
        }
    }
}

/// Adding teams keeps a server's data well kept.
pub proof fn law_add_keeps_guild_wf(g0: GuildData, g1: GuildData, pieces: Seq<Seq<char>>, mid: Seq<Team>)
    requires
        guild_wf(g0),
        appended_new_teams(mid, g0.table@, add_plan(club_names(g0.table@), pieces).0),
        ranked_from(g1.table@, mid) || g1.table@ == mid,
        snapshot_views(g1.history@) == spec_push_snapshot(snapshot_views(g0.history@), g0.table@, HISTORY_LIMIT as nat)
            || g1.history == g0.history,
        g1.fixtures == g0.fixtures,
    ensures
        guild_wf(g1),
{
    law_add_keeps_clubs_distinct(g0.table@, pieces, mid, g1.table@);
    if g1.history != g0.history {
        lemma_saved_history_wf(g0.history@, g0.table@, g1.history@);
    }
}


/// Entering a result keeps every team's record adding up (games played are
/// wins, draws and losses; points are three a win and one a draw), leaves
/// the total goal difference unchanged, and adds as many wins as losses.
pub proof fn law_update_keeps_records_consistent(
    g0: GuildData,
    g1: GuildData,
    home: Seq<char>,
    hs: i64,
    away: Seq<char>,
    as_: i64,
    r: Result<(usize, usize), UpdateError>,
)
    requires
        records_consistent(g0.table@),
        result_applies(g0.table@, home, hs as int, away, as_ as int) ==> result_fits(
            g0.table@,
            home,
            hs as int,
            away,
            as_ as int,
        ),
        update_outcome(g0, g1, home, hs, away, as_, r),
    ensures
        records_consistent(g1.table@),
        total(g1.table@, Stat::GoalDiff) == total(g0.table@, Stat::GoalDiff),
        total(g1.table@, Stat::Won) - total(g1.table@, Stat::Lost) == total(g0.table@, Stat::Won) - total(
            g0.table@,
            Stat::Lost,
        ),
{
    if r is Ok {
        let t0 = g0.table@;
        let new = g1.table@;
        let hi = spec_find_team(t0, spec_normalize(home))->0;
        let ai = spec_find_team(t0, spec_normalize(away))->0;
        let steps = result_steps(hi, ai, hs as int, as_ as int);
        let rec = recorded_table(t0, home, hs as int, away, as_ as int);
        lemma_steps_keep_clubs(t0, steps);
        assert forall|k: int| 0 <= k < rec.len() implies record_consistent(#[trigger] rec[k]) by {
            assert(record_consistent(t0[k]));
            lemma_team_steps(t0, steps, k, Stat::Played);
            lemma_team_steps(t0, steps, k, Stat::Won);
            lemma_team_steps(t0, steps, k, Stat::Drawn);
            lemma_team_steps(t0, steps, k, Stat::Lost);
            lemma_team_steps(t0, steps, k, Stat::Points);
            lemma_result_team_deltas(hi, ai, hs as int, as_ as int, k);
        }
        lemma_sort_contains(rec);
        let sorted = spec_sort(rec);
        assert forall|i: int| 0 <= i < new.len() implies record_consistent(#[trigger] new[i]) by {
            assert(new[i] == (Team { pos: (i + 1) as usize, ..sorted[i] }));
            assert(sorted.contains(sorted[i]));
            assert(rec.contains(sorted[i]));
            let k = choose|k: int| 0 <= k < rec.len() && rec[k] == sorted[i];
            assert(record_consistent(rec[k]));
        }
        law_result_totals(t0, hi, ai, hs as int, as_ as int);
        lemma_total_sort(rec, Stat::GoalDiff);
        lemma_total_sort(rec, Stat::Won);
        lemma_total_sort(rec, Stat::Lost);
        assert forall|i: int| 0 <= i < new.len() implies #[trigger] new[i] == (Team { pos: (i + 1) as usize, ..sorted[i] }) by {
        }
        lemma_total_renumber(new, sorted, Stat::GoalDiff);
        lemma_total_renumber(new, sorted, Stat::Won);
        lemma_total_renumber(new, sorted, Stat::Lost);
    }
}

} // verus!
