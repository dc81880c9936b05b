//! The `/predict` scenario search: the fewest wins (then draws) a team needs
//! from its remaining fixtures to finish at or above a target position, in
//! the worst case where every other remaining fixture is won by the home side.
use vstd::prelude::*;

use crate::history::rank_table;
use crate::standings::{
    apply_steps, lemma_delta_concat, lemma_team_delta_concat, lemma_team_steps, lemma_total_steps, run_steps,
    step_views, steps_delta, steps_fit, team_delta, total, Stat, Step,
};
use crate::table_utils::{
    clone_table, find_from, find_team_index, lemma_find_same_clubs, spec_find_team, spec_sort,
    ScheduledMatch, Team,
};
use crate::text::{normalize_team_name, spec_normalize};

verus! {

/// The fixture involves the team with normalised name `key`.
pub open spec fn involves(m: ScheduledMatch, key: Seq<char>) -> bool {
    spec_normalize(m.home_team@) == key || spec_normalize(m.away_team@) == key
}

/// How many unplayed fixtures involve the team.
pub open spec fn games_left(ms: Seq<ScheduledMatch>, key: Seq<char>) -> nat
    decreases ms.len(),
{
    if ms.len() == 0 {
        0
    } else {
        games_left(ms.drop_last(), key) + if !ms.last().played && involves(ms.last(), key) {
            1nat
        } else {
            0nat
        }
    }
}

/// A home win: both sides play, the home side gains a win, 3 points and a
/// goal of difference; the away side a loss and minus one goal.
pub open spec fn home_win_steps(hi: int, ai: int) -> Seq<Step> {
    seq![(hi, Stat::Played, 1), (hi, Stat::Won, 1), (hi, Stat::Points, 3), (hi, Stat::GoalDiff, 1),
        (ai, Stat::Played, 1), (ai, Stat::Lost, 1), (ai, Stat::GoalDiff, -1)]
}

/// The changes from the unplayed fixtures not involving the team: each is
/// a home win, when both sides are in the table.
pub open spec fn others_steps(table: Seq<Team>, ms: Seq<ScheduledMatch>, key: Seq<char>) -> Seq<Step>
    decreases ms.len(),
{
    if ms.len() == 0 {
        Seq::empty()
    } else {
        let prev = others_steps(table, ms.drop_last(), key);
        let m = ms.last();
        if m.played || involves(m, key) {
            prev
        } else {
            match (
                spec_find_team(table, spec_normalize(m.home_team@)),
                spec_find_team(table, spec_normalize(m.away_team@)),
            ) {
                (Some(hi), Some(ai)) => prev + home_win_steps(hi, ai),
                _ => prev,
            }
        }
    }
}

/// The opponent in a fixture of the team.
pub open spec fn opponent(m: ScheduledMatch, key: Seq<char>) -> Seq<char> {
    if spec_normalize(m.home_team@) == key {
        spec_normalize(m.away_team@)
    } else {
        spec_normalize(m.home_team@)
    }
}

/// The changes from the team's own fixtures, in order: the first `w` are
/// won, the next `d` drawn, the next `l` lost (a fixture whose sides are
/// not both in the table is passed over). Also gives the wins, draws and
/// losses left unassigned.
pub open spec fn team_steps(
    table: Seq<Team>,
    ms: Seq<ScheduledMatch>,
    key: Seq<char>,
    w: int,
    d: int,
    l: int,
) -> (Seq<Step>, int, int, int)
    decreases ms.len(),
{
    if ms.len() == 0 {
        (Seq::empty(), w, d, l)
    } else {
        let (prev, wl, dl, ll) = team_steps(table, ms.drop_last(), key, w, d, l);
        let m = ms.last();
        if m.played || !involves(m, key) {
            (prev, wl, dl, ll)
        } else {
            match (spec_find_team(table, key), spec_find_team(table, opponent(m, key))) {
                (Some(ti), Some(oi)) => {
                    let base = prev + seq![(ti, Stat::Played, 1), (oi, Stat::Played, 1)];
                    if wl > 0 {
                        (base + seq![(ti, Stat::Won, 1), (ti, Stat::Points, 3), (ti, Stat::GoalDiff, 1),
                            (oi, Stat::Lost, 1), (oi, Stat::GoalDiff, -1)], wl - 1, dl, ll)
                    } else if dl > 0 {
                        (base + seq![(ti, Stat::Drawn, 1), (ti, Stat::Points, 1), (oi, Stat::Drawn, 1),
                            (oi, Stat::Points, 1)], wl, dl - 1, ll)
                    } else if ll > 0 {
                        (base + seq![(oi, Stat::Won, 1), (oi, Stat::Points, 3), (oi, Stat::GoalDiff, 1),
                            (ti, Stat::Lost, 1), (ti, Stat::GoalDiff, -1)], wl, dl, ll - 1)
                    } else {
                        (base, wl, dl, ll)
                    }
                },
                _ => (prev, wl, dl, ll),
            }
        }
    }
}

/// All changes of the scenario with `w` wins and `d` draws (the rest losses).
pub open spec fn scenario_steps(table: Seq<Team>, ms: Seq<ScheduledMatch>, key: Seq<char>, w: int, d: int) -> Seq<Step> {
    others_steps(table, ms, key) + team_steps(table, ms, key, w, d, games_left(ms, key) - w - d).0
}

/// The amount a short list of steps adds to a counter, step by step.
proof fn lemma_delta_small(s: Seq<Step>, f: Stat)
    requires
        s.len() <= 5,
    ensures
        steps_delta(s, f) == (if s.len() > 0 && s[0].1 == f { s[0].2 } else { 0 }) + (if s.len() > 1
            && s[1].1 == f { s[1].2 } else { 0 }) + (if s.len() > 2 && s[2].1 == f { s[2].2 } else { 0 })
            + (if s.len() > 3 && s[3].1 == f { s[3].2 } else { 0 }) + (if s.len() > 4 && s[4].1 == f {
            s[4].2
        } else {
            0
        }),
    decreases s.len(),
{
    if s.len() > 0 {
        lemma_delta_small(s.drop_last(), f);
    }
}

/// The other fixtures, each a home win, leave the total goal difference alone.
proof fn lemma_others_goal_difference(table: Seq<Team>, ms: Seq<ScheduledMatch>, key: Seq<char>)
    ensures
        steps_delta(others_steps(table, ms, key), Stat::GoalDiff) == 0,
    decreases ms.len(),
{
    if ms.len() > 0 {
        lemma_others_goal_difference(table, ms.drop_last(), key);
        let prev = others_steps(table, ms.drop_last(), key);
        let m = ms.last();
        if !(m.played || involves(m, key)) {
            match (
                spec_find_team(table, spec_normalize(m.home_team@)),
                spec_find_team(table, spec_normalize(m.away_team@)),
            ) {
                (Some(hi), Some(ai)) => {
                    let hw = home_win_steps(hi, ai);
                    lemma_delta_concat(prev, hw, Stat::GoalDiff);
                    assert(hw == seq![(hi, Stat::Played, 1), (hi, Stat::Won, 1), (hi, Stat::Points, 3)].add(
                        seq![(hi, Stat::GoalDiff, 1), (ai, Stat::Played, 1), (ai, Stat::Lost, 1), (ai, Stat::GoalDiff, -1)],
                    )) by {
                        assert(hw =~= seq![(hi, Stat::Played, 1), (hi, Stat::Won, 1), (hi, Stat::Points, 3)].add(
                            seq![(hi, Stat::GoalDiff, 1), (ai, Stat::Played, 1), (ai, Stat::Lost, 1), (ai, Stat::GoalDiff, -1)],
                        ));
                    }
                    let x = seq![(hi, Stat::Played, 1), (hi, Stat::Won, 1), (hi, Stat::Points, 3)];
                    let y = seq![(hi, Stat::GoalDiff, 1), (ai, Stat::Played, 1), (ai, Stat::Lost, 1), (ai, Stat::GoalDiff, -1)];
                    lemma_delta_concat(x, y, Stat::GoalDiff);
                    lemma_delta_small(x, Stat::GoalDiff);
                    lemma_delta_small(y, Stat::GoalDiff);
                },
                _ => {},
            }
        }
    }
}

/// The team's own fixtures leave the total goal difference alone: a win
/// gives the team one goal and its opponent minus one, a loss the reverse.
proof fn lemma_team_goal_difference(table: Seq<Team>, ms: Seq<ScheduledMatch>, key: Seq<char>, w: int, d: int, l: int)
    ensures
        steps_delta(team_steps(table, ms, key, w, d, l).0, Stat::GoalDiff) == 0,
    decreases ms.len(),
{
    if ms.len() > 0 {
        lemma_team_goal_difference(table, ms.drop_last(), key, w, d, l);
        let (prev, wl, dl, ll) = team_steps(table, ms.drop_last(), key, w, d, l);
        let m = ms.last();
        if !(m.played || !involves(m, key)) {
            match (spec_find_team(table, key), spec_find_team(table, opponent(m, key))) {
                (Some(ti), Some(oi)) => {
                    let bs = seq![(ti, Stat::Played, 1), (oi, Stat::Played, 1)];
                    let base = prev + bs;
                    lemma_delta_concat(prev, bs, Stat::GoalDiff);
                    lemma_delta_small(bs, Stat::GoalDiff);
                    if wl > 0 {
                        let blk = seq![(ti, Stat::Won, 1), (ti, Stat::Points, 3), (ti, Stat::GoalDiff, 1),
                            (oi, Stat::Lost, 1), (oi, Stat::GoalDiff, -1)];
                        lemma_delta_concat(base, blk, Stat::GoalDiff);
                        lemma_delta_small(blk, Stat::GoalDiff);
                    } else if dl > 0 {
                        let blk = seq![(ti, Stat::Drawn, 1), (ti, Stat::Points, 1), (oi, Stat::Drawn, 1),
                            (oi, Stat::Points, 1)];
                        lemma_delta_concat(base, blk, Stat::GoalDiff);
                        lemma_delta_small(blk, Stat::GoalDiff);
                    } else if ll > 0 {
                        let blk = seq![(oi, Stat::Won, 1), (oi, Stat::Points, 3), (oi, Stat::GoalDiff, 1),
                            (ti, Stat::Lost, 1), (ti, Stat::GoalDiff, -1)];
                        lemma_delta_concat(base, blk, Stat::GoalDiff);
                        lemma_delta_small(blk, Stat::GoalDiff);
                    }
                },
                _ => {},
            }
        }
    }
}

/// Every scenario is zero-sum in goal difference: after playing out the
/// remaining fixtures (rivals' home wins and the team's wins, draws and
/// losses), the table's total goal difference is what it was.
pub proof fn law_scenario_goal_difference(table: Seq<Team>, ms: Seq<ScheduledMatch>, key: Seq<char>, w: int, d: int)
    requires
        steps_fit(table, scenario_steps(table, ms, key, w, d)),
    ensures
        total(apply_steps(table, scenario_steps(table, ms, key, w, d)), Stat::GoalDiff) == total(
            table,
            Stat::GoalDiff,
        ),
{
    let o = others_steps(table, ms, key);
    let t = team_steps(table, ms, key, w, d, games_left(ms, key) - w - d).0;
    lemma_others_goal_difference(table, ms, key);
    lemma_team_goal_difference(table, ms, key, w, d, games_left(ms, key) - w - d);
    lemma_delta_concat(o, t, Stat::GoalDiff);
    lemma_total_steps(table, scenario_steps(table, ms, key, w, d), Stat::GoalDiff);
}

/// Goal difference moves with results, and points are three a win and one
/// a draw, for one team over a list of steps.
pub open spec fn moves_with_results(s: Seq<Step>, k: int) -> bool {
    &&& team_delta(s, k, Stat::GoalDiff) == team_delta(s, k, Stat::Won) - team_delta(s, k, Stat::Lost)
    &&& team_delta(s, k, Stat::Points) == 3 * team_delta(s, k, Stat::Won) + team_delta(s, k, Stat::Drawn)
}

proof fn lemma_moves_concat(a: Seq<Step>, b: Seq<Step>, k: int)
    requires
        moves_with_results(a, k),
        moves_with_results(b, k),
    ensures
        moves_with_results(a + b, k),
{
    lemma_team_delta_concat(a, b, k, Stat::GoalDiff);
    lemma_team_delta_concat(a, b, k, Stat::Won);
    lemma_team_delta_concat(a, b, k, Stat::Lost);
    lemma_team_delta_concat(a, b, k, Stat::Drawn);
    lemma_team_delta_concat(a, b, k, Stat::Points);
}

/// One team's amounts over a short list of steps, step by step.
proof fn lemma_team_delta_small(s: Seq<Step>, k: int, f: Stat)
    requires
        s.len() <= 7,
    ensures
        team_delta(s, k, f) == (if s.len() > 0 && s[0].0 == k && s[0].1 == f { s[0].2 } else { 0 }) + (
        if s.len() > 1 && s[1].0 == k && s[1].1 == f { s[1].2 } else { 0 }) + (if s.len() > 2 && s[2].0
            == k && s[2].1 == f { s[2].2 } else { 0 }) + (if s.len() > 3 && s[3].0 == k && s[3].1 == f {
            s[3].2
        } else {
            0
        }) + (if s.len() > 4 && s[4].0 == k && s[4].1 == f { s[4].2 } else { 0 }) + (if s.len() > 5 && s[5].0
            == k && s[5].1 == f { s[5].2 } else { 0 }) + (if s.len() > 6 && s[6].0 == k && s[6].1 == f {
            s[6].2
        } else {
            0
        }),
    decreases s.len(),
{
    if s.len() > 0 {
        lemma_team_delta_small(s.drop_last(), k, f);
    }
}

/// The rivals' home wins move every team's goal difference with its results.
proof fn lemma_others_move(table: Seq<Team>, ms: Seq<ScheduledMatch>, key: Seq<char>, k: int)
    ensures
        moves_with_results(others_steps(table, ms, key), k),
    decreases ms.len(),
{
    if ms.len() == 0 {
    } else {
        lemma_others_move(table, ms.drop_last(), key, k);
        let prev = others_steps(table, ms.drop_last(), key);
        let m = ms.last();
        if !(m.played || involves(m, key)) {
            match (
                spec_find_team(table, spec_normalize(m.home_team@)),
                spec_find_team(table, spec_normalize(m.away_team@)),
            ) {
                (Some(hi), Some(ai)) => {
                    let hw = home_win_steps(hi, ai);
                    lemma_team_delta_small(hw, k, Stat::GoalDiff);
                    lemma_team_delta_small(hw, k, Stat::Won);
                    lemma_team_delta_small(hw, k, Stat::Lost);
                    lemma_team_delta_small(hw, k, Stat::Drawn);
                    lemma_team_delta_small(hw, k, Stat::Points);
                    lemma_moves_concat(prev, hw, k);
                },
                _ => {},
            }
        }
    }
}

/// The team's own results move every team's goal difference with its results.
proof fn lemma_team_moves(table: Seq<Team>, ms: Seq<ScheduledMatch>, key: Seq<char>, w: int, d: int, l: int, k: int)
    ensures
        moves_with_results(team_steps(table, ms, key, w, d, l).0, k),
    decreases ms.len(),
{
    if ms.len() > 0 {
        lemma_team_moves(table, ms.drop_last(), key, w, d, l, k);
        let (prev, wl, dl, ll) = team_steps(table, ms.drop_last(), key, w, d, l);
        let m = ms.last();
        if !(m.played || !involves(m, key)) {
            match (spec_find_team(table, key), spec_find_team(table, opponent(m, key))) {
                (Some(ti), Some(oi)) => {
                    let bs = seq![(ti, Stat::Played, 1), (oi, Stat::Played, 1)];
                    let blk = if wl > 0 {
                        seq![(ti, Stat::Won, 1), (ti, Stat::Points, 3), (ti, Stat::GoalDiff, 1),
                            (oi, Stat::Lost, 1), (oi, Stat::GoalDiff, -1)]
                    } else if dl > 0 {
                        seq![(ti, Stat::Drawn, 1), (ti, Stat::Points, 1), (oi, Stat::Drawn, 1),
                            (oi, Stat::Points, 1)]
                    } else if ll > 0 {
                        seq![(oi, Stat::Won, 1), (oi, Stat::Points, 3), (oi, Stat::GoalDiff, 1),
                            (ti, Stat::Lost, 1), (ti, Stat::GoalDiff, -1)]
                    } else {
                        Seq::<Step>::empty()
                    };
                    let bb = bs + blk;
                    lemma_team_delta_small(bb, k, Stat::GoalDiff);
                    lemma_team_delta_small(bb, k, Stat::Won);
                    lemma_team_delta_small(bb, k, Stat::Lost);
                    lemma_team_delta_small(bb, k, Stat::Drawn);
                    lemma_team_delta_small(bb, k, Stat::Points);
                    lemma_moves_concat(prev, bb, k);
                    assert(prev + bb =~= (prev + bs) + blk);
                },
                _ => {},
            }
        }
    }
}

/// In every scenario each team's goal difference moves by one for each win
/// it is given and back by one for each loss, and its points by three a win
/// and one a draw: a simulated win is a 1-0, a loss a 0-1.
pub proof fn law_scenario_moves_with_results(
    table: Seq<Team>,
    ms: Seq<ScheduledMatch>,
    key: Seq<char>,
    w: int,
    d: int,
    k: int,
)
    requires
        steps_fit(table, scenario_steps(table, ms, key, w, d)),
        0 <= k < table.len(),
    ensures
        ({
            let after = apply_steps(table, scenario_steps(table, ms, key, w, d));
            &&& after[k].gd - table[k].gd == (after[k].w - table[k].w) - (after[k].l - table[k].l)
            &&& after[k].pts - table[k].pts == 3 * (after[k].w - table[k].w) + (after[k].d - table[k].d)
        }),
{
    let s = scenario_steps(table, ms, key, w, d);
    let o = others_steps(table, ms, key);
    let t = team_steps(table, ms, key, w, d, games_left(ms, key) - w - d).0;
    lemma_others_move(table, ms, key, k);
    lemma_team_moves(table, ms, key, w, d, games_left(ms, key) - w - d, k);
    lemma_moves_concat(o, t, k);
    lemma_team_steps(table, s, k, Stat::GoalDiff);
    lemma_team_steps(table, s, k, Stat::Won);
    lemma_team_steps(table, s, k, Stat::Lost);
    lemma_team_steps(table, s, k, Stat::Drawn);
    lemma_team_steps(table, s, k, Stat::Points);
}

/// The team reaches position `target` or better in the scenario.
pub open spec fn scenario_ok(
    table: Seq<Team>,
    ms: Seq<ScheduledMatch>,
    key: Seq<char>,
    target: int,
    w: int,
    d: int,
) -> bool {
    let ranked = spec_sort(apply_steps(table, scenario_steps(table, ms, key, w, d)));
    match spec_find_team(ranked, key) {
        Some(i) => i + 1 <= target,
        None => false,
    }
}

/// The first scenario, trying wins `w` upwards and for each the draws `d`
/// upwards, that reaches the target.
pub open spec fn search(
    table: Seq<Team>,
    ms: Seq<ScheduledMatch>,
    key: Seq<char>,
    target: int,
    g: int,
    w: int,
    d: int,
) -> Option<(int, int)>
    decreases g + 1 - w, g + 1 - d,
{
    if w < 0 || d < 0 || w > g {
        None
    } else if d > g - w {
        search(table, ms, key, target, g, w + 1, 0)
    } else if scenario_ok(table, ms, key, target, w, d) {
        Some((w, d))
    } else {
        search(table, ms, key, target, g, w, d + 1)
    }
}

/// `(w1, d1)` comes before `(w2, d2)` in the search order.
pub open spec fn tried_before(w1: int, d1: int, w2: int, d2: int) -> bool {
    w1 < w2 || (w1 == w2 && d1 < d2)
}

/// The search from `(w0, d0)` returns the first scenario in search order at
/// or after `(w0, d0)` that reaches the target, or nothing when none does.
pub proof fn lemma_search(
    table: Seq<Team>,
    ms: Seq<ScheduledMatch>,
    key: Seq<char>,
    target: int,
    g: int,
    w0: int,
    d0: int,
)
    requires
        0 <= w0,
        0 <= d0,
    ensures
        match search(table, ms, key, target, g, w0, d0) {
            Some((w, d)) => {
                &&& 0 <= w <= g && 0 <= d <= g - w
                &&& scenario_ok(table, ms, key, target, w, d)
                &&& !tried_before(w, d, w0, d0)
                &&& forall|w1: int, d1: int|
                    0 <= w1 && 0 <= d1 <= g - w1 && !tried_before(w1, d1, w0, d0) && tried_before(
                        w1,
                        d1,
                        w,
                        d,
                    ) ==> !#[trigger] scenario_ok(table, ms, key, target, w1, d1)
            },
            None => forall|w1: int, d1: int|
                0 <= w1 <= g && 0 <= d1 <= g - w1 && !tried_before(w1, d1, w0, d0)
                    ==> !#[trigger] scenario_ok(table, ms, key, target, w1, d1),
        },
    decreases g + 1 - w0, g + 1 - d0,
{
    if w0 > g {
    } else if d0 > g - w0 {
        lemma_search(table, ms, key, target, g, w0 + 1, 0);
    } else if scenario_ok(table, ms, key, target, w0, d0) {
    } else {
        lemma_search(table, ms, key, target, g, w0, d0 + 1);
    }
}

/// The scenario `/predict` reports needs the fewest wins, and among those
/// the fewest draws, of all scenarios that reach the target; when none is
/// reported, no split of the remaining games into wins, draws and losses
/// reaches it.
pub proof fn law_scenario_is_minimal(
    table: Seq<Team>,
    ms: Seq<ScheduledMatch>,
    key: Seq<char>,
    target: int,
)
    ensures
        ({
            let g = games_left(ms, key) as int;
            match search(table, ms, key, target, g, 0, 0) {
                Some((w, d)) => {
                    &&& 0 <= w && 0 <= d && w + d <= g
                    &&& scenario_ok(table, ms, key, target, w, d)
                    &&& forall|w1: int, d1: int|
                        0 <= w1 && 0 <= d1 && w1 + d1 <= g && tried_before(w1, d1, w, d)
                            ==> !#[trigger] scenario_ok(table, ms, key, target, w1, d1)
                },
                None => forall|w1: int, d1: int|
                    0 <= w1 && 0 <= d1 && w1 + d1 <= g ==> !#[trigger] scenario_ok(
                        table,
                        ms,
                        key,
                        target,
                        w1,
                        d1,
                    ),
            }
        }),
{
    lemma_search(table, ms, key, target, games_left(ms, key) as int, 0, 0);
}

/// Every scenario the search tries, from `(w, d)` up to and including the
/// one it returns, keeps the counters within `i32`.
pub open spec fn search_fits(
    table: Seq<Team>,
    ms: Seq<ScheduledMatch>,
    key: Seq<char>,
    target: int,
    g: int,
    w: int,
    d: int,
) -> bool
    decreases g + 1 - w, g + 1 - d,
{
    if w < 0 || d < 0 || w > g {
        true
    } else if d > g - w {
        search_fits(table, ms, key, target, g, w + 1, 0)
    } else {
        steps_fit(table, scenario_steps(table, ms, key, w, d)) && (scenario_ok(table, ms, key, target, w, d)
            || search_fits(table, ms, key, target, g, w, d + 1))
    }
}

/// A winning scenario: how many of the remaining games to win, draw, lose.
pub struct Scenario {
    pub wins: usize,
    pub draws: usize,
    pub losses: usize,
}

/// The outcome of the search.
pub struct ScenarioSearch {
    pub games_left: usize,
    pub found: Option<Scenario>,
}

fn push_steps(v: &mut Vec<(usize, Stat, i64)>, s: &[(usize, Stat, i64)])
    ensures
        final(v)@ == old(v)@ + s@,
        step_views(final(v)@) == step_views(old(v)@) + step_views(s@),
{
    let mut i: usize = 0;
    while i < s.len()
        invariant
            i <= s@.len(),
            v@ == old(v)@ + s@.take(i as int),
        decreases s@.len() - i,
    {
        v.push(s[i]);
        assert(v@ =~= old(v)@ + s@.take(i + 1));
        i = i + 1;
    }
    assert(s@.take(s@.len() as int) =~= s@);
    assert(step_views(old(v)@ + s@) =~= step_views(old(v)@) + step_views(s@));
}

fn count_games_left(ms: &Vec<ScheduledMatch>, key: &String) -> (r: usize)
    ensures
        r == games_left(ms@, key@),
        r <= ms@.len(),
{
    let mut n: usize = 0;
    let mut i: usize = 0;
    while i < ms.len()
        invariant
            i <= ms@.len(),
            n == games_left(ms@.take(i as int), key@),
            n <= i,
        decreases ms@.len() - i,
    {
        let m = &ms[i];
        assert(ms@.take(i + 1).drop_last() =~= ms@.take(i as int));
        if !m.played {
            let h = normalize_team_name(m.home_team.as_str());
            let a = normalize_team_name(m.away_team.as_str());
            if h == *key || a == *key {
                n = n + 1;
            }
        }
        i = i + 1;
    }
    assert(ms@.take(ms@.len() as int) =~= ms@);
    n
}

fn build_others(table: &Vec<Team>, ms: &Vec<ScheduledMatch>, key: &String) -> (r: Vec<(usize, Stat, i64)>)
    ensures
        step_views(r@) == others_steps(table@, ms@, key@),
        forall|k: int| 0 <= k < r@.len() ==> -4_000_000_000 <= (#[trigger] r@[k]).2 <= 4_000_000_000,
{
    let mut out: Vec<(usize, Stat, i64)> = Vec::new();
    let mut i: usize = 0;
    while i < ms.len()
        invariant
            i <= ms@.len(),
            step_views(out@) == others_steps(table@, ms@.take(i as int), key@),
            forall|k: int| 0 <= k < out@.len() ==> -4_000_000_000 <= (#[trigger] out@[k]).2 <= 4_000_000_000,
        decreases ms@.len() - i,
    {
        let m = &ms[i];
        assert(ms@.take(i + 1).drop_last() =~= ms@.take(i as int));
        let h = normalize_team_name(m.home_team.as_str());
        let a = normalize_team_name(m.away_team.as_str());
        if !m.played && !(h == *key || a == *key) {
            match (find_team_index(table, h.as_str()), find_team_index(table, a.as_str())) {
                (Some(hi), Some(ai)) => {
                    let ghost before = out@;
                    let block: [(usize, Stat, i64); 7] = [
                        (hi, Stat::Played, 1),
                        (hi, Stat::Won, 1),
                        (hi, Stat::Points, 3),
                        (hi, Stat::GoalDiff, 1),
                        (ai, Stat::Played, 1),
                        (ai, Stat::Lost, 1),
                        (ai, Stat::GoalDiff, -1),
                    ];
                    assert(step_views(block@) =~= home_win_steps(hi as int, ai as int));
                    push_steps(&mut out, &block);
                    assert forall|k: int| 0 <= k < out@.len() implies -4_000_000_000 <= (
                    #[trigger] out@[k]).2 <= 4_000_000_000 by {
                        if k < before.len() {
                            assert(out@[k] == before[k]);
                        } else {
                            assert(out@[k] == block@[k - before.len()]);
                        }
                    }
                },
                _ => {},
            }
        }
        i = i + 1;
    }
    assert(ms@.take(ms@.len() as int) =~= ms@);
    out
}

fn build_team(
    table: &Vec<Team>,
    ms: &Vec<ScheduledMatch>,
    key: &String,
    w: usize,
    d: usize,
    l: usize,
) -> (r: Vec<(usize, Stat, i64)>)
    ensures
        step_views(r@) == team_steps(table@, ms@, key@, w as int, d as int, l as int).0,
        forall|k: int| 0 <= k < r@.len() ==> -4_000_000_000 <= (#[trigger] r@[k]).2 <= 4_000_000_000,
{
    let mut out: Vec<(usize, Stat, i64)> = Vec::new();
    let mut wl = w;
    let mut dl = d;
    let mut ll = l;
    let mut i: usize = 0;
    while i < ms.len()
        invariant
            i <= ms@.len(),
            team_steps(table@, ms@.take(i as int), key@, w as int, d as int, l as int) == (
                step_views(out@),
                wl as int,
                dl as int,
                ll as int,
            ),
            forall|k: int| 0 <= k < out@.len() ==> -4_000_000_000 <= (#[trigger] out@[k]).2 <= 4_000_000_000,
        decreases ms@.len() - i,
    {
        let m = &ms[i];
        assert(ms@.take(i + 1).drop_last() =~= ms@.take(i as int));
        let h = normalize_team_name(m.home_team.as_str());
        let a = normalize_team_name(m.away_team.as_str());
        if !m.played && (h == *key || a == *key) {
            let opp = if h == *key {
                a
            } else {
                h
            };
            match (find_team_index(table, key.as_str()), find_team_index(table, opp.as_str())) {
                (Some(ti), Some(oi)) => {
                    let ghost before = out@;
                    let base: [(usize, Stat, i64); 2] = [(ti, Stat::Played, 1), (oi, Stat::Played, 1)];
                    push_steps(&mut out, &base);
                    let ghost mid = out@;
                    if wl > 0 {
                        let block: [(usize, Stat, i64); 5] = [
                            (ti, Stat::Won, 1),
                            (ti, Stat::Points, 3),
                            (ti, Stat::GoalDiff, 1),
                            (oi, Stat::Lost, 1),
                            (oi, Stat::GoalDiff, -1),
                        ];
                        push_steps(&mut out, &block);
                        wl = wl - 1;
                        assert(step_views(out@) =~= step_views(before) + step_views(base@) + step_views(block@));
                    } else if dl > 0 {
                        let block: [(usize, Stat, i64); 4] = [
                            (ti, Stat::Drawn, 1),
                            (ti, Stat::Points, 1),
                            (oi, Stat::Drawn, 1),
                            (oi, Stat::Points, 1),
                        ];
                        push_steps(&mut out, &block);
                        dl = dl - 1;
                        assert(step_views(out@) =~= step_views(before) + step_views(base@) + step_views(block@));
                    } else if ll > 0 {
                        let block: [(usize, Stat, i64); 5] = [
                            (oi, Stat::Won, 1),
                            (oi, Stat::Points, 3),
                            (oi, Stat::GoalDiff, 1),
                            (ti, Stat::Lost, 1),
                            (ti, Stat::GoalDiff, -1),
                        ];
                        push_steps(&mut out, &block);
                        ll = ll - 1;
                        assert(step_views(out@) =~= step_views(before) + step_views(base@) + step_views(block@));
                    }
                    assert forall|k: int| 0 <= k < out@.len() implies -4_000_000_000 <= (
                    #[trigger] out@[k]).2 <= 4_000_000_000 by {
                        if k < before.len() {
                            assert(out@[k] == before[k]);
                        } else if k < mid.len() {
                            assert(out@[k] == mid[k]);
                            assert(mid[k] == base@[k - before.len()]);
                        } else {
                            assert(out@[k] == out@[k]);
                        }
                    }
                },
                _ => {},
            }
        }
        i = i + 1;
    }
    assert(ms@.take(ms@.len() as int) =~= ms@);
    out
}

/// The scenario search of `find_scenario`, stopping with `None` at the first
/// scenario tried whose changes would take a counter outside `i32`.
pub fn try_find_scenario(
    table: &Vec<Team>,
    matches: &Vec<ScheduledMatch>,
    team_key: &String,
    target_pos: usize,
) -> (r: Option<ScenarioSearch>)
    requires
        table@.len() < usize::MAX,
        matches@.len() < usize::MAX,
    ensures
        r is Some <==> search_fits(
            table@,
            matches@,
            team_key@,
            target_pos as int,
            games_left(matches@, team_key@) as int,
            0,
            0,
        ),
        r matches Some(res) ==> res.games_left == games_left(matches@, team_key@) && match search(
            table@,
            matches@,
            team_key@,
            target_pos as int,
            res.games_left as int,
            0,
            0,
        ) {
            Some((w, d)) => res.found matches Some(s) && s.wins == w && s.draws == d && s.losses
                == res.games_left - w - d,
            None => res.found is None,
        },
{
    let g = count_games_left(matches, team_key);
    let ghost key = team_key@;
    let others = build_others(table, matches, team_key);
    let mut w: usize = 0;
    while w <= g
        invariant
            g == games_left(matches@, key),
            g < usize::MAX,
            key == team_key@,
            table@.len() < usize::MAX,
            search_fits(table@, matches@, key, target_pos as int, g as int, 0, 0) == search_fits(
                table@,
                matches@,
                key,
                target_pos as int,
                g as int,
                w as int,
                0,
            ),
            step_views(others@) == others_steps(table@, matches@, key),
            forall|k: int| 0 <= k < others@.len() ==> -4_000_000_000 <= (#[trigger] others@[k]).2 <= 4_000_000_000,
            search(table@, matches@, key, target_pos as int, g as int, 0, 0) == search(
                table@,
                matches@,
                key,
                target_pos as int,
                g as int,
                w as int,
                0,
            ),
        decreases g + 1 - w,
    {
        let mut d: usize = 0;
        while d <= g - w
            invariant
                w <= g,
                g < usize::MAX,
                g == games_left(matches@, key),
                key == team_key@,
                table@.len() < usize::MAX,
                search_fits(table@, matches@, key, target_pos as int, g as int, 0, 0) == search_fits(
                    table@,
                    matches@,
                    key,
                    target_pos as int,
                    g as int,
                    w as int,
                    d as int,
                ),
                step_views(others@) == others_steps(table@, matches@, key),
                forall|k: int| 0 <= k < others@.len() ==> -4_000_000_000 <= (#[trigger] others@[k]).2 <= 4_000_000_000,
                search(table@, matches@, key, target_pos as int, g as int, 0, 0) == search(
                    table@,
                    matches@,
                    key,
                    target_pos as int,
                    g as int,
                    w as int,
                    d as int,
                ),
            decreases g + 1 - d,
        {
            let l = g - w - d;
            let team = build_team(table, matches, team_key, w, d, l);
            let mut steps: Vec<(usize, Stat, i64)> = Vec::new();
            push_steps(&mut steps, others.as_slice());
            push_steps(&mut steps, team.as_slice());
            assert(step_views(steps@) =~= scenario_steps(table@, matches@, key, w as int, d as int));
            assert forall|k: int| 0 <= k < steps@.len() implies -4_000_000_000 <= (
            #[trigger] steps@[k]).2 <= 4_000_000_000 by {
                if k < others@.len() {
                    assert(steps@[k] == others@[k]);
                } else {
                    assert(steps@[k] == team@[k - others@.len()]);
                }
            }
            if !crate::standings::steps_fit_exec(table, &steps) {
                return None;
            }
            let mut projected = clone_table(table);
            run_steps(&mut projected, &steps);
            let ghost applied = projected@;
            proof {
                crate::standings::lemma_steps_keep_clubs(table@, step_views(steps@));
            }
            rank_table(&mut projected);
            proof {
                crate::table_utils::lemma_sort_contains(applied);
                lemma_find_same_clubs(projected@, spec_sort(applied), spec_normalize(key), 0);
            }
            match find_team_index(&projected, team_key.as_str()) {
                Some(idx) => {
                    if idx + 1 <= target_pos {
                        return Some(
                            ScenarioSearch {
                                games_left: g,
                                found: Some(Scenario { wins: w, draws: d, losses: l }),
                            },
                        );
                    }
                },
                None => {},
            }
            d = d + 1;
        }
        w = w + 1;
    }
    Some(ScenarioSearch { games_left: g, found: None })
}

/// The `/predict` scenario search for one team (by normalised name): for
/// wins from 0 upwards and, for each, draws from 0 upwards (the rest of the
/// team's remaining games lost), the team's remaining fixtures are played
/// out that way and every other remaining fixture is won by the home side;
/// the first scenario in which the team finishes at `target_pos` or better
/// is returned.
pub fn find_scenario(
    table: &Vec<Team>,
    matches: &Vec<ScheduledMatch>,
    team_key: &String,
    target_pos: usize,
) -> (r: ScenarioSearch)
    requires
        table@.len() < usize::MAX,
        matches@.len() < usize::MAX,
        search_fits(
            table@,
            matches@,
            team_key@,
            target_pos as int,
            games_left(matches@, team_key@) as int,
            0,
            0,
        ),
    ensures
        r.games_left == games_left(matches@, team_key@),
        match search(table@, matches@, team_key@, target_pos as int, r.games_left as int, 0, 0) {
            Some((w, d)) => r.found matches Some(s) && s.wins == w && s.draws == d && s.losses
                == r.games_left - w - d,
            None => r.found is None,
        },
{
    match try_find_scenario(table, matches, team_key, target_pos) {
        Some(r) => r,
        None => {
            proof {
                assert(false);
            }
            ScenarioSearch { games_left: 0, found: None }
        },
    }
}

} // verus!
