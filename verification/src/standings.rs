//! Changes to a team's record: entering a match result moves the counters of
//! the two teams by fixed amounts, one counter at a time.
use vstd::prelude::*;

use crate::table_utils::{ranks_before, spec_insert, spec_sort, Team};

verus! {

/// One counter of a team's record.
#[derive(PartialEq, Eq, Structural, Clone, Copy, Debug)]
pub enum Stat {
    Played,
    Won,
    Drawn,
    Lost,
    GoalDiff,
    Points,
}

/// The value of a counter.
pub open spec fn stat_of(t: Team, f: Stat) -> int {
    match f {
        Stat::Played => t.pl as int,
        Stat::Won => t.w as int,
        Stat::Drawn => t.d as int,
        Stat::Lost => t.l as int,
        Stat::GoalDiff => t.gd as int,
        Stat::Points => t.pts as int,
    }
}

/// The team with one counter set to `v`.
pub open spec fn with_stat(t: Team, f: Stat, v: i32) -> Team {
    match f {
        Stat::Played => Team { pl: v, ..t },
        Stat::Won => Team { w: v, ..t },
        Stat::Drawn => Team { d: v, ..t },
        Stat::Lost => Team { l: v, ..t },
        Stat::GoalDiff => Team { gd: v, ..t },
        Stat::Points => Team { pts: v, ..t },
    }
}

/// A change to the table: team index, counter, amount added.
pub type Step = (int, Stat, int);

/// The table after adding `s.2` to counter `s.1` of team `s.0`.
pub open spec fn apply_step(t: Seq<Team>, s: Step) -> Seq<Team> {
    t.update(s.0, with_stat(t[s.0], s.1, (stat_of(t[s.0], s.1) + s.2) as i32))
}

/// The step names a team of the table and its result fits in an `i32`.
pub open spec fn step_fits(t: Seq<Team>, s: Step) -> bool {
    &&& 0 <= s.0 < t.len()
    &&& i32::MIN <= stat_of(t[s.0], s.1) + s.2 <= i32::MAX
}

/// The table after the steps, in order.
pub open spec fn apply_steps(t: Seq<Team>, steps: Seq<Step>) -> Seq<Team>
    decreases steps.len(),
{
    if steps.len() == 0 {
        t
    } else {
        apply_step(apply_steps(t, steps.drop_last()), steps.last())
    }
}

/// Every step, applied in order, stays in range.
pub open spec fn steps_fit(t: Seq<Team>, steps: Seq<Step>) -> bool
    decreases steps.len(),
{
    if steps.len() == 0 {
        true
    } else {
        steps_fit(t, steps.drop_last()) && step_fits(apply_steps(t, steps.drop_last()), steps.last())
    }
}

/// Steps never change the number of teams, positions or club names.
pub proof fn lemma_steps_keep_clubs(t: Seq<Team>, steps: Seq<Step>)
    requires
        steps_fit(t, steps),
    ensures
        apply_steps(t, steps).len() == t.len(),
        forall|k: int|
            0 <= k < t.len() ==> (#[trigger] apply_steps(t, steps)[k]).club == t[k].club
                && apply_steps(t, steps)[k].pos == t[k].pos,
    decreases steps.len(),
{
    if steps.len() > 0 {
        lemma_steps_keep_clubs(t, steps.drop_last());
        let prev = apply_steps(t, steps.drop_last());
        assert forall|k: int| 0 <= k < t.len() implies (#[trigger] apply_steps(t, steps)[k]).club
            == t[k].club && apply_steps(t, steps)[k].pos == t[k].pos by {
            assert(prev[k].club == t[k].club);
        }
    }
}

/// Fitting steps fit on every prefix.
pub proof fn lemma_steps_fit_prefix(t: Seq<Team>, steps: Seq<Step>, k: int)
    requires
        steps_fit(t, steps),
        0 <= k <= steps.len(),
    ensures
        steps_fit(t, steps.take(k)),
    decreases steps.len(),
{
    if k == steps.len() {
        assert(steps.take(k) =~= steps);
    } else {
        assert(steps.drop_last().take(k) =~= steps.take(k));
        lemma_steps_fit_prefix(t, steps.drop_last(), k);
    }
}

/// Adds `delta` to one counter of one team.
pub fn bump_stat(table: &mut Vec<Team>, i: usize, f: Stat, delta: i64)
    requires
        step_fits(old(table)@, (i as int, f, delta as int)),
        -4_000_000_000 <= delta <= 4_000_000_000,
    ensures
        final(table)@ == apply_step(old(table)@, (i as int, f, delta as int)),
{
    let mut t = table[i].clone();
    match f {
        Stat::Played => {
            t.pl = (t.pl as i64 + delta) as i32;
        },
        Stat::Won => {
            t.w = (t.w as i64 + delta) as i32;
        },
        Stat::Drawn => {
            t.d = (t.d as i64 + delta) as i32;
        },
        Stat::Lost => {
            t.l = (t.l as i64 + delta) as i32;
        },
        Stat::GoalDiff => {
            t.gd = (t.gd as i64 + delta) as i32;
        },
        Stat::Points => {
            t.pts = (t.pts as i64 + delta) as i32;
        },
    }
    table.set(i, t);
}

/// The views of a list of steps.
pub open spec fn step_views(v: Seq<(usize, Stat, i64)>) -> Seq<Step> {
    v.map_values(|s: (usize, Stat, i64)| (s.0 as int, s.1, s.2 as int))
}

/// Applies a list of steps in order.
pub fn run_steps(table: &mut Vec<Team>, steps: &Vec<(usize, Stat, i64)>)
    requires
        steps_fit(old(table)@, step_views(steps@)),
        forall|k: int|
            0 <= k < steps@.len() ==> -4_000_000_000 <= (#[trigger] steps@[k]).2 <= 4_000_000_000,
    ensures
        final(table)@ == apply_steps(old(table)@, step_views(steps@)),
{
    let ghost orig = table@;
    let ghost sv = step_views(steps@);
    let mut k: usize = 0;
    while k < steps.len()
        invariant
            k <= steps@.len(),
            sv == step_views(steps@),
            steps_fit(orig, sv),
            forall|q: int|
                0 <= q < steps@.len() ==> -4_000_000_000 <= (#[trigger] steps@[q]).2 <= 4_000_000_000,
            table@ == apply_steps(orig, sv.take(k as int)),
        decreases steps@.len() - k,
    {
        proof {
            lemma_steps_fit_prefix(orig, sv, k + 1);
            assert(sv.take(k + 1).drop_last() =~= sv.take(k as int));
            assert(sv.take(k + 1).last() == sv[k as int]);
        }
        let (i, f, delta) = steps[k];
        bump_stat(table, i, f, delta);
        k = k + 1;
    }
    assert(sv.take(steps@.len() as int) =~= sv);
}

/// The value of one counter of a team.
fn stat_value(t: &Team, f: Stat) -> (v: i32)
    ensures
        v == stat_of(*t, f),
{
    match f {
        Stat::Played => t.pl,
        Stat::Won => t.w,
        Stat::Drawn => t.d,
        Stat::Lost => t.l,
        Stat::GoalDiff => t.gd,
        Stat::Points => t.pts,
    }
}

/// Whether the steps, applied in order, all stay within `i32`.
pub fn steps_fit_exec(table: &Vec<Team>, steps: &Vec<(usize, Stat, i64)>) -> (r: bool)
    requires
        forall|k: int|
            0 <= k < steps@.len() ==> -4_000_000_000 <= (#[trigger] steps@[k]).2 <= 4_000_000_000,
    ensures
        r == steps_fit(table@, step_views(steps@)),
{
    let ghost orig = table@;
    let ghost sv = step_views(steps@);
    let mut work = crate::table_utils::clone_table(table);
    let mut k: usize = 0;
    while k < steps.len()
        invariant
            k <= steps@.len(),
            sv == step_views(steps@),
            orig == table@,
            forall|q: int|
                0 <= q < steps@.len() ==> -4_000_000_000 <= (#[trigger] steps@[q]).2 <= 4_000_000_000,
            steps_fit(orig, sv.take(k as int)),
            work@ == apply_steps(orig, sv.take(k as int)),
        decreases steps@.len() - k,
    {
        let (i, f, delta) = steps[k];
        proof {
            assert(sv.take(k + 1).drop_last() =~= sv.take(k as int));
            assert(sv.take(k + 1).last() == sv[k as int]);
        }
        if i >= work.len() {
            proof {
                if steps_fit(orig, sv) {
                    lemma_steps_fit_prefix(orig, sv, k + 1);
                }
            }
            return false;
        }
        let v = stat_value(&work[i], f) as i64 + delta;
        if v < i32::MIN as i64 || v > i32::MAX as i64 {
            proof {
                if steps_fit(orig, sv) {
                    lemma_steps_fit_prefix(orig, sv, k + 1);
                }
            }
            return false;
        }
        bump_stat(&mut work, i, f, delta);
        k = k + 1;
    }
    assert(sv.take(steps@.len() as int) =~= sv);
    true
}

// ---------------------------------------------------------------------------
// A match result.
// ---------------------------------------------------------------------------

/// The changes a result makes, in the order they are made: both teams play
/// one more game; the goal difference moves by the score difference (as an
/// `i32`); a win is worth 3 points, a draw 1 to each side.
pub open spec fn result_steps(hi: int, ai: int, home_score: int, away_score: int) -> Seq<Step> {
    let diff = (home_score - away_score) as i32 as int;
    seq![(hi, Stat::Played, 1), (ai, Stat::Played, 1), (hi, Stat::GoalDiff, diff), (ai, Stat::GoalDiff, -diff)]
        + if home_score > away_score {
        seq![(hi, Stat::Won, 1), (hi, Stat::Points, 3), (ai, Stat::Lost, 1)]
    } else if home_score < away_score {
        seq![(ai, Stat::Won, 1), (ai, Stat::Points, 3), (hi, Stat::Lost, 1)]
    } else {
        seq![(hi, Stat::Drawn, 1), (ai, Stat::Drawn, 1), (hi, Stat::Points, 1), (ai, Stat::Points, 1)]
    }
}

/// The steps of a result as a list.
pub fn result_step_list(hi: usize, ai: usize, home_score: i64, away_score: i64) -> (r: Vec<(usize, Stat, i64)>)
    requires
        home_score >= 0,
        away_score >= 0,
    ensures
        step_views(r@) == result_steps(hi as int, ai as int, home_score as int, away_score as int),
        forall|k: int| 0 <= k < r@.len() ==> -4_000_000_000 <= (#[trigger] r@[k]).2 <= 4_000_000_000,
{
    let diff = (home_score - away_score) as i32;
    let mut v: Vec<(usize, Stat, i64)> = Vec::new();
    v.push((hi, Stat::Played, 1));
    v.push((ai, Stat::Played, 1));
    v.push((hi, Stat::GoalDiff, diff as i64));
    v.push((ai, Stat::GoalDiff, -(diff as i64)));
    if home_score > away_score {
        v.push((hi, Stat::Won, 1));
        v.push((hi, Stat::Points, 3));
        v.push((ai, Stat::Lost, 1));
    } else if home_score < away_score {
        v.push((ai, Stat::Won, 1));
        v.push((ai, Stat::Points, 3));
        v.push((hi, Stat::Lost, 1));
    } else {
        v.push((hi, Stat::Drawn, 1));
        v.push((ai, Stat::Drawn, 1));
        v.push((hi, Stat::Points, 1));
        v.push((ai, Stat::Points, 1));
    }
    assert(step_views(v@) =~= result_steps(hi as int, ai as int, home_score as int, away_score as int));
    v
}

// ---------------------------------------------------------------------------
// Totals over the table.
// ---------------------------------------------------------------------------

/// The sum of one counter over all teams.
pub open spec fn total(t: Seq<Team>, f: Stat) -> int
    decreases t.len(),
{
    if t.len() == 0 {
        0
    } else {
        total(t.drop_last(), f) + stat_of(t.last(), f)
    }
}

proof fn lemma_total_update(t: Seq<Team>, i: int, x: Team, f: Stat)
    requires
        0 <= i < t.len(),
    ensures
        total(t.update(i, x), f) == total(t, f) - stat_of(t[i], f) + stat_of(x, f),
    decreases t.len(),
{
    if i < t.len() - 1 {
        lemma_total_update(t.drop_last(), i, x, f);
        assert(t.update(i, x).drop_last() =~= t.drop_last().update(i, x));
    } else {
        assert(t.update(i, x).drop_last() =~= t.drop_last());
    }
}

/// A step moves the total of its own counter by its amount and leaves the
/// other totals alone.
pub proof fn lemma_total_step(t: Seq<Team>, s: Step, f: Stat)
    requires
        step_fits(t, s),
    ensures
        total(apply_step(t, s), f) == total(t, f) + if s.1 == f {
            s.2
        } else {
            0
        },
{
    let x = with_stat(t[s.0], s.1, (stat_of(t[s.0], s.1) + s.2) as i32);
    lemma_total_update(t, s.0, x, f);
}

/// The totals after a list of fitting steps.
pub open spec fn steps_delta(steps: Seq<Step>, f: Stat) -> int
    decreases steps.len(),
{
    if steps.len() == 0 {
        0
    } else {
        steps_delta(steps.drop_last(), f) + if steps.last().1 == f {
            steps.last().2
        } else {
            0
        }
    }
}

pub proof fn lemma_total_steps(t: Seq<Team>, steps: Seq<Step>, f: Stat)
    requires
        steps_fit(t, steps),
    ensures
        total(apply_steps(t, steps), f) == total(t, f) + steps_delta(steps, f),
    decreases steps.len(),
{
    if steps.len() > 0 {
        lemma_total_steps(t, steps.drop_last(), f);
        lemma_total_step(apply_steps(t, steps.drop_last()), steps.last(), f);
    }
}

/// Entering a result changes the table's totals by exactly one match: two
/// more games played, 3 more points for a decisive result and 2 for a draw,
/// one more win and one more loss or two more draws, and the same total
/// goal difference.
pub proof fn law_result_totals(t: Seq<Team>, hi: int, ai: int, home_score: int, away_score: int)
    requires
        steps_fit(t, result_steps(hi, ai, home_score, away_score)),
    ensures
        ({
            let r = apply_steps(t, result_steps(hi, ai, home_score, away_score));
            &&& total(r, Stat::Played) == total(t, Stat::Played) + 2
            &&& total(r, Stat::GoalDiff) == total(t, Stat::GoalDiff)
            &&& total(r, Stat::Points) == total(t, Stat::Points) + if home_score == away_score {
                2int
            } else {
                3int
            }
            &&& total(r, Stat::Won) == total(t, Stat::Won) + if home_score == away_score {
                0int
            } else {
                1int
            }
            &&& total(r, Stat::Lost) == total(t, Stat::Lost) + if home_score == away_score {
                0int
            } else {
                1int
            }
            &&& total(r, Stat::Drawn) == total(t, Stat::Drawn) + if home_score == away_score {
                2int
            } else {
                0int
            }
        }),
{
    let steps = result_steps(hi, ai, home_score, away_score);
    let diff = (home_score - away_score) as i32 as int;
    let s0 = Seq::<Step>::empty();
    let s1 = s0.push((hi, Stat::Played, 1));
    let s2 = s1.push((ai, Stat::Played, 1));
    let s3 = s2.push((hi, Stat::GoalDiff, diff));
    let s4 = s3.push((ai, Stat::GoalDiff, -diff));
    lemma_delta_push(s0, (hi, Stat::Played, 1));
    lemma_delta_push(s1, (ai, Stat::Played, 1));
    lemma_delta_push(s2, (hi, Stat::GoalDiff, diff));
    lemma_delta_push(s3, (ai, Stat::GoalDiff, -diff));
    if home_score > away_score {
        let s5 = s4.push((hi, Stat::Won, 1));
        let s6 = s5.push((hi, Stat::Points, 3));
        let s7 = s6.push((ai, Stat::Lost, 1));
        lemma_delta_push(s4, (hi, Stat::Won, 1));
        lemma_delta_push(s5, (hi, Stat::Points, 3));
        lemma_delta_push(s6, (ai, Stat::Lost, 1));
        assert(steps =~= s7);
    } else if home_score < away_score {
        let s5 = s4.push((ai, Stat::Won, 1));
        let s6 = s5.push((ai, Stat::Points, 3));
        let s7 = s6.push((hi, Stat::Lost, 1));
        lemma_delta_push(s4, (ai, Stat::Won, 1));
        lemma_delta_push(s5, (ai, Stat::Points, 3));
        lemma_delta_push(s6, (hi, Stat::Lost, 1));
        assert(steps =~= s7);
    } else {
        let s5 = s4.push((hi, Stat::Drawn, 1));
        let s6 = s5.push((ai, Stat::Drawn, 1));
        let s7 = s6.push((hi, Stat::Points, 1));
        let s8 = s7.push((ai, Stat::Points, 1));
        lemma_delta_push(s4, (hi, Stat::Drawn, 1));
        lemma_delta_push(s5, (ai, Stat::Drawn, 1));
        lemma_delta_push(s6, (hi, Stat::Points, 1));
        lemma_delta_push(s7, (ai, Stat::Points, 1));
        assert(steps =~= s8);
    }
    lemma_total_steps(t, steps, Stat::Played);
    lemma_total_steps(t, steps, Stat::GoalDiff);
    lemma_total_steps(t, steps, Stat::Points);
    lemma_total_steps(t, steps, Stat::Won);
    lemma_total_steps(t, steps, Stat::Lost);
    lemma_total_steps(t, steps, Stat::Drawn);
}

proof fn lemma_delta_push(s: Seq<Step>, x: Step)
    ensures
        forall|f: Stat| #[trigger] steps_delta(s.push(x), f) == steps_delta(s, f) + if x.1 == f {
            x.2
        } else {
            0
        },
{
    assert(s.push(x).drop_last() =~= s);
}

proof fn lemma_total_insert(s: Seq<Team>, x: Team, f: Stat)
    ensures
        total(spec_insert(s, x), f) == total(s, f) + stat_of(x, f),
    decreases s.len(),
{
    if s.len() == 0 || !ranks_before(x, s.last()) {
        assert(s.push(x).drop_last() =~= s);
    } else {
        lemma_total_insert(s.drop_last(), x, f);
        assert(spec_insert(s.drop_last(), x).push(s.last()).drop_last() =~= spec_insert(s.drop_last(), x));
    }
}

/// Ranking a table leaves every total unchanged.
pub proof fn lemma_total_sort(t: Seq<Team>, f: Stat)
    ensures
        total(spec_sort(t), f) == total(t, f),
    decreases t.len(),
{
    if t.len() > 0 {
        lemma_total_sort(t.drop_last(), f);
        lemma_total_insert(spec_sort(t.drop_last()), t.last(), f);
    }
}

/// Renumbering positions leaves every total unchanged.
pub proof fn lemma_total_renumber(new: Seq<Team>, old: Seq<Team>, f: Stat)
    requires
        new.len() == old.len(),
        forall|i: int| 0 <= i < new.len() ==> stat_of(#[trigger] new[i], f) == stat_of(old[i], f),
    ensures
        total(new, f) == total(old, f),
    decreases new.len(),
{
    if new.len() > 0 {
        lemma_total_renumber(new.drop_last(), old.drop_last(), f);
    }
}

// ---------------------------------------------------------------------------
// One team's counters.
// ---------------------------------------------------------------------------

/// A team's record adds up: games played are wins, draws and losses, and
/// points are three a win and one a draw.
pub open spec fn record_consistent(t: Team) -> bool {
    t.pl == t.w + t.d + t.l && t.pts == 3 * t.w + t.d
}

/// Every team's record adds up.
pub open spec fn records_consistent(t: Seq<Team>) -> bool {
    forall|i: int| 0 <= i < t.len() ==> record_consistent(#[trigger] t[i])
}

/// How much the steps add to counter `f` of team `k`.
pub open spec fn team_delta(steps: Seq<Step>, k: int, f: Stat) -> int
    decreases steps.len(),
{
    if steps.len() == 0 {
        0
    } else {
        team_delta(steps.drop_last(), k, f) + if steps.last().0 == k && steps.last().1 == f {
            steps.last().2
        } else {
            0
        }
    }
}

/// Fitting steps move each counter of each team by that team's amounts.
pub proof fn lemma_team_steps(t: Seq<Team>, steps: Seq<Step>, k: int, f: Stat)
    requires
        steps_fit(t, steps),
        0 <= k < t.len(),
    ensures
        apply_steps(t, steps).len() == t.len(),
        stat_of(apply_steps(t, steps)[k], f) == stat_of(t[k], f) + team_delta(steps, k, f),
    decreases steps.len(),
{
    if steps.len() > 0 {
        lemma_team_steps(t, steps.drop_last(), k, f);
        let prev = apply_steps(t, steps.drop_last());
        let st = steps.last();
        let v = stat_of(prev[st.0], st.1) + st.2;
        assert(stat_of(with_stat(prev[st.0], st.1, v as i32), f) == if f == st.1 {
            v
        } else {
            stat_of(prev[st.0], f)
        });
    }
}

proof fn lemma_team_delta_push(s: Seq<Step>, x: Step)
    ensures
        forall|k: int, f: Stat| #[trigger] team_delta(s.push(x), k, f) == team_delta(s, k, f) + if x.0 == k
            && x.1 == f {
            x.2
        } else {
            0
        },
{
    assert(s.push(x).drop_last() =~= s);
}

/// A result gives every team as many more games as more wins, draws and
/// losses, and three points a win and one a draw.
pub proof fn lemma_result_team_deltas(hi: int, ai: int, home_score: int, away_score: int, k: int)
    ensures
        ({
            let s = result_steps(hi, ai, home_score, away_score);
            &&& team_delta(s, k, Stat::Played) == team_delta(s, k, Stat::Won) + team_delta(s, k, Stat::Drawn)
                + team_delta(s, k, Stat::Lost)
            &&& team_delta(s, k, Stat::Points) == 3 * team_delta(s, k, Stat::Won) + team_delta(s, k, Stat::Drawn)
        }),
{
    let steps = result_steps(hi, ai, home_score, away_score);
    let diff = (home_score - away_score) as i32 as int;
    let s0 = Seq::<Step>::empty();
    let s1 = s0.push((hi, Stat::Played, 1));
    let s2 = s1.push((ai, Stat::Played, 1));
    let s3 = s2.push((hi, Stat::GoalDiff, diff));
    let s4 = s3.push((ai, Stat::GoalDiff, -diff));
    lemma_team_delta_push(s0, (hi, Stat::Played, 1));
    lemma_team_delta_push(s1, (ai, Stat::Played, 1));
    lemma_team_delta_push(s2, (hi, Stat::GoalDiff, diff));
    lemma_team_delta_push(s3, (ai, Stat::GoalDiff, -diff));
    if home_score > away_score {
        let s5 = s4.push((hi, Stat::Won, 1));
        let s6 = s5.push((hi, Stat::Points, 3));
        let s7 = s6.push((ai, Stat::Lost, 1));
        lemma_team_delta_push(s4, (hi, Stat::Won, 1));
        lemma_team_delta_push(s5, (hi, Stat::Points, 3));
        lemma_team_delta_push(s6, (ai, Stat::Lost, 1));
        assert(steps =~= s7);
    } else if home_score < away_score {
        let s5 = s4.push((ai, Stat::Won, 1));
        let s6 = s5.push((ai, Stat::Points, 3));
        let s7 = s6.push((hi, Stat::Lost, 1));
        lemma_team_delta_push(s4, (ai, Stat::Won, 1));
        lemma_team_delta_push(s5, (ai, Stat::Points, 3));
        lemma_team_delta_push(s6, (hi, Stat::Lost, 1));
        assert(steps =~= s7);
    } else {
        let s5 = s4.push((hi, Stat::Drawn, 1));
        let s6 = s5.push((ai, Stat::Drawn, 1));
        let s7 = s6.push((hi, Stat::Points, 1));
        let s8 = s7.push((ai, Stat::Points, 1));
        lemma_team_delta_push(s4, (hi, Stat::Drawn, 1));
        lemma_team_delta_push(s5, (ai, Stat::Drawn, 1));
        lemma_team_delta_push(s6, (hi, Stat::Points, 1));
        lemma_team_delta_push(s7, (ai, Stat::Points, 1));
        assert(steps =~= s8);
    }
}

/// The amounts of two lists of steps add up.
pub proof fn lemma_delta_concat(a: Seq<Step>, b: Seq<Step>, f: Stat)
    ensures
        steps_delta(a + b, f) == steps_delta(a, f) + steps_delta(b, f),
    decreases b.len(),
{
    if b.len() > 0 {
        lemma_delta_concat(a, b.drop_last(), f);
        assert((a + b).drop_last() =~= a + b.drop_last());
        assert((a + b).last() == b.last());
    } else {
        assert(a + b =~= a);
    }
}

/// One team's amounts over two lists of steps add up.
pub proof fn lemma_team_delta_concat(a: Seq<Step>, b: Seq<Step>, k: int, f: Stat)
    ensures
        team_delta(a + b, k, f) == team_delta(a, k, f) + team_delta(b, k, f),
    decreases b.len(),
{
    if b.len() > 0 {
        lemma_team_delta_concat(a, b.drop_last(), k, f);
        assert((a + b).drop_last() =~= a + b.drop_last());
        assert((a + b).last() == b.last());
    } else {
        assert(a + b =~= a);
    }
}

} // verus!
