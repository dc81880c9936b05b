//! Fixture generation: round-robin seasons by the circle (Berger) method and
//! seeded knockout rounds.
use vstd::prelude::*;

use crate::table_utils::ScheduledMatch;
use crate::text::views;

verus! {

/// A fixture as the pair (home team, away team).
pub type Pairing = (Seq<char>, Seq<char>);

/// The placeholder that gives a team the week off when the count is odd.
pub open spec fn is_bye(s: Seq<char>) -> bool {
    s == "BYE"@
}

/// The teams with a `BYE` placeholder appended when their number is odd.
pub open spec fn spec_roster(teams: Seq<Seq<char>>) -> Seq<Seq<char>> {
    if teams.len() % 2 != 0 {
        teams.push("BYE"@)
    } else {
        teams
    }
}

/// The team at place `k` of the rotating circle in round `r`: every team but
/// the first, rotated left by `r` places.
pub open spec fn circle_at(roster: Seq<Seq<char>>, r: int, k: int) -> Seq<char> {
    roster[1 + (k + r) % (roster.len() - 1)]
}

/// The pairing with home and away swapped in the second half of a season.
pub open spec fn oriented(h: Seq<char>, a: Seq<char>, swap: bool) -> Pairing {
    if swap {
        (a, h)
    } else {
        (h, a)
    }
}

/// A pairing is played unless one side is the `BYE` placeholder.
pub open spec fn is_real(h: Seq<char>, a: Seq<char>) -> bool {
    !is_bye(h) && !is_bye(a)
}

/// The pairings of circle places `i` and `n - 2 - i` for `i < cnt`.
pub open spec fn inner_pairs(roster: Seq<Seq<char>>, r: int, swap: bool, cnt: int) -> Seq<Pairing>
    decreases cnt,
{
    if cnt <= 0 {
        Seq::empty()
    } else {
        let prev = inner_pairs(roster, r, swap, cnt - 1);
        let h = circle_at(roster, r, cnt - 1);
        let a = circle_at(roster, r, roster.len() - 2 - (cnt - 1));
        if is_real(h, a) {
            prev.push(oriented(h, a, swap))
        } else {
            prev
        }
    }
}

/// The pairings of round `r`: the first team against the circle's middle
/// place, then the circle folded onto itself.
pub open spec fn round_pairs(roster: Seq<Seq<char>>, r: int, swap: bool) -> Seq<Pairing> {
    let n = roster.len() as int;
    let fixed = roster[0];
    let opp = circle_at(roster, r, n / 2 - 1);
    (if is_real(fixed, opp) {
        seq![oriented(fixed, opp, swap)]
    } else {
        Seq::empty()
    }) + inner_pairs(roster, r, swap, n / 2 - 1)
}

/// The non-empty rounds among the first `k` round slots; slot `s` is round
/// `s % (n - 1)` of half `s / (n - 1)`, the second half swapping home and away.
pub open spec fn rounds_upto(roster: Seq<Seq<char>>, k: int) -> Seq<Seq<Pairing>>
    decreases k,
{
    if k <= 0 {
        Seq::empty()
    } else {
        let prev = rounds_upto(roster, k - 1);
        let m = roster.len() - 1;
        let rp = round_pairs(roster, (k - 1) % m, k - 1 >= m);
        if rp.len() > 0 {
            prev.push(rp)
        } else {
            prev
        }
    }
}

/// The rounds of a schedule with `halves` passes over the circle.
pub open spec fn spec_rounds(teams: Seq<Seq<char>>, halves: int) -> Seq<Seq<Pairing>> {
    let roster = spec_roster(teams);
    rounds_upto(roster, halves * (roster.len() - 1))
}

/// The gameweek of the round with index `idx` when `gpw` rounds share a week.
pub open spec fn gameweek_of(idx: int, gpw: int) -> int {
    idx / gpw + 1
}

/// The fixtures of the rounds in order, each with its gameweek.
pub open spec fn with_gameweeks(rounds: Seq<Seq<Pairing>>, gpw: int) -> Seq<(int, Pairing)>
    decreases rounds.len(),
{
    if rounds.len() == 0 {
        Seq::empty()
    } else {
        let k = rounds.len() - 1;
        with_gameweeks(rounds.drop_last(), gpw) + rounds.last().map_values(
            |p: Pairing| (gameweek_of(k, gpw), p),
        )
    }
}

/// The generated fixtures are exactly `expected`, all unplayed.
pub open spec fn matches_are(out: Seq<ScheduledMatch>, expected: Seq<(int, Pairing)>) -> bool {
    &&& out.len() == expected.len()
    &&& forall|i: int|
        0 <= i < out.len() ==> {
            &&& (#[trigger] out[i]).gameweek == expected[i].0
            &&& out[i].home_team@ == expected[i].1.0
            &&& out[i].away_team@ == expected[i].1.1
            &&& !out[i].played
        }
}

/// The views of a list of pairings of strings.
pub open spec fn pair_views(v: Seq<(String, String)>) -> Seq<Pairing> {
    v.map_values(|p: (String, String)| (p.0@, p.1@))
}

proof fn lemma_rounds_len(roster: Seq<Seq<char>>, k: int)
    requires
        k >= 0,
    ensures
        rounds_upto(roster, k).len() <= k,
    decreases k,
{
    if k > 0 {
        lemma_rounds_len(roster, k - 1);
    }
}

fn bye_text() -> (r: String)
    ensures
        r@ == "BYE"@,
{
    String::from_str("BYE")
}

fn build_roster(teams: &[String]) -> (r: Vec<String>)
    ensures
        views(r@) == spec_roster(views(teams@)),
{
    let mut roster: Vec<String> = Vec::new();
    let mut i: usize = 0;
    while i < teams.len()
        invariant
            i <= teams.len(),
            roster@.len() == i,
            views(roster@) == views(teams@).take(i as int),
        decreases teams.len() - i,
    {
        let ghost before = roster@;
        roster.push(teams[i].clone());
        assert forall|k: int| 0 <= k < i + 1 implies #[trigger] views(roster@)[k] == views(
            teams@,
        ).take(i + 1)[k] by {
            if k < i {
                assert(roster@[k] == before[k]);
                assert(views(before)[k] == views(teams@).take(i as int)[k]);
            }
        }
        assert(views(roster@) =~= views(teams@).take(i + 1));
        i = i + 1;
    }
    assert(views(teams@).take(teams.len() as int) =~= views(teams@));
    if teams.len() % 2 != 0 {
        roster.push(bye_text());
        assert(views(roster@) =~= views(teams@).push("BYE"@));
    }
    roster
}

fn make_pair(h: &String, a: &String, swap: bool) -> (r: (String, String))
    ensures
        (r.0@, r.1@) == oriented(h@, a@, swap),
{
    if swap {
        (a.clone(), h.clone())
    } else {
        (h.clone(), a.clone())
    }
}

fn round_of(roster: &Vec<String>, bye: &String, r: usize, swap: bool) -> (out: Vec<(String, String)>)
    requires
        roster.len() >= 2,
        roster.len() % 2 == 0,
        roster.len() <= 0x4000_0000,
        r < roster.len() - 1,
        bye@ == "BYE"@,
    ensures
        pair_views(out@) == round_pairs(views(roster@), r as int, swap),
{
    let ghost ro = views(roster@);
    let n = roster.len();
    let m = n - 1;
    let mut out: Vec<(String, String)> = Vec::new();
    let fixed = &roster[0];
    let opp = &roster[1 + (n / 2 - 1 + r) % m];
    assert(ro[0] == fixed@);
    assert(circle_at(ro, r as int, n / 2 - 1) == opp@);
    if *fixed != *bye && *opp != *bye {
        out.push(make_pair(fixed, opp, swap));
    }
    let ghost first = pair_views(out@);
    assert(first =~= (if is_real(ro[0], circle_at(ro, r as int, n / 2 - 1)) {
        seq![oriented(ro[0], circle_at(ro, r as int, n / 2 - 1), swap)]
    } else {
        Seq::empty()
    }));
    let mut i: usize = 0;
    while i < n / 2 - 1
        invariant
            n == roster.len(),
            m == n - 1,
            n >= 2,
            n % 2 == 0,
            n <= 0x4000_0000,
            r < m,
            bye@ == "BYE"@,
            ro == views(roster@),
            i <= n / 2 - 1,
            pair_views(out@) == first + inner_pairs(ro, r as int, swap, i as int),
        decreases n / 2 - 1 - i,
    {
        let home = &roster[1 + (i + r) % m];
        let away = &roster[1 + (n - 2 - i + r) % m];
        assert(circle_at(ro, r as int, i as int) == home@);
        assert(circle_at(ro, r as int, ro.len() - 2 - i) == away@);
        let ghost before = pair_views(out@);
        if *home != *bye && *away != *bye {
            out.push(make_pair(home, away, swap));
            assert(pair_views(out@) =~= before.push(oriented(home@, away@, swap)));
        }
        assert(first + inner_pairs(ro, r as int, swap, i + 1) =~= (if is_real(home@, away@) {
            (first + inner_pairs(ro, r as int, swap, i as int)).push(oriented(home@, away@, swap))
        } else {
            first + inner_pairs(ro, r as int, swap, i as int)
        }));
        i = i + 1;
    }
    out
}

fn all_rounds(roster: &Vec<String>, halves: usize) -> (out: Vec<Vec<(String, String)>>)
    requires
        roster.len() >= 2,
        roster.len() % 2 == 0,
        roster.len() <= 0x4000_0000,
        1 <= halves <= 2,
    ensures
        out@.len() == rounds_upto(views(roster@), halves * (roster.len() - 1)).len(),
        forall|k: int|
            0 <= k < out@.len() ==> pair_views((#[trigger] out@[k])@) == rounds_upto(
                views(roster@),
                halves * (roster.len() - 1),
            )[k],
{
    let ghost ro = views(roster@);
    let bye = bye_text();
    let n = roster.len();
    let m = n - 1;
    let mut out: Vec<Vec<(String, String)>> = Vec::new();
    let mut half: usize = 0;
    while half < halves
        invariant
            n == roster.len(),
            m == n - 1,
            n >= 2,
            n % 2 == 0,
            n <= 0x4000_0000,
            1 <= halves <= 2,
            half <= halves,
            bye@ == "BYE"@,
            ro == views(roster@),
            out@.len() == rounds_upto(ro, half * m).len(),
            forall|k: int|
                0 <= k < out@.len() ==> pair_views((#[trigger] out@[k])@) == rounds_upto(
                    ro,
                    half * m,
                )[k],
        decreases halves - half,
    {
        let mut round: usize = 0;
        while round < m
            invariant
                n == roster.len(),
                m == n - 1,
                n >= 2,
                n % 2 == 0,
                n <= 0x4000_0000,
                half < halves <= 2,
                round <= m,
                bye@ == "BYE"@,
                ro == views(roster@),
                out@.len() == rounds_upto(ro, half * m + round).len(),
                forall|k: int|
                    0 <= k < out@.len() ==> pair_views((#[trigger] out@[k])@) == rounds_upto(
                        ro,
                        half * m + round,
                    )[k],
            decreases m - round,
        {
            let pairs = round_of(roster, &bye, round, half == 1);
            let ghost slot = half * m + round;
            assert(slot % (m as int) == round) by (nonlinear_arith)
                requires
                    slot == half * m + round,
                    round < m,
                    half <= 1,
            ;
            assert((slot >= m) == (half == 1)) by (nonlinear_arith)
                requires
                    slot == half * m + round,
                    round < m,
                    half <= 1,
            ;
            assert(rounds_upto(ro, slot + 1) == (if round_pairs(ro, round as int, half == 1).len()
                > 0 {
                rounds_upto(ro, slot).push(round_pairs(ro, round as int, half == 1))
            } else {
                rounds_upto(ro, slot)
            }));
            if pairs.len() > 0 {
                out.push(pairs);
            }
            round = round + 1;
        }
        assert(half * m + m == (half + 1) * m) by (nonlinear_arith);
        half = half + 1;
    }
    out
}

fn assign_gameweeks(rounds: &Vec<Vec<(String, String)>>, gpw: u32, Ghost(spec_r): Ghost<
    Seq<Seq<Pairing>>,
>) -> (out: Vec<ScheduledMatch>)
    requires
        rounds@.len() == spec_r.len(),
        forall|k: int| 0 <= k < rounds@.len() ==> pair_views((#[trigger] rounds@[k])@) == spec_r[k],
        gpw > 0 || rounds@.len() == 0,
        rounds@.len() <= u32::MAX,
    ensures
        matches_are(out@, with_gameweeks(spec_r, gpw as int)),
{
    let mut out: Vec<ScheduledMatch> = Vec::new();
    let mut idx: usize = 0;
    while idx < rounds.len()
        invariant
            idx <= rounds@.len(),
            rounds@.len() == spec_r.len(),
            rounds@.len() <= u32::MAX,
            gpw > 0 || rounds@.len() == 0,
            forall|k: int| 0 <= k < rounds@.len() ==> pair_views((#[trigger] rounds@[k])@) == spec_r[k],
            matches_are(out@, with_gameweeks(spec_r.take(idx as int), gpw as int)),
        decreases rounds@.len() - idx,
    {
        let gameweek = (idx as u32 / gpw) + 1;
        let pairs = &rounds[idx];
        let ghost base = out@;
        let ghost prefix = with_gameweeks(spec_r.take(idx as int), gpw as int);
        let ghost block = spec_r[idx as int].map_values(
            |p: Pairing| (gameweek_of(idx as int, gpw as int), p),
        );
        assert(spec_r.take(idx + 1).drop_last() =~= spec_r.take(idx as int));
        assert(with_gameweeks(spec_r.take(idx + 1), gpw as int) == prefix + block);
        let mut j: usize = 0;
        while j < pairs.len()
            invariant
                j <= pairs@.len(),
                pair_views(pairs@) == spec_r[idx as int],
                gameweek == gameweek_of(idx as int, gpw as int),
                block == spec_r[idx as int].map_values(
                    |p: Pairing| (gameweek_of(idx as int, gpw as int), p),
                ),
                matches_are(out@, prefix + block.take(j as int)),
            decreases pairs@.len() - j,
        {
            let (h, a) = &pairs[j];
            out.push(ScheduledMatch { gameweek, home_team: h.clone(), away_team: a.clone(), played: false });
            assert(prefix + block.take(j + 1) =~= (prefix + block.take(j as int)).push(block[j as int]));
            j = j + 1;
        }
        assert(block.take(j as int) =~= block);
        idx = idx + 1;
    }
    assert(spec_r.take(rounds@.len() as int) =~= spec_r);
    out
}

/// `generate_schedule`: a double round-robin by the circle method. With an
/// odd number of teams a `BYE` placeholder is added and its pairings dropped;
/// the second half repeats the first with home and away swapped; rounds
/// without fixtures are skipped, and every `games_per_week` rounds form one
/// numbered gameweek.
pub fn generate_schedule(teams: &[String], games_per_week: u32) -> (out: Vec<ScheduledMatch>)
    requires
        teams@.len() >= 1,
        teams@.len() < 0x4000_0000,
        games_per_week > 0 || spec_rounds(views(teams@), 2).len() == 0,
    ensures
        matches_are(out@, with_gameweeks(spec_rounds(views(teams@), 2), games_per_week as int)),
{
    let roster = build_roster(teams);
    assert(views(roster@).len() == roster@.len());
    assert(roster.len() >= 2);
    let rounds = all_rounds(&roster, 2);
    proof {
        lemma_rounds_len(views(roster@), 2 * (roster.len() - 1));
    }
    assign_gameweeks(&rounds, games_per_week, Ghost(spec_rounds(views(teams@), 2)))
}

/// `generate_single_robin`: a single round-robin (each pair meets once), by
/// the same method as `generate_schedule` without the second half.
pub fn generate_single_robin(teams: &[String], games_per_week: u32) -> (out: Vec<ScheduledMatch>)
    requires
        teams@.len() >= 1,
        teams@.len() < 0x4000_0000,
        games_per_week > 0 || spec_rounds(views(teams@), 1).len() == 0,
    ensures
        matches_are(out@, with_gameweeks(spec_rounds(views(teams@), 1), games_per_week as int)),
{
    let roster = build_roster(teams);
    assert(views(roster@).len() == roster@.len());
    assert(roster.len() >= 2);
    let rounds = all_rounds(&roster, 1);
    proof {
        lemma_rounds_len(views(roster@), 1 * (roster.len() - 1));
    }
    assert(1 * (roster.len() - 1) == roster.len() - 1);
    assign_gameweeks(&rounds, games_per_week, Ghost(spec_rounds(views(teams@), 1)))
}

/// `generate_knockout_round`: seeds in order play 1 v N, 2 v N-1, ...; with
/// an odd number of teams the highest seed (the first) receives a bye and
/// the others are paired the same way. Every match is stamped with
/// `start_gameweek`.
pub fn generate_knockout_round(teams: &[String], start_gameweek: u32) -> (out: Vec<ScheduledMatch>)
    ensures
        out@.len() == teams@.len() / 2,
        forall|i: int|
            0 <= i < out@.len() ==> {
                &&& (#[trigger] out@[i]).gameweek == start_gameweek
                &&& out@[i].home_team@ == teams@[teams@.len() % 2 + i]@
                &&& out@[i].away_team@ == teams@[teams@.len() - 1 - i]@
                &&& !out@[i].played
            },
{
    let n = teams.len();
    let first = n % 2;
    let pairs = n / 2;
    let mut out: Vec<ScheduledMatch> = Vec::new();
    let mut i: usize = 0;
    while i < pairs
        invariant
            n == teams@.len(),
            first == n % 2,
            pairs == n / 2,
            i <= pairs,
            out@.len() == i,
            forall|k: int|
                0 <= k < i ==> {
                    &&& (#[trigger] out@[k]).gameweek == start_gameweek
                    &&& out@[k].home_team@ == teams@[first + k]@
                    &&& out@[k].away_team@ == teams@[n - 1 - k]@
                    &&& !out@[k].played
                },
        decreases pairs - i,
    {
        out.push(
            ScheduledMatch {
                gameweek: start_gameweek,
                home_team: teams[first + i].clone(),
                away_team: teams[n - 1 - i].clone(),
                played: false,
            },
        );
        i = i + 1;
    }
    out
}

} // verus!
