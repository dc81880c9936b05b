//! What the read-only commands show: the table description, recent results,
//! a team's form, head-to-head records, the website link and who may edit.
use vstd::prelude::*;

use crate::fixtures::last_n;
use crate::table_utils::{find_team_index, format_table_monospace, spec_find_team, spec_format_table, Fixture, Team};
use crate::text::{
    int_decimal, nat_digits, normalize_team_name, owned, push_char, push_nat, push_str,
    spec_normalize,
};

verus! {

// ---------------------------------------------------------------------------
// /table
// ---------------------------------------------------------------------------

/// The body of the `/table` reply.
pub open spec fn spec_table_description(table: Seq<Team>) -> Seq<char> {
    if table.len() == 0 {
        "No teams have been added yet! Use `/addteam` to get started."@
    } else {
        "```\n"@ + spec_format_table(table) + "\n```"@
    }
}

/// The `/table` reply: the standings in a code block, or a hint when empty.
pub fn table_description(table: &Vec<Team>) -> (r: String)
    ensures
        r@ == spec_table_description(table@),
{
    if table.len() == 0 {
        owned("No teams have been added yet! Use `/addteam` to get started.")
    } else {
        let mut s = owned("```\n");
        let body = format_table_monospace(table);
        push_str(&mut s, body.as_str());
        push_str(&mut s, "\n```");
        s
    }
}

// ---------------------------------------------------------------------------
// /fixtures
// ---------------------------------------------------------------------------

/// One line of the recent-results list.
pub open spec fn result_line(f: Fixture) -> Seq<char> {
    "**"@ + f.home_team@ + "** "@ + int_decimal(f.home_score as int) + "-"@ + int_decimal(
        f.away_score as int,
    ) + " **"@ + f.away_team@ + "**"@
}

fn push_decimal(s: &mut String, x: i32)
    ensures
        final(s)@ == old(s)@ + int_decimal(x as int),
{
    let d = crate::text::decimal(x as i64);
    push_str(s, d.as_str());
}

/// The `/fixtures` reply: the last ten results, oldest first, one line each.
pub fn recent_results(fixtures: &Vec<Fixture>) -> (r: Vec<String>)
    ensures
        r@.len() == last_n(fixtures@, 10).len(),
        forall|i: int| 0 <= i < r@.len() ==> (#[trigger] r@[i])@ == result_line(last_n(fixtures@, 10)[i]),
{
    let total = fixtures.len();
    let start = if total > 10 {
        total - 10
    } else {
        0
    };
    let mut out: Vec<String> = Vec::new();
    let mut k: usize = start;
    while k < total
        invariant
            start <= k <= total,
            total == fixtures@.len(),
            start == (if total > 10 { total - 10 } else { 0 }),
            out@.len() == k - start,
            forall|i: int| 0 <= i < out@.len() ==> (#[trigger] out@[i])@ == result_line(fixtures@[start + i]),
        decreases total - k,
    {
        let f = &fixtures[k];
        let mut s = owned("**");
        push_str(&mut s, f.home_team.as_str());
        push_str(&mut s, "** ");
        push_decimal(&mut s, f.home_score);
        push_str(&mut s, "-");
        push_decimal(&mut s, f.away_score);
        push_str(&mut s, " **");
        push_str(&mut s, f.away_team.as_str());
        push_str(&mut s, "**");
        out.push(s);
        k = k + 1;
    }
    out
}

// ---------------------------------------------------------------------------
// /form
// ---------------------------------------------------------------------------

/// The logged results in which `key` played, oldest first.
pub open spec fn team_fixtures(fs: Seq<Fixture>, key: Seq<char>) -> Seq<Fixture> {
    fs.filter(|f: Fixture| f.home_team@ == key || f.away_team@ == key)
}

/// The badge for one of `key`'s results.
pub open spec fn form_badge(f: Fixture, key: Seq<char>) -> Seq<char> {
    if f.home_score == f.away_score {
        "🟡 D"@
    } else if (f.home_team@ == key && f.home_score > f.away_score) || (f.away_team@ == key
        && f.away_score > f.home_score) {
        "🟢 W"@
    } else {
        "🔴 L"@
    }
}

/// The `/form` reply: badges for the team's last five results, oldest first.
#[allow(deprecated)]
pub fn form_badges(fixtures: &Vec<Fixture>, team_key: &String) -> (r: Vec<&'static str>)
    ensures
        r@.len() == last_n(team_fixtures(fixtures@, team_key@), 5).len(),
        forall|i: int| 0 <= i < r@.len() ==> (#[trigger] r@[i])@ == form_badge(
            last_n(team_fixtures(fixtures@, team_key@), 5)[i],
            team_key@,
        ),
        forall|i: int|
            0 <= i < r@.len() ==> {
                let f = last_n(team_fixtures(fixtures@, team_key@), 5)[i];
                &&& f.home_team@ == team_key@ || f.away_team@ == team_key@
                &&& ((#[trigger] r@[i])@ == "🟡 D"@) <==> f.home_score == f.away_score
                &&& f.home_team@ != f.away_team@ ==> ((r@[i]@ == "🟢 W"@) <==> own_score(f, team_key@)
                    > opp_score(f, team_key@))
                &&& f.home_team@ != f.away_team@ ==> ((r@[i]@ == "🔴 L"@) <==> own_score(f, team_key@)
                    < opp_score(f, team_key@))
            },
{
    let ghost key = team_key@;
    let mut relevant: Vec<Fixture> = Vec::new();
    let mut i: usize = 0;
    while i < fixtures.len()
        invariant
            i <= fixtures@.len(),
            key == team_key@,
            relevant@ == team_fixtures(fixtures@.take(i as int), key),
        decreases fixtures@.len() - i,
    {
        let f = &fixtures[i];
        proof {
            reveal_with_fuel(Seq::filter, 1);
            assert(fixtures@.take(i + 1).drop_last() =~= fixtures@.take(i as int));
        }
        if f.home_team == *team_key || f.away_team == *team_key {
            relevant.push(f.clone());
        }
        i = i + 1;
    }
    assert(fixtures@.take(fixtures@.len() as int) =~= fixtures@);
    let n = relevant.len();
    let start = if n > 5 {
        n - 5
    } else {
        0
    };
    let mut out: Vec<&'static str> = Vec::new();
    let mut k: usize = start;
    while k < n
        invariant
            start <= k <= n,
            n == relevant@.len(),
            key == team_key@,
            start == (if n > 5 { n - 5 } else { 0 }),
            out@.len() == k - start,
            forall|q: int| 0 <= q < out@.len() ==> (#[trigger] out@[q])@ == form_badge(relevant@[start + q], key),
        decreases n - k,
    {
        let f = &relevant[k];
        let b: &'static str = if f.home_score == f.away_score {
            "🟡 D"
        } else if (f.home_team == *team_key && f.home_score > f.away_score) || (f.away_team
            == *team_key && f.away_score > f.home_score) {
            "🟢 W"
        } else {
            "🔴 L"
        };
        out.push(b);
        k = k + 1;
    }
    proof {
        let tf = team_fixtures(fixtures@, key);
        let ln = last_n(tf, 5);
        fixtures@.filter_lemma(|f: Fixture| f.home_team@ == key || f.away_team@ == key);
        assert forall|i: int| 0 <= i < out@.len() implies {
            let f = ln[i];
            &&& f.home_team@ == key || f.away_team@ == key
            &&& ((#[trigger] out@[i])@ == "🟡 D"@) <==> f.home_score == f.away_score
            &&& f.home_team@ != f.away_team@ ==> ((out@[i]@ == "🟢 W"@) <==> own_score(f, key) > opp_score(f, key))
            &&& f.home_team@ != f.away_team@ ==> ((out@[i]@ == "🔴 L"@) <==> own_score(f, key) < opp_score(f, key))
        } by {
            assert(relevant@ == tf);
            assert(0 <= start + i < tf.len());
            assert(ln[i] == tf[start + i]);
            law_form_badge_meaning(ln[i], key);
        }
    }
    out
}

/// The team's own score in a result it played: the home score when it was
/// the home side, otherwise the away score.
pub open spec fn own_score(f: Fixture, key: Seq<char>) -> int {
    if f.home_team@ == key {
        f.home_score as int
    } else {
        f.away_score as int
    }
}

/// The score of the team's opponent in a result it played.
pub open spec fn opp_score(f: Fixture, key: Seq<char>) -> int {
    if f.home_team@ == key {
        f.away_score as int
    } else {
        f.home_score as int
    }
}

/// A form badge says how the team's own match went: a draw exactly when the
/// scores are level, and (for a match between two different sides) a win
/// exactly when the team scored more than its opponent and a loss exactly
/// when it scored fewer.
pub proof fn law_form_badge_meaning(f: Fixture, key: Seq<char>)
    requires
        f.home_team@ == key || f.away_team@ == key,
    ensures
        (form_badge(f, key) == "🟡 D"@) <==> f.home_score == f.away_score,
        f.home_team@ != f.away_team@ ==> ((form_badge(f, key) == "🟢 W"@) <==> own_score(f, key) > opp_score(f, key)),
        f.home_team@ != f.away_team@ ==> ((form_badge(f, key) == "🔴 L"@) <==> own_score(f, key) < opp_score(f, key)),
{
    reveal_strlit("🟡 D");
    reveal_strlit("🟢 W");
    reveal_strlit("🔴 L");
    assert("🟡 D"@[0] != "🟢 W"@[0]);
    assert("🟡 D"@[0] != "🔴 L"@[0]);
    assert("🟢 W"@[0] != "🔴 L"@[0]);
}

// ---------------------------------------------------------------------------
// /head2head
// ---------------------------------------------------------------------------

/// Why a head-to-head request was refused.
pub enum HeadToHeadError {
    /// The (normalised) team is not in the table.
    NotInTable(String),
    /// The same team was given twice.
    SameTeam,
}

/// Checks the two teams of `/head2head`: each must be in the table (first
/// the first team, then the second) and they must differ. Returns their
/// normalised names.
pub fn check_head_to_head(table: &Vec<Team>, team1: &str, team2: &str) -> (r: Result<(String, String), HeadToHeadError>)
    ensures
        ({
            let t1 = spec_normalize(team1@);
            let t2 = spec_normalize(team2@);
            &&& r matches Ok((a, b)) ==> a@ == t1 && b@ == t2 && spec_find_team(table@, t1) is Some
                && spec_find_team(table@, t2) is Some && t1 != t2
            &&& r matches Err(HeadToHeadError::NotInTable(n)) ==> (spec_find_team(table@, t1) is None
                && n@ == t1) || (spec_find_team(table@, t1) is Some && spec_find_team(table@, t2) is None
                && n@ == t2)
            &&& r matches Err(HeadToHeadError::SameTeam) ==> spec_find_team(table@, t1) is Some
                && spec_find_team(table@, t2) is Some && t1 == t2
        }),
{
    let t1 = normalize_team_name(team1);
    let t2 = normalize_team_name(team2);
    if find_team_index(table, t1.as_str()).is_none() {
        return Err(HeadToHeadError::NotInTable(t1));
    }
    if find_team_index(table, t2.as_str()).is_none() {
        return Err(HeadToHeadError::NotInTable(t2));
    }
    if t1 == t2 {
        return Err(HeadToHeadError::SameTeam);
    }
    Ok((t1, t2))
}

/// A logged result between the two teams, either way round.
pub open spec fn is_meeting(f: crate::fixtures::Fixture, t1: Seq<char>, t2: Seq<char>) -> bool {
    (f.home@ == t1 && f.away@ == t2) || (f.home@ == t2 && f.away@ == t1)
}

/// The meetings of the two teams, oldest first.
pub open spec fn meetings(fs: Seq<crate::fixtures::Fixture>, t1: Seq<char>, t2: Seq<char>) -> Seq<crate::fixtures::Fixture> {
    fs.filter(|f: crate::fixtures::Fixture| is_meeting(f, t1, t2))
}

/// The first team's score in a meeting, and the second team's.
pub open spec fn first_team_scores(f: crate::fixtures::Fixture, t1: Seq<char>) -> (int, int) {
    if f.home@ == t1 {
        (f.home_score as int, f.away_score as int)
    } else {
        (f.away_score as int, f.home_score as int)
    }
}

/// How many meetings end with the first team's score above (`sign` 1), below
/// (`sign` -1) or equal to (`sign` 0) the second's.
pub open spec fn tally(ms: Seq<crate::fixtures::Fixture>, t1: Seq<char>, sign: int) -> nat
    decreases ms.len(),
{
    if ms.len() == 0 {
        0
    } else {
        let (a, b) = first_team_scores(ms.last(), t1);
        let hit = if sign > 0 {
            a > b
        } else if sign < 0 {
            a < b
        } else {
            a == b
        };
        tally(ms.drop_last(), t1, sign) + if hit {
            1nat
        } else {
            0nat
        }
    }
}

/// One line of the head-to-head history.
pub open spec fn meeting_line(f: crate::fixtures::Fixture) -> Seq<char> {
    f.home@ + " "@ + int_decimal(f.home_score as int) + " - "@ + int_decimal(f.away_score as int)
        + " "@ + f.away@
}

/// The `/head2head` record: the meetings, oldest first, and the tallies.
pub struct HeadToHead {
    pub lines: Vec<String>,
    pub t1_wins: u32,
    pub t2_wins: u32,
    pub draws: u32,
}

/// The head-to-head record of `t1` against `t2` over the results log.
pub fn head_to_head(fixtures: &Vec<crate::fixtures::Fixture>, t1: &String, t2: &String) -> (r: HeadToHead)
    requires
        fixtures@.len() <= u32::MAX,
    ensures
        r.lines@.len() == meetings(fixtures@, t1@, t2@).len(),
        forall|i: int| 0 <= i < r.lines@.len() ==> (#[trigger] r.lines@[i])@ == meeting_line(
            meetings(fixtures@, t1@, t2@)[i],
        ),
        r.t1_wins == tally(meetings(fixtures@, t1@, t2@), t1@, 1),
        r.t2_wins == tally(meetings(fixtures@, t1@, t2@), t1@, -1),
        r.draws == tally(meetings(fixtures@, t1@, t2@), t1@, 0),
        r.lines@.len() == results_between(fixtures@, t1@, t2@),
        r.t1_wins + r.t2_wins + r.draws == r.lines@.len(),
        t1@ != t2@ ==> r.t1_wins == wins_between(fixtures@, t1@, t2@) && r.t2_wins == wins_between(
            fixtures@,
            t2@,
            t1@,
        ),
        forall|i: int|
            0 <= i < r.lines@.len() ==> {
                let m = #[trigger] meetings(fixtures@, t1@, t2@)[i];
                (m.home@ == t1@ && m.away@ == t2@) || (m.home@ == t2@ && m.away@ == t1@)
            },
{
    let ghost a = t1@;
    let ghost b = t2@;
    let mut lines: Vec<String> = Vec::new();
    let mut t1_wins: u32 = 0;
    let mut t2_wins: u32 = 0;
    let mut draws: u32 = 0;
    let mut i: usize = 0;
    while i < fixtures.len()
        invariant
            i <= fixtures@.len(),
            fixtures@.len() <= u32::MAX,
            a == t1@,
            b == t2@,
            lines@.len() == meetings(fixtures@.take(i as int), a, b).len(),
            lines@.len() <= i,
            forall|k: int| 0 <= k < lines@.len() ==> (#[trigger] lines@[k])@ == meeting_line(
                meetings(fixtures@.take(i as int), a, b)[k],
            ),
            t1_wins == tally(meetings(fixtures@.take(i as int), a, b), a, 1),
            t2_wins == tally(meetings(fixtures@.take(i as int), a, b), a, -1),
            draws == tally(meetings(fixtures@.take(i as int), a, b), a, 0),
            t1_wins + t2_wins + draws == lines@.len(),
        decreases fixtures@.len() - i,
    {
        let f = &fixtures[i];
        let ghost prev = meetings(fixtures@.take(i as int), a, b);
        proof {
            reveal_with_fuel(Seq::filter, 1);
            assert(fixtures@.take(i + 1).drop_last() =~= fixtures@.take(i as int));
        }
        if (f.home == *t1 && f.away == *t2) || (f.home == *t2 && f.away == *t1) {
            let ghost now = meetings(fixtures@.take(i + 1), a, b);
            assert(now == prev.push(*f));
            assert(now.drop_last() =~= prev);
            let mut line = String::new();
            push_str(&mut line, f.home.as_str());
            push_str(&mut line, " ");
            let hs = crate::text::decimal(f.home_score);
            push_str(&mut line, hs.as_str());
            push_str(&mut line, " - ");
            let aws = crate::text::decimal(f.away_score);
            push_str(&mut line, aws.as_str());
            push_str(&mut line, " ");
            push_str(&mut line, f.away.as_str());
            assert(line@ =~= meeting_line(*f));
            lines.push(line);
            let (x, y) = if f.home == *t1 {
                (f.home_score, f.away_score)
            } else {
                (f.away_score, f.home_score)
            };
            if x > y {
                t1_wins = t1_wins + 1;
            } else if x < y {
                t2_wins = t2_wins + 1;
            } else {
                draws = draws + 1;
            }
        } else {
            assert(meetings(fixtures@.take(i + 1), a, b) == prev);
        }
        i = i + 1;
    }
    assert(fixtures@.take(fixtures@.len() as int) =~= fixtures@);
    proof {
        law_meetings_are_between(fixtures@, t1@, t2@);
        if t1@ != t2@ {
            law_head_to_head_wins(fixtures@, t1@, t2@);
        }
    }
    HeadToHead { lines, t1_wins, t2_wins, draws }
}

/// How many logged results are between the two teams, either way round.
pub open spec fn results_between(fs: Seq<crate::fixtures::Fixture>, t1: Seq<char>, t2: Seq<char>) -> nat
    decreases fs.len(),
{
    if fs.len() == 0 {
        0
    } else {
        let f = fs.last();
        results_between(fs.drop_last(), t1, t2) + if (f.home@ == t1 && f.away@ == t2) || (f.home@ == t2
            && f.away@ == t1) {
            1nat
        } else {
            0nat
        }
    }
}

/// How many logged results between `a` and `b` (either way round) `a` won,
/// scoring more than `b`.
pub open spec fn wins_between(fs: Seq<crate::fixtures::Fixture>, a: Seq<char>, b: Seq<char>) -> nat
    decreases fs.len(),
{
    if fs.len() == 0 {
        0
    } else {
        let f = fs.last();
        let won = if f.home@ == a && f.away@ == b {
            f.home_score > f.away_score
        } else if f.home@ == b && f.away@ == a {
            f.away_score > f.home_score
        } else {
            false
        };
        wins_between(fs.drop_last(), a, b) + if won {
            1nat
        } else {
            0nat
        }
    }
}

/// The head-to-head wins are the results each team won against the other.
pub proof fn law_head_to_head_wins(fs: Seq<crate::fixtures::Fixture>, t1: Seq<char>, t2: Seq<char>)
    requires
        t1 != t2,
    ensures
        tally(meetings(fs, t1, t2), t1, 1) == wins_between(fs, t1, t2),
        tally(meetings(fs, t1, t2), t1, -1) == wins_between(fs, t2, t1),
    decreases fs.len(),
{
    if fs.len() > 0 {
        law_head_to_head_wins(fs.drop_last(), t1, t2);
        reveal_with_fuel(Seq::filter, 1);
        let prev = meetings(fs.drop_last(), t1, t2);
        let f = fs.last();
        if is_meeting(f, t1, t2) {
            assert(meetings(fs, t1, t2) == prev.push(f));
            assert(meetings(fs, t1, t2).drop_last() =~= prev);
        } else {
            assert(meetings(fs, t1, t2) == prev);
        }
    }
}

/// The meetings of two teams are exactly their results: each one has the
/// two teams as its home and away sides (either way round), and there are as
/// many as there are logged results between them.
#[allow(deprecated)]
pub proof fn law_meetings_are_between(fs: Seq<crate::fixtures::Fixture>, t1: Seq<char>, t2: Seq<char>)
    ensures
        meetings(fs, t1, t2).len() == results_between(fs, t1, t2),
        forall|i: int|
            0 <= i < meetings(fs, t1, t2).len() ==> {
                let m = #[trigger] meetings(fs, t1, t2)[i];
                (m.home@ == t1 && m.away@ == t2) || (m.home@ == t2 && m.away@ == t1)
            },
    decreases fs.len(),
{
    let p = |f: crate::fixtures::Fixture| is_meeting(f, t1, t2);
    fs.filter_lemma(p);
    if fs.len() > 0 {
        law_meetings_are_between(fs.drop_last(), t1, t2);
        reveal_with_fuel(Seq::filter, 1);
        assert(meetings(fs, t1, t2) == (if is_meeting(fs.last(), t1, t2) {
            meetings(fs.drop_last(), t1, t2).push(fs.last())
        } else {
            meetings(fs.drop_last(), t1, t2)
        }));
    }
    assert forall|i: int| 0 <= i < meetings(fs, t1, t2).len() implies {
        let m = #[trigger] meetings(fs, t1, t2)[i];
        (m.home@ == t1 && m.away@ == t2) || (m.home@ == t2 && m.away@ == t1)
    } by {
        assert(p(meetings(fs, t1, t2)[i]));
    }
}

// ---------------------------------------------------------------------------
// /website
// ---------------------------------------------------------------------------

/// `s` without trailing '/' characters.
pub open spec fn strip_slashes(s: Seq<char>) -> Seq<char>
    decreases s.len(),
{
    if s.len() > 0 && s.last() == '/' {
        strip_slashes(s.drop_last())
    } else {
        s
    }
}

/// The public link to a server's table page.
pub open spec fn spec_table_url(base: Seq<char>, guild_id: u64) -> Seq<char> {
    strip_slashes(base) + "/g/"@ + nat_digits(guild_id as nat)
}

/// The `/website` link: the base URL without trailing slashes, then
/// `/g/<guild id>`.
pub fn table_url(base: &str, guild_id: u64) -> (r: String)
    ensures
        r@ == spec_table_url(base@, guild_id),
{
    let mut end = base.unicode_len();
    assert(base@.take(end as int) =~= base@);
    while end > 0 && base.get_char(end - 1) == '/'
        invariant
            end <= base@.len(),
            strip_slashes(base@) == strip_slashes(base@.take(end as int)),
        decreases end,
    {
        assert(base@.take(end as int).drop_last() =~= base@.take(end - 1));
        end = end - 1;
    }
    assert(strip_slashes(base@.take(end as int)) == base@.take(end as int));
    let mut s = String::new();
    let mut i: usize = 0;
    while i < end
        invariant
            i <= end <= base@.len(),
            s@ == base@.take(i as int),
        decreases end - i,
    {
        push_char(&mut s, base.get_char(i));
        assert(s@ =~= base@.take(i + 1));
        i = i + 1;
    }
    push_str(&mut s, "/g/");
    push_nat(&mut s, guild_id);
    s
}

// ---------------------------------------------------------------------------
// Permissions
// ---------------------------------------------------------------------------

/// Whether a member may run the admin commands: only inside a server, when
/// the member has the Manage Server permission or holds the configured admin
/// role.
pub open spec fn spec_may_administer(
    in_guild: bool,
    manage_guild: bool,
    admin_role: Option<u64>,
    member_roles: Seq<u64>,
) -> bool {
    in_guild && (manage_guild || (admin_role matches Some(role) && member_roles.contains(role)))
}

/// The decision of `is_admin` from what Discord reports about the member.
pub fn may_administer(in_guild: bool, manage_guild: bool, admin_role: Option<u64>, member_roles: &Vec<u64>) -> (r: bool)
    ensures
        r == spec_may_administer(in_guild, manage_guild, admin_role, member_roles@),
{
    if !in_guild {
        return false;
    }
    if manage_guild {
        return true;
    }
    match admin_role {
        Some(role) => {
            let mut i: usize = 0;
            while i < member_roles.len()
                invariant
                    i <= member_roles@.len(),
                    admin_role == Some(role),
                    in_guild && !manage_guild,
                    forall|k: int| 0 <= k < i ==> member_roles@[k] != role,
                decreases member_roles@.len() - i,
            {
                if member_roles[i] == role {
                    assert(member_roles@[i as int] == role);
                    assert(member_roles@.contains(role));
                    return true;
                }
                i = i + 1;
            }
            false
        },
        None => false,
    }
}

// ---------------------------------------------------------------------------
// Team-name autocompletion.
// ---------------------------------------------------------------------------

/// `p` is a prefix of `s`.
pub open spec fn is_prefix(p: Seq<char>, s: Seq<char>) -> bool {
    p.len() <= s.len() && s.take(p.len() as int) == p
}

/// `s.starts_with(p)`.
pub fn starts_with(s: &str, p: &str) -> (r: bool)
    ensures
        r == is_prefix(p@, s@),
{
    let n = p.unicode_len();
    if n > s.unicode_len() {
        return false;
    }
    let mut i: usize = 0;
    while i < n
        invariant
            n == p@.len(),
            n <= s@.len(),
            i <= n,
            s@.take(i as int) == p@.take(i as int),
        decreases n - i,
    {
        if s.get_char(i) != p.get_char(i) {
            assert(s@.take(n as int)[i as int] != p@[i as int]);
            return false;
        }
        assert(s@.take(i + 1) =~= s@.take(i as int).push(s@[i as int]));
        assert(p@.take(i + 1) =~= p@.take(i as int).push(p@[i as int]));
        i = i + 1;
    }
    assert(p@.take(n as int) =~= p@);
    true
}

/// The clubs offered while typing: those whose lower-cased name starts with
/// the lower-cased input, in table order.
pub open spec fn completions(table: Seq<Team>, partial: Seq<char>) -> Seq<Seq<char>>
    decreases table.len(),
{
    if table.len() == 0 {
        Seq::empty()
    } else {
        let prev = completions(table.drop_last(), partial);
        let c = table.last().club@;
        if is_prefix(crate::text::spec_to_lowercase(partial), crate::text::spec_to_lowercase(c)) {
            prev.push(c)
        } else {
            prev
        }
    }
}

/// The team names suggested for a partially typed name.
pub fn autocomplete_team(table: &Vec<Team>, partial: &str) -> (r: Vec<String>)
    ensures
        crate::text::views(r@) == completions(table@, partial@),
{
    let lower = crate::text::to_lower(partial);
    let mut out: Vec<String> = Vec::new();
    let mut i: usize = 0;
    while i < table.len()
        invariant
            i <= table@.len(),
            lower@ == crate::text::spec_to_lowercase(partial@),
            crate::text::views(out@) == completions(table@.take(i as int), partial@),
        decreases table@.len() - i,
    {
        assert(table@.take(i + 1).drop_last() =~= table@.take(i as int));
        let name = crate::text::to_lower(table[i].club.as_str());
        if starts_with(name.as_str(), lower.as_str()) {
            out.push(table[i].club.clone());
            assert(crate::text::views(out@) =~= completions(table@.take(i + 1), partial@));
        }
        i = i + 1;
    }
    assert(table@.take(table@.len() as int) =~= table@);
    out
}

// ---------------------------------------------------------------------------
// The website's landing page.
// ---------------------------------------------------------------------------

/// Server ids in increasing order.
pub open spec fn ids_sorted(v: Seq<u64>) -> bool {
    forall|i: int, j: int| 0 <= i < j < v.len() ==> v[i] <= v[j]
}

/// Sorts the ids of the servers that have a table.
pub fn sort_ids(ids: &mut Vec<u64>)
    ensures
        ids_sorted(final(ids)@),
        final(ids)@.to_multiset() == old(ids)@.to_multiset(),
{
    broadcast use vstd::seq_lib::group_to_multiset_ensures;

    let n = ids.len();
    let mut i: usize = 0;
    while i < n
        invariant
            n == ids@.len(),
            i <= n,
            ids_sorted(ids@.take(i as int)),
            ids@.to_multiset() == old(ids)@.to_multiset(),
        decreases n - i,
    {
        let ghost before = ids@;
        let x = ids.remove(i);
        proof {
            vstd::seq_lib::to_multiset_remove(before, i as int);
        }
        let mut j: usize = i;
        while j > 0 && ids[j - 1] > x
            invariant
                j <= i < n,
                ids@ == before.remove(i as int),
                before.len() == n,
                forall|k: int| j <= k < i ==> ids@[k] > x,
            decreases j,
        {
            j = j - 1;
        }
        let ghost mid = ids@;
        ids.insert(j, x);
        proof {
            vstd::seq_lib::to_multiset_insert(mid, j as int, x);
            broadcast use vstd::multiset::group_multiset_axioms;
            assert(before[i as int] == x);
            assert(before.contains(x));
            vstd::seq_lib::to_multiset_contains(before, x);
            assert(ids@.to_multiset() =~= before.to_multiset());
            assert forall|a: int, b: int| 0 <= a < b < i + 1 implies #[trigger] ids@.take(i + 1)[a] <= #[trigger] ids@.take(i + 1)[b] by {
                let t = ids@.take(i + 1);
                let bt = before.take(i as int);
                if b < j {
                    assert(t[a] == bt[a] && t[b] == bt[b]);
                } else if b == j {
                    assert(t[a] == bt[a]);
                    assert(bt[a] <= bt[j - 1]);
                } else if a < j {
                    assert(t[a] == bt[a] && t[b] == bt[b - 1]);
                } else if a == j {
                    assert(t[b] == mid[b - 1]);
                } else {
                    assert(t[a] == bt[a - 1] && t[b] == bt[b - 1]);
                }
            }
        }
        i = i + 1;
    }
    assert(ids@.take(n as int) =~= ids@);
}

/// Where the website's root sends a visitor: the configured default server
/// when there is one, else the only server with a table; otherwise it shows
/// the list of servers.
pub fn landing_target(default_guild: Option<u64>, guilds: &Vec<u64>) -> (r: Option<u64>)
    ensures
        r == (match default_guild {
            Some(g) => Some(g),
            None => if guilds@.len() == 1 {
                Some(guilds@[0])
            } else {
                None
            },
        }),
{
    match default_guild {
        Some(g) => Some(g),
        None => {
            if guilds.len() == 1 {
                Some(guilds[0])
            } else {
                None
            }
        },
    }
}

} // verus!
