//! The league table: teams, their ranking order, lookup by name and the
//! monospace rendering of the standings.
use vstd::prelude::*;

use crate::text::{
    decimal, int_decimal, lemma_seq_lt_irreflexive, lemma_seq_lt_total, lemma_seq_lt_transitive,
    nat_digits, normalize_team_name, pad_left, pad_right, push_char, push_left_aligned, push_nat,
    push_right_aligned, seq_lt, signed_decimal, signed_decimal_text, spec_normalize, text_lt,
};

verus! {

/// One row of the league table.
pub struct Team {
    pub pos: usize,
    pub club: String,
    pub pl: i32,
    pub w: i32,
    pub d: i32,
    pub l: i32,
    pub gd: i32,
    pub pts: i32,
}

impl Clone for Team {
    fn clone(&self) -> (r: Self)
        ensures
            r == *self,
    {
        Team {
            pos: self.pos,
            club: self.club.clone(),
            pl: self.pl,
            w: self.w,
            d: self.d,
            l: self.l,
            gd: self.gd,
            pts: self.pts,
        }
    }
}

/// A recorded match result.
pub struct Fixture {
    pub home_team: String,
    pub away_team: String,
    pub home_score: i32,
    pub away_score: i32,
}

impl Clone for Fixture {
    fn clone(&self) -> (r: Self)
        ensures
            r == *self,
    {
        Fixture {
            home_team: self.home_team.clone(),
            away_team: self.away_team.clone(),
            home_score: self.home_score,
            away_score: self.away_score,
        }
    }
}

/// Per-server settings.
pub struct Settings {
    pub admin_role_id: Option<u64>,
    pub log_channel_id: Option<u64>,
}

impl Default for Settings {
    fn default() -> (r: Self)
        ensures
            r.admin_role_id is None,
            r.log_channel_id is None,
    {
        Settings { admin_role_id: None, log_channel_id: None }
    }
}

impl Clone for Settings {
    fn clone(&self) -> (r: Self)
        ensures
            r == *self,
    {
        Settings { admin_role_id: self.admin_role_id, log_channel_id: self.log_channel_id }
    }
}

/// A single fixture in a named schedule.
pub struct ScheduledMatch {
    pub gameweek: u32,
    pub home_team: String,
    pub away_team: String,
    pub played: bool,
}

impl Clone for ScheduledMatch {
    fn clone(&self) -> (r: Self)
        ensures
            r == *self,
    {
        ScheduledMatch {
            gameweek: self.gameweek,
            home_team: self.home_team.clone(),
            away_team: self.away_team.clone(),
            played: self.played,
        }
    }
}

/// The type of competition a `NamedSchedule` represents.
#[derive(PartialEq, Eq, Structural, Clone, Copy, Debug)]
pub enum ScheduleKind {
    /// Full double round-robin (home & away): a standard league season.
    RoundRobin,
    /// Single round-robin: every pair meets once.
    SingleRoundRobin,
    /// Single-elimination knockout bracket.
    Knockout,
}

/// A named collection of fixtures, e.g. "Group A", "Preseason", "Knockout".
pub struct NamedSchedule {
    pub name: String,
    pub kind: ScheduleKind,
    pub matches: Vec<ScheduledMatch>,
}

impl Clone for NamedSchedule {
    fn clone(&self) -> (r: Self)
        ensures
            r.name == self.name,
            r.kind == self.kind,
            r.matches@ == self.matches@,
    {
        let mut matches: Vec<ScheduledMatch> = Vec::new();
        let mut i: usize = 0;
        while i < self.matches.len()
            invariant
                i <= self.matches.len(),
                matches@ == self.matches@.take(i as int),
            decreases self.matches.len() - i,
        {
            matches.push(self.matches[i].clone());
            assert(matches@ =~= self.matches@.take(i + 1));
            i = i + 1;
        }
        assert(matches@ =~= self.matches@);
        NamedSchedule { name: self.name.clone(), kind: self.kind, matches }
    }
}

/// Duplicates a table team by team.
pub fn clone_table(table: &Vec<Team>) -> (r: Vec<Team>)
    ensures
        r@ == table@,
{
    let mut out: Vec<Team> = Vec::new();
    let mut i: usize = 0;
    while i < table.len()
        invariant
            i <= table.len(),
            out@ == table@.take(i as int),
        decreases table.len() - i,
    {
        out.push(table[i].clone());
        assert(out@ =~= table@.take(i + 1));
        i = i + 1;
    }
    assert(out@ =~= table@);
    out
}

// ---------------------------------------------------------------------------
// Lookup by name.
// ---------------------------------------------------------------------------

/// The team's club name matches `key`, a normalised name.
pub open spec fn club_matches(t: Team, key: Seq<char>) -> bool {
    spec_normalize(t.club@) == key
}

/// The first index at or after `i` whose club matches `key`.
pub open spec fn find_from(table: Seq<Team>, key: Seq<char>, i: int) -> Option<int>
    decreases table.len() - i,
{
    if i < 0 || i >= table.len() {
        None
    } else if club_matches(table[i], key) {
        Some(i)
    } else {
        find_from(table, key, i + 1)
    }
}

/// The index of the first team whose normalised club name equals the
/// normalised `name`.
pub open spec fn spec_find_team(table: Seq<Team>, name: Seq<char>) -> Option<int> {
    find_from(table, spec_normalize(name), 0)
}

/// `find_from` gives the first match at or after `i`, or `None` when there is none.
pub proof fn lemma_find_from(table: Seq<Team>, key: Seq<char>, i: int)
    requires
        0 <= i <= table.len(),
    ensures
        match find_from(table, key, i) {
            Some(j) => i <= j < table.len() && club_matches(table[j], key) && forall|k: int|
                i <= k < j ==> !club_matches(#[trigger] table[k], key),
            None => forall|k: int| i <= k < table.len() ==> !club_matches(#[trigger] table[k], key),
        },
    decreases table.len() - i,
{
    if i < table.len() && !club_matches(table[i], key) {
        lemma_find_from(table, key, i + 1);
    }
}

/// Two tables whose club names agree position by position find the same index.
pub proof fn lemma_find_same_clubs(a: Seq<Team>, b: Seq<Team>, key: Seq<char>, i: int)
    requires
        a.len() == b.len(),
        forall|k: int| 0 <= k < a.len() ==> (#[trigger] a[k]).club == b[k].club,
    ensures
        find_from(a, key, i) == find_from(b, key, i),
    decreases a.len() - i,
{
    if 0 <= i < a.len() {
        lemma_find_same_clubs(a, b, key, i + 1);
    }
}

/// `find_team_index`: the position of the first team whose club name, once
/// normalised, equals the normalised `team_name`.
pub fn find_team_index(table: &Vec<Team>, team_name: &str) -> (r: Option<usize>)
    ensures
        match r {
            Some(i) => spec_find_team(table@, team_name@) == Some(i as int),
            None => spec_find_team(table@, team_name@) is None,
        },
        match r {
            Some(i) => i < table.len() && club_matches(table@[i as int], spec_normalize(team_name@))
                && forall|k: int|
                0 <= k < i ==> !club_matches(#[trigger] table@[k], spec_normalize(team_name@)),
            None => forall|k: int|
                0 <= k < table.len() ==> !club_matches(
                    #[trigger] table@[k],
                    spec_normalize(team_name@),
                ),
        },
{
    let needle = normalize_team_name(team_name);
    let ghost key = spec_normalize(team_name@);
    let mut i: usize = 0;
    while i < table.len()
        invariant
            i <= table.len(),
            needle@ == key,
            key == spec_normalize(team_name@),
            find_from(table@, key, 0) == find_from(table@, key, i as int),
            forall|k: int| 0 <= k < i ==> !club_matches(#[trigger] table@[k], key),
        decreases table.len() - i,
    {
        let name = normalize_team_name(table[i].club.as_str());
        if name == needle {
            proof {
                lemma_find_from(table@, key, 0);
            }
            return Some(i);
        }
        i = i + 1;
    }
    proof {
        lemma_find_from(table@, key, 0);
    }
    None
}

// ---------------------------------------------------------------------------
// Ranking order: points, then goal difference, then wins (all descending),
// then club name (ascending).
// ---------------------------------------------------------------------------

/// `a` is ranked strictly above `b`.
pub open spec fn ranks_before(a: Team, b: Team) -> bool {
    if a.pts != b.pts {
        a.pts > b.pts
    } else if a.gd != b.gd {
        a.gd > b.gd
    } else if a.w != b.w {
        a.w > b.w
    } else {
        seq_lt(a.club@, b.club@)
    }
}

/// `a` and `b` tie on every ranking criterion.
pub open spec fn same_rank(a: Team, b: Team) -> bool {
    a.pts == b.pts && a.gd == b.gd && a.w == b.w && a.club@ == b.club@
}

/// The table is in ranking order.
pub open spec fn is_ranked(t: Seq<Team>) -> bool {
    forall|i: int, j: int| 0 <= i < j < t.len() ==> !ranks_before(#[trigger] t[j], #[trigger] t[i])
}

/// `p` is a permutation of `0..n`.
pub open spec fn is_permutation(p: Seq<int>, n: int) -> bool {
    &&& p.len() == n
    &&& forall|i: int| 0 <= i < n ==> 0 <= #[trigger] p[i] < n
    &&& forall|i: int, j: int| 0 <= i < j < n ==> #[trigger] p[i] != #[trigger] p[j]
}

/// `new` is `old` reordered by `p`, in ranking order, with tied teams kept in
/// their original relative order.
pub open spec fn stable_sort_witness(new: Seq<Team>, old: Seq<Team>, p: Seq<int>) -> bool {
    &&& new.len() == old.len()
    &&& is_permutation(p, old.len() as int)
    &&& forall|i: int| 0 <= i < new.len() ==> #[trigger] new[i] == old[p[i]]
    &&& is_ranked(new)
    &&& forall|i: int, j: int|
        0 <= i < j < new.len() && same_rank(#[trigger] new[i], #[trigger] new[j]) ==> p[i] < p[j]
}

/// `new` is the stable sort of `old` by ranking order.
pub open spec fn is_stable_sort_of(new: Seq<Team>, old: Seq<Team>) -> bool {
    exists|p: Seq<int>| stable_sort_witness(new, old, p)
}

pub proof fn lemma_ranks_before_irreflexive(a: Team)
    ensures
        !ranks_before(a, a),
{
    lemma_seq_lt_irreflexive(a.club@);
}

pub proof fn lemma_ranks_before_transitive(a: Team, b: Team, c: Team)
    requires
        ranks_before(a, b),
        ranks_before(b, c),
    ensures
        ranks_before(a, c),
{
    if a.pts == b.pts && b.pts == c.pts && a.gd == b.gd && b.gd == c.gd && a.w == b.w && b.w
        == c.w {
        lemma_seq_lt_transitive(a.club@, b.club@, c.club@);
    }
}

/// Two teams are either tied or one ranks strictly above the other.
pub proof fn lemma_ranks_trichotomy(a: Team, b: Team)
    ensures
        same_rank(a, b) || ranks_before(a, b) || ranks_before(b, a),
        same_rank(a, b) ==> !ranks_before(a, b) && !ranks_before(b, a),
{
    lemma_seq_lt_total(a.club@, b.club@);
    lemma_seq_lt_irreflexive(a.club@);
}

/// If `a` ranks above `b` and `c` does not rank above `b`, then `a` ranks above `c`.
pub proof fn lemma_ranks_before_weak(a: Team, b: Team, c: Team)
    requires
        ranks_before(a, b),
        !ranks_before(c, b),
    ensures
        ranks_before(a, c),
{
    lemma_ranks_trichotomy(b, c);
    if ranks_before(b, c) {
        lemma_ranks_before_transitive(a, b, c);
    } else {
        assert(same_rank(b, c));
    }
}

/// `x` inserted into the ranked `s` after every team it does not rank above.
pub open spec fn spec_insert(s: Seq<Team>, x: Team) -> Seq<Team>
    decreases s.len(),
{
    if s.len() == 0 || !ranks_before(x, s.last()) {
        s.push(x)
    } else {
        spec_insert(s.drop_last(), x).push(s.last())
    }
}

/// The table in ranking order, ties kept in their original order.
pub open spec fn spec_sort(t: Seq<Team>) -> Seq<Team>
    decreases t.len(),
{
    if t.len() == 0 {
        t
    } else {
        spec_insert(spec_sort(t.drop_last()), t.last())
    }
}

proof fn lemma_insert_at(s: Seq<Team>, x: Team, j: int)
    requires
        0 <= j <= s.len(),
        forall|k: int| j <= k < s.len() ==> ranks_before(x, #[trigger] s[k]),
        j == 0 || !ranks_before(x, s[j - 1]),
    ensures
        spec_insert(s, x) == s.take(j).push(x) + s.skip(j),
    decreases s.len(),
{
    if j == s.len() {
        assert(s.take(j) =~= s);
        assert(s.skip(j) =~= Seq::<Team>::empty());
        assert(s.take(j).push(x) + s.skip(j) =~= s.push(x));
    } else {
        let d = s.drop_last();
        assert(ranks_before(x, s[s.len() - 1]));
        lemma_insert_at(d, x, j);
        assert(d.take(j) =~= s.take(j));
        assert((d.take(j).push(x) + d.skip(j)).push(s.last()) =~= s.take(j).push(x) + s.skip(j));
    }
}

/// Inserting into a ranked table keeps it ranked.
proof fn lemma_insert_ranked(s: Seq<Team>, x: Team)
    requires
        is_ranked(s),
    ensures
        is_ranked(spec_insert(s, x)),
    decreases s.len(),
{
    if s.len() == 0 || !ranks_before(x, s.last()) {
        let r = s.push(x);
        assert forall|i: int, j: int| 0 <= i < j < r.len() implies !ranks_before(#[trigger] r[j], #[trigger] r[i]) by {
            if j == s.len() {
                if i < s.len() - 1 {
                    assert(!ranks_before(s[s.len() - 1], s[i]));
                }
                if ranks_before(x, s[i]) {
                    lemma_ranks_before_weak(x, s[i], s.last());
                }
            } else {
                assert(r[i] == s[i] && r[j] == s[j]);
            }
        }
    } else {
        let d = s.drop_last();
        let last = s.last();
        assert forall|i: int, j: int| 0 <= i < j < d.len() implies !ranks_before(#[trigger] d[j], #[trigger] d[i]) by {
            assert(d[i] == s[i] && d[j] == s[j]);
        }
        lemma_insert_ranked(d, x);
        lemma_insert_contains(d, x);
        let ins = spec_insert(d, x);
        let r = ins.push(last);
        assert forall|i: int, j: int| 0 <= i < j < r.len() implies !ranks_before(#[trigger] r[j], #[trigger] r[i]) by {
            if j == ins.len() {
                let y = ins[i];
                assert(ins.contains(y));
                if y == x {
                    if ranks_before(last, x) {
                        lemma_ranks_before_transitive(x, last, x);
                        lemma_ranks_before_irreflexive(x);
                    }
                } else {
                    assert(d.contains(y));
                    let k = choose|k: int| 0 <= k < d.len() && d[k] == y;
                    assert(s[k] == y);
                    assert(!ranks_before(s[s.len() - 1], s[k]));
                }
            } else {
                assert(r[i] == ins[i] && r[j] == ins[j]);
            }
        }
    }
}

/// The ranked form of a table is in ranking order.
pub proof fn lemma_sort_ranked(t: Seq<Team>)
    ensures
        is_ranked(spec_sort(t)),
    decreases t.len(),
{
    if t.len() > 0 {
        lemma_sort_ranked(t.drop_last());
        lemma_insert_ranked(spec_sort(t.drop_last()), t.last());
    }
}

/// No two teams of the table have the same club name.
pub open spec fn distinct_clubs(t: Seq<Team>) -> bool {
    forall|i: int, j: int| 0 <= i < j < t.len() ==> (#[trigger] t[i]).club@ != (#[trigger] t[j]).club@
}

/// Inserting a team whose club is new keeps the club names distinct.
proof fn lemma_insert_distinct(s: Seq<Team>, x: Team)
    requires
        distinct_clubs(s),
        forall|k: int| 0 <= k < s.len() ==> (#[trigger] s[k]).club@ != x.club@,
    ensures
        distinct_clubs(spec_insert(s, x)),
    decreases s.len(),
{
    if s.len() == 0 || !ranks_before(x, s.last()) {
        let r = s.push(x);
        assert forall|i: int, j: int| 0 <= i < j < r.len() implies (#[trigger] r[i]).club@ != (#[trigger] r[j]).club@ by {
            assert(r[i] == s[i]);
            if j < s.len() {
                assert(r[j] == s[j]);
            }
        }
    } else {
        let d = s.drop_last();
        let last = s.last();
        assert forall|i: int, j: int| 0 <= i < j < d.len() implies (#[trigger] d[i]).club@ != (#[trigger] d[j]).club@ by {
            assert(d[i] == s[i] && d[j] == s[j]);
        }
        assert forall|k: int| 0 <= k < d.len() implies (#[trigger] d[k]).club@ != x.club@ by {
            assert(d[k] == s[k]);
        }
        lemma_insert_distinct(d, x);
        lemma_insert_contains(d, x);
        let ins = spec_insert(d, x);
        let r = ins.push(last);
        assert forall|i: int, j: int| 0 <= i < j < r.len() implies (#[trigger] r[i]).club@ != (#[trigger] r[j]).club@ by {
            if j == ins.len() {
                let y = ins[i];
                assert(ins.contains(y));
                assert(r[i] == y && r[j] == last);
                if y != x {
                    assert(d.contains(y));
                    let k = choose|k: int| 0 <= k < d.len() && d[k] == y;
                    assert(s[k] == y);
                    assert(s[k].club@ != s[s.len() - 1].club@);
                } else {
                    assert(s[s.len() - 1].club@ != x.club@);
                }
            } else {
                assert(r[i] == ins[i] && r[j] == ins[j]);
            }
        }
    }
}

/// Ranking keeps club names distinct.
pub proof fn lemma_sort_distinct(t: Seq<Team>)
    requires
        distinct_clubs(t),
    ensures
        distinct_clubs(spec_sort(t)),
    decreases t.len(),
{
    if t.len() > 0 {
        let d = t.drop_last();
        assert forall|i: int, j: int| 0 <= i < j < d.len() implies (#[trigger] d[i]).club@ != (#[trigger] d[j]).club@ by {
            assert(d[i] == t[i] && d[j] == t[j]);
        }
        lemma_sort_distinct(d);
        lemma_sort_contains(d);
        let sd = spec_sort(d);
        assert forall|k: int| 0 <= k < sd.len() implies (#[trigger] sd[k]).club@ != t.last().club@ by {
            assert(sd.contains(sd[k]));
            assert(d.contains(sd[k]));
            let q = choose|q: int| 0 <= q < d.len() && d[q] == sd[k];
            assert(t[q] == sd[k]);
            assert(t[q].club@ != t[t.len() - 1].club@);
        }
        lemma_insert_distinct(sd, t.last());
    }
}

/// Every team of the table appears in its ranked form and nothing else does.
pub proof fn lemma_sort_contains(t: Seq<Team>)
    ensures
        spec_sort(t).len() == t.len(),
        forall|x: Team| #[trigger] spec_sort(t).contains(x) <==> t.contains(x),
    decreases t.len(),
{
    if t.len() > 0 {
        lemma_sort_contains(t.drop_last());
        lemma_insert_contains(spec_sort(t.drop_last()), t.last());
        assert forall|x: Team| t.contains(x) <==> (t.drop_last().contains(x) || x == t.last()) by {
            if t.contains(x) {
                let k = choose|k: int| 0 <= k < t.len() && t[k] == x;
                if k < t.len() - 1 {
                    assert(t.drop_last()[k] == x);
                }
            }
            if t.drop_last().contains(x) {
                let k = choose|k: int| 0 <= k < t.drop_last().len() && t.drop_last()[k] == x;
                assert(t[k] == x);
            }
            if x == t.last() {
                assert(t[t.len() - 1] == x);
            }
        }
    }
}

proof fn lemma_insert_contains(s: Seq<Team>, x: Team)
    ensures
        spec_insert(s, x).len() == s.len() + 1,
        forall|y: Team| #[trigger] spec_insert(s, x).contains(y) <==> (s.contains(y) || y == x),
    decreases s.len(),
{
    if s.len() == 0 || !ranks_before(x, s.last()) {
        assert forall|y: Team| s.push(x).contains(y) <==> (s.contains(y) || y == x) by {
            if s.push(x).contains(y) {
                let k = choose|k: int| 0 <= k < s.push(x).len() && s.push(x)[k] == y;
                if k < s.len() {
                    assert(s[k] == y);
                }
            }
            if s.contains(y) {
                let k = choose|k: int| 0 <= k < s.len() && s[k] == y;
                assert(s.push(x)[k] == y);
            }
            if y == x {
                assert(s.push(x)[s.len() as int] == y);
            }
        }
    } else {
        let d = s.drop_last();
        lemma_insert_contains(d, x);
        let r = spec_insert(d, x);
        assert forall|y: Team| r.push(s.last()).contains(y) <==> (s.contains(y) || y == x) by {
            let rp = r.push(s.last());
            if rp.contains(y) {
                let k = choose|k: int| 0 <= k < rp.len() && rp[k] == y;
                if k < r.len() {
                    assert(r[k] == y);
                    assert(r.contains(y));
                    if d.contains(y) {
                        let q = choose|q: int| 0 <= q < d.len() && d[q] == y;
                        assert(s[q] == y);
                        assert(s.contains(y));
                    }
                } else {
                    assert(s[s.len() - 1] == y);
                    assert(s.contains(y));
                }
            }
            if s.contains(y) {
                let k = choose|k: int| 0 <= k < s.len() && s[k] == y;
                if k < s.len() - 1 {
                    assert(d[k] == y);
                    assert(d.contains(y));
                    assert(r.contains(y));
                    let q = choose|q: int| 0 <= q < r.len() && r[q] == y;
                    assert(rp[q] == y);
                } else {
                    assert(rp[r.len() as int] == y);
                }
                assert(rp.contains(y));
            }
            if y == x {
                assert(r.contains(y));
                let q = choose|q: int| 0 <= q < r.len() && r[q] == y;
                assert(rp[q] == y);
                assert(rp.contains(y));
            }
        }
    }
}

/// `a` may stand above `b` in the league table: more points; or as many
/// points and a better goal difference; or both level and more wins; or all
/// three level and a club name not after `b`'s.
pub open spec fn in_table_order(a: Team, b: Team) -> bool {
    ||| a.pts > b.pts
    ||| a.pts == b.pts && a.gd > b.gd
    ||| a.pts == b.pts && a.gd == b.gd && a.w > b.w
    ||| a.pts == b.pts && a.gd == b.gd && a.w == b.w && !seq_lt(b.club@, a.club@)
}

/// The ranked table is ordered by points, then goal difference, then wins
/// (all descending), then club name (ascending), and holds the same teams.
pub proof fn law_sorted_table_order(t: Seq<Team>)
    ensures
        spec_sort(t).len() == t.len(),
        forall|i: int, j: int|
            0 <= i < j < spec_sort(t).len() ==> in_table_order(#[trigger] spec_sort(t)[i], #[trigger] spec_sort(t)[j]),
        forall|x: Team| #[trigger] spec_sort(t).contains(x) <==> t.contains(x),
{
    lemma_sort_ranked(t);
    lemma_sort_contains(t);
    let s = spec_sort(t);
    assert forall|i: int, j: int| 0 <= i < j < s.len() implies in_table_order(#[trigger] s[i], #[trigger] s[j]) by {
        assert(!ranks_before(s[j], s[i]));
        lemma_seq_lt_total(s[i].club@, s[j].club@);
    }
}

/// `a` ranks strictly above `b`.
pub fn team_ranks_before(a: &Team, b: &Team) -> (r: bool)
    ensures
        r == ranks_before(*a, *b),
        r == (a.pts > b.pts || (a.pts == b.pts && (a.gd > b.gd || (a.gd == b.gd && (a.w > b.w || (a.w
            == b.w && seq_lt(a.club@, b.club@))))))),
{
    if a.pts != b.pts {
        a.pts > b.pts
    } else if a.gd != b.gd {
        a.gd > b.gd
    } else if a.w != b.w {
        a.w > b.w
    } else {
        text_lt(a.club.as_str(), b.club.as_str())
    }
}

/// `sort_table`: a stable sort into ranking order (points, then goal
/// difference, then wins, all descending; then club name ascending).
#[verifier::rlimit(60)]
pub fn sort_table(table: &mut Vec<Team>)
    ensures
        final(table)@ == spec_sort(old(table)@),
        is_stable_sort_of(final(table)@, old(table)@),
        forall|i: int, j: int|
            0 <= i < j < final(table)@.len() ==> in_table_order(#[trigger] final(table)@[i], #[trigger] final(table)@[j]),
{
    let n = table.len();
    let ghost orig = table@;
    let ghost mut perm: Seq<int> = Seq::new(n as nat, |k: int| k);
    let mut i: usize = 0;
    while i < n
        invariant
            n == orig.len(),
            table.len() == n,
            i <= n,
            is_permutation(perm, n as int),
            forall|k: int| 0 <= k < n ==> #[trigger] table@[k] == orig[perm[k]],
            forall|k: int| i <= k < n ==> #[trigger] perm[k] == k,
            forall|k: int| 0 <= k < i ==> #[trigger] perm[k] < i,
            table@.take(i as int) == spec_sort(orig.take(i as int)),
            forall|a: int, b: int|
                0 <= a < b < i ==> !ranks_before(#[trigger] table@[b], #[trigger] table@[a]),
            forall|a: int, b: int|
                0 <= a < b < i && same_rank(#[trigger] table@[a], #[trigger] table@[b]) ==> perm[a]
                    < perm[b],
        decreases n - i,
    {
        let ghost before = table@;
        let ghost pbefore = perm;
        let t = table.remove(i);
        assert(t == orig[i as int]);
        let mut j: usize = i;
        while j > 0 && team_ranks_before(&t, &table[j - 1])
            invariant
                j <= i,
                i < n,
                before.len() == n,
                table@ == before.remove(i as int),
                forall|k: int| j <= k < i ==> ranks_before(t, #[trigger] table@[k]),
            decreases j,
        {
            j = j - 1;
        }
        table.insert(j, t);
        proof {
            let sp = before.take(i as int);
            assert forall|k: int| j <= k < sp.len() implies ranks_before(t, #[trigger] sp[k]) by {
                assert(sp[k] == before.remove(i as int)[k]);
            }
            if j > 0 {
                assert(sp[j - 1] == before.remove(i as int)[j - 1]);
            }
            lemma_insert_at(sp, t, j as int);
            assert(orig.take(i + 1).drop_last() =~= orig.take(i as int));
            assert(orig.take(i + 1).last() == t);
            assert(table@.take(i + 1) =~= sp.take(j as int).push(t) + sp.skip(j as int));
            let newp = pbefore.remove(i as int).insert(j as int, i as int);
            assert forall|k: int| 0 <= k < n implies #[trigger] table@[k] == orig[newp[k]] by {
                if k < j {
                    assert(table@[k] == before[k]);
                    assert(newp[k] == pbefore[k]);
                } else if k > j {
                    if k <= i {
                        assert(table@[k] == before[k - 1]);
                        assert(newp[k] == pbefore[k - 1]);
                    } else {
                        assert(table@[k] == before[k]);
                        assert(newp[k] == pbefore[k]);
                    }
                }
            }
            assert forall|a: int, b: int| 0 <= a < b < n implies #[trigger] newp[a]
                != #[trigger] newp[b] by {
                let fa = if a < j { a } else if a == j { -1 } else if a <= i { a - 1 } else { a };
                let fb = if b < j { b } else if b == j { -1 } else if b <= i { b - 1 } else { b };
                if fa >= 0 && fb >= 0 {
                    assert(newp[a] == pbefore[fa]);
                    assert(newp[b] == pbefore[fb]);
                    assert(pbefore[fa] != pbefore[fb]);
                } else if fa < 0 {
                    assert(pbefore[fb] < i || pbefore[fb] > i);
                } else {
                    assert(pbefore[fa] < i || pbefore[fa] > i);
                }
            }
            assert forall|k: int| 0 <= k < n implies 0 <= #[trigger] newp[k] < n by {
                if k < j {
                    assert(newp[k] == pbefore[k]);
                } else if k > j && k <= i {
                    assert(newp[k] == pbefore[k - 1]);
                } else if k > i {
                    assert(newp[k] == pbefore[k]);
                }
            }
            assert forall|k: int| i + 1 <= k < n implies #[trigger] newp[k] == k by {
                assert(newp[k] == pbefore[k]);
            }
            assert forall|k: int| 0 <= k < i + 1 implies #[trigger] newp[k] < i + 1 by {
                if k < j {
                    assert(newp[k] == pbefore[k]);
                } else if k > j {
                    assert(newp[k] == pbefore[k - 1]);
                }
            }
            assert forall|a: int, b: int| 0 <= a < b < i + 1 implies !ranks_before(
                #[trigger] table@[b],
                #[trigger] table@[a],
            ) by {
                if a < j && b < j {
                    assert(table@[a] == before[a] && table@[b] == before[b]);
                } else if a < j && b == j {
                    // t does not rank above table[j - 1], nor above anything before it
                    assert(table@[a] == before[a]);
                    assert(table@[j as int - 1] == before[j - 1]);
                    if ranks_before(t, before[a]) {
                        if a < j - 1 {
                            lemma_ranks_before_weak(t, before[a], before[j - 1]);
                        }
                    }
                } else if a < j && b > j {
                    assert(table@[a] == before[a] && table@[b] == before[b - 1]);
                } else if a == j {
                    assert(table@[b] == before[b - 1]);
                    assert(ranks_before(t, table@[b]));
                    if ranks_before(table@[b], t) {
                        lemma_ranks_before_transitive(t, table@[b], t);
                        lemma_ranks_before_irreflexive(t);
                    }
                } else {
                    assert(table@[a] == before[a - 1] && table@[b] == before[b - 1]);
                }
            }
            assert forall|a: int, b: int|
                0 <= a < b < i + 1 && same_rank(
                    #[trigger] table@[a],
                    #[trigger] table@[b],
                ) implies newp[a] < newp[b] by {
                if a < j && b < j {
                    assert(table@[a] == before[a] && table@[b] == before[b]);
                    assert(newp[a] == pbefore[a] && newp[b] == pbefore[b]);
                } else if a < j && b == j {
                    assert(newp[a] == pbefore[a]);
                } else if a < j && b > j {
                    assert(table@[a] == before[a] && table@[b] == before[b - 1]);
                    assert(newp[a] == pbefore[a] && newp[b] == pbefore[b - 1]);
                } else if a == j {
                    assert(table@[b] == before[b - 1]);
                    lemma_ranks_trichotomy(t, table@[b]);
                } else {
                    assert(table@[a] == before[a - 1] && table@[b] == before[b - 1]);
                    assert(newp[a] == pbefore[a - 1] && newp[b] == pbefore[b - 1]);
                }
            }
            perm = newp;
        }
        i = i + 1;
    }
    assert(stable_sort_witness(table@, orig, perm));
    assert(table@.take(n as int) =~= table@);
    assert(orig.take(n as int) =~= orig);
    proof {
        law_sorted_table_order(orig);
    }
}

/// `recalculate_positions`: positions become 1, 2, 3, ... in table order;
/// nothing else changes.
pub fn recalculate_positions(table: &mut Vec<Team>)
    requires
        old(table).len() < usize::MAX,
    ensures
        final(table).len() == old(table).len(),
        forall|i: int|
            0 <= i < final(table).len() ==> #[trigger] final(table)@[i] == (Team {
                pos: (i + 1) as usize,
                ..old(table)@[i]
            }),
{
    let n = table.len();
    let ghost orig = table@;
    let mut i: usize = 0;
    while i < n
        invariant
            n == orig.len(),
            n < usize::MAX,
            table.len() == n,
            i <= n,
            forall|k: int| 0 <= k < i ==> #[trigger] table@[k] == (Team { pos: (k + 1) as usize, ..orig[k] }),
            forall|k: int| i <= k < n ==> #[trigger] table@[k] == orig[k],
        decreases n - i,
    {
        let mut t = table[i].clone();
        t.pos = i + 1;
        table.set(i, t);
        i = i + 1;
    }
}

// ---------------------------------------------------------------------------
// Monospace rendering.
// ---------------------------------------------------------------------------

/// Width of the club column.
pub const CLUB_WIDTH: usize = 8;

/// A cell preceded by its separating space, right-aligned.
pub open spec fn cell(x: Seq<char>, width: nat) -> Seq<char> {
    seq![' '] + pad_left(x, width)
}

/// One line of the table: eight cells, right-aligned numbers, left-aligned club.
pub open spec fn format_row(
    pos: Seq<char>,
    club: Seq<char>,
    pl: Seq<char>,
    w: Seq<char>,
    d: Seq<char>,
    l: Seq<char>,
    gd: Seq<char>,
    pts: Seq<char>,
) -> Seq<char> {
    pad_left(pos, 2) + (seq![' '] + pad_right(club, 8)) + cell(pl, 2) + cell(w, 2) + cell(d, 2)
        + cell(l, 2) + cell(gd, 3) + cell(pts, 3)
}

/// The header line.
pub open spec fn header_row() -> Seq<char> {
    format_row("#"@, "CLUB"@, "PL"@, "W"@, "D"@, "L"@, "GD"@, "PTS"@)
}

/// A club name cut to the column: longer names keep 7 characters and end in '…'.
pub open spec fn club_cell(club: Seq<char>) -> Seq<char> {
    if club.len() > 8 {
        club.take(7).push('…')
    } else {
        club
    }
}

/// The line for one team.
pub open spec fn team_row(t: Team) -> Seq<char> {
    format_row(
        nat_digits(t.pos as nat),
        club_cell(t.club@),
        int_decimal(t.pl as int),
        int_decimal(t.w as int),
        int_decimal(t.d as int),
        int_decimal(t.l as int),
        signed_decimal(t.gd as int),
        int_decimal(t.pts as int),
    )
}

/// The header followed by one line per team, newline-separated, with no
/// trailing newline.
pub open spec fn spec_format_table(t: Seq<Team>) -> Seq<char>
    decreases t.len(),
{
    if t.len() == 0 {
        header_row()
    } else {
        spec_format_table(t.drop_last()) + seq!['\n'] + team_row(t.last())
    }
}

fn push_cell(s: &mut String, x: &str, width: usize)
    ensures
        final(s)@ == old(s)@ + cell(x@, width as nat),
{
    push_char(s, ' ');
    push_right_aligned(s, x, width);
    assert(final(s)@ =~= old(s)@ + cell(x@, width as nat));
}

fn push_row(
    s: &mut String,
    pos: &str,
    club: &str,
    pl: &str,
    w: &str,
    d: &str,
    l: &str,
    gd: &str,
    pts: &str,
)
    ensures
        final(s)@ == old(s)@ + format_row(pos@, club@, pl@, w@, d@, l@, gd@, pts@),
{
    let ghost s0 = s@;
    push_right_aligned(s, pos, 2);
    push_char(s, ' ');
    push_left_aligned(s, club, 8);
    let ghost a = pad_left(pos@, 2) + (seq![' '] + pad_right(club@, 8));
    assert(s@ =~= s0 + a);
    push_cell(s, pl, 2);
    assert(s@ =~= s0 + (a + cell(pl@, 2)));
    push_cell(s, w, 2);
    assert(s@ =~= s0 + (a + cell(pl@, 2) + cell(w@, 2)));
    push_cell(s, d, 2);
    assert(s@ =~= s0 + (a + cell(pl@, 2) + cell(w@, 2) + cell(d@, 2)));
    push_cell(s, l, 2);
    assert(s@ =~= s0 + (a + cell(pl@, 2) + cell(w@, 2) + cell(d@, 2) + cell(l@, 2)));
    push_cell(s, gd, 3);
    assert(s@ =~= s0 + (a + cell(pl@, 2) + cell(w@, 2) + cell(d@, 2) + cell(l@, 2) + cell(
        gd@,
        3,
    )));
    push_cell(s, pts, 3);
    assert(s@ =~= s0 + format_row(pos@, club@, pl@, w@, d@, l@, gd@, pts@));
}

fn club_text(club: &String) -> (r: String)
    ensures
        r@ == club_cell(club@),
{
    let n = club.as_str().unicode_len();
    if n > 8 {
        let mut s = String::new();
        let mut i: usize = 0;
        while i < 7
            invariant
                n == club@.len(),
                n > 8,
                i <= 7,
                s@ == club@.take(i as int),
            decreases 7 - i,
        {
            push_char(&mut s, club.as_str().get_char(i));
            assert(s@ =~= club@.take(i + 1));
            i = i + 1;
        }
        push_char(&mut s, '…');
        s
    } else {
        club.clone()
    }
}

/// `format_table_monospace`: the standings as fixed-width ASCII columns
/// (`#`, `CLUB`, `PL`, `W`, `D`, `L`, `GD`, `PTS`), one line per team.
pub fn format_table_monospace(table: &Vec<Team>) -> (r: String)
    ensures
        r@ == spec_format_table(table@),
{
    let mut out = String::new();
    push_row(&mut out, "#", "CLUB", "PL", "W", "D", "L", "GD", "PTS");
    let mut i: usize = 0;
    while i < table.len()
        invariant
            i <= table.len(),
            out@ == spec_format_table(table@.take(i as int)),
        decreases table.len() - i,
    {
        let t = &table[i];
        push_char(&mut out, '\n');
        let pos = {
            let mut p = String::new();
            push_nat(&mut p, t.pos as u64);
            p
        };
        let club = club_text(&t.club);
        let pl = decimal(t.pl as i64);
        let w = decimal(t.w as i64);
        let d = decimal(t.d as i64);
        let l = decimal(t.l as i64);
        let gd = signed_decimal_text(t.gd as i64);
        let pts = decimal(t.pts as i64);
        push_row(
            &mut out,
            pos.as_str(),
            club.as_str(),
            pl.as_str(),
            w.as_str(),
            d.as_str(),
            l.as_str(),
            gd.as_str(),
            pts.as_str(),
        );
        assert(table@.take(i + 1).drop_last() =~= table@.take(i as int));
        assert(pos@ =~= nat_digits(t.pos as nat));
        i = i + 1;
    }
    assert(table@.take(table.len() as int) =~= table@);
    out
}

} // verus!
