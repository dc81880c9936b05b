//! The results log used for form guides and streaks.
use vstd::prelude::*;

use crate::text::{nat_digits, owned, push_nat, push_str, spec_to_uppercase, to_upper};

verus! {

/// A logged match result.
pub struct Fixture {
    pub home: String,
    pub home_score: i64,
    pub away: String,
    pub away_score: i64,
    pub timestamp: String,
}

impl Clone for Fixture {
    fn clone(&self) -> (r: Self)
        ensures
            r == *self,
    {
        Fixture {
            home: self.home.clone(),
            home_score: self.home_score,
            away: self.away.clone(),
            away_score: self.away_score,
            timestamp: self.timestamp.clone(),
        }
    }
}

/// `append_fixture`: adds a result at the end of the log (the log itself is
/// read and written by the caller).
pub fn append_fixture(fixtures: &mut Vec<Fixture>, fixture: Fixture)
    ensures
        final(fixtures)@ == old(fixtures)@.push(fixture),
{
    fixtures.push(fixture);
}

/// 'W', 'L' or 'D' for a side that scored `scored` and conceded `conceded`.
pub open spec fn outcome_char(scored: int, conceded: int) -> char {
    if scored > conceded {
        'W'
    } else if scored < conceded {
        'L'
    } else {
        'D'
    }
}

/// The results, oldest first, of every logged match in which `key` played
/// (at home when the home name matches, otherwise away).
pub open spec fn form_results(fs: Seq<Fixture>, key: Seq<char>) -> Seq<char>
    decreases fs.len(),
{
    if fs.len() == 0 {
        Seq::empty()
    } else {
        let r = form_results(fs.drop_last(), key);
        let f = fs.last();
        if f.home@ == key {
            r.push(outcome_char(f.home_score as int, f.away_score as int))
        } else if f.away@ == key {
            r.push(outcome_char(f.away_score as int, f.home_score as int))
        } else {
            r
        }
    }
}

/// How many times `c` occurs in `s`.
pub open spec fn char_count(s: Seq<char>, c: char) -> nat
    decreases s.len(),
{
    if s.len() == 0 {
        0
    } else {
        char_count(s.drop_last(), c) + if s.last() == c {
            1nat
        } else {
            0nat
        }
    }
}

/// How many logged results `key` won (scoring more than the other side), drew
/// (`sign` 0) or lost (`sign` -1), counting a result once, from the home
/// side's view when `key` was at home.
pub open spec fn results_of(fs: Seq<Fixture>, key: Seq<char>, sign: int) -> nat
    decreases fs.len(),
{
    if fs.len() == 0 {
        0
    } else {
        let f = fs.last();
        let (own, other) = if f.home@ == key {
            (f.home_score as int, f.away_score as int)
        } else {
            (f.away_score as int, f.home_score as int)
        };
        let counts = (f.home@ == key || f.away@ == key) && (if sign > 0 {
            own > other
        } else if sign < 0 {
            own < other
        } else {
            own == other
        });
        results_of(fs.drop_last(), key, sign) + if counts {
            1nat
        } else {
            0nat
        }
    }
}

/// The full form guide of a team has one 'W' for each result it won, one
/// 'L' for each it lost and one 'D' for each it drew, and nothing else.
pub proof fn law_form_counts_results(fs: Seq<Fixture>, key: Seq<char>)
    ensures
        char_count(form_results(fs, key), 'W') == results_of(fs, key, 1),
        char_count(form_results(fs, key), 'L') == results_of(fs, key, -1),
        char_count(form_results(fs, key), 'D') == results_of(fs, key, 0),
        form_results(fs, key).len() == results_of(fs, key, 1) + results_of(fs, key, -1) + results_of(fs, key, 0),
    decreases fs.len(),
{
    if fs.len() > 0 {
        law_form_counts_results(fs.drop_last(), key);
        let r = form_results(fs.drop_last(), key);
        let f = fs.last();
        if f.home@ == key {
            let c = outcome_char(f.home_score as int, f.away_score as int);
            assert(r.push(c).drop_last() =~= r);
        } else if f.away@ == key {
            let c = outcome_char(f.away_score as int, f.home_score as int);
            assert(r.push(c).drop_last() =~= r);
        }
    }
}

/// The last `count` entries of `s` (all of them when there are fewer).
pub open spec fn last_n<T>(s: Seq<T>, count: int) -> Seq<T> {
    if s.len() <= count {
        s
    } else {
        s.subrange(s.len() - count, s.len() as int)
    }
}

/// `team_form`: the last `count` results of `team` (upper-cased), oldest first.
pub fn team_form(fixtures: &[Fixture], team: &str, count: usize) -> (r: Vec<char>)
    ensures
        r@ == last_n(form_results(fixtures@, spec_to_uppercase(team@)), count as int),
{
    let team_upper = to_upper(team);
    let mut results: Vec<char> = Vec::new();
    let mut i: usize = 0;
    while i < fixtures.len()
        invariant
            i <= fixtures@.len(),
            team_upper@ == spec_to_uppercase(team@),
            results@ == form_results(fixtures@.take(i as int), team_upper@),
            results@.len() <= i,
        decreases fixtures@.len() - i,
    {
        let f = &fixtures[i];
        assert(fixtures@.take(i + 1).drop_last() =~= fixtures@.take(i as int));
        if f.home == team_upper {
            let c = if f.home_score > f.away_score {
                'W'
            } else if f.home_score < f.away_score {
                'L'
            } else {
                'D'
            };
            results.push(c);
        } else if f.away == team_upper {
            let c = if f.away_score > f.home_score {
                'W'
            } else if f.away_score < f.home_score {
                'L'
            } else {
                'D'
            };
            results.push(c);
        }
        i = i + 1;
    }
    assert(fixtures@.take(fixtures@.len() as int) =~= fixtures@);
    let n = results.len();
    let start = if n > count {
        n - count
    } else {
        0
    };
    let mut out: Vec<char> = Vec::new();
    let mut k: usize = start;
    while k < n
        invariant
            start <= k <= n,
            n == results@.len(),
            out@ == results@.subrange(start as int, k as int),
        decreases n - k,
    {
        out.push(results[k]);
        assert(out@ =~= results@.subrange(start as int, k + 1));
        k = k + 1;
    }
    assert(results@.subrange(0, n as int) =~= results@);
    out
}

/// How many entries at the end of `s` equal `c`.
pub open spec fn trailing_run(s: Seq<char>, c: char) -> nat
    decreases s.len(),
{
    if s.len() == 0 || s.last() != c {
        0
    } else {
        1 + trailing_run(s.drop_last(), c)
    }
}

/// The streak text for a form guide.
pub open spec fn spec_streak(form: Seq<char>) -> Seq<char> {
    if form.len() == 0 {
        "No games played yet"@
    } else {
        let last = form.last();
        let n = trailing_run(form, last);
        if last == 'W' {
            nat_digits(n) + " game winning streak 🔥"@
        } else if last == 'L' {
            nat_digits(n) + " game losing streak"@
        } else if last == 'D' {
            if n == 1 {
                "1 draw"@
            } else {
                nat_digits(n) + " game unbeaten run"@
            }
        } else {
            Seq::empty()
        }
    }
}

/// `streak_description`: describes the run of identical results at the end
/// of a form guide, e.g. "3 game winning streak 🔥".
pub fn streak_description(form: &[char]) -> (r: String)
    ensures
        r@ == spec_streak(form@),
{
    if form.len() == 0 {
        return owned("No games played yet");
    }
    let last = form[form.len() - 1];
    let mut count: usize = 0;
    let mut i: usize = form.len();
    assert(form@.take(i as int) =~= form@);
    while i > 0 && form[i - 1] == last
        invariant
            i <= form@.len(),
            form@.len() > 0,
            last == form@.last(),
            count == form@.len() - i,
            trailing_run(form@, last) == count + trailing_run(form@.take(i as int), last),
        decreases i,
    {
        assert(form@.take(i as int).drop_last() =~= form@.take(i - 1));
        count = count + 1;
        i = i - 1;
    }
    assert(trailing_run(form@.take(i as int), last) == 0);
    assert(form@.take(form@.len() as int) =~= form@);
    let mut s = String::new();
    if last == 'W' {
        push_nat(&mut s, count as u64);
        push_str(&mut s, " game winning streak 🔥");
    } else if last == 'L' {
        push_nat(&mut s, count as u64);
        push_str(&mut s, " game losing streak");
    } else if last == 'D' {
        if count == 1 {
            return owned("1 draw");
        }
        push_nat(&mut s, count as u64);
        push_str(&mut s, " game unbeaten run");
    }
    s
}

/// The badge shown for one result.
pub open spec fn spec_badge(r: char) -> Seq<char> {
    if r == 'W' {
        "🟢 W"@
    } else if r == 'L' {
        "🔴 L"@
    } else if r == 'D' {
        "🟡 D"@
    } else {
        "❓"@
    }
}

/// `format_result_badge`: a coloured badge for 'W', 'L' or 'D'.
pub fn format_result_badge(r: char) -> (b: &'static str)
    ensures
        b@ == spec_badge(r),
{
    if r == 'W' {
        "🟢 W"
    } else if r == 'L' {
        "🔴 L"
    } else if r == 'D' {
        "🟡 D"
    } else {
        "❓"
    }
}

} // verus!
