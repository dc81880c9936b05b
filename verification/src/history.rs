//! A server's league state and its undo history: snapshots of the table are
//! pushed before every destructive change and popped by a revert.
use vstd::prelude::*;

use crate::table_utils::{
    distinct_clubs, in_table_order, ranks_before, recalculate_positions, spec_sort, sort_table, Fixture, NamedSchedule, Settings, Team,
};
use crate::text::{nat_digits, normalize_team_name, push_nat, spec_normalize};

verus! {

/// The most table snapshots a server keeps for reverting.
pub const HISTORY_LIMIT: usize = 20;

/// The most match results a server keeps.
pub const FIXTURES_LIMIT: usize = 50;

/// Everything stored for one server.
pub struct GuildData {
    pub table: Vec<Team>,
    pub history: Vec<Vec<Team>>,
    pub fixtures: Vec<Fixture>,
    pub settings: Settings,
    pub schedules: Vec<NamedSchedule>,
}

impl Default for GuildData {
    fn default() -> (r: Self)
        ensures
            r.table@.len() == 0,
            r.history@.len() == 0,
            r.fixtures@.len() == 0,
            r.settings.admin_role_id is None,
            r.settings.log_channel_id is None,
            r.schedules@.len() == 0,
    {
        GuildData {
            table: Vec::new(),
            history: Vec::new(),
            fixtures: Vec::new(),
            settings: Settings::default(),
            schedules: Vec::new(),
        }
    }
}

/// What a server's data keeps through every command: at most
/// `HISTORY_LIMIT` saved tables and `FIXTURES_LIMIT` logged results, and no
/// two teams with the same club name, in the table or in any saved table.
pub open spec fn guild_wf(g: GuildData) -> bool {
    &&& g.history@.len() <= HISTORY_LIMIT
    &&& g.fixtures@.len() <= FIXTURES_LIMIT
    &&& distinct_clubs(g.table@)
    &&& forall|k: int| 0 <= k < g.history@.len() ==> distinct_clubs(#[trigger] g.history@[k]@)
}

/// The directory holding a server's files: `data/<guild id>`.
pub open spec fn spec_guild_dir(guild_id: u64) -> Seq<char> {
    seq!['d', 'a', 't', 'a', '/'] + nat_digits(guild_id as nat)
}

/// `guild_dir`: the path of a server's data directory.
pub fn guild_dir(guild_id: u64) -> (r: String)
    ensures
        r@ == spec_guild_dir(guild_id),
{
    let mut s = String::new();
    crate::text::push_char(&mut s, 'd');
    crate::text::push_char(&mut s, 'a');
    crate::text::push_char(&mut s, 't');
    crate::text::push_char(&mut s, 'a');
    crate::text::push_char(&mut s, '/');
    push_nat(&mut s, guild_id);
    assert(s@ =~= spec_guild_dir(guild_id));
    s
}

/// Every server has a directory of its own: different server ids give
/// different directories, so no two servers share a table.
pub proof fn law_guild_dirs_distinct(a: u64, b: u64)
    requires
        a != b,
    ensures
        spec_guild_dir(a) != spec_guild_dir(b),
{
    if spec_guild_dir(a) == spec_guild_dir(b) {
        let p = seq!['d', 'a', 't', 'a', '/'];
        assert(spec_guild_dir(a).subrange(5, spec_guild_dir(a).len() as int) =~= nat_digits(a as nat));
        assert(spec_guild_dir(b).subrange(5, spec_guild_dir(b).len() as int) =~= nat_digits(b as nat));
        crate::text::lemma_nat_digits_injective(a as nat, b as nat);
    }
}

/// The history after saving `snapshot`, keeping at most `max_entries` by
/// dropping the oldest entry when the history is already full.
pub open spec fn spec_push_snapshot<T>(history: Seq<T>, snapshot: T, max_entries: nat) -> Seq<T> {
    if history.len() >= max_entries {
        history.drop_first().push(snapshot)
    } else {
        history.push(snapshot)
    }
}

/// `push_snapshot`: saves a table state, evicting the oldest one when the
/// history already holds `max_entries` states.
pub fn push_snapshot(history: &mut Vec<Vec<Team>>, snapshot: Vec<Team>, max_entries: usize)
    requires
        max_entries > 0 || old(history).len() > 0,
    ensures
        final(history)@ == spec_push_snapshot(old(history)@, snapshot, max_entries as nat),
{
    if history.len() >= max_entries {
        history.remove(0);
    }
    history.push(snapshot);
    assert(final(history)@ =~= spec_push_snapshot(old(history)@, snapshot, max_entries as nat));
}

/// The table states held by a history, oldest first.
pub open spec fn snapshot_views(h: Seq<Vec<Team>>) -> Seq<Seq<Team>> {
    h.map_values(|t: Vec<Team>| t@)
}

/// Saving commutes with taking the views of the saved tables.
pub proof fn lemma_push_snapshot_views(h: Seq<Vec<Team>>, s: Vec<Team>, max_entries: nat)
    requires
        max_entries > 0 || h.len() > 0,
    ensures
        snapshot_views(spec_push_snapshot(h, s, max_entries)) == spec_push_snapshot(
            snapshot_views(h),
            s@,
            max_entries,
        ),
{
    if h.len() >= max_entries {
        assert(snapshot_views(h.drop_first().push(s)) =~= snapshot_views(h).drop_first().push(s@));
    } else {
        assert(snapshot_views(h.push(s)) =~= snapshot_views(h).push(s@));
    }
}

/// The most recent saved state, if any.
pub open spec fn spec_pop_snapshot<T>(history: Seq<T>) -> Option<T> {
    if history.len() > 0 {
        Some(history.last())
    } else {
        None
    }
}

/// `pop_snapshot`: removes and returns the most recent saved state.
pub fn pop_snapshot(history: &mut Vec<Vec<Team>>) -> (r: Option<Vec<Team>>)
    ensures
        r == spec_pop_snapshot(old(history)@),
        final(history)@ == (if old(history)@.len() > 0 {
            old(history)@.drop_last()
        } else {
            old(history)@
        }),
{
    history.pop()
}

/// The results after recording `fixture`, keeping the newest `FIXTURES_LIMIT`.
pub open spec fn spec_push_fixture(fixtures: Seq<Fixture>, fixture: Fixture) -> Seq<Fixture> {
    if fixtures.len() + 1 > FIXTURES_LIMIT {
        fixtures.push(fixture).drop_first()
    } else {
        fixtures.push(fixture)
    }
}

/// `push_fixture`: records a result, dropping the oldest when more than
/// `FIXTURES_LIMIT` are kept.
pub fn push_fixture(fixtures: &mut Vec<Fixture>, fixture: Fixture)
    ensures
        final(fixtures)@ == spec_push_fixture(old(fixtures)@, fixture),
{
    fixtures.push(fixture);
    if fixtures.len() > FIXTURES_LIMIT {
        fixtures.remove(0);
    }
    assert(final(fixtures)@ =~= spec_push_fixture(old(fixtures)@, fixture));
}

/// Reverting right after saving gives back the state that was saved, and
/// leaves the history as it was after the save minus that state.
pub proof fn law_revert_restores_saved_state<T>(history: Seq<T>, snapshot: T, max_entries: nat)
    ensures
        spec_pop_snapshot(spec_push_snapshot(history, snapshot, max_entries)) == Some(snapshot),
        spec_push_snapshot(history, snapshot, max_entries).drop_last() == (if history.len()
            >= max_entries {
            history.drop_first()
        } else {
            history
        }),
{
    if history.len() >= max_entries {
        assert(history.drop_first().push(snapshot).drop_last() =~= history.drop_first());
    } else {
        assert(history.push(snapshot).drop_last() =~= history);
    }
}

/// The history never grows past its cap: saving into a history of at most
/// `max_entries` states leaves at most `max_entries`.
pub proof fn law_history_capped<T>(history: Seq<T>, snapshot: T, max_entries: nat)
    requires
        max_entries > 0,
        history.len() <= max_entries,
    ensures
        spec_push_snapshot(history, snapshot, max_entries).len() <= max_entries,
        spec_push_snapshot(history, snapshot, max_entries).len() >= 1,
{
}

/// The results log never grows past `FIXTURES_LIMIT`, and the newest result
/// is always last.
pub proof fn law_fixtures_capped(fixtures: Seq<Fixture>, fixture: Fixture)
    requires
        fixtures.len() <= FIXTURES_LIMIT,
    ensures
        spec_push_fixture(fixtures, fixture).len() <= FIXTURES_LIMIT,
        spec_push_fixture(fixtures, fixture).last() == fixture,
{
}

// ---------------------------------------------------------------------------
// Tidying a table as it is loaded.
// ---------------------------------------------------------------------------

/// `new` is the team `old` with its club name normalised.
pub open spec fn club_normalized(new: Team, old: Team) -> bool {
    &&& new.club@ == spec_normalize(old.club@)
    &&& new.pos == old.pos
    &&& new.pl == old.pl
    &&& new.w == old.w
    &&& new.d == old.d
    &&& new.l == old.l
    &&& new.gd == old.gd
    &&& new.pts == old.pts
}

/// `new` is `old` with every club name normalised and nothing else changed.
pub open spec fn clubs_normalized(new: Seq<Team>, old: Seq<Team>) -> bool {
    &&& new.len() == old.len()
    &&& forall|i: int| 0 <= i < new.len() ==> club_normalized(#[trigger] new[i], old[i])
}

/// `new` is `old` with positions set to 1, 2, 3, ... and nothing else changed.
pub open spec fn positions_recalculated(new: Seq<Team>, old: Seq<Team>) -> bool {
    &&& new.len() == old.len()
    &&& forall|i: int|
        0 <= i < new.len() ==> #[trigger] new[i] == (Team { pos: (i + 1) as usize, ..old[i] })
}

/// `new` is `old` sorted stably into ranking order with positions recalculated.
pub open spec fn ranked_from(new: Seq<Team>, old: Seq<Team>) -> bool {
    positions_recalculated(new, spec_sort(old))
}

/// Ranking a table orders it by points, then goal difference, then wins
/// (all descending), then club name; numbers the positions 1, 2, 3, ...;
/// and keeps every team's record.
pub proof fn law_ranking_orders_the_table(new: Seq<Team>, old: Seq<Team>)
    requires
        ranked_from(new, old),
    ensures
        new.len() == old.len(),
        forall|i: int, j: int| 0 <= i < j < new.len() ==> !ranks_before(#[trigger] new[j], #[trigger] new[i]),
        forall|i: int, j: int| 0 <= i < j < new.len() ==> in_table_order(#[trigger] new[i], #[trigger] new[j]),
        forall|i: int| 0 <= i < new.len() ==> (#[trigger] new[i]).pos == (i + 1) as usize,
        forall|k: int|
            #![trigger old[k]]
            0 <= k < old.len() ==> exists|i: int|
                0 <= i < new.len() && #[trigger] new[i] == (Team { pos: (i + 1) as usize, ..old[k] }),
{
    let sorted = spec_sort(old);
    crate::table_utils::lemma_sort_contains(old);
    crate::table_utils::lemma_sort_ranked(old);
    crate::table_utils::law_sorted_table_order(old);
    assert forall|i: int, j: int| 0 <= i < j < new.len() implies !ranks_before(#[trigger] new[j], #[trigger] new[i])
        && in_table_order(new[i], new[j]) by {
        assert(new[i] == (Team { pos: (i + 1) as usize, ..sorted[i] }));
        assert(new[j] == (Team { pos: (j + 1) as usize, ..sorted[j] }));
        assert(!ranks_before(sorted[j], sorted[i]));
        assert(in_table_order(sorted[i], sorted[j]));
    }
    assert forall|k: int|
        #![trigger old[k]]
        0 <= k < old.len() implies exists|i: int|
        0 <= i < new.len() && #[trigger] new[i] == (Team { pos: (i + 1) as usize, ..old[k] }) by {
        assert(old.contains(old[k]));
        assert(sorted.contains(old[k]));
        let i = choose|i: int| 0 <= i < sorted.len() && sorted[i] == old[k];
        assert(new[i] == (Team { pos: (i + 1) as usize, ..sorted[i] }));
    }
}

/// Sorts a table into ranking order and renumbers its positions.
pub fn rank_table(table: &mut Vec<Team>)
    requires
        old(table).len() < usize::MAX,
    ensures
        ranked_from(final(table)@, old(table)@),
{
    sort_table(table);
    let ghost sorted = table@;
    recalculate_positions(table);
    assert(positions_recalculated(table@, sorted));
}

/// The table-tidying step of loading a saved table: club names are
/// normalised, then the table is ranked and renumbered.
pub fn normalize_loaded_table(table: &mut Vec<Team>)
    requires
        old(table).len() < usize::MAX,
    ensures
        loaded_form(final(table)@, old(table)@),
{
    let n = table.len();
    let ghost orig = table@;
    let mut i: usize = 0;
    while i < n
        invariant
            n == orig.len(),
            table.len() == n,
            i <= n,
            forall|k: int| 0 <= k < i ==> club_normalized(#[trigger] table@[k], orig[k]),
            forall|k: int| i <= k < n ==> #[trigger] table@[k] == orig[k],
        decreases n - i,
    {
        let mut t = table[i].clone();
        t.club = normalize_team_name(table[i].club.as_str());
        table.set(i, t);
        i = i + 1;
    }
    let ghost mid = table@;
    rank_table(table);
    assert(clubs_normalized(mid, orig));
}

/// `new` is the loaded form of the saved table `old`: clubs normalised, then
/// ranked and renumbered.
pub open spec fn loaded_form(new: Seq<Team>, old: Seq<Team>) -> bool {
    exists|mid: Seq<Team>| clubs_normalized(mid, old) && ranked_from(new, mid)
}

/// The tidying step of loading a saved history: every saved table is
/// normalised and ranked as `normalize_loaded_table` does.
pub fn normalize_loaded_history(history: &mut Vec<Vec<Team>>)
    requires
        forall|k: int| 0 <= k < old(history).len() ==> (#[trigger] old(history)@[k]).len() < usize::MAX,
    ensures
        final(history).len() == old(history).len(),
        forall|k: int|
            0 <= k < final(history).len() ==> loaded_form(
                (#[trigger] final(history)@[k])@,
                old(history)@[k]@,
            ),
{
    let n = history.len();
    let ghost orig = history@;
    let mut i: usize = 0;
    while i < n
        invariant
            n == orig.len(),
            history.len() == n,
            i <= n,
            forall|k: int| 0 <= k < orig.len() ==> (#[trigger] orig[k]).len() < usize::MAX,
            forall|k: int| 0 <= k < i ==> loaded_form((#[trigger] history@[k])@, orig[k]@),
            forall|k: int| i <= k < n ==> #[trigger] history@[k] == orig[k],
        decreases n - i,
    {
        let mut t = crate::table_utils::clone_table(&history[i]);
        normalize_loaded_table(&mut t);
        let ghost prev = history@;
        history.set(i, t);
        assert forall|k: int| 0 <= k < i + 1 implies loaded_form(
            (#[trigger] history@[k])@,
            orig[k]@,
        ) by {
            if k < i {
                assert(history@[k] == prev[k]);
            }
        }
        i = i + 1;
    }
}

} // verus!
