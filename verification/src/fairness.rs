//! Why the circle method is a round-robin: every pair of teams meets exactly
//! once per half of the schedule, and nobody plays twice in a round.
use vstd::prelude::*;

use crate::schedule::{
    circle_at, inner_pairs, is_bye, is_real, oriented, round_pairs, rounds_upto, spec_roster,
    spec_rounds, with_gameweeks, Pairing,
};

verus! {

// ---------------------------------------------------------------------------
// Circle places as plain arithmetic.
// ---------------------------------------------------------------------------

/// `x % m` for `0 <= x < 2m`.
pub open spec fn md(x: int, m: int) -> int {
    if x < m {
        x
    } else {
        x - m
    }
}

proof fn lemma_md(x: int, m: int)
    requires
        0 < m,
        0 <= x < 2 * m,
    ensures
        x % m == md(x, m),
{
    if x < m {
        vstd::arithmetic::div_mod::lemma_small_mod(x as nat, m as nat);
    } else {
        vstd::arithmetic::div_mod::lemma_mod_add_multiples_vanish(x - m, m);
        vstd::arithmetic::div_mod::lemma_small_mod((x - m) as nat, m as nat);
    }
}

/// The roster places (home side first) of slot `p` of round `r` with `n`
/// places: slot 0 is the first place against the circle's middle, slot
/// `p > 0` folds circle place `p - 1` onto place `n - 1 - p`.
pub open spec fn slot_idx(n: int, r: int, p: int) -> (int, int) {
    let m = n - 1;
    if p == 0 {
        (0, 1 + md(n / 2 - 1 + r, m))
    } else {
        (1 + md(p - 1 + r, m), 1 + md(n - 2 - (p - 1) + r, m))
    }
}

/// The slot's places hold no `BYE`.
pub open spec fn slot_real(roster: Seq<Seq<char>>, r: int, p: int) -> bool {
    let (u, v) = slot_idx(roster.len() as int, r, p);
    is_real(roster[u], roster[v])
}

/// The slot's fixture.
pub open spec fn slot_pair(roster: Seq<Seq<char>>, r: int, p: int, swap: bool) -> Pairing {
    let (u, v) = slot_idx(roster.len() as int, r, p);
    oriented(roster[u], roster[v], swap)
}

/// The shape of a roster the circle method works on.
pub open spec fn good_roster(roster: Seq<Seq<char>>) -> bool {
    roster.len() >= 2 && roster.len() % 2 == 0
}

/// A slot's places are within the roster and differ.
proof fn lemma_slot_bounds(n: int, r: int, p: int)
    requires
        n >= 2,
        n % 2 == 0,
        0 <= r < n - 1,
        0 <= p < n / 2,
    ensures
        0 <= slot_idx(n, r, p).0 < n,
        0 <= slot_idx(n, r, p).1 < n,
        slot_idx(n, r, p).0 != slot_idx(n, r, p).1,
        p > 0 ==> slot_idx(n, r, p).0 >= 1 && slot_idx(n, r, p).1 >= 1,
{
}

/// Within one round, two different slots share no place.
proof fn lemma_slots_disjoint(n: int, r: int, p1: int, p2: int)
    requires
        n >= 2,
        n % 2 == 0,
        0 <= r < n - 1,
        0 <= p1 < p2 < n / 2,
    ensures
        slot_idx(n, r, p1).0 != slot_idx(n, r, p2).0,
        slot_idx(n, r, p1).0 != slot_idx(n, r, p2).1,
        slot_idx(n, r, p1).1 != slot_idx(n, r, p2).0,
        slot_idx(n, r, p1).1 != slot_idx(n, r, p2).1,
{
}

/// The same two places never meet in two different slots of one half.
proof fn lemma_slots_unique(n: int, r1: int, p1: int, r2: int, p2: int)
    requires
        n >= 2,
        n % 2 == 0,
        0 <= r1 < n - 1,
        0 <= r2 < n - 1,
        0 <= p1 < n / 2,
        0 <= p2 < n / 2,
        (slot_idx(n, r1, p1) == slot_idx(n, r2, p2)) || (slot_idx(n, r1, p1).0 == slot_idx(n, r2, p2).1
            && slot_idx(n, r1, p1).1 == slot_idx(n, r2, p2).0),
    ensures
        r1 == r2 && p1 == p2,
{
}

/// Any two different places meet in some slot.
proof fn lemma_slot_exists(n: int, u: int, v: int) -> (rp: (int, int))
    requires
        n >= 2,
        n % 2 == 0,
        0 <= u < v < n,
    ensures
        0 <= rp.0 < n - 1,
        0 <= rp.1 < n / 2,
        slot_idx(n, rp.0, rp.1) == (u, v) || slot_idx(n, rp.0, rp.1) == (v, u),
{
    let m = n - 1;
    let h = n / 2;
    if u == 0 {
        let e = v - 1;
        let r = if e >= h - 1 {
            e - (h - 1)
        } else {
            e - (h - 1) + m
        };
        (r, 0)
    } else {
        let a = u - 1;
        let b = v - 1;
        let s = a + b + 1;
        let r0 = if s % 2 == 0 {
            s / 2
        } else {
            (s + m) / 2
        };
        let r = if r0 >= m {
            r0 - m
        } else {
            r0
        };
        let i = if a - r >= 0 {
            a - r
        } else {
            a - r + m
        };
        if i < h - 1 {
            (r, i + 1)
        } else {
            assert(i != h - 1);
            (r, m - 1 - i + 1)
        }
    }
}

// ---------------------------------------------------------------------------
// A round as a list of slots.
// ---------------------------------------------------------------------------

/// The fixtures of slots `0..hi` of round `r`, `BYE` slots left out.
pub open spec fn slot_list(roster: Seq<Seq<char>>, r: int, swap: bool, hi: int) -> Seq<Pairing>
    decreases hi,
{
    if hi <= 0 {
        Seq::empty()
    } else {
        slot_list(roster, r, swap, hi - 1) + if slot_real(roster, r, hi - 1) {
            seq![slot_pair(roster, r, hi - 1, swap)]
        } else {
            Seq::empty()
        }
    }
}

/// The slots among `0..hi` of round `r` without a `BYE`.
pub open spec fn real_slots(roster: Seq<Seq<char>>, r: int, hi: int) -> Seq<int>
    decreases hi,
{
    if hi <= 0 {
        Seq::empty()
    } else {
        real_slots(roster, r, hi - 1) + if slot_real(roster, r, hi - 1) {
            seq![hi - 1]
        } else {
            Seq::empty()
        }
    }
}

proof fn lemma_inner_is_slots(roster: Seq<Seq<char>>, r: int, swap: bool, hi: int)
    requires
        good_roster(roster),
        0 <= r < roster.len() - 1,
        1 <= hi <= roster.len() / 2,
    ensures
        slot_list(roster, r, swap, hi) == slot_list(roster, r, swap, 1) + inner_pairs(
            roster,
            r,
            swap,
            hi - 1,
        ),
    decreases hi,
{
    let n = roster.len() as int;
    let m = n - 1;
    if hi == 1 {
        assert(slot_list(roster, r, swap, 1) + inner_pairs(roster, r, swap, 0) =~= slot_list(
            roster,
            r,
            swap,
            1,
        ));
    } else {
        lemma_inner_is_slots(roster, r, swap, hi - 1);
        let p = hi - 1;
        lemma_md(p - 1 + r, m);
        lemma_md(n - 2 - (p - 1) + r, m);
        assert(circle_at(roster, r, p - 1) == roster[slot_idx(n, r, p).0]);
        assert(circle_at(roster, r, roster.len() - 2 - (p - 1)) == roster[slot_idx(n, r, p).1]);
        let a = slot_list(roster, r, swap, 1);
        let b = inner_pairs(roster, r, swap, hi - 2);
        if slot_real(roster, r, p) {
            assert((a + b).push(slot_pair(roster, r, p, swap)) =~= a + b.push(
                slot_pair(roster, r, p, swap),
            ));
            assert((a + b) + seq![slot_pair(roster, r, p, swap)] =~= (a + b).push(
                slot_pair(roster, r, p, swap),
            ));
        } else {
            assert((a + b) + Seq::<Pairing>::empty() =~= a + b);
        }
    }
}

/// A round's fixtures are its slots' fixtures in slot order.
proof fn lemma_round_is_slots(roster: Seq<Seq<char>>, r: int, swap: bool)
    requires
        good_roster(roster),
        0 <= r < roster.len() - 1,
    ensures
        round_pairs(roster, r, swap) == slot_list(roster, r, swap, roster.len() as int / 2),
{
    let n = roster.len() as int;
    lemma_inner_is_slots(roster, r, swap, n / 2);
    lemma_md(n / 2 - 1 + r, n - 1);
    assert(slot_list(roster, r, swap, 0) == Seq::<Pairing>::empty());
    assert(slot_list(roster, r, swap, 1) =~= Seq::<Pairing>::empty() + if slot_real(roster, r, 0) {
        seq![slot_pair(roster, r, 0, swap)]
    } else {
        Seq::empty()
    });
}

/// The round's fixture list lines up with its real slots.
proof fn lemma_slot_list_index(roster: Seq<Seq<char>>, r: int, swap: bool, hi: int)
    requires
        hi >= 0,
    ensures
        slot_list(roster, r, swap, hi).len() == real_slots(roster, r, hi).len(),
        forall|k: int|
            0 <= k < real_slots(roster, r, hi).len() ==> {
                &&& 0 <= #[trigger] real_slots(roster, r, hi)[k] < hi
                &&& slot_real(roster, r, real_slots(roster, r, hi)[k])
                &&& slot_list(roster, r, swap, hi)[k] == slot_pair(
                    roster,
                    r,
                    real_slots(roster, r, hi)[k],
                    swap,
                )
            },
        forall|k1: int, k2: int|
            0 <= k1 < k2 < real_slots(roster, r, hi).len() ==> #[trigger] real_slots(roster, r, hi)[k1]
                < #[trigger] real_slots(roster, r, hi)[k2],
        forall|p: int|
            0 <= p < hi && slot_real(roster, r, p) ==> exists|k: int|
                0 <= k < real_slots(roster, r, hi).len() && #[trigger] real_slots(roster, r, hi)[k] == p,
    decreases hi,
{
    if hi > 0 {
        lemma_slot_list_index(roster, r, swap, hi - 1);
        let prev = real_slots(roster, r, hi - 1);
        let cur = real_slots(roster, r, hi);
        if slot_real(roster, r, hi - 1) {
            assert(cur == prev + seq![hi - 1]);
            assert forall|p: int| 0 <= p < hi && slot_real(roster, r, p) implies exists|k: int|
                0 <= k < cur.len() && #[trigger] cur[k] == p by {
                if p < hi - 1 {
                    let k = choose|k: int| 0 <= k < prev.len() && #[trigger] prev[k] == p;
                    assert(cur[k] == p);
                } else {
                    assert(cur[prev.len() as int] == p);
                }
            }
        } else {
            assert(cur =~= prev);
            assert(slot_list(roster, r, swap, hi) =~= slot_list(roster, r, swap, hi - 1));
        }
    }
}

// ---------------------------------------------------------------------------
// All rounds.
// ---------------------------------------------------------------------------

/// The fixtures of the rounds, one after another.
pub open spec fn flatten(rounds: Seq<Seq<Pairing>>) -> Seq<Pairing>
    decreases rounds.len(),
{
    if rounds.len() == 0 {
        Seq::empty()
    } else {
        flatten(rounds.drop_last()) + rounds.last()
    }
}

/// The round slot `q` is round `q % (n - 1)` of half `q / (n - 1)`.
pub open spec fn slot_round(roster: Seq<Seq<char>>, q: int) -> int {
    md(q, roster.len() - 1)
}

/// The real slots of the first `k` round slots, as (round slot, slot).
pub open spec fn all_slots(roster: Seq<Seq<char>>, k: int) -> Seq<(int, int)>
    decreases k,
{
    if k <= 0 {
        Seq::empty()
    } else {
        all_slots(roster, k - 1) + real_slots(roster, slot_round(roster, k - 1), roster.len() as int / 2).map_values(
            |p: int| (k - 1, p),
        )
    }
}

/// The fixture of a real slot.
pub open spec fn fixture_at(roster: Seq<Seq<char>>, qp: (int, int)) -> Pairing {
    slot_pair(roster, slot_round(roster, qp.0), qp.1, qp.0 >= roster.len() - 1)
}

/// `(q1, p1)` comes before `(q2, p2)`.
pub open spec fn slot_before(a: (int, int), b: (int, int)) -> bool {
    a.0 < b.0 || (a.0 == b.0 && a.1 < b.1)
}

proof fn lemma_all_slots(roster: Seq<Seq<char>>, k: int)
    requires
        good_roster(roster),
        0 <= k <= 2 * (roster.len() - 1),
    ensures
        flatten(rounds_upto(roster, k)).len() == all_slots(roster, k).len(),
        forall|i: int|
            0 <= i < all_slots(roster, k).len() ==> {
                &&& 0 <= (#[trigger] all_slots(roster, k)[i]).0 < k
                &&& 0 <= all_slots(roster, k)[i].1 < roster.len() / 2
                &&& slot_real(roster, slot_round(roster, all_slots(roster, k)[i].0), all_slots(roster, k)[i].1)
                &&& flatten(rounds_upto(roster, k))[i] == fixture_at(roster, all_slots(roster, k)[i])
            },
        forall|i: int, j: int|
            0 <= i < j < all_slots(roster, k).len() ==> slot_before(
                #[trigger] all_slots(roster, k)[i],
                #[trigger] all_slots(roster, k)[j],
            ),
        forall|q: int, p: int|
            0 <= q < k && 0 <= p < roster.len() / 2 && slot_real(roster, slot_round(roster, q), p)
                ==> exists|i: int| 0 <= i < all_slots(roster, k).len() && #[trigger] all_slots(roster, k)[i] == (q, p),
    decreases k,
{
    if k > 0 {
        let n = roster.len() as int;
        let m = n - 1;
        let h = n / 2;
        lemma_all_slots(roster, k - 1);
        let q = k - 1;
        let r = slot_round(roster, q);
        let swap = q >= m;
        lemma_md(q, m);
        lemma_round_is_slots(roster, r, swap);
        lemma_slot_list_index(roster, r, swap, h);
        let prev = all_slots(roster, k - 1);
        let rs = real_slots(roster, r, h);
        let block = rs.map_values(|p: int| (q, p));
        let cur = all_slots(roster, k);
        assert(cur == prev + block);
        let fprev = flatten(rounds_upto(roster, k - 1));
        let rp = round_pairs(roster, q % m, q >= m);
        assert(q % m == r);
        assert(flatten(rounds_upto(roster, k)) =~= fprev + rp) by {
            if rp.len() > 0 {
                assert(rounds_upto(roster, k).drop_last() == rounds_upto(roster, k - 1));
            } else {
                assert(fprev + rp =~= fprev);
            }
        }
        assert forall|i: int| 0 <= i < cur.len() implies {
            &&& 0 <= (#[trigger] cur[i]).0 < k
            &&& 0 <= cur[i].1 < h
            &&& slot_real(roster, slot_round(roster, cur[i].0), cur[i].1)
            &&& flatten(rounds_upto(roster, k))[i] == fixture_at(roster, cur[i])
        } by {
            if i < prev.len() {
                assert(cur[i] == prev[i]);
            } else {
                let t = i - prev.len();
                assert(cur[i] == block[t]);
                assert(block[t] == (q, rs[t]));
            }
        }
        assert forall|i: int, j: int| 0 <= i < j < cur.len() implies slot_before(
            #[trigger] cur[i],
            #[trigger] cur[j],
        ) by {
            if j < prev.len() {
                assert(cur[i] == prev[i] && cur[j] == prev[j]);
            } else if i < prev.len() {
                assert(cur[i] == prev[i]);
                assert(cur[j] == block[j - prev.len()]);
            } else {
                assert(cur[i] == block[i - prev.len()]);
                assert(cur[j] == block[j - prev.len()]);
                assert(rs[i - prev.len()] < rs[j - prev.len()]);
            }
        }
        assert forall|q2: int, p: int|
            0 <= q2 < k && 0 <= p < h && slot_real(roster, slot_round(roster, q2), p) implies exists|i: int|
            0 <= i < cur.len() && #[trigger] cur[i] == (q2, p) by {
            if q2 < k - 1 {
                let i = choose|i: int| 0 <= i < prev.len() && #[trigger] prev[i] == (q2, p);
                assert(cur[i] == prev[i]);
            } else {
                let t = choose|t: int| 0 <= t < rs.len() && #[trigger] rs[t] == p;
                assert(cur[prev.len() + t] == block[t]);
            }
        }
    }
}

proof fn lemma_flatten_weeks(rounds: Seq<Seq<Pairing>>, gpw: int)
    ensures
        with_gameweeks(rounds, gpw).len() == flatten(rounds).len(),
        forall|i: int|
            0 <= i < flatten(rounds).len() ==> (#[trigger] with_gameweeks(rounds, gpw)[i]).1 == flatten(rounds)[i],
    decreases rounds.len(),
{
    if rounds.len() > 0 {
        lemma_flatten_weeks(rounds.drop_last(), gpw);
        let k = rounds.len() - 1;
        let a = with_gameweeks(rounds.drop_last(), gpw);
        let b = rounds.last().map_values(|p: Pairing| (crate::schedule::gameweek_of(k, gpw), p));
        assert forall|i: int| 0 <= i < flatten(rounds).len() implies (#[trigger] with_gameweeks(
            rounds,
            gpw,
        )[i]).1 == flatten(rounds)[i] by {
            if i < a.len() {
                assert(with_gameweeks(rounds, gpw)[i] == a[i]);
            } else {
                assert(with_gameweeks(rounds, gpw)[i] == b[i - a.len()]);
            }
        }
    }
}

// ---------------------------------------------------------------------------
// The laws.
// ---------------------------------------------------------------------------

/// The teams are distinct and none is named `BYE`.
pub open spec fn distinct_real_teams(teams: Seq<Seq<char>>) -> bool {
    &&& forall|i: int, j: int| 0 <= i < j < teams.len() ==> #[trigger] teams[i] != #[trigger] teams[j]
    &&& forall|i: int| 0 <= i < teams.len() ==> !is_bye(#[trigger] teams[i])
}

proof fn lemma_roster_facts(teams: Seq<Seq<char>>)
    requires
        teams.len() >= 1,
        distinct_real_teams(teams),
    ensures
        good_roster(spec_roster(teams)),
        spec_roster(teams).len() <= teams.len() + 1,
        forall|i: int| 0 <= i < teams.len() ==> #[trigger] spec_roster(teams)[i] == teams[i],
        forall|i: int, j: int|
            0 <= i < j < spec_roster(teams).len() ==> #[trigger] spec_roster(teams)[i] != #[trigger] spec_roster(teams)[j],
        forall|u: int, v: int|
            0 <= u < spec_roster(teams).len() && 0 <= v < spec_roster(teams).len() && is_real(
                spec_roster(teams)[u],
                spec_roster(teams)[v],
            ) ==> u < teams.len() && v < teams.len(),
{
    let ro = spec_roster(teams);
    assert forall|i: int, j: int| 0 <= i < j < ro.len() implies #[trigger] ro[i] != #[trigger] ro[j] by {
        if j >= teams.len() {
            assert(ro[j] == "BYE"@);
            assert(!is_bye(teams[i]));
        }
    }
}

/// In a single round-robin of distinct teams (none named `BYE`), every
/// fixture is between two different teams of the list, every pair of teams
/// meets, and no pair meets twice (in either orientation).
pub proof fn law_single_round_robin(teams: Seq<Seq<char>>, gpw: int)
    requires
        teams.len() >= 1,
        distinct_real_teams(teams),
    ensures
        ({
            let f = with_gameweeks(spec_rounds(teams, 1), gpw);
            &&& forall|k: int|
                0 <= k < f.len() ==> exists|i: int, j: int|
                    0 <= i < teams.len() && 0 <= j < teams.len() && i != j && (#[trigger] f[k]).1 == (
                        teams[i],
                        teams[j],
                    )
            &&& forall|i: int, j: int|
                #![trigger teams[i], teams[j]]
                0 <= i < j < teams.len() ==> exists|k: int|
                    0 <= k < f.len() && ((#[trigger] f[k]).1 == (teams[i], teams[j]) || f[k].1 == (
                        teams[j],
                        teams[i],
                    ))
            &&& forall|k1: int, k2: int|
                0 <= k1 < k2 < f.len() ==> (#[trigger] f[k1]).1 != (#[trigger] f[k2]).1 && f[k1].1
                    != (f[k2].1.1, f[k2].1.0)
        }),
{
    lemma_roster_facts(teams);
    let ro = spec_roster(teams);
    let n = ro.len() as int;
    let m = n - 1;
    let rounds = spec_rounds(teams, 1);
    assert(rounds == rounds_upto(ro, m));
    lemma_all_slots(ro, m);
    lemma_flatten_weeks(rounds, gpw);
    let f = with_gameweeks(rounds, gpw);
    let sl = all_slots(ro, m);
    assert forall|k: int| 0 <= k < f.len() implies exists|i: int, j: int|
        0 <= i < teams.len() && 0 <= j < teams.len() && i != j && (#[trigger] f[k]).1 == (
            teams[i],
            teams[j],
        ) by {
        let (q, p) = sl[k];
        lemma_md(q, m);
        lemma_slot_bounds(n, q, p);
        let (u, v) = slot_idx(n, q, p);
        assert(f[k].1 == (ro[u], ro[v]));
        assert(ro[u] == teams[u] && ro[v] == teams[v]);
    }
    assert forall|i: int, j: int|
        #![trigger teams[i], teams[j]]
        0 <= i < j < teams.len() implies exists|k: int|
        0 <= k < f.len() && ((#[trigger] f[k]).1 == (teams[i], teams[j]) || f[k].1 == (teams[j], teams[i])) by {
        let rp = lemma_slot_exists(n, i, j);
        lemma_md(rp.0, m);
        assert(slot_real(ro, slot_round(ro, rp.0), rp.1));
        let k = choose|k: int| 0 <= k < sl.len() && #[trigger] sl[k] == rp;
        assert(f[k].1 == fixture_at(ro, rp));
    }
    assert forall|k1: int, k2: int| 0 <= k1 < k2 < f.len() implies (#[trigger] f[k1]).1 != (
    #[trigger] f[k2]).1 && f[k1].1 != (f[k2].1.1, f[k2].1.0) by {
        let (q1, p1) = sl[k1];
        let (q2, p2) = sl[k2];
        assert(slot_before(sl[k1], sl[k2]));
        lemma_md(q1, m);
        lemma_md(q2, m);
        lemma_slot_bounds(n, q1, p1);
        lemma_slot_bounds(n, q2, p2);
        let (u1, v1) = slot_idx(n, q1, p1);
        let (u2, v2) = slot_idx(n, q2, p2);
        assert(f[k1].1 == (ro[u1], ro[v1]));
        assert(f[k2].1 == (ro[u2], ro[v2]));
        if f[k1].1 == f[k2].1 {
            assert(u1 == u2 && v1 == v2);
            lemma_slots_unique(n, q1, p1, q2, p2);
        }
        if f[k1].1 == (f[k2].1.1, f[k2].1.0) {
            assert(u1 == v2 && v1 == u2);
            lemma_slots_unique(n, q1, p1, q2, p2);
        }
    }
}


/// Every fixture is between two different teams of the list.
pub open spec fn between_listed_teams(teams: Seq<Seq<char>>, f: Seq<(int, Pairing)>) -> bool {
    forall|k: int|
        0 <= k < f.len() ==> exists|i: int, j: int|
            0 <= i < teams.len() && 0 <= j < teams.len() && i != j && (#[trigger] f[k]).1 == (
                teams[i],
                teams[j],
            )
}

/// Every team hosts every other team of the list in some fixture.
pub open spec fn hosts_every_pair(teams: Seq<Seq<char>>, f: Seq<(int, Pairing)>) -> bool {
    forall|i: int, j: int|
        #![trigger teams[i], teams[j]]
        0 <= i < teams.len() && 0 <= j < teams.len() && i != j ==> exists|k: int|
            0 <= k < f.len() && (#[trigger] f[k]).1 == (teams[i], teams[j])
}

/// No (home, away) fixture occurs twice.
pub open spec fn no_repeated_fixture(f: Seq<(int, Pairing)>) -> bool {
    forall|k1: int, k2: int| 0 <= k1 < k2 < f.len() ==> (#[trigger] f[k1]).1 != (#[trigger] f[k2]).1
}

#[verifier::spinoff_prover]
proof fn lemma_double_fixtures(teams: Seq<Seq<char>>, gpw: int)
    requires
        teams.len() >= 1,
        distinct_real_teams(teams),
    ensures
        between_listed_teams(teams, with_gameweeks(spec_rounds(teams, 2), gpw)),
{
    lemma_roster_facts(teams);
    let ro = spec_roster(teams);
    let n = ro.len() as int;
    let m = n - 1;
    lemma_all_slots(ro, 2 * m);
    lemma_flatten_weeks(spec_rounds(teams, 2), gpw);
    assert(spec_rounds(teams, 2) == rounds_upto(ro, 2 * m));
    let f = with_gameweeks(spec_rounds(teams, 2), gpw);
    let sl = all_slots(ro, 2 * m);
    assert forall|k: int| 0 <= k < f.len() implies exists|i: int, j: int|
        0 <= i < teams.len() && 0 <= j < teams.len() && i != j && (#[trigger] f[k]).1 == (
            teams[i],
            teams[j],
        ) by {
        let (q, p) = sl[k];
        assert(f[k].1 == fixture_at(ro, sl[k]));
        lemma_md(q, m);
        lemma_slot_bounds(n, slot_round(ro, q), p);
        let (u, v) = slot_idx(n, slot_round(ro, q), p);
        assert(ro[u] == teams[u] && ro[v] == teams[v]);
        if q >= m {
            assert(f[k].1 == (teams[v], teams[u]));
        } else {
            assert(f[k].1 == (teams[u], teams[v]));
        }
    }
}

proof fn lemma_double_covers(teams: Seq<Seq<char>>, gpw: int)
    requires
        teams.len() >= 1,
        distinct_real_teams(teams),
    ensures
        hosts_every_pair(teams, with_gameweeks(spec_rounds(teams, 2), gpw)),
{
    lemma_roster_facts(teams);
    let ro = spec_roster(teams);
    let n = ro.len() as int;
    let m = n - 1;
    lemma_all_slots(ro, 2 * m);
    lemma_flatten_weeks(spec_rounds(teams, 2), gpw);
    assert(spec_rounds(teams, 2) == rounds_upto(ro, 2 * m));
    let f = with_gameweeks(spec_rounds(teams, 2), gpw);
    let sl = all_slots(ro, 2 * m);
    assert forall|i: int, j: int|
        #![trigger teams[i], teams[j]]
        0 <= i < teams.len() && 0 <= j < teams.len() && i != j implies exists|k: int|
        0 <= k < f.len() && (#[trigger] f[k]).1 == (teams[i], teams[j]) by {
        let rp = if i < j {
            lemma_slot_exists(n, i, j)
        } else {
            lemma_slot_exists(n, j, i)
        };
        lemma_md(rp.0, m);
        lemma_md(rp.0 + m, m);
        let q = if slot_idx(n, rp.0, rp.1) == (i, j) {
            rp.0
        } else {
            rp.0 + m
        };
        assert(slot_round(ro, q) == rp.0);
        assert(slot_real(ro, slot_round(ro, q), rp.1));
        let k = choose|k: int| 0 <= k < sl.len() && #[trigger] sl[k] == (q, rp.1);
        assert(f[k].1 == fixture_at(ro, (q, rp.1)));
    }
}

proof fn lemma_double_unique(teams: Seq<Seq<char>>, gpw: int)
    requires
        teams.len() >= 1,
        distinct_real_teams(teams),
    ensures
        no_repeated_fixture(with_gameweeks(spec_rounds(teams, 2), gpw)),
{
    lemma_roster_facts(teams);
    let ro = spec_roster(teams);
    let n = ro.len() as int;
    let m = n - 1;
    lemma_all_slots(ro, 2 * m);
    lemma_flatten_weeks(spec_rounds(teams, 2), gpw);
    assert(spec_rounds(teams, 2) == rounds_upto(ro, 2 * m));
    let f = with_gameweeks(spec_rounds(teams, 2), gpw);
    let sl = all_slots(ro, 2 * m);
    assert forall|k1: int, k2: int| 0 <= k1 < k2 < f.len() implies (#[trigger] f[k1]).1 != (
    #[trigger] f[k2]).1 by {
        let (q1, p1) = sl[k1];
        let (q2, p2) = sl[k2];
        assert(slot_before(sl[k1], sl[k2]));
        lemma_md(q1, m);
        lemma_md(q2, m);
        let r1 = slot_round(ro, q1);
        let r2 = slot_round(ro, q2);
        lemma_slot_bounds(n, r1, p1);
        lemma_slot_bounds(n, r2, p2);
        let (u1, v1) = slot_idx(n, r1, p1);
        let (u2, v2) = slot_idx(n, r2, p2);
        assert(f[k1].1 == fixture_at(ro, sl[k1]));
        assert(f[k2].1 == fixture_at(ro, sl[k2]));
        if f[k1].1 == f[k2].1 {
            if (q1 >= m) == (q2 >= m) {
                assert(u1 == u2 && v1 == v2);
                lemma_slots_unique(n, r1, p1, r2, p2);
            } else {
                assert(u1 == v2 && v1 == u2);
                lemma_slots_unique(n, r1, p1, r2, p2);
            }
        }
    }
}

/// In a double round-robin of distinct teams (none named `BYE`), every
/// fixture is between two different teams of the list, and every ordered
/// pair of different teams meets exactly once: each team hosts every other
/// team once.
pub proof fn law_double_round_robin(teams: Seq<Seq<char>>, gpw: int)
    requires
        teams.len() >= 1,
        distinct_real_teams(teams),
    ensures
        between_listed_teams(teams, with_gameweeks(spec_rounds(teams, 2), gpw)),
        hosts_every_pair(teams, with_gameweeks(spec_rounds(teams, 2), gpw)),
        no_repeated_fixture(with_gameweeks(spec_rounds(teams, 2), gpw)),
{
    lemma_double_fixtures(teams, gpw);
    lemma_double_covers(teams, gpw);
    lemma_double_unique(teams, gpw);
}

/// The fixtures of round slot `q`.
pub open spec fn slot_round_pairs(roster: Seq<Seq<char>>, q: int) -> Seq<Pairing> {
    round_pairs(roster, q % (roster.len() - 1), q >= roster.len() - 1)
}

/// The round slot that kept round `t` among the first `k` slots came from.
pub open spec fn slot_of_round(roster: Seq<Seq<char>>, k: int, t: int) -> int
    decreases k,
{
    if k <= 0 {
        0
    } else if t < rounds_upto(roster, k - 1).len() {
        slot_of_round(roster, k - 1, t)
    } else {
        k - 1
    }
}

/// Each kept round is the round of its round slot.
proof fn lemma_round_origin(roster: Seq<Seq<char>>, k: int, t: int)
    requires
        k >= 0,
        0 <= t < rounds_upto(roster, k).len(),
    ensures
        0 <= slot_of_round(roster, k, t) < k,
        rounds_upto(roster, k)[t] == slot_round_pairs(roster, slot_of_round(roster, k, t)),
    decreases k,
{
    let prev = rounds_upto(roster, k - 1);
    let cur = rounds_upto(roster, k);
    let m = roster.len() - 1;
    let rp = round_pairs(roster, (k - 1) % m, k - 1 >= m);
    assert(cur == (if rp.len() > 0 {
        prev.push(rp)
    } else {
        prev
    }));
    if t < prev.len() {
        lemma_round_origin(roster, k - 1, t);
        assert(cur[t] == prev[t]);
    } else {
        assert(cur[t] == rp);
    }
}

/// Two fixtures share no team.
pub open spec fn disjoint_fixtures(x: Pairing, y: Pairing) -> bool {
    x.0 != y.0 && x.0 != y.1 && x.1 != y.0 && x.1 != y.1
}

/// Within one round of a circle-method schedule of distinct teams, no team
/// plays twice: two different fixtures of a round share no team.
pub proof fn law_one_match_per_round(teams: Seq<Seq<char>>, halves: int)
    requires
        teams.len() >= 1,
        distinct_real_teams(teams),
        1 <= halves <= 2,
    ensures
        forall|t: int, a: int, b: int|
            0 <= t < spec_rounds(teams, halves).len() && 0 <= a < b < spec_rounds(teams, halves)[t].len()
                ==> disjoint_fixtures(
                #[trigger] spec_rounds(teams, halves)[t][a],
                #[trigger] spec_rounds(teams, halves)[t][b],
            ),
{
    lemma_roster_facts(teams);
    let ro = spec_roster(teams);
    let n = ro.len() as int;
    let m = n - 1;
    let rounds = spec_rounds(teams, halves);
    assert(rounds == rounds_upto(ro, halves * m));
    assert(halves * m <= 2 * m) by (nonlinear_arith)
        requires
            halves <= 2,
            m >= 1,
    ;
    assert forall|t: int, a: int, b: int|
        0 <= t < rounds.len() && 0 <= a < b < rounds[t].len() implies disjoint_fixtures(
            #[trigger] rounds[t][a],
            #[trigger] rounds[t][b],
        ) by {
        lemma_round_origin(ro, halves * m, t);
        let q = slot_of_round(ro, halves * m, t);
        lemma_md(q, m);
        let r = q % m;
        let swap = q >= m;
        lemma_round_is_slots(ro, r, swap);
        lemma_slot_list_index(ro, r, swap, n / 2);
        let rs = real_slots(ro, r, n / 2);
        let p1 = rs[a];
        let p2 = rs[b];
        assert(p1 < p2);
        lemma_slots_disjoint(n, r, p1, p2);
        lemma_slot_bounds(n, r, p1);
        lemma_slot_bounds(n, r, p2);
        let (u1, v1) = slot_idx(n, r, p1);
        let (u2, v2) = slot_idx(n, r, p2);
        assert(rounds[t][a] == oriented(ro[u1], ro[v1], swap));
        assert(rounds[t][b] == oriented(ro[u2], ro[v2], swap));
        assert(ro[u1] != ro[u2] && ro[u1] != ro[v2] && ro[v1] != ro[u2] && ro[v1] != ro[v2]);
    }
}

/// The kept rounds of fewer round slots begin the kept rounds of more.
proof fn lemma_rounds_prefix(roster: Seq<Seq<char>>, k1: int, k2: int)
    requires
        0 <= k1 <= k2,
    ensures
        rounds_upto(roster, k1).len() <= rounds_upto(roster, k2).len(),
        rounds_upto(roster, k2).take(rounds_upto(roster, k1).len() as int) == rounds_upto(roster, k1),
    decreases k2,
{
    if k1 == k2 {
        assert(rounds_upto(roster, k2).take(rounds_upto(roster, k1).len() as int) =~= rounds_upto(roster, k1));
    } else {
        lemma_rounds_prefix(roster, k1, k2 - 1);
        let a = rounds_upto(roster, k1);
        let b = rounds_upto(roster, k2 - 1);
        let c = rounds_upto(roster, k2);
        assert(c.take(b.len() as int) =~= b);
        assert(c.take(a.len() as int) =~= b.take(a.len() as int));
    }
}

/// Numbering the rounds of a prefix gives a prefix of the numbered fixtures.
proof fn lemma_weeks_prefix(r1: Seq<Seq<Pairing>>, r2: Seq<Seq<Pairing>>, gpw: int)
    requires
        r1.len() <= r2.len(),
        r2.take(r1.len() as int) == r1,
    ensures
        with_gameweeks(r1, gpw).len() <= with_gameweeks(r2, gpw).len(),
        forall|i: int|
            0 <= i < with_gameweeks(r1, gpw).len() ==> #[trigger] with_gameweeks(r2, gpw)[i]
                == with_gameweeks(r1, gpw)[i],
    decreases r2.len(),
{
    if r1.len() == r2.len() {
        assert(r2 =~= r1) by {
            assert(r2.take(r2.len() as int) =~= r2);
        }
    } else {
        let d = r2.drop_last();
        assert(d.take(r1.len() as int) =~= r2.take(r1.len() as int));
        lemma_weeks_prefix(r1, d, gpw);
        let k = r2.len() - 1;
        let a = with_gameweeks(d, gpw);
        let b = r2.last().map_values(|p: Pairing| (crate::schedule::gameweek_of(k, gpw), p));
        assert(with_gameweeks(r2, gpw) == a + b);
        assert forall|i: int| 0 <= i < with_gameweeks(r1, gpw).len() implies #[trigger] with_gameweeks(r2, gpw)[i]
            == with_gameweeks(r1, gpw)[i] by {
            assert((a + b)[i] == a[i]);
        }
    }
}

/// The second half of the round slots has as many fixtures as the first.
proof fn lemma_all_slots_halves(roster: Seq<Seq<char>>, k: int)
    requires
        good_roster(roster),
        0 <= k <= roster.len() - 1,
    ensures
        all_slots(roster, roster.len() - 1 + k).len() == all_slots(roster, roster.len() - 1).len()
            + all_slots(roster, k).len(),
    decreases k,
{
    let m = roster.len() - 1;
    if k > 0 {
        lemma_all_slots_halves(roster, k - 1);
        lemma_md(m + k - 1, m);
        lemma_md(k - 1, m);
        assert(slot_round(roster, m + k - 1) == k - 1);
        assert(slot_round(roster, k - 1) == k - 1);
    }
}

/// The double round-robin begins with the single round-robin, fixture for
/// fixture (same gameweek, same home and away side), and has twice as many
/// fixtures.
pub proof fn law_double_begins_with_single(teams: Seq<Seq<char>>, gpw: int)
    requires
        teams.len() >= 1,
    ensures
        ({
            let single = with_gameweeks(spec_rounds(teams, 1), gpw);
            let double = with_gameweeks(spec_rounds(teams, 2), gpw);
            &&& double.len() == 2 * single.len()
            &&& forall|i: int| 0 <= i < single.len() ==> #[trigger] double[i] == single[i]
        }),
{
    let ro = spec_roster(teams);
    let m = ro.len() - 1;
    assert(good_roster(ro));
    assert(spec_rounds(teams, 1) == rounds_upto(ro, m));
    assert(spec_rounds(teams, 2) == rounds_upto(ro, m + m));
    lemma_rounds_prefix(ro, m, m + m);
    lemma_weeks_prefix(rounds_upto(ro, m), rounds_upto(ro, m + m), gpw);
    lemma_all_slots(ro, m);
    lemma_all_slots(ro, m + m);
    lemma_flatten_weeks(rounds_upto(ro, m), gpw);
    lemma_flatten_weeks(rounds_upto(ro, m + m), gpw);
    lemma_all_slots_halves(ro, m);
}

} // verus!
