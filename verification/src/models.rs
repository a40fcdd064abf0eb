//! What holds in every model of the rules of a tournament.

use vstd::prelude::*;
use crate::lit::{count_true, lemma_count_true_concat, lemma_count_true_push, lemma_count_true_zero, Bool};
use crate::formula::{all_hold, lemma_all_hold_concat, lemma_all_hold_push, Rule};
use crate::table::VarTable;
use crate::schedule::{grid_shaped, hostings, opponents, plays, valid_schedule};
use crate::compact::{all_games_need_home, compact_2rr_rules, compact_rules, games, guest_away, half, home_needs_game, home_rules, host_at_home, hosted, meetings, pair_rules, round_robin_row_rules, round_robin_rules, slot_rules, slots_rules, venue_row_rules, venue_rules};

verus! {

/// A single term counts one if it holds.
pub proof fn lemma_count_true_one(a: Bool, m: Seq<bool>)
    ensures
        count_true(seq![a], m) == if a.holds(m) {
            1nat
        } else {
            0nat
        },
{
    assert(seq![a] =~= Seq::<Bool>::empty().push(a));
    lemma_count_true_push(Seq::<Bool>::empty(), a, m);
}

/// Of two terms those count that hold.
pub proof fn lemma_count_true_two(a: Bool, b: Bool, m: Seq<bool>)
    ensures
        count_true(seq![a, b], m) == (if a.holds(m) {
            1nat
        } else {
            0nat
        }) + (if b.holds(m) {
            1nat
        } else {
            0nat
        }),
{
    assert(seq![a, b] =~= seq![a].push(b));
    lemma_count_true_push(seq![a], b, m);
    lemma_count_true_one(a, m);
}

/// A term that holds makes the count positive.
pub proof fn lemma_count_true_positive(lits: Seq<Bool>, i: int, m: Seq<bool>)
    requires
        0 <= i < lits.len(),
        lits[i].holds(m),
    ensures
        count_true(lits, m) >= 1,
{
    lemma_count_true_zero(lits, m);
}

proof fn lemma_slot_rules_hold(t: VarTable, k: int, s: int, m: Seq<bool>)
    requires
        all_hold(slots_rules(t, k), m),
        0 <= s < k,
    ensures
        all_hold(slot_rules(t, s), m),
    decreases k,
{
    lemma_all_hold_concat(slots_rules(t, k - 1), slot_rules(t, k - 1), m);
    if s < k - 1 {
        lemma_slot_rules_hold(t, k - 1, s, m);
    }
}

proof fn lemma_compact_rule_holds(t: VarTable, s: int, k: int, i: int, m: Seq<bool>)
    requires
        all_hold(compact_rules(t, s, k), m),
        0 <= i < k,
    ensures
        count_true(games(t, s, i, t.teams()), m) == 1,
    decreases k,
{
    lemma_all_hold_push(compact_rules(t, s, k - 1), Rule::ExactlyOne(games(t, s, k - 1, t.teams())), m);
    if i < k - 1 {
        lemma_compact_rule_holds(t, s, k - 1, i, m);
    }
}

proof fn lemma_home_rules_hold(t: VarTable, s: int, k: int, i: int, m: Seq<bool>)
    requires
        all_hold(home_rules(t, s, k), m),
        0 <= i < k,
    ensures
        home_needs_game(t, s, i).holds(m),
        all_games_need_home(t, s, i).holds(m),
    decreases k,
{
    let a = home_rules(t, s, k - 1);
    lemma_all_hold_push(a.push(home_needs_game(t, s, k - 1)), all_games_need_home(t, s, k - 1), m);
    lemma_all_hold_push(a, home_needs_game(t, s, k - 1), m);
    if i < k - 1 {
        lemma_home_rules_hold(t, s, k - 1, i, m);
    }
}

proof fn lemma_venue_row_rules_hold(t: VarTable, s: int, i: int, k: int, j: int, m: Seq<bool>)
    requires
        all_hold(venue_row_rules(t, s, i, k), m),
        0 <= j < k,
        j != i,
    ensures
        host_at_home(t, s, i, j).holds(m),
        guest_away(t, s, i, j).holds(m),
    decreases k,
{
    if k - 1 == i {
        lemma_venue_row_rules_hold(t, s, i, k - 1, j, m);
    } else {
        let a = venue_row_rules(t, s, i, k - 1);
        lemma_all_hold_push(a.push(host_at_home(t, s, i, k - 1)), guest_away(t, s, i, k - 1), m);
        lemma_all_hold_push(a, host_at_home(t, s, i, k - 1), m);
        if j < k - 1 {
            lemma_venue_row_rules_hold(t, s, i, k - 1, j, m);
        }
    }
}

proof fn lemma_venue_rules_hold(t: VarTable, s: int, k: int, i: int, m: Seq<bool>)
    requires
        all_hold(venue_rules(t, s, k), m),
        0 <= i < k,
    ensures
        all_hold(venue_row_rules(t, s, i, t.teams()), m),
    decreases k,
{
    lemma_all_hold_concat(venue_rules(t, s, k - 1), venue_row_rules(t, s, k - 1, t.teams()), m);
    if i < k - 1 {
        lemma_venue_rules_hold(t, s, k - 1, i, m);
    }
}

proof fn lemma_round_robin_row_rules_hold(t: VarTable, i: int, k: int, j: int, phased: bool, m: Seq<bool>)
    requires
        all_hold(round_robin_row_rules(t, i, k, phased), m),
        0 <= j < k,
        t.team_ids@[i] < t.team_ids@[j],
    ensures
        all_hold(pair_rules(t, i, j, phased), m),
    decreases k,
{
    if t.team_ids@[i] < t.team_ids@[k - 1] {
        lemma_all_hold_concat(round_robin_row_rules(t, i, k - 1, phased), pair_rules(t, i, k - 1, phased), m);
    }
    if j < k - 1 {
        lemma_round_robin_row_rules_hold(t, i, k - 1, j, phased, m);
    }
}

proof fn lemma_round_robin_rules_hold(t: VarTable, k: int, i: int, phased: bool, m: Seq<bool>)
    requires
        all_hold(round_robin_rules(t, k, phased), m),
        0 <= i < k,
    ensures
        all_hold(round_robin_row_rules(t, i, t.teams(), phased), m),
    decreases k,
{
    lemma_all_hold_concat(round_robin_rules(t, k - 1, phased), round_robin_row_rules(t, k - 1, t.teams(), phased), m);
    if i < k - 1 {
        lemma_round_robin_rules_hold(t, k - 1, i, phased, m);
    }
}

/// A model of the tournament's rules obeys the rules of each slot.
proof fn lemma_slot_holds(t: VarTable, phased: bool, m: Seq<bool>, s: int)
    requires
        all_hold(compact_2rr_rules(t, phased), m),
        0 <= s < t.slots(),
    ensures
        all_hold(compact_rules(t, s, t.teams()), m),
        all_hold(home_rules(t, s, t.teams()), m),
        all_hold(venue_rules(t, s, t.teams()), m),
{
    lemma_all_hold_concat(slots_rules(t, t.slots()), round_robin_rules(t, t.teams(), phased), m);
    lemma_slot_rules_hold(t, t.slots(), s, m);
    let n = t.teams();
    lemma_all_hold_concat(compact_rules(t, s, n) + home_rules(t, s, n), venue_rules(t, s, n), m);
    lemma_all_hold_concat(compact_rules(t, s, n), home_rules(t, s, n), m);
}

/// A model of the tournament's rules obeys the rules of each pair of teams
/// of which the first has the smaller identifier.
proof fn lemma_pair_holds(t: VarTable, phased: bool, m: Seq<bool>, i: int, j: int)
    requires
        all_hold(compact_2rr_rules(t, phased), m),
        0 <= i < t.teams(),
        0 <= j < t.teams(),
        t.team_ids@[i] < t.team_ids@[j],
    ensures
        all_hold(pair_rules(t, i, j, phased), m),
{
    lemma_all_hold_concat(slots_rules(t, t.slots()), round_robin_rules(t, t.teams(), phased), m);
    lemma_round_robin_rules_hold(t, t.teams(), i, phased, m);
    lemma_round_robin_row_rules_hold(t, i, t.teams(), j, phased, m);
}

/// The games hosted by team `i` against the teams before `k` are those
/// against each of them but itself.
pub proof fn lemma_hosted_members(t: VarTable, s: int, i: int, k: int)
    requires
        0 <= k,
    ensures
        forall|x: int|
            0 <= x < hosted(t, s, i, k).len() ==> exists|j: int|
                0 <= j < k && j != i && #[trigger] t.m(s, i, j) == #[trigger] hosted(t, s, i, k)[x],
        forall|j: int|
            0 <= j < k && j != i ==> exists|x: int|
                0 <= x < hosted(t, s, i, k).len() && #[trigger] hosted(t, s, i, k)[x] == #[trigger] t.m(s, i, j),
    decreases k,
{
    if k > 0 {
        lemma_hosted_members(t, s, i, k - 1);
        let prev = hosted(t, s, i, k - 1);
        let cur = hosted(t, s, i, k);
        assert forall|x: int| 0 <= x < cur.len() implies exists|j: int|
            0 <= j < k && j != i && #[trigger] t.m(s, i, j) == #[trigger] cur[x] by {
            if x < prev.len() {
                let j = choose|j: int| 0 <= j < k - 1 && j != i && #[trigger] t.m(s, i, j) == prev[x];
                assert(t.m(s, i, j) == cur[x]);
            } else {
                assert(t.m(s, i, k - 1) == cur[x]);
            }
        }
        assert forall|j: int| 0 <= j < k && j != i implies exists|x: int|
            0 <= x < cur.len() && #[trigger] cur[x] == #[trigger] t.m(s, i, j) by {
            if j < k - 1 {
                let x = choose|x: int| 0 <= x < prev.len() && #[trigger] prev[x] == t.m(s, i, j);
                assert(cur[x] == t.m(s, i, j));
            } else {
                assert(cur[cur.len() - 1] == t.m(s, i, j));
            }
        }
    }
}

/// The meetings of the slots from `lo` to `hi`, one per slot and in order.
pub proof fn lemma_meetings_index(t: VarTable, i: int, j: int, lo: int, hi: int)
    requires
        lo <= hi,
    ensures
        meetings(t, i, j, lo, hi).len() == hi - lo,
        forall|k: int| 0 <= k < hi - lo ==> #[trigger] meetings(t, i, j, lo, hi)[k] == t.m(lo + k, i, j),
    decreases hi - lo,
{
    if lo < hi {
        lemma_meetings_index(t, i, j, lo, hi - 1);
    }
}

/// The meetings of a range of slots are those of its two parts.
pub proof fn lemma_meetings_split(t: VarTable, i: int, j: int, lo: int, mid: int, hi: int)
    requires
        lo <= mid <= hi,
    ensures
        meetings(t, i, j, lo, hi) == meetings(t, i, j, lo, mid) + meetings(t, i, j, mid, hi),
{
    lemma_meetings_index(t, i, j, lo, hi);
    lemma_meetings_index(t, i, j, lo, mid);
    lemma_meetings_index(t, i, j, mid, hi);
    assert(meetings(t, i, j, lo, hi) =~= meetings(t, i, j, lo, mid) + meetings(t, i, j, mid, hi));
}

/// In every model of the rules of a tournament, each team plays exactly one
/// game in each slot, at home or away.
pub proof fn lemma_one_game_per_team_and_slot(t: VarTable, phased: bool, m: Seq<bool>, s: int, i: int)
    requires
        all_hold(compact_2rr_rules(t, phased), m),
        0 <= s < t.slots(),
        0 <= i < t.teams(),
    ensures
        count_true(games(t, s, i, t.teams()), m) == 1,
{
    lemma_slot_holds(t, phased, m, s);
    lemma_compact_rule_holds(t, s, t.teams(), i, m);
}

/// What the pair's rules say of the four parts of the season, for the pair
/// of `i` and `j` as the rules hold it.
proof fn lemma_pair_counts(t: VarTable, phased: bool, m: Seq<bool>, i: int, j: int)
    requires
        all_hold(pair_rules(t, i, j, phased), m),
    ensures
        count_true(meetings(t, i, j, 0, t.slots()), m) == 1,
        count_true(meetings(t, j, i, 0, t.slots()), m) == 1,
        phased && t.fh(i, j).holds(m) ==> count_true(meetings(t, i, j, half(t), t.slots()), m) == 0 && count_true(
            meetings(t, j, i, 0, half(t)),
            m,
        ) == 0,
        phased && !t.fh(i, j).holds(m) ==> count_true(meetings(t, i, j, 0, half(t)), m) == 0 && count_true(
            meetings(t, j, i, half(t), t.slots()),
            m,
        ) == 0,
{
    let rules = pair_rules(t, i, j, phased);
    if phased {
        let f = t.fh(i, j);
        let h = half(t);
        let n = t.slots();
        assert(rules[0].holds(m) && rules[1].holds(m) && rules[2].holds(m) && rules[3].holds(m));
        lemma_count_true_concat(seq![f.negation()], meetings(t, i, j, 0, h), m);
        lemma_count_true_concat(seq![f.negation()], meetings(t, j, i, h, n), m);
        lemma_count_true_concat(seq![f], meetings(t, i, j, h, n), m);
        lemma_count_true_concat(seq![f], meetings(t, j, i, 0, h), m);
        lemma_count_true_one(f, m);
        lemma_count_true_one(f.negation(), m);
        lemma_meetings_split(t, i, j, 0, h, n);
        lemma_meetings_split(t, j, i, 0, h, n);
        lemma_count_true_concat(meetings(t, i, j, 0, h), meetings(t, i, j, h, n), m);
        lemma_count_true_concat(meetings(t, j, i, 0, h), meetings(t, j, i, h, n), m);
    } else {
        assert(rules[0].holds(m) && rules[1].holds(m));
    }
}

/// In every model of the rules of a tournament, of two teams with different
/// identifiers each hosts the other in exactly one slot.
pub proof fn lemma_each_pair_meets_once_each_way(t: VarTable, phased: bool, m: Seq<bool>, a: int, b: int)
    requires
        all_hold(compact_2rr_rules(t, phased), m),
        0 <= a < t.teams(),
        0 <= b < t.teams(),
        t.team_ids@[a] != t.team_ids@[b],
    ensures
        count_true(meetings(t, a, b, 0, t.slots()), m) == 1,
        count_true(meetings(t, b, a, 0, t.slots()), m) == 1,
{
    if t.team_ids@[a] < t.team_ids@[b] {
        lemma_pair_holds(t, phased, m, a, b);
        lemma_pair_counts(t, phased, m, a, b);
    } else {
        lemma_pair_holds(t, phased, m, b, a);
        lemma_pair_counts(t, phased, m, b, a);
    }
}

/// In every model of the rules of a tournament, a team is at home in a slot
/// exactly when it hosts a game in that slot.
pub proof fn lemma_home_iff_hosting(t: VarTable, phased: bool, m: Seq<bool>, s: int, i: int)
    requires
        all_hold(compact_2rr_rules(t, phased), m),
        0 <= s < t.slots(),
        0 <= i < t.teams(),
    ensures
        t.h(s, i).holds(m) <==> exists|j: int| 0 <= j < t.teams() && j != i && #[trigger] t.m(s, i, j).holds(m),
        t.h(s, i).holds(m) <==> count_true(hosted(t, s, i, t.teams()), m) >= 1,
{
    let n = t.teams();
    let hs = hosted(t, s, i, n);
    lemma_slot_holds(t, phased, m, s);
    lemma_home_rules_hold(t, s, n, i, m);
    lemma_hosted_members(t, s, i, n);
    lemma_count_true_push(hs, t.h(s, i).negation(), m);
    lemma_count_true_zero(hs, m);
    if count_true(hs, m) >= 1 {
        let x = choose|x: int| 0 <= x < hs.len() && (#[trigger] hs[x]).holds(m);
        let j = choose|j: int| 0 <= j < n && j != i && #[trigger] t.m(s, i, j) == hs[x];
        assert(t.m(s, i, j).holds(m));
    }
    if exists|j: int| 0 <= j < n && j != i && #[trigger] t.m(s, i, j).holds(m) {
        let j = choose|j: int| 0 <= j < n && j != i && #[trigger] t.m(s, i, j).holds(m);
        lemma_venue_rules_hold(t, s, n, i, m);
        lemma_venue_row_rules_hold(t, s, i, n, j, m);
        lemma_count_true_two(t.m(s, i, j).negation(), t.h(s, i), m);
        let x = choose|x: int| 0 <= x < hs.len() && #[trigger] hs[x] == t.m(s, i, j);
        lemma_count_true_positive(hs, x, m);
    }
}

/// In every model of the rules of a tournament, the guest of a game is away.
pub proof fn lemma_guest_is_away(t: VarTable, phased: bool, m: Seq<bool>, s: int, i: int, j: int)
    requires
        all_hold(compact_2rr_rules(t, phased), m),
        0 <= s < t.slots(),
        0 <= i < t.teams(),
        0 <= j < t.teams(),
        i != j,
        t.m(s, i, j).holds(m),
    ensures
        t.h(s, i).holds(m),
        !t.h(s, j).holds(m),
{
    let n = t.teams();
    lemma_slot_holds(t, phased, m, s);
    lemma_venue_rules_hold(t, s, n, i, m);
    lemma_venue_row_rules_hold(t, s, i, n, j, m);
    lemma_count_true_two(t.m(s, i, j).negation(), t.h(s, i), m);
    lemma_count_true_two(t.m(s, i, j).negation(), t.h(s, j).negation(), m);
}

/// In every model of the rules of a phased tournament, the two games of two
/// teams with different identifiers lie in different halves of the season.
pub proof fn lemma_phased_games_in_different_halves(t: VarTable, m: Seq<bool>, a: int, b: int, s1: int, s2: int)
    requires
        all_hold(compact_2rr_rules(t, true), m),
        0 <= a < t.teams(),
        0 <= b < t.teams(),
        t.team_ids@[a] != t.team_ids@[b],
        0 <= s1 < t.slots(),
        0 <= s2 < t.slots(),
        t.m(s1, a, b).holds(m),
        t.m(s2, b, a).holds(m),
    ensures
        (s1 < half(t)) != (s2 < half(t)),
{
    let h = half(t);
    let n = t.slots();
    lemma_meetings_index(t, a, b, 0, h);
    lemma_meetings_index(t, a, b, h, n);
    lemma_meetings_index(t, b, a, 0, h);
    lemma_meetings_index(t, b, a, h, n);
    lemma_count_true_zero(meetings(t, a, b, 0, h), m);
    lemma_count_true_zero(meetings(t, a, b, h, n), m);
    lemma_count_true_zero(meetings(t, b, a, 0, h), m);
    lemma_count_true_zero(meetings(t, b, a, h, n), m);
    if t.team_ids@[a] < t.team_ids@[b] {
        lemma_pair_holds(t, true, m, a, b);
        lemma_pair_counts(t, true, m, a, b);
    } else {
        lemma_pair_holds(t, true, m, b, a);
        lemma_pair_counts(t, true, m, b, a);
    }
    if s1 < h {
        assert(meetings(t, a, b, 0, h)[s1] == t.m(0 + s1, a, b));
    } else {
        assert(meetings(t, a, b, h, n)[s1 - h] == t.m(h + (s1 - h), a, b));
    }
    if s2 < h {
        assert(meetings(t, b, a, 0, h)[s2] == t.m(0 + s2, b, a));
    } else {
        assert(meetings(t, b, a, h, n)[s2 - h] == t.m(h + (s2 - h), b, a));
    }
}

/// The grid `g` says of each game what the model `m` says of its variable.
pub open spec fn grid_of(t: VarTable, m: Seq<bool>, g: Seq<Vec<Vec<bool>>>) -> bool {
    &&& grid_shaped(g, t.slots(), t.teams())
    &&& forall|s: int, i: int, j: int|
        0 <= s < t.slots() && 0 <= i < t.teams() && 0 <= j < t.teams() ==> #[trigger] plays(g, s, i, j) == t.m(
            s,
            i,
            j,
        ).holds(m)
}

/// The schedule that the model gives: for each slot and each two teams
/// whether the one hosts the other.
#[verifier::rlimit(40)]
pub fn schedule_of(t: &VarTable, model: &Vec<bool>) -> (g: Vec<Vec<Vec<bool>>>)
    requires
        t.wf(),
    ensures
        grid_of(*t, model@, g@),
{
    let slots: usize = t.slot_ids.len();
    let n: usize = t.team_ids.len();
    let mut g: Vec<Vec<Vec<bool>>> = Vec::new();
    let mut s: usize = 0;
    while s < slots
        invariant
            t.wf(),
            slots == t.slots(),
            n == t.teams(),
            s <= slots,
            g@.len() == s,
            forall|s1: int| #![trigger g@[s1]] 0 <= s1 < s ==> g@[s1]@.len() == n,
            forall|s1: int, i1: int| #![trigger g@[s1]@[i1]] 0 <= s1 < s && 0 <= i1 < n ==> g@[s1]@[i1]@.len() == n,
            forall|s1: int, i1: int, j1: int|
                0 <= s1 < s && 0 <= i1 < n && 0 <= j1 < n ==> #[trigger] plays(g@, s1, i1, j1) == t.m(s1, i1, j1).holds(
                    model@,
                ),
        decreases slots - s,
    {
        let mut square: Vec<Vec<bool>> = Vec::new();
        let mut i: usize = 0;
        while i < n
            invariant
                t.wf(),
                slots == t.slots(),
                n == t.teams(),
                s < slots,
                i <= n,
                square@.len() == i,
                forall|i1: int| #![trigger square@[i1]] 0 <= i1 < i ==> square@[i1]@.len() == n,
                forall|i1: int, j1: int|
                    0 <= i1 < i && 0 <= j1 < n ==> #[trigger] square@[i1]@[j1] == t.m(s as int, i1, j1).holds(model@),
            decreases n - i,
        {
            let mut row: Vec<bool> = Vec::new();
            let mut j: usize = 0;
            while j < n
                invariant
                    t.wf(),
                    slots == t.slots(),
                    n == t.teams(),
                    s < slots,
                    i < n,
                    j <= n,
                    row@.len() == j,
                    forall|j1: int| 0 <= j1 < j ==> #[trigger] row@[j1] == t.m(s as int, i as int, j1).holds(model@),
                decreases n - j,
            {
                row.push(t.matched[s][i][j].value(model));
                j += 1;
            }
            square.push(row);
            i += 1;
        }
        let ghost before = g@;
        g.push(square);
        proof {
            assert forall|s1: int, i1: int, j1: int| 0 <= s1 < s + 1 && 0 <= i1 < n && 0 <= j1 < n implies #[trigger] plays(
                g@,
                s1,
                i1,
                j1,
            ) == t.m(s1, i1, j1).holds(model@) by {
                if s1 < s {
                    assert(g@[s1] == before[s1]);
                    assert(plays(before, s1, i1, j1) == t.m(s1, i1, j1).holds(model@));
                }
            }
        }
        s += 1;
    }
    g
}

proof fn lemma_opponents_and_games(t: VarTable, m: Seq<bool>, g: Seq<Vec<Vec<bool>>>, s: int, i: int, k: int)
    requires
        grid_of(t, m, g),
        0 <= s < t.slots(),
        0 <= i < t.teams(),
        0 <= k <= t.teams(),
    ensures
        opponents(g, s, i, k) <= count_true(games(t, s, i, k), m),
        count_true(games(t, s, i, k), m) >= 1 ==> opponents(g, s, i, k) >= 1,
    decreases k,
{
    if k > 0 {
        lemma_opponents_and_games(t, m, g, s, i, k - 1);
        if k - 1 != i {
            let prev = games(t, s, i, k - 1);
            lemma_count_true_push(prev, t.m(s, i, k - 1), m);
            lemma_count_true_push(prev.push(t.m(s, i, k - 1)), t.m(s, k - 1, i), m);
            assert(plays(g, s, i, k - 1) == t.m(s, i, k - 1).holds(m));
            assert(plays(g, s, k - 1, i) == t.m(s, k - 1, i).holds(m));
        }
    }
}

proof fn lemma_hostings_and_meetings(t: VarTable, m: Seq<bool>, g: Seq<Vec<Vec<bool>>>, i: int, j: int, hi: int)
    requires
        grid_of(t, m, g),
        0 <= i < t.teams(),
        0 <= j < t.teams(),
        0 <= hi <= t.slots(),
    ensures
        hostings(g, i, j, 0, hi) == count_true(meetings(t, i, j, 0, hi), m),
    decreases hi,
{
    if hi > 0 {
        lemma_hostings_and_meetings(t, m, g, i, j, hi - 1);
        lemma_count_true_push(meetings(t, i, j, 0, hi - 1), t.m(hi - 1, i, j), m);
        assert(plays(g, hi - 1, i, j) == t.m(hi - 1, i, j).holds(m));
    }
}

/// Every model of the rules of a tournament whose teams have different
/// identifiers gives a schedule that is a compact double round-robin
/// tournament, and a phased one if the rules are those of a phased
/// tournament.
pub proof fn lemma_models_are_tournaments(t: VarTable, phased: bool, m: Seq<bool>, g: Seq<Vec<Vec<bool>>>)
    requires
        all_hold(compact_2rr_rules(t, phased), m),
        t.team_ids@.no_duplicates(),
        grid_of(t, m, g),
    ensures
        valid_schedule(g, t.slots(), t.teams(), phased),
{
    let n = t.teams();
    let slots = t.slots();
    assert forall|s: int, i: int| 0 <= s < slots && 0 <= i < n implies #[trigger] opponents(g, s, i, n) == 1 by {
        lemma_one_game_per_team_and_slot(t, phased, m, s, i);
        lemma_opponents_and_games(t, m, g, s, i, n);
    }
    assert forall|i: int, j: int| 0 <= i < n && 0 <= j < n && i != j implies #[trigger] hostings(g, i, j, 0, slots)
        == 1 by {
        lemma_each_pair_meets_once_each_way(t, phased, m, i, j);
        lemma_hostings_and_meetings(t, m, g, i, j, slots);
    }
    if phased {
        assert forall|i: int, j: int, s1: int, s2: int|
            0 <= i < n && 0 <= j < n && i != j && 0 <= s1 < slots && 0 <= s2 < slots && #[trigger] plays(g, s1, i, j)
                && #[trigger] plays(g, s2, j, i) implies (s1 < slots / 2) != (s2 < slots / 2) by {
            lemma_phased_games_in_different_halves(t, m, i, j, s1, s2);
        }
    }
}

} // verus!
