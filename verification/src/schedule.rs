//! Schedules and the check that a schedule is a compact double round-robin
//! tournament.
//!
//! A schedule is a grid of truth values: `grid[s][i][j]` says that team `i`
//! hosts team `j` in slot `s`, teams and slots taken by their position in
//! the league.

use vstd::prelude::*;
use crate::lit::{SlotId, TeamId};

verus! {

/// Team `i` hosts team `j` in slot `s`.
pub open spec fn plays(g: Seq<Vec<Vec<bool>>>, s: int, i: int, j: int) -> bool {
    g[s]@[i]@[j]
}

/// The grid has `slots` slots and in each a square of `n` teams.
pub open spec fn grid_shaped(g: Seq<Vec<Vec<bool>>>, slots: int, n: int) -> bool {
    &&& g.len() == slots
    &&& forall|s: int| #![trigger g[s]] 0 <= s < slots ==> g[s]@.len() == n
    &&& forall|s: int, i: int| #![trigger g[s]@[i]] 0 <= s < slots && 0 <= i < n ==> g[s]@[i]@.len() == n
}

/// The number of teams before `k` that team `i` meets in slot `s`.
pub open spec fn opponents(g: Seq<Vec<Vec<bool>>>, s: int, i: int, k: int) -> nat
    decreases k,
{
    if k <= 0 {
        0
    } else {
        opponents(g, s, i, k - 1) + if k - 1 != i && (plays(g, s, i, k - 1) || plays(g, s, k - 1, i)) {
            1nat
        } else {
            0nat
        }
    }
}

/// The number of slots from `lo` up to, not including, `hi` in which team
/// `i` hosts team `j`.
pub open spec fn hostings(g: Seq<Vec<Vec<bool>>>, i: int, j: int, lo: int, hi: int) -> nat
    decreases hi - lo,
{
    if hi <= lo {
        0
    } else {
        hostings(g, i, j, lo, hi - 1) + if plays(g, hi - 1, i, j) {
            1nat
        } else {
            0nat
        }
    }
}

/// Every team meets exactly one team in every slot.
pub open spec fn is_compact(g: Seq<Vec<Vec<bool>>>, slots: int, n: int) -> bool {
    forall|s: int, i: int| 0 <= s < slots && 0 <= i < n ==> #[trigger] opponents(g, s, i, n) == 1
}

/// Every team hosts every other team in exactly one slot.
pub open spec fn is_double_round_robin(g: Seq<Vec<Vec<bool>>>, slots: int, n: int) -> bool {
    forall|i: int, j: int| 0 <= i < n && 0 <= j < n && i != j ==> #[trigger] hostings(g, i, j, 0, slots) == 1
}

/// The two games of every pair of teams lie in different halves of the
/// season.
pub open spec fn is_phased(g: Seq<Vec<Vec<bool>>>, slots: int, n: int) -> bool {
    forall|i: int, j: int, s1: int, s2: int|
        0 <= i < n && 0 <= j < n && i != j && 0 <= s1 < slots && 0 <= s2 < slots && #[trigger] plays(g, s1, i, j)
            && #[trigger] plays(g, s2, j, i) ==> (s1 < slots / 2) != (s2 < slots / 2)
}

/// The schedule is a compact double round-robin tournament, phased if asked.
pub open spec fn valid_schedule(g: Seq<Vec<Vec<bool>>>, slots: int, n: int, phased: bool) -> bool {
    &&& is_compact(g, slots, n)
    &&& is_double_round_robin(g, slots, n)
    &&& phased ==> is_phased(g, slots, n)
}

/// Of the two games of teams `i` and `j`, one lies in the first half.
pub open spec fn one_in_first_half(g: Seq<Vec<Vec<bool>>>, slots: int, i: int, j: int) -> bool {
    hostings(g, i, j, 0, slots / 2) + hostings(g, j, i, 0, slots / 2) == 1
}

/// The count over a range of slots is the sum of the counts over its two parts.
pub proof fn lemma_hostings_split(g: Seq<Vec<Vec<bool>>>, i: int, j: int, lo: int, mid: int, hi: int)
    requires
        lo <= mid <= hi,
    ensures
        hostings(g, i, j, lo, hi) == hostings(g, i, j, lo, mid) + hostings(g, i, j, mid, hi),
    decreases hi - mid,
{
    if mid < hi {
        lemma_hostings_split(g, i, j, lo, mid, hi - 1);
    }
}

/// The count is positive exactly when the range holds a slot with the game.
pub proof fn lemma_hostings_positive(g: Seq<Vec<Vec<bool>>>, i: int, j: int, lo: int, hi: int)
    ensures
        hostings(g, i, j, lo, hi) >= 1 <==> exists|s: int| lo <= s < hi && #[trigger] plays(g, s, i, j),
    decreases hi - lo,
{
    if lo < hi {
        lemma_hostings_positive(g, i, j, lo, hi - 1);
        if hostings(g, i, j, lo, hi) >= 1 {
            if plays(g, hi - 1, i, j) {
            } else {
                let s = choose|s: int| lo <= s < hi - 1 && #[trigger] plays(g, s, i, j);
                assert(plays(g, s, i, j));
            }
        }
        if exists|s: int| lo <= s < hi && #[trigger] plays(g, s, i, j) {
            let s = choose|s: int| lo <= s < hi && #[trigger] plays(g, s, i, j);
            if s < hi - 1 {
                assert(plays(g, s, i, j));
            }
        }
    }
}

/// For a pair that meets once each way, one game in the first half is the
/// same as the two games in different halves.
pub proof fn lemma_pair_phased(g: Seq<Vec<Vec<bool>>>, slots: int, i: int, j: int)
    requires
        0 <= slots,
        hostings(g, i, j, 0, slots) == 1,
        hostings(g, j, i, 0, slots) == 1,
    ensures
        one_in_first_half(g, slots, i, j) <==> (forall|s1: int, s2: int|
            0 <= s1 < slots && 0 <= s2 < slots && #[trigger] plays(g, s1, i, j) && #[trigger] plays(g, s2, j, i) ==> (s1
                < slots / 2) != (s2 < slots / 2)),
{
    let h = slots / 2;
    lemma_hostings_split(g, i, j, 0, h, slots);
    lemma_hostings_split(g, j, i, 0, h, slots);
    lemma_hostings_positive(g, i, j, 0, h);
    lemma_hostings_positive(g, i, j, h, slots);
    lemma_hostings_positive(g, j, i, 0, h);
    lemma_hostings_positive(g, j, i, h, slots);
    if !one_in_first_half(g, slots, i, j) {
        let s1 = if hostings(g, i, j, 0, h) >= 1 {
            choose|s: int| 0 <= s < h && #[trigger] plays(g, s, i, j)
        } else {
            choose|s: int| h <= s < slots && #[trigger] plays(g, s, i, j)
        };
        let s2 = if hostings(g, j, i, 0, h) >= 1 {
            choose|s: int| 0 <= s < h && #[trigger] plays(g, s, j, i)
        } else {
            choose|s: int| h <= s < slots && #[trigger] plays(g, s, j, i)
        };
        assert(plays(g, s1, i, j) && plays(g, s2, j, i));
        assert((s1 < h) == (s2 < h));
    }
}

/// Whether the grid has `slots` slots and in each a square of `n` teams.
pub fn is_grid(g: &Vec<Vec<Vec<bool>>>, slots: usize, n: usize) -> (r: bool)
    ensures
        r == grid_shaped(g@, slots as int, n as int),
{
    if g.len() != slots {
        return false;
    }
    let mut s: usize = 0;
    while s < slots
        invariant
            g@.len() == slots,
            s <= slots,
            forall|s1: int| #![trigger g@[s1]] 0 <= s1 < s ==> g@[s1]@.len() == n,
            forall|s1: int, i1: int| #![trigger g@[s1]@[i1]] 0 <= s1 < s && 0 <= i1 < n ==> g@[s1]@[i1]@.len() == n,
        decreases slots - s,
    {
        if g[s].len() != n {
            return false;
        }
        let mut i: usize = 0;
        while i < n
            invariant
                g@.len() == slots,
                s < slots,
                g@[s as int]@.len() == n,
                i <= n,
                forall|i1: int| #![trigger g@[s as int]@[i1]] 0 <= i1 < i ==> g@[s as int]@[i1]@.len() == n,
            decreases n - i,
        {
            if g[s][i].len() != n {
                return false;
            }
            i += 1;
        }
        s += 1;
    }
    true
}

fn count_opponents(g: &Vec<Vec<Vec<bool>>>, s: usize, i: usize, n: usize) -> (c: usize)
    requires
        grid_shaped(g@, g@.len() as int, n as int),
        s < g@.len(),
        i < n,
    ensures
        c == opponents(g@, s as int, i as int, n as int),
{
    let mut c: usize = 0;
    let mut j: usize = 0;
    while j < n
        invariant
            grid_shaped(g@, g@.len() as int, n as int),
            s < g@.len(),
            i < n,
            j <= n,
            c <= j,
            c == opponents(g@, s as int, i as int, j as int),
        decreases n - j,
    {
        if j != i && (g[s][i][j] || g[s][j][i]) {
            c += 1;
        }
        j += 1;
    }
    c
}

fn count_hostings(g: &Vec<Vec<Vec<bool>>>, i: usize, j: usize, lo: usize, hi: usize, n: usize) -> (c: usize)
    requires
        grid_shaped(g@, g@.len() as int, n as int),
        lo <= hi <= g@.len(),
        i < n,
        j < n,
    ensures
        c == hostings(g@, i as int, j as int, lo as int, hi as int),
        c <= hi - lo,
{
    let mut c: usize = 0;
    let mut s: usize = lo;
    while s < hi
        invariant
            grid_shaped(g@, g@.len() as int, n as int),
            lo <= s <= hi <= g@.len(),
            i < n,
            j < n,
            c <= s - lo,
            c == hostings(g@, i as int, j as int, lo as int, s as int),
        decreases hi - s,
    {
        if g[s][i][j] {
            c += 1;
        }
        s += 1;
    }
    c
}

/// Whether `is_matched` is a compact double round-robin tournament of the
/// teams `team_ids` over the slots `slot_ids`, and a phased one if `phased`.
#[verifier::rlimit(40)]
pub fn verify_schedule(
    slot_ids: &Vec<SlotId>,
    team_ids: &Vec<TeamId>,
    phased: bool,
    is_matched: &Vec<Vec<Vec<bool>>>,
) -> (ok: bool)
    requires
        grid_shaped(is_matched@, slot_ids@.len() as int, team_ids@.len() as int),
    ensures
        ok == valid_schedule(is_matched@, slot_ids@.len() as int, team_ids@.len() as int, phased),
{
    let slots: usize = slot_ids.len();
    let n: usize = team_ids.len();
    let ghost g = is_matched@;
    let mut s: usize = 0;
    while s < slots
        invariant
            grid_shaped(g, slots as int, n as int),
            g == is_matched@,
            slots == slot_ids@.len(),
            n == team_ids@.len(),
            s <= slots,
            forall|s1: int, i1: int| 0 <= s1 < s && 0 <= i1 < n ==> #[trigger] opponents(g, s1, i1, n as int) == 1,
        decreases slots - s,
    {
        let mut i: usize = 0;
        while i < n
            invariant
                grid_shaped(g, slots as int, n as int),
                g == is_matched@,
                slots == slot_ids@.len(),
                n == team_ids@.len(),
                s < slots,
                i <= n,
                forall|i1: int| 0 <= i1 < i ==> #[trigger] opponents(g, s as int, i1, n as int) == 1,
            decreases n - i,
        {
            if count_opponents(is_matched, s, i, n) != 1 {
                assert(!is_compact(g, slots as int, n as int));
                return false;
            }
            i += 1;
        }
        s += 1;
    }
    assert(is_compact(g, slots as int, n as int));
    let mut i: usize = 0;
    while i < n
        invariant
            grid_shaped(g, slots as int, n as int),
            g == is_matched@,
            slots == slot_ids@.len(),
            n == team_ids@.len(),
            i <= n,
            forall|i1: int, j1: int|
                0 <= i1 < i && 0 <= j1 < n && i1 != j1 ==> #[trigger] hostings(g, i1, j1, 0, slots as int) == 1,
        decreases n - i,
    {
        let mut j: usize = 0;
        while j < n
            invariant
                grid_shaped(g, slots as int, n as int),
                g == is_matched@,
                slots == slot_ids@.len(),
                n == team_ids@.len(),
                i < n,
                j <= n,
                forall|j1: int| 0 <= j1 < j && i != j1 ==> #[trigger] hostings(g, i as int, j1, 0, slots as int) == 1,
            decreases n - j,
        {
            if i != j && count_hostings(is_matched, i, j, 0, slots, n) != 1 {
                assert(!is_double_round_robin(g, slots as int, n as int));
                return false;
            }
            j += 1;
        }
        i += 1;
    }
    assert(is_double_round_robin(g, slots as int, n as int));
    if phased {
        let mid: usize = slots / 2;
        let mut i: usize = 0;
        while i < n
            invariant
                grid_shaped(g, slots as int, n as int),
                g == is_matched@,
                slots == slot_ids@.len(),
                n == team_ids@.len(),
                is_double_round_robin(g, slots as int, n as int),
                phased,
                mid == slots / 2,
                i <= n,
                forall|i1: int, j1: int|
                    0 <= i1 < i && i1 < j1 < n ==> #[trigger] one_in_first_half(g, slots as int, i1, j1),
            decreases n - i,
        {
            let mut j: usize = i + 1;
            while j < n
                invariant
                    grid_shaped(g, slots as int, n as int),
                    g == is_matched@,
                    slots == slot_ids@.len(),
                    n == team_ids@.len(),
                    is_double_round_robin(g, slots as int, n as int),
                    phased,
                    mid == slots / 2,
                    i < n,
                    i < j <= n,
                    forall|j1: int| i < j1 < j ==> #[trigger] one_in_first_half(g, slots as int, i as int, j1),
                decreases n - j,
            {
                let c1: usize = count_hostings(is_matched, i, j, 0, mid, n);
                let c2: usize = count_hostings(is_matched, j, i, 0, mid, n);
                if c1 + c2 != 1 {
                    proof {
                        assert(hostings(g, i as int, j as int, 0, slots as int) == 1);
                        assert(hostings(g, j as int, i as int, 0, slots as int) == 1);
                        lemma_pair_phased(g, slots as int, i as int, j as int);
                        assert(!one_in_first_half(g, slots as int, i as int, j as int));
                        assert(!is_phased(g, slots as int, n as int));
                    }
                    return false;
                }
                j += 1;
            }
            i += 1;
        }
        proof {
            assert forall|i1: int, j1: int, s1: int, s2: int|
                0 <= i1 < n && 0 <= j1 < n && i1 != j1 && 0 <= s1 < slots && 0 <= s2 < slots && #[trigger] plays(
                    g,
                    s1,
                    i1,
                    j1,
                ) && #[trigger] plays(g, s2, j1, i1) implies (s1 < slots as int / 2) != (s2 < slots as int / 2) by {
                assert(hostings(g, i1, j1, 0, slots as int) == 1);
                assert(hostings(g, j1, i1, 0, slots as int) == 1);
                if i1 < j1 {
                    assert(one_in_first_half(g, slots as int, i1, j1));
                    lemma_pair_phased(g, slots as int, i1, j1);
                } else {
                    assert(one_in_first_half(g, slots as int, j1, i1));
                    lemma_pair_phased(g, slots as int, j1, i1);
                }
            }
        }
    }
    true
}

} // verus!
