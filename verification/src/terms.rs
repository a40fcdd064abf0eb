//! The terms that the constraints of an instance count: venues and games
//! of given teams in given slots, looked up in the table of variables.

use vstd::prelude::*;
use crate::lit::{Bool, SlotId, TeamId};
use crate::table::VarTable;

verus! {

/// The term that says that `team` has the venue `home` in `slot`.
pub open spec fn venue_term_at(t: VarTable, slot: SlotId, team: TeamId, home: bool) -> Bool {
    if home {
        t.home_at(slot, team).unwrap()
    } else {
        t.home_at(slot, team).unwrap().negation()
    }
}

/// The venue terms of the teams before `k` in `slot`.
pub open spec fn venue_row(t: VarTable, slot: SlotId, teams: Seq<TeamId>, home: bool, k: int) -> Seq<Bool>
    decreases k,
{
    if k <= 0 {
        Seq::empty()
    } else {
        venue_row(t, slot, teams, home, k - 1).push(venue_term_at(t, slot, teams[k - 1], home))
    }
}

/// The venue terms of `teams` in the slots before `k`, slot by slot.
pub open spec fn venue_terms(t: VarTable, slots: Seq<SlotId>, teams: Seq<TeamId>, home: bool, k: int) -> Seq<Bool>
    decreases k,
{
    if k <= 0 {
        Seq::empty()
    } else {
        venue_terms(t, slots, teams, home, k - 1) + venue_row(t, slots[k - 1], teams, home, teams.len() as int)
    }
}

/// The league has every one of `slots` and of `teams`.
pub open spec fn venues_known(t: VarTable, slots: Seq<SlotId>, teams: Seq<TeamId>) -> bool {
    forall|s: int, i: int|
        0 <= s < slots.len() && 0 <= i < teams.len() ==> (#[trigger] t.home_at(slots[s], teams[i])) is Some
}

/// The venue terms of `teams` in `slots`, or `None` where the league lacks
/// one of them.
pub fn venue_terms_of(t: &VarTable, slots: &Vec<SlotId>, teams: &Vec<TeamId>, home: bool) -> (r: Option<Vec<Bool>>)
    requires
        t.wf(),
    ensures
        r is Some == venues_known(*t, slots@, teams@),
        r matches Some(v) ==> v@ == venue_terms(*t, slots@, teams@, home, slots@.len() as int),
{
    let mut out: Vec<Bool> = Vec::new();
    let mut s: usize = 0;
    while s < slots.len()
        invariant
            t.wf(),
            s <= slots.len(),
            out@ == venue_terms(*t, slots@, teams@, home, s as int),
            forall|s1: int, i1: int|
                0 <= s1 < s && 0 <= i1 < teams@.len() ==> (#[trigger] t.home_at(slots@[s1], teams@[i1])) is Some,
        decreases slots.len() - s,
    {
        let ghost before = out@;
        let mut i: usize = 0;
        assert(out@ =~= before + venue_row(*t, slots@[s as int], teams@, home, 0));
        while i < teams.len()
            invariant
                t.wf(),
                s < slots.len(),
                i <= teams.len(),
                out@ == before + venue_row(*t, slots@[s as int], teams@, home, i as int),
                forall|i1: int| 0 <= i1 < i ==> (#[trigger] t.home_at(slots@[s as int], teams@[i1])) is Some,
            decreases teams.len() - i,
        {
            match t.home_var(slots[s], teams[i]) {
                Some(h) => {
                    out.push(
                        if home {
                            h
                        } else {
                            h.negate()
                        },
                    );
                    assert(out@ =~= before + venue_row(*t, slots@[s as int], teams@, home, i + 1));
                },
                None => {
                    assert(t.home_at(slots@[s as int], teams@[i as int]) is None);
                    return None;
                },
            }
            i += 1;
        }
        s += 1;
    }
    Some(out)
}

/// The game terms of `a` against `b` in `slot`: with `a` at home, with `a`
/// away, or both, as `home` says.
pub open spec fn game_cell(t: VarTable, slot: SlotId, a: TeamId, b: TeamId, home: Option<bool>) -> Seq<Bool> {
    match home {
        Some(true) => seq![t.match_at(slot, a, b).unwrap()],
        Some(false) => seq![t.match_at(slot, b, a).unwrap()],
        None => seq![t.match_at(slot, a, b).unwrap(), t.match_at(slot, b, a).unwrap()],
    }
}

/// The game terms of `a` in `slot` against the teams of `others` before
/// `k`; with `skip_same`, a team does not meet itself.
pub open spec fn game_row(
    t: VarTable,
    slot: SlotId,
    a: TeamId,
    others: Seq<TeamId>,
    home: Option<bool>,
    skip_same: bool,
    k: int,
) -> Seq<Bool>
    decreases k,
{
    if k <= 0 {
        Seq::empty()
    } else if skip_same && a == others[k - 1] {
        game_row(t, slot, a, others, home, skip_same, k - 1)
    } else {
        game_row(t, slot, a, others, home, skip_same, k - 1) + game_cell(t, slot, a, others[k - 1], home)
    }
}

/// The game terms in `slot` of the teams of `teams` before `k` against
/// `others`.
pub open spec fn game_block(
    t: VarTable,
    slot: SlotId,
    teams: Seq<TeamId>,
    others: Seq<TeamId>,
    home: Option<bool>,
    skip_same: bool,
    k: int,
) -> Seq<Bool>
    decreases k,
{
    if k <= 0 {
        Seq::empty()
    } else {
        game_block(t, slot, teams, others, home, skip_same, k - 1) + game_row(
            t,
            slot,
            teams[k - 1],
            others,
            home,
            skip_same,
            others.len() as int,
        )
    }
}

/// The game terms of `teams` against `others` in the slots before `k`.
pub open spec fn game_terms(
    t: VarTable,
    slots: Seq<SlotId>,
    teams: Seq<TeamId>,
    others: Seq<TeamId>,
    home: Option<bool>,
    skip_same: bool,
    k: int,
) -> Seq<Bool>
    decreases k,
{
    if k <= 0 {
        Seq::empty()
    } else {
        game_terms(t, slots, teams, others, home, skip_same, k - 1) + game_block(
            t,
            slots[k - 1],
            teams,
            others,
            home,
            skip_same,
            teams.len() as int,
        )
    }
}

/// The league has the game of `a` against `b` in `slot`.
pub open spec fn game_known(t: VarTable, slot: SlotId, a: TeamId, b: TeamId) -> bool {
    t.match_at(slot, a, b) is Some
}

/// The league has every game that `game_terms` looks up.
pub open spec fn games_known(
    t: VarTable,
    slots: Seq<SlotId>,
    teams: Seq<TeamId>,
    others: Seq<TeamId>,
    skip_same: bool,
) -> bool {
    forall|s: int, i: int, j: int|
        0 <= s < slots.len() && 0 <= i < teams.len() && 0 <= j < others.len() && !(skip_same && teams[i] == others[j])
            ==> #[trigger] game_known(t, slots[s], teams[i], others[j])
}

/// The game terms of `teams` against `others` in `slots`, or `None` where
/// the league lacks one of the games.
#[verifier::rlimit(40)]
pub fn game_terms_of(
    t: &VarTable,
    slots: &Vec<SlotId>,
    teams: &Vec<TeamId>,
    others: &Vec<TeamId>,
    home: Option<bool>,
    skip_same: bool,
) -> (r: Option<Vec<Bool>>)
    requires
        t.wf(),
    ensures
        r is Some == games_known(*t, slots@, teams@, others@, skip_same),
        r matches Some(v) ==> v@ == game_terms(*t, slots@, teams@, others@, home, skip_same, slots@.len() as int),
{
    let mut out: Vec<Bool> = Vec::new();
    let mut s: usize = 0;
    while s < slots.len()
        invariant
            t.wf(),
            s <= slots.len(),
            out@ == game_terms(*t, slots@, teams@, others@, home, skip_same, s as int),
            forall|s1: int, i1: int, j1: int|
                0 <= s1 < s && 0 <= i1 < teams@.len() && 0 <= j1 < others@.len() && !(skip_same && teams@[i1]
                    == others@[j1]) ==> #[trigger] game_known(*t, slots@[s1], teams@[i1], others@[j1]),
        decreases slots.len() - s,
    {
        let ghost before_block = out@;
        let slot: SlotId = slots[s];
        let mut i: usize = 0;
        assert(out@ =~= before_block + game_block(*t, slot, teams@, others@, home, skip_same, 0));
        while i < teams.len()
            invariant
                t.wf(),
                s < slots.len(),
                slot == slots@[s as int],
                i <= teams.len(),
                out@ == before_block + game_block(*t, slot, teams@, others@, home, skip_same, i as int),
                forall|i1: int, j1: int|
                    0 <= i1 < i && 0 <= j1 < others@.len() && !(skip_same && teams@[i1] == others@[j1])
                        ==> #[trigger] game_known(*t, slot, teams@[i1], others@[j1]),
            decreases teams.len() - i,
        {
            let ghost before_row = out@;
            let a: TeamId = teams[i];
            let mut j: usize = 0;
            assert(out@ =~= before_row + game_row(*t, slot, a, others@, home, skip_same, 0));
            while j < others.len()
                invariant
                    t.wf(),
                    s < slots.len(),
                    slot == slots@[s as int],
                    i < teams.len(),
                    a == teams@[i as int],
                    j <= others.len(),
                    out@ == before_row + game_row(*t, slot, a, others@, home, skip_same, j as int),
                    forall|j1: int|
                        0 <= j1 < j && !(skip_same && a == others@[j1]) ==> #[trigger] game_known(
                            *t,
                            slot,
                            a,
                            others@[j1],
                        ),
                decreases others.len() - j,
            {
                let b: TeamId = others[j];
                if !(skip_same && a == b) {
                    let ab: Option<Bool> = t.matched_var(slot, a, b);
                    let ba: Option<Bool> = t.matched_var(slot, b, a);
                    if ab.is_none() || ba.is_none() {
                        assert(!game_known(*t, slots@[s as int], teams@[i as int], others@[j as int]));
                        return None;
                    }
                    match home {
                        Some(true) => {
                            out.push(ab.unwrap());
                        },
                        Some(false) => {
                            out.push(ba.unwrap());
                        },
                        None => {
                            out.push(ab.unwrap());
                            out.push(ba.unwrap());
                        },
                    }
                }
                assert(out@ =~= before_row + game_row(*t, slot, a, others@, home, skip_same, j + 1));
                j += 1;
            }
            assert(out@ =~= before_block + game_block(*t, slot, teams@, others@, home, skip_same, i + 1));
            i += 1;
        }
        assert(out@ =~= game_terms(*t, slots@, teams@, others@, home, skip_same, s + 1));
        s += 1;
    }
    Some(out)
}

/// The terms of the games of `meetings` before `k` in `slot`, each with
/// its first team at home.
pub open spec fn meeting_row(t: VarTable, slot: SlotId, meetings: Seq<(TeamId, TeamId)>, k: int) -> Seq<Bool>
    decreases k,
{
    if k <= 0 {
        Seq::empty()
    } else {
        meeting_row(t, slot, meetings, k - 1).push(t.match_at(slot, meetings[k - 1].0, meetings[k - 1].1).unwrap())
    }
}

/// The terms of the games of `meetings` in the slots before `k`.
pub open spec fn meeting_terms(t: VarTable, slots: Seq<SlotId>, meetings: Seq<(TeamId, TeamId)>, k: int) -> Seq<Bool>
    decreases k,
{
    if k <= 0 {
        Seq::empty()
    } else {
        meeting_terms(t, slots, meetings, k - 1) + meeting_row(t, slots[k - 1], meetings, meetings.len() as int)
    }
}

pub open spec fn meetings_known(t: VarTable, slots: Seq<SlotId>, meetings: Seq<(TeamId, TeamId)>) -> bool {
    forall|s: int, i: int|
        0 <= s < slots.len() && 0 <= i < meetings.len() ==> #[trigger] game_known(
            t,
            slots[s],
            meetings[i].0,
            meetings[i].1,
        )
}

/// The terms of the games of `meetings` in `slots`, or `None` where the
/// league lacks one of them.
pub fn meeting_terms_of(t: &VarTable, slots: &Vec<SlotId>, meetings: &Vec<(TeamId, TeamId)>) -> (r: Option<
    Vec<Bool>,
>)
    requires
        t.wf(),
    ensures
        r is Some == meetings_known(*t, slots@, meetings@),
        r matches Some(v) ==> v@ == meeting_terms(*t, slots@, meetings@, slots@.len() as int),
{
    let mut out: Vec<Bool> = Vec::new();
    let mut s: usize = 0;
    while s < slots.len()
        invariant
            t.wf(),
            s <= slots.len(),
            out@ == meeting_terms(*t, slots@, meetings@, s as int),
            forall|s1: int, i1: int|
                0 <= s1 < s && 0 <= i1 < meetings@.len() ==> #[trigger] game_known(
                    *t,
                    slots@[s1],
                    meetings@[i1].0,
                    meetings@[i1].1,
                ),
        decreases slots.len() - s,
    {
        let ghost before = out@;
        let slot: SlotId = slots[s];
        let mut i: usize = 0;
        assert(out@ =~= before + meeting_row(*t, slot, meetings@, 0));
        while i < meetings.len()
            invariant
                t.wf(),
                s < slots.len(),
                slot == slots@[s as int],
                i <= meetings.len(),
                out@ == before + meeting_row(*t, slot, meetings@, i as int),
                forall|i1: int|
                    0 <= i1 < i ==> #[trigger] game_known(*t, slot, meetings@[i1].0, meetings@[i1].1),
            decreases meetings.len() - i,
        {
            let pair: (TeamId, TeamId) = meetings[i];
            match t.matched_var(slot, pair.0, pair.1) {
                Some(v) => {
                    out.push(v);
                    assert(out@ =~= before + meeting_row(*t, slot, meetings@, i + 1));
                },
                None => {
                    assert(!game_known(*t, slots@[s as int], meetings@[i as int].0, meetings@[i as int].1));
                    return None;
                },
            }
            i += 1;
        }
        s += 1;
    }
    Some(out)
}

/// The terms of `lits` before `k`, each kept where it first occurs.
pub open spec fn dedup(lits: Seq<Bool>, k: int) -> Seq<Bool>
    decreases k,
{
    if k <= 0 {
        Seq::empty()
    } else if dedup(lits, k - 1).contains(lits[k - 1]) {
        dedup(lits, k - 1)
    } else {
        dedup(lits, k - 1).push(lits[k - 1])
    }
}

/// No term occurs twice among the kept ones, and they are the terms given.
#[verifier::rlimit(40)]
pub proof fn lemma_dedup(lits: Seq<Bool>, k: int)
    requires
        0 <= k <= lits.len(),
    ensures
        dedup(lits, k).no_duplicates(),
        forall|b: Bool| dedup(lits, k).contains(b) <==> lits.take(k).contains(b),
    decreases k,
{
    if k > 0 {
        lemma_dedup(lits, k - 1);
        let prev = dedup(lits, k - 1);
        let cur = dedup(lits, k);
        let x = lits[k - 1];
        let short = lits.take(k - 1);
        let long = lits.take(k);
        assert forall|b: Bool| cur.contains(b) <==> long.contains(b) by {
            if cur.contains(b) {
                let i = choose|i: int| 0 <= i < cur.len() && cur[i] == b;
                if i < prev.len() {
                    assert(prev[i] == b);
                    assert(prev.contains(b));
                    let j = choose|j: int| 0 <= j < short.len() && short[j] == b;
                    assert(long[j] == b);
                } else {
                    assert(long[k - 1] == b);
                }
            }
            if long.contains(b) {
                let j = choose|j: int| 0 <= j < long.len() && long[j] == b;
                if j < k - 1 {
                    assert(short[j] == b);
                    assert(prev.contains(b));
                    let i = choose|i: int| 0 <= i < prev.len() && prev[i] == b;
                    assert(cur[i] == b);
                } else {
                    if prev.contains(x) {
                    } else {
                        assert(cur[cur.len() - 1] == b);
                    }
                }
            }
        }
    }
}

fn has_term(lits: &Vec<Bool>, b: Bool) -> (r: bool)
    ensures
        r == lits@.contains(b),
{
    let mut i: usize = 0;
    while i < lits.len()
        invariant
            i <= lits.len(),
            forall|j: int| 0 <= j < i ==> lits@[j] != b,
        decreases lits.len() - i,
    {
        if lits[i] == b {
            return true;
        }
        i += 1;
    }
    false
}

/// The terms of `lits`, each kept where it first occurs.
pub fn without_repeats(lits: &Vec<Bool>) -> (r: Vec<Bool>)
    ensures
        r@ == dedup(lits@, lits@.len() as int),
{
    let mut out: Vec<Bool> = Vec::new();
    let mut i: usize = 0;
    while i < lits.len()
        invariant
            i <= lits.len(),
            out@ == dedup(lits@, i as int),
        decreases lits.len() - i,
    {
        if !has_term(&out, lits[i]) {
            out.push(lits[i]);
        }
        i += 1;
    }
    out
}

/// The venue terms of the team at position `i` in the `len` slots from
/// position `w` on, each negated if `home`: one of them holds exactly when
/// the team does not have the venue `home` throughout.
pub open spec fn stand_terms(t: VarTable, i: int, w: int, len: int, home: bool) -> Seq<Bool> {
    Seq::new(
        len as nat,
        |k: int|
            if home {
                t.h(w + k, i).negation()
            } else {
                t.h(w + k, i)
            },
    )
}

/// The terms of a run of `len` slots from position `w` on for the team at
/// position `i`.
pub fn stand_terms_of(t: &VarTable, i: usize, w: usize, len: usize, home: bool) -> (r: Vec<Bool>)
    requires
        t.wf(),
        i < t.teams(),
        w + len <= t.slots(),
    ensures
        r@ == stand_terms(*t, i as int, w as int, len as int, home),
{
    let mut out: Vec<Bool> = Vec::new();
    let mut k: usize = 0;
    let total: usize = t.slot_ids.len();
    while k < len
        invariant
            t.wf(),
            i < t.teams(),
            w + len <= t.slots(),
            total == t.slots(),
            k <= len,
            out@ == stand_terms(*t, i as int, w as int, k as int, home),
        decreases len - k,
    {
        let h: Bool = t.home[w + k][i];
        out.push(
            if home {
                h.negate()
            } else {
                h
            },
        );
        assert(out@ =~= stand_terms(*t, i as int, w as int, k + 1, home));
        k += 1;
    }
    out
}

/// For the slots before `k`, the venue variables of `a` and of `b`.
pub open spec fn venue_pairs(t: VarTable, a: TeamId, b: TeamId, k: int) -> Seq<(Bool, Bool)>
    decreases k,
{
    if k <= 0 {
        Seq::empty()
    } else {
        venue_pairs(t, a, b, k - 1).push(
            (t.home_at(t.slot_ids@[k - 1], a).unwrap(), t.home_at(t.slot_ids@[k - 1], b).unwrap()),
        )
    }
}

/// For every slot of the league the venue variables of `a` and of `b`, or
/// `None` where the league lacks one of the two teams.
pub fn venue_pairs_of(t: &VarTable, a: TeamId, b: TeamId) -> (r: Option<Vec<(Bool, Bool)>>)
    requires
        t.wf(),
    ensures
        r is Some == (t.slots() == 0 || (t.team_pos(a) is Some && t.team_pos(b) is Some)),
        r matches Some(v) ==> v@ == venue_pairs(*t, a, b, t.slots()),
{
    let mut out: Vec<(Bool, Bool)> = Vec::new();
    let mut s: usize = 0;
    while s < t.slot_ids.len()
        invariant
            t.wf(),
            s <= t.slots(),
            out@ == venue_pairs(*t, a, b, s as int),
            s > 0 ==> t.team_pos(a) is Some && t.team_pos(b) is Some,
        decreases t.slot_ids.len() - s,
    {
        let slot: SlotId = t.slot_ids[s];
        proof {
            t.slot_ids@.index_of_first_ensures(slot);
            assert(t.slot_ids@.contains(slot));
        }
        match t.home_var(slot, a) {
            Some(ha) => match t.home_var(slot, b) {
                Some(hb) => {
                    out.push((ha, hb));
                },
                None => {
                    return None;
                },
            },
            None => {
                return None;
            },
        }
        s += 1;
    }
    Some(out)
}

} // verus!
