//! The rules of a compact double round-robin tournament.
//!
//! In every slot each team plays exactly one game; a team is at home in a
//! slot exactly when it hosts a game there; every team hosts every other
//! team exactly once in the season; and in a phased tournament the two games
//! of a pair lie in different halves of the season.

use vstd::prelude::*;
use crate::lit::{negate_all, one, two, Bool, SlotId, TeamId};
use crate::formula::{Formula, Rule};
use crate::table::{new_var_table, table_roles, VarTable};

verus! {

/// The games of team `i` in slot `s` against the teams before `k`: for each
/// opponent the game at home, then the game away.
pub open spec fn games(t: VarTable, s: int, i: int, k: int) -> Seq<Bool>
    decreases k,
{
    if k <= 0 {
        Seq::empty()
    } else if k - 1 == i {
        games(t, s, i, k - 1)
    } else {
        games(t, s, i, k - 1).push(t.m(s, i, k - 1)).push(t.m(s, k - 1, i))
    }
}

/// The games that team `i` hosts in slot `s` against the teams before `k`.
pub open spec fn hosted(t: VarTable, s: int, i: int, k: int) -> Seq<Bool>
    decreases k,
{
    if k <= 0 {
        Seq::empty()
    } else if k - 1 == i {
        hosted(t, s, i, k - 1)
    } else {
        hosted(t, s, i, k - 1).push(t.m(s, i, k - 1))
    }
}

/// The games in which team `i` hosts team `j` in the slots from `lo` up to,
/// not including, `hi`.
pub open spec fn meetings(t: VarTable, i: int, j: int, lo: int, hi: int) -> Seq<Bool>
    decreases hi - lo,
{
    if hi <= lo {
        Seq::empty()
    } else {
        meetings(t, i, j, lo, hi - 1).push(t.m(hi - 1, i, j))
    }
}

/// For each team before `k`: it plays exactly one game in slot `s`.
pub open spec fn compact_rules(t: VarTable, s: int, k: int) -> Seq<Rule>
    decreases k,
{
    if k <= 0 {
        Seq::empty()
    } else {
        compact_rules(t, s, k - 1).push(Rule::ExactlyOne(games(t, s, k - 1, t.teams())))
    }
}

/// The first venue rule of team `i` in slot `s`: at home, it hosts a game.
pub open spec fn home_needs_game(t: VarTable, s: int, i: int) -> Rule {
    Rule::Clause(hosted(t, s, i, t.teams()).push(t.h(s, i).negation()))
}

/// The second venue rule of team `i` in slot `s`: hosting every game at
/// once, it is at home.
pub open spec fn all_games_need_home(t: VarTable, s: int, i: int) -> Rule {
    Rule::Clause(negate_all(hosted(t, s, i, t.teams())).push(t.h(s, i)))
}

pub open spec fn home_rules(t: VarTable, s: int, k: int) -> Seq<Rule>
    decreases k,
{
    if k <= 0 {
        Seq::empty()
    } else {
        home_rules(t, s, k - 1).push(home_needs_game(t, s, k - 1)).push(all_games_need_home(t, s, k - 1))
    }
}

/// The host of a game is at home.
pub open spec fn host_at_home(t: VarTable, s: int, i: int, j: int) -> Rule {
    Rule::Clause(seq![t.m(s, i, j).negation(), t.h(s, i)])
}

/// The guest of a game is away.
pub open spec fn guest_away(t: VarTable, s: int, i: int, j: int) -> Rule {
    Rule::Clause(seq![t.m(s, i, j).negation(), t.h(s, j).negation()])
}

pub open spec fn venue_row_rules(t: VarTable, s: int, i: int, k: int) -> Seq<Rule>
    decreases k,
{
    if k <= 0 {
        Seq::empty()
    } else if k - 1 == i {
        venue_row_rules(t, s, i, k - 1)
    } else {
        venue_row_rules(t, s, i, k - 1).push(host_at_home(t, s, i, k - 1)).push(guest_away(t, s, i, k - 1))
    }
}

pub open spec fn venue_rules(t: VarTable, s: int, k: int) -> Seq<Rule>
    decreases k,
{
    if k <= 0 {
        Seq::empty()
    } else {
        venue_rules(t, s, k - 1) + venue_row_rules(t, s, k - 1, t.teams())
    }
}

/// The rules of slot `s`.
pub open spec fn slot_rules(t: VarTable, s: int) -> Seq<Rule> {
    compact_rules(t, s, t.teams()) + home_rules(t, s, t.teams()) + venue_rules(t, s, t.teams())
}

/// The rules of the slots before `k`.
pub open spec fn slots_rules(t: VarTable, k: int) -> Seq<Rule>
    decreases k,
{
    if k <= 0 {
        Seq::empty()
    } else {
        slots_rules(t, k - 1) + slot_rules(t, k - 1)
    }
}

/// The first slot of the second half of the season.
pub open spec fn half(t: VarTable) -> int {
    t.slots() / 2
}

/// The rules for the two games of team `i` and team `j`. Not phased: each
/// of the two takes place exactly once. Phased: the pair's variable decides
/// which of the two takes place in the first half, once, and which in the
/// second, once.
pub open spec fn pair_rules(t: VarTable, i: int, j: int, phased: bool) -> Seq<Rule> {
    if phased {
        seq![
            Rule::ExactlyOne(seq![t.fh(i, j).negation()] + meetings(t, i, j, 0, half(t))),
            Rule::ExactlyOne(seq![t.fh(i, j).negation()] + meetings(t, j, i, half(t), t.slots())),
            Rule::ExactlyOne(seq![t.fh(i, j)] + meetings(t, i, j, half(t), t.slots())),
            Rule::ExactlyOne(seq![t.fh(i, j)] + meetings(t, j, i, 0, half(t))),
        ]
    } else {
        seq![
            Rule::ExactlyOne(meetings(t, i, j, 0, t.slots())),
            Rule::ExactlyOne(meetings(t, j, i, 0, t.slots())),
        ]
    }
}

/// The rules for the pairs of team `i` with the teams before `k` whose
/// identifier is greater than its own.
pub open spec fn round_robin_row_rules(t: VarTable, i: int, k: int, phased: bool) -> Seq<Rule>
    decreases k,
{
    if k <= 0 {
        Seq::empty()
    } else if t.team_ids@[i] < t.team_ids@[k - 1] {
        round_robin_row_rules(t, i, k - 1, phased) + pair_rules(t, i, k - 1, phased)
    } else {
        round_robin_row_rules(t, i, k - 1, phased)
    }
}

pub open spec fn round_robin_rules(t: VarTable, k: int, phased: bool) -> Seq<Rule>
    decreases k,
{
    if k <= 0 {
        Seq::empty()
    } else {
        round_robin_rules(t, k - 1, phased) + round_robin_row_rules(t, k - 1, t.teams(), phased)
    }
}

/// All rules of the tournament: slot by slot, then pair by pair.
pub open spec fn compact_2rr_rules(t: VarTable, phased: bool) -> Seq<Rule> {
    slots_rules(t, t.slots()) + round_robin_rules(t, t.teams(), phased)
}

fn games_of(t: &VarTable, s: usize, i: usize) -> (r: Vec<Bool>)
    requires
        t.wf(),
        s < t.slots(),
        i < t.teams(),
    ensures
        r@ == games(*t, s as int, i as int, t.teams()),
{
    let n: usize = t.team_ids.len();
    let mut r: Vec<Bool> = Vec::new();
    let mut j: usize = 0;
    while j < n
        invariant
            t.wf(),
            s < t.slots(),
            i < t.teams(),
            n == t.teams(),
            j <= n,
            r@ == games(*t, s as int, i as int, j as int),
        decreases n - j,
    {
        if j != i {
            r.push(t.matched[s][i][j]);
            r.push(t.matched[s][j][i]);
        }
        j += 1;
    }
    r
}

fn hosted_by(t: &VarTable, s: usize, i: usize) -> (r: Vec<Bool>)
    requires
        t.wf(),
        s < t.slots(),
        i < t.teams(),
    ensures
        r@ == hosted(*t, s as int, i as int, t.teams()),
{
    let n: usize = t.team_ids.len();
    let mut r: Vec<Bool> = Vec::new();
    let mut j: usize = 0;
    while j < n
        invariant
            t.wf(),
            s < t.slots(),
            i < t.teams(),
            n == t.teams(),
            j <= n,
            r@ == hosted(*t, s as int, i as int, j as int),
        decreases n - j,
    {
        if j != i {
            r.push(t.matched[s][i][j]);
        }
        j += 1;
    }
    r
}

fn not_hosted_by(t: &VarTable, s: usize, i: usize) -> (r: Vec<Bool>)
    requires
        t.wf(),
        s < t.slots(),
        i < t.teams(),
    ensures
        r@ == negate_all(hosted(*t, s as int, i as int, t.teams())),
{
    let n: usize = t.team_ids.len();
    let mut r: Vec<Bool> = Vec::new();
    let mut j: usize = 0;
    assert(r@ =~= negate_all(hosted(*t, s as int, i as int, 0)));
    while j < n
        invariant
            t.wf(),
            s < t.slots(),
            i < t.teams(),
            n == t.teams(),
            j <= n,
            r@ == negate_all(hosted(*t, s as int, i as int, j as int)),
        decreases n - j,
    {
        if j != i {
            r.push(t.matched[s][i][j].negate());
            assert(r@ =~= negate_all(hosted(*t, s as int, i as int, j + 1)));
        }
        j += 1;
    }
    r
}

/// Appends to `first` the games in which team `i` hosts team `j` in the
/// slots from `lo` up to `hi`.
fn meetings_after(t: &VarTable, i: usize, j: usize, lo: usize, hi: usize, first: Vec<Bool>) -> (r: Vec<Bool>)
    requires
        t.wf(),
        i < t.teams(),
        j < t.teams(),
        lo <= hi <= t.slots(),
    ensures
        r@ == first@ + meetings(*t, i as int, j as int, lo as int, hi as int),
{
    let mut r: Vec<Bool> = first;
    let mut s: usize = lo;
    assert(r@ =~= first@ + meetings(*t, i as int, j as int, lo as int, lo as int));
    while s < hi
        invariant
            t.wf(),
            i < t.teams(),
            j < t.teams(),
            lo <= s <= hi <= t.slots(),
            r@ == first@ + meetings(*t, i as int, j as int, lo as int, s as int),
        decreases hi - s,
    {
        r.push(t.matched[s][i][j]);
        assert(r@ =~= first@ + meetings(*t, i as int, j as int, lo as int, s + 1));
        s += 1;
    }
    r
}

fn assert_venue_row(f: &mut Formula, t: &VarTable, s: usize, i: usize)
    requires
        t.wf(),
        s < t.slots(),
        i < t.teams(),
    ensures
        final(f).rules() == old(f).rules() + venue_row_rules(*t, s as int, i as int, t.teams()),
        final(f).roles == old(f).roles,
        final(f).networks == old(f).networks,
{
    let n: usize = t.team_ids.len();
    let mut j: usize = 0;
    assert(f.rules() =~= old(f).rules() + venue_row_rules(*t, s as int, i as int, 0));
    while j < n
        invariant
            t.wf(),
            s < t.slots(),
            i < t.teams(),
            n == t.teams(),
            j <= n,
            f.rules() == old(f).rules() + venue_row_rules(*t, s as int, i as int, j as int),
            f.roles == old(f).roles,
            f.networks == old(f).networks,
        decreases n - j,
    {
        if j != i {
            let m: Bool = t.matched[s][i][j];
            f.add_clause(two(m.negate(), t.home[s][i]));
            f.add_clause(two(m.negate(), t.home[s][j].negate()));
        }
        assert(f.rules() =~= old(f).rules() + venue_row_rules(*t, s as int, i as int, j + 1));
        j += 1;
    }
}

#[verifier::rlimit(40)]
fn assert_slot(f: &mut Formula, t: &VarTable, s: usize)
    requires
        t.wf(),
        s < t.slots(),
    ensures
        final(f).rules() == old(f).rules() + slot_rules(*t, s as int),
        final(f).roles == old(f).roles,
        final(f).networks == old(f).networks,
{
    let n: usize = t.team_ids.len();
    let mut i: usize = 0;
    assert(f.rules() =~= old(f).rules() + compact_rules(*t, s as int, 0));
    while i < n
        invariant
            t.wf(),
            s < t.slots(),
            n == t.teams(),
            i <= n,
            f.rules() == old(f).rules() + compact_rules(*t, s as int, i as int),
            f.roles == old(f).roles,
            f.networks == old(f).networks,
        decreases n - i,
    {
        f.assert_exactly_one(games_of(t, s, i));
        assert(f.rules() =~= old(f).rules() + compact_rules(*t, s as int, i + 1));
        i += 1;
    }
    let ghost r1 = f.rules();
    i = 0;
    assert(f.rules() =~= r1 + home_rules(*t, s as int, 0));
    while i < n
        invariant
            t.wf(),
            s < t.slots(),
            n == t.teams(),
            i <= n,
            f.rules() == r1 + home_rules(*t, s as int, i as int),
            f.roles == old(f).roles,
            f.networks == old(f).networks,
        decreases n - i,
    {
        let h: Bool = t.home[s][i];
        let mut c1: Vec<Bool> = hosted_by(t, s, i);
        c1.push(h.negate());
        f.add_clause(c1);
        let mut c2: Vec<Bool> = not_hosted_by(t, s, i);
        c2.push(h);
        f.add_clause(c2);
        assert(f.rules() =~= r1 + home_rules(*t, s as int, i + 1));
        i += 1;
    }
    let ghost r2 = f.rules();
    i = 0;
    assert(f.rules() =~= r2 + venue_rules(*t, s as int, 0));
    while i < n
        invariant
            t.wf(),
            s < t.slots(),
            n == t.teams(),
            i <= n,
            f.rules() == r2 + venue_rules(*t, s as int, i as int),
            f.roles == old(f).roles,
            f.networks == old(f).networks,
        decreases n - i,
    {
        assert_venue_row(f, t, s, i);
        assert(f.rules() =~= r2 + venue_rules(*t, s as int, i + 1));
        i += 1;
    }
    assert(f.rules() =~= old(f).rules() + slot_rules(*t, s as int));
}

fn assert_pair(f: &mut Formula, t: &VarTable, i: usize, j: usize, phased: bool)
    requires
        t.wf(),
        i < t.teams(),
        j < t.teams(),
    ensures
        final(f).rules() == old(f).rules() + pair_rules(*t, i as int, j as int, phased),
        final(f).roles == old(f).roles,
        final(f).networks == old(f).networks,
{
    let slots: usize = t.slot_ids.len();
    if !phased {
        let a: Vec<Bool> = meetings_after(t, i, j, 0, slots, Vec::new());
        assert(a@ =~= meetings(*t, i as int, j as int, 0, t.slots()));
        f.assert_exactly_one(a);
        let b: Vec<Bool> = meetings_after(t, j, i, 0, slots, Vec::new());
        assert(b@ =~= meetings(*t, j as int, i as int, 0, t.slots()));
        f.assert_exactly_one(b);
        assert(f.rules() =~= old(f).rules() + pair_rules(*t, i as int, j as int, phased));
    } else {
        let mid: usize = slots / 2;
        let first_half: Bool = t.first_half[i][j];
        f.assert_exactly_one(meetings_after(t, i, j, 0, mid, one(first_half.negate())));
        f.assert_exactly_one(meetings_after(t, j, i, mid, slots, one(first_half.negate())));
        f.assert_exactly_one(meetings_after(t, i, j, mid, slots, one(first_half)));
        f.assert_exactly_one(meetings_after(t, j, i, 0, mid, one(first_half)));
        assert(f.rules() =~= old(f).rules() + pair_rules(*t, i as int, j as int, phased));
    }
}

fn assert_round_robin_row(f: &mut Formula, t: &VarTable, i: usize, phased: bool)
    requires
        t.wf(),
        i < t.teams(),
    ensures
        final(f).rules() == old(f).rules() + round_robin_row_rules(*t, i as int, t.teams(), phased),
        final(f).roles == old(f).roles,
        final(f).networks == old(f).networks,
{
    let n: usize = t.team_ids.len();
    let mut j: usize = 0;
    assert(f.rules() =~= old(f).rules() + round_robin_row_rules(*t, i as int, 0, phased));
    while j < n
        invariant
            t.wf(),
            i < t.teams(),
            n == t.teams(),
            j <= n,
            f.rules() == old(f).rules() + round_robin_row_rules(*t, i as int, j as int, phased),
            f.roles == old(f).roles,
            f.networks == old(f).networks,
        decreases n - j,
    {
        if t.team_ids[i] < t.team_ids[j] {
            assert_pair(f, t, i, j, phased);
        }
        assert(f.rules() =~= old(f).rules() + round_robin_row_rules(*t, i as int, j + 1, phased));
        j += 1;
    }
}

/// Adds the rules of a compact double round-robin tournament over the
/// variables of `t`.
pub fn assert_compact_2rr(f: &mut Formula, t: &VarTable, phased: bool)
    requires
        t.wf(),
    ensures
        final(f).rules() == old(f).rules() + compact_2rr_rules(*t, phased),
        final(f).roles == old(f).roles,
        final(f).networks == old(f).networks,
{
    let n: usize = t.team_ids.len();
    let slots: usize = t.slot_ids.len();
    let mut s: usize = 0;
    assert(f.rules() =~= old(f).rules() + slots_rules(*t, 0));
    while s < slots
        invariant
            t.wf(),
            slots == t.slots(),
            s <= slots,
            f.rules() == old(f).rules() + slots_rules(*t, s as int),
            f.roles == old(f).roles,
            f.networks == old(f).networks,
        decreases slots - s,
    {
        assert_slot(f, t, s);
        assert(f.rules() =~= old(f).rules() + slots_rules(*t, s + 1));
        s += 1;
    }
    let ghost r1 = f.rules();
    let mut i: usize = 0;
    assert(f.rules() =~= r1 + round_robin_rules(*t, 0, phased));
    while i < n
        invariant
            t.wf(),
            n == t.teams(),
            i <= n,
            f.rules() == r1 + round_robin_rules(*t, i as int, phased),
            f.roles == old(f).roles,
            f.networks == old(f).networks,
        decreases n - i,
    {
        assert_round_robin_row(f, t, i, phased);
        assert(f.rules() =~= r1 + round_robin_rules(*t, i + 1, phased));
        i += 1;
    }
    assert(f.rules() =~= old(f).rules() + compact_2rr_rules(*t, phased));
}

/// Encodes a compact double round-robin tournament of the teams `team_ids`
/// over the slots `slot_ids` into `solver`: creates the variables of the
/// tournament and adds its rules. Returns the table of the variables.
pub fn encode_compact_2rr(solver: &mut Formula, slot_ids: &Vec<SlotId>, team_ids: &Vec<TeamId>, phased: bool) -> (t:
    VarTable)
    ensures
        t.slot_ids@ == slot_ids@,
        t.team_ids@ == team_ids@,
        t.wf(),
        t.labelled_in(final(solver).roles@, old(solver).roles@.len() as int, phased),
        final(solver).roles@ == old(solver).roles@ + table_roles(team_ids@, slot_ids@.len() as int, phased),
        final(solver).rules() == old(solver).rules() + compact_2rr_rules(t, phased),
        final(solver).networks == old(solver).networks,
{
    let t: VarTable = new_var_table(solver, slot_ids, team_ids, phased);
    assert(solver.rules() == old(solver).rules());
    assert_compact_2rr(solver, &t, phased);
    t
}

} // verus!
