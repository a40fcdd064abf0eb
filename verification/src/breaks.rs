//! Break variables, created when first asked for.
//!
//! A team has a break in a slot when it is at home there and in the slot
//! before, or away in both.

use vstd::prelude::*;
use crate::lit::{three, two, Bool, SlotId, TeamId};
use crate::formula::{all_hold, Formula, Role, Rule};
use crate::table::{labelled, VarTable};
use crate::models::lemma_count_true_two;

verus! {

/// A break variable with the slot, team and venue it stands for.
#[derive(Clone, Copy, PartialEq, Eq, Structural, Debug, Hash)]
pub struct BreakVar {
    pub slot: SlotId,
    pub team: TeamId,
    pub is_home: bool,
    pub var: Bool,
}

/// The break variables made so far, in the order of their creation.
#[derive(Debug)]
pub struct BreakVars {
    pub entries: Vec<BreakVar>,
}

/// The variable that the first entry for `(slot, team, is_home)` holds.
pub open spec fn break_lookup(entries: Seq<BreakVar>, slot: SlotId, team: TeamId, is_home: bool) -> Option<Bool>
    decreases entries.len(),
{
    if entries.len() == 0 {
        None
    } else if entries[0].slot == slot && entries[0].team == team && entries[0].is_home == is_home {
        Some(entries[0].var)
    } else {
        break_lookup(entries.skip(1), slot, team, is_home)
    }
}

/// The term that says that the venue of a team is the one asked for.
pub open spec fn venue_term(home: Bool, is_home: bool) -> Bool {
    if is_home {
        home
    } else {
        home.negation()
    }
}

/// The three rules that tie the break variable `v` to the venue variables
/// `home1` of the slot before and `home2` of the slot itself.
pub open spec fn break_rules(home1: Bool, home2: Bool, v: Bool, is_home: bool) -> Seq<Rule> {
    let a1 = venue_term(home1, is_home);
    let a2 = venue_term(home2, is_home);
    seq![
        Rule::Clause(seq![a1.negation(), a2.negation(), v]),
        Rule::Clause(seq![a1, v.negation()]),
        Rule::Clause(seq![a2, v.negation()]),
    ]
}

impl BreakVars {
    /// No break variables.
    pub fn new() -> (r: BreakVars)
        ensures
            r.entries@ == Seq::<BreakVar>::empty(),
    {
        BreakVars { entries: Vec::new() }
    }

    pub open spec fn lookup(&self, slot: SlotId, team: TeamId, is_home: bool) -> Option<Bool> {
        break_lookup(self.entries@, slot, team, is_home)
    }

    /// The break variable made for `(slot, team, is_home)`, if there is one.
    pub fn get(&self, slot: SlotId, team: TeamId, is_home: bool) -> (r: Option<Bool>)
        ensures
            r == self.lookup(slot, team, is_home),
    {
        let mut i: usize = 0;
        assert(self.entries@.skip(0) =~= self.entries@);
        while i < self.entries.len()
            invariant
                i <= self.entries.len(),
                self.lookup(slot, team, is_home) == break_lookup(self.entries@.skip(i as int), slot, team, is_home),
            decreases self.entries.len() - i,
        {
            let e: BreakVar = self.entries[i];
            assert(self.entries@.skip(i as int)[0] == e);
            if e.slot == slot && e.team == team && e.is_home == is_home {
                return Some(e.var);
            }
            assert(self.entries@.skip(i as int).skip(1) =~= self.entries@.skip(i + 1));
            i += 1;
        }
        None
    }
}

/// After an entry is added at the end, a key that had a variable keeps it,
/// and the new key, if it had none, has the new variable.
pub proof fn lemma_break_lookup_push(entries: Seq<BreakVar>, e: BreakVar, slot: SlotId, team: TeamId, is_home: bool)
    ensures
        break_lookup(entries.push(e), slot, team, is_home) == match break_lookup(entries, slot, team, is_home) {
            Some(v) => Some(v),
            None => if e.slot == slot && e.team == team && e.is_home == is_home {
                Some(e.var)
            } else {
                None
            },
        },
    decreases entries.len(),
{
    if entries.len() == 0 {
        assert(entries.push(e).skip(1) =~= entries);
    } else {
        assert(entries.push(e).skip(1) =~= entries.skip(1).push(e));
        lemma_break_lookup_push(entries.skip(1), e, slot, team, is_home);
    }
}

/// Whether `lazy_break_var` has the venue variables it needs: the break
/// variable exists already, or the slot is the slot 0, or the league has the
/// team, the slot and the slot before it.
pub open spec fn break_var_defined(
    break_vars: BreakVars,
    home_vars: VarTable,
    slot: SlotId,
    team: TeamId,
    is_home: bool,
) -> bool {
    ||| break_vars.lookup(slot, team, is_home) is Some
    ||| slot == 0
    ||| (slot > i64::MIN && home_vars.home_at((slot - 1) as i64, team) is Some && home_vars.home_at(slot, team)
        is Some)
}

/// The exec form of `break_var_defined`.
pub fn can_make_break_var(
    break_vars: &BreakVars,
    home_vars: &VarTable,
    slot: SlotId,
    team: TeamId,
    is_home: bool,
) -> (r: bool)
    requires
        home_vars.wf(),
    ensures
        r == break_var_defined(*break_vars, *home_vars, slot, team, is_home),
{
    if break_vars.get(slot, team, is_home).is_some() {
        return true;
    }
    if slot == 0 {
        return true;
    }
    if slot == i64::MIN {
        return false;
    }
    home_vars.home_var(slot - 1, team).is_some() && home_vars.home_var(slot, team).is_some()
}

/// The break variable of `team` in `slot`, at home or away. In slot 0 there
/// is no break: the result is the constant false. Otherwise the variable is
/// made on the first call, with the three rules that tie it to the venue
/// variables of `slot` and of the slot before, and handed out again on every
/// later call.
pub fn lazy_break_var(
    solver: &mut Formula,
    break_vars: &mut BreakVars,
    home_vars: &VarTable,
    slot: SlotId,
    team: TeamId,
    is_home: bool,
) -> (v: Bool)
    requires
        home_vars.wf(),
        break_var_defined(*old(break_vars), *home_vars, slot, team, is_home),
    ensures
        final(solver).networks == old(solver).networks,
        match old(break_vars).lookup(slot, team, is_home) {
            Some(known) => {
                &&& v == known
                &&& *final(solver) == *old(solver)
                &&& *final(break_vars) == *old(break_vars)
            },
            None => if slot == 0 {
                &&& v == Bool::Const(false)
                &&& *final(solver) == *old(solver)
                &&& *final(break_vars) == *old(break_vars)
            } else {
                &&& labelled(
                    final(solver).roles@,
                    old(solver).roles@.len() as int,
                    v,
                    Role::Break { slot_id: slot, team_id: team, at_home: is_home },
                )
                &&& final(solver).roles@ == old(solver).roles@.push(
                    Role::Break { slot_id: slot, team_id: team, at_home: is_home },
                )
                &&& final(solver).rules() == old(solver).rules() + break_rules(
                    home_vars.home_at((slot - 1) as i64, team).unwrap(),
                    home_vars.home_at(slot, team).unwrap(),
                    v,
                    is_home,
                )
                &&& final(break_vars).entries@ == old(break_vars).entries@.push(
                    BreakVar { slot, team, is_home, var: v },
                )
            },
        },
{
    if let Some(v) = break_vars.get(slot, team, is_home) {
        return v;
    }
    if slot == 0 {
        return Bool::Const(false);
    }
    let v: Bool = solver.new_var(Role::Break { slot_id: slot, team_id: team, at_home: is_home });
    let home1: Bool = home_vars.home_var(slot - 1, team).unwrap();
    let home2: Bool = home_vars.home_var(slot, team).unwrap();
    if is_home {
        solver.add_clause(three(home1.negate(), home2.negate(), v));
        solver.add_clause(two(home1, v.negate()));
        solver.add_clause(two(home2, v.negate()));
    } else {
        let away1: Bool = home1.negate();
        let away2: Bool = home2.negate();
        solver.add_clause(three(away1.negate(), away2.negate(), v));
        solver.add_clause(two(away1, v.negate()));
        solver.add_clause(two(away2, v.negate()));
    }
    assert(solver.rules() =~= old(solver).rules() + break_rules(home1, home2, v, is_home));
    break_vars.entries.push(BreakVar { slot, team, is_home, var: v });
    v
}

/// In every model of its three rules a break variable holds exactly when
/// the team has the venue asked for in the slot and in the slot before.
pub proof fn lemma_break_iff_same_venue(home1: Bool, home2: Bool, v: Bool, is_home: bool, m: Seq<bool>)
    requires
        all_hold(break_rules(home1, home2, v, is_home), m),
    ensures
        is_home ==> (v.holds(m) <==> home1.holds(m) && home2.holds(m)),
        !is_home ==> (v.holds(m) <==> !home1.holds(m) && !home2.holds(m)),
{
    let a1 = venue_term(home1, is_home);
    let a2 = venue_term(home2, is_home);
    let rules = break_rules(home1, home2, v, is_home);
    assert(rules[0].holds(m) && rules[1].holds(m) && rules[2].holds(m));
    lemma_count_true_two(a1, v.negation(), m);
    lemma_count_true_two(a2, v.negation(), m);
    lemma_count_true_two(a1.negation(), a2.negation(), m);
    assert(seq![a1.negation(), a2.negation(), v].drop_last() =~= seq![a1.negation(), a2.negation()]);
}

} // verus!
