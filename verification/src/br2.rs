//! The search for the least number of breaks in the whole season.
//!
//! Every break variable is assumed not to hold. A core takes its literals
//! out of the assumptions; a model says how many breaks it has.

use vstd::prelude::*;
use crate::lit::{count_true, negate_all, Bool};
use crate::table::VarTable;
use crate::breaks::{BreakVar, BreakVars};
use crate::error::EncodeError;
use crate::instance::{BreakLimit, Constraints};
use crate::plan::br2_is_global;
use crate::terms::{dedup, without_repeats};

verus! {

/// The limit of the first of the break constraints from position `k` on
/// that limits the breaks of the whole season. A BR2 constraint met on the
/// way whose mode is not dealt with is an error.
pub open spec fn season_limit_from(t: VarTable, breaks: Seq<BreakLimit>, k: int) -> Result<usize, EncodeError>
    decreases breaks.len() - k,
{
    if k < 0 || k >= breaks.len() {
        Err(EncodeError::NoSeasonBreakLimit)
    } else {
        match breaks[k] {
            BreakLimit::Br1(c) => season_limit_from(t, breaks, k + 1),
            BreakLimit::Br2(c) => if !c.regular_or_any_venue {
                Err(EncodeError::Unsupported)
            } else if br2_is_global(t, c) {
                Ok(c.intp as usize)
            } else {
                season_limit_from(t, breaks, k + 1)
            },
        }
    }
}

/// The limit on the breaks of the whole season that the instance sets.
pub fn global_br2(constraints: &Constraints, vars: &VarTable) -> (r: Result<usize, EncodeError>)
    ensures
        r == season_limit_from(*vars, constraints.breaks@, 0),
{
    let mut k: usize = 0;
    while k < constraints.breaks.len()
        invariant
            k <= constraints.breaks.len(),
            season_limit_from(*vars, constraints.breaks@, k as int) == season_limit_from(
                *vars,
                constraints.breaks@,
                0,
            ),
        decreases constraints.breaks.len() - k,
    {
        match &constraints.breaks[k] {
            BreakLimit::Br1(_) => {},
            BreakLimit::Br2(c) => {
                if !c.regular_or_any_venue {
                    return Err(EncodeError::Unsupported);
                }
                if c.hard && c.teams.len() == vars.team_ids.len() && c.slots.len() == vars.slot_ids.len() {
                    return Ok(c.intp as usize);
                }
            },
        }
        k += 1;
    }
    Err(EncodeError::NoSeasonBreakLimit)
}

/// What the engine found: a model, or a core of the assumptions.
#[derive(Debug)]
pub enum SolveResult {
    Sat(Vec<bool>),
    Unsat(Vec<Bool>),
}

/// The state of the search: the negated break variables, those of them
/// that are still assumed, and the limit that the instance sets.
#[derive(Debug)]
pub struct Br2Search {
    pub all_breaks: Vec<Bool>,
    pub breaks: Vec<Bool>,
    pub intp: usize,
}

/// What a step of the search has come to.
#[derive(Clone, Copy, PartialEq, Eq, Structural, Debug)]
pub enum Br2Report {
    /// The model has `broken` breaks; the instance allows `allowed`.
    Breaks { broken: usize, allowed: usize },
    /// The `len` literals of the core are no longer assumed.
    CoreRemoved { len: usize },
}

/// The negated variables of the entries before `k`.
pub open spec fn no_break_lits(entries: Seq<BreakVar>, k: int) -> Seq<Bool>
    decreases k,
{
    if k <= 0 {
        Seq::empty()
    } else {
        no_break_lits(entries, k - 1).push(entries[k - 1].var.negation())
    }
}

/// The literals of `lits` before `k` that are not in `core`.
pub open spec fn without(lits: Seq<Bool>, core: Seq<Bool>, k: int) -> Seq<Bool>
    decreases k,
{
    if k <= 0 {
        Seq::empty()
    } else if core.contains(lits[k - 1]) {
        without(lits, core, k - 1)
    } else {
        without(lits, core, k - 1).push(lits[k - 1])
    }
}

/// Every literal of the core is assumed, and none occurs twice.
pub open spec fn core_of(core: Seq<Bool>, assumed: Seq<Bool>) -> bool {
    core.no_duplicates() && forall|k: int| 0 <= k < core.len() ==> assumed.contains(#[trigger] core[k])
}

fn contains_lit(lits: &Vec<Bool>, b: Bool) -> (r: bool)
    ensures
        r == lits@.contains(b),
{
    let mut i: usize = 0;
    while i < lits.len()
        invariant
            i <= lits.len(),
            forall|j: int| 0 <= j < i ==> lits@[j] != b,
        decreases lits.len() - i,
    {
        if lits[i] == b {
            return true;
        }
        i += 1;
    }
    false
}

fn is_core_of(core: &Vec<Bool>, assumed: &Vec<Bool>) -> (r: bool)
    ensures
        r == core_of(core@, assumed@),
{
    let mut i: usize = 0;
    while i < core.len()
        invariant
            i <= core.len(),
            forall|k: int| 0 <= k < i ==> assumed@.contains(#[trigger] core@[k]),
            forall|a: int, b: int| 0 <= a < i && 0 <= b < core@.len() && a != b ==> core@[a] != core@[b],
        decreases core.len() - i,
    {
        if !contains_lit(assumed, core[i]) {
            return false;
        }
        let mut j: usize = 0;
        while j < core.len()
            invariant
                i < core.len(),
                j <= core.len(),
                forall|b: int| 0 <= b < j && i != b ==> core@[i as int] != core@[b],
            decreases core.len() - j,
        {
            if i != j && core[i] == core[j] {
                return false;
            }
            j += 1;
        }
        i += 1;
    }
    true
}

impl Br2Search {
    /// The search over the break variables `break_vars` for an instance
    /// that allows `intp` breaks: every break variable is assumed not to
    /// hold.
    pub fn new(break_vars: &BreakVars, intp: usize) -> (r: Br2Search)
        ensures
            r.intp == intp,
            r.all_breaks@ == dedup(
                no_break_lits(break_vars.entries@, break_vars.entries@.len() as int),
                break_vars.entries@.len() as int,
            ),
            r.breaks@ == r.all_breaks@,
    {
        let mut lits: Vec<Bool> = Vec::new();
        let mut k: usize = 0;
        while k < break_vars.entries.len()
            invariant
                k <= break_vars.entries.len(),
                lits@.len() == k,
                lits@ == no_break_lits(break_vars.entries@, k as int),
            decreases break_vars.entries.len() - k,
        {
            lits.push(break_vars.entries[k].var.negate());
            k += 1;
        }
        let all: Vec<Bool> = without_repeats(&lits);
        let assumed: Vec<Bool> = crate::lit::copy_lits(&all);
        Br2Search { all_breaks: all, breaks: assumed, intp }
    }
}

/// One step of the search. For a model: the number of break variables
/// that hold in it, with the limit of the instance; nothing changes. For
/// a core: its literals are taken out of the assumptions. A core that is
/// not made of assumptions, or holds one twice, gives `None` and changes
/// nothing.
pub fn br2_heuristic(search: &mut Br2Search, result: &SolveResult) -> (r: Option<Br2Report>)
    ensures
        final(search).all_breaks == old(search).all_breaks,
        final(search).intp == old(search).intp,
        match *result {
            SolveResult::Sat(model) => {
                &&& r == Some(
                    Br2Report::Breaks {
                        broken: count_true(negate_all(old(search).all_breaks@), model@) as usize,
                        allowed: old(search).intp,
                    },
                )
                &&& final(search).breaks == old(search).breaks
            },
            SolveResult::Unsat(core) => if core_of(core@, old(search).breaks@) {
                &&& r == Some(Br2Report::CoreRemoved { len: core@.len() as usize })
                &&& final(search).breaks@ == without(old(search).breaks@, core@, old(search).breaks@.len() as int)
            } else {
                &&& r is None
                &&& final(search).breaks == old(search).breaks
            },
        },
{
    match result {
        SolveResult::Sat(model) => {
            let broken: usize = crate::lit::count_holding(&crate::lit::negated(&search.all_breaks), model);
            Some(Br2Report::Breaks { broken, allowed: search.intp })
        },
        SolveResult::Unsat(core) => {
            if !is_core_of(core, &search.breaks) {
                return None;
            }
            let mut kept: Vec<Bool> = Vec::new();
            let mut k: usize = 0;
            while k < search.breaks.len()
                invariant
                    k <= search.breaks.len(),
                    search.breaks == old(search).breaks,
                    search.all_breaks == old(search).all_breaks,
                    search.intp == old(search).intp,
                    kept@ == without(search.breaks@, core@, k as int),
                decreases search.breaks.len() - k,
            {
                if !contains_lit(core, search.breaks[k]) {
                    kept.push(search.breaks[k]);
                }
                k += 1;
            }
            search.breaks = kept;
            Some(Br2Report::CoreRemoved { len: core.len() })
        },
    }
}

} // verus!
