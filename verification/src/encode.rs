//! The encoding of the constraints of an instance.
//!
//! The constraints are first turned into tasks, which depends on the table
//! alone. The tasks are then checked, and carried out one after the other:
//! rules are added at once, break variables are made as they are asked for,
//! and cardinality constraints are kept until all tasks are done and then
//! encoded in the order in which they came up.

use vstd::prelude::*;
use crate::lit::{copy_lits, count_true, one, Bool, SlotId, TeamId};
use crate::formula::{all_hold, diff_exceeds, lemma_all_hold_concat, Formula, Network, Role, Rule};
use crate::table::VarTable;
use crate::breaks::{break_lookup, break_rules, break_var_defined, can_make_break_var, lazy_break_var, lemma_break_lookup_push, BreakVar, BreakVars};
use crate::networks::{copy_pairs, lemma_diff_bounded, output_lits, output_roles, outputs_up_to, CumulativeDiff};
use crate::soft::{cards_view, catalog, CardView, CardinalityConstraint, Relax, RelaxView, Soft, SoftView};
use crate::error::EncodeError;
use crate::cardinality::{cardinality_added, effective_max, effective_min, encode_cardinality, lemma_hard_rules, lit_var, together};
use crate::instance::Constraints;
use crate::plan::{plan_constraints, plan_of, tasks_view, BreakKey, Task, TaskView};

verus! {

/// The part of the encoder's state that making break variables changes.
pub struct BreakState {
    pub roles: Seq<Role>,
    pub rules: Seq<Rule>,
    pub breaks: Seq<BreakVar>,
}

/// The role of the break variable of `key`.
pub open spec fn break_role(key: BreakKey) -> Role {
    Role::Break { slot_id: key.0, team_id: key.1, at_home: key.2 }
}

/// Asking for the break variable of `key`: one that exists is handed out;
/// in slot 0 there is none and the constant false is handed out; else the
/// variable is made, with its three rules.
pub open spec fn break_step(t: VarTable, st: BreakState, key: BreakKey) -> (BreakState, Bool) {
    match break_lookup(st.breaks, key.0, key.1, key.2) {
        Some(v) => (st, v),
        None => if key.0 == 0 {
            (st, Bool::Const(false))
        } else {
            let v = lit_var(st.roles.len() as int);
            (
                BreakState {
                    roles: st.roles.push(break_role(key)),
                    rules: st.rules + break_rules(
                        t.home_at((key.0 - 1) as i64, key.1).unwrap(),
                        t.home_at(key.0, key.1).unwrap(),
                        v,
                        key.2,
                    ),
                    breaks: st.breaks.push(BreakVar { slot: key.0, team: key.1, is_home: key.2, var: v }),
                },
                v,
            )
        },
    }
}

/// Asking for the break variables of the keys before `k`, one after the
/// other.
pub open spec fn break_run(t: VarTable, st: BreakState, keys: Seq<BreakKey>, k: int) -> (BreakState, Seq<Bool>)
    decreases k,
{
    if k <= 0 {
        (st, Seq::empty())
    } else {
        let before = break_run(t, st, keys, k - 1);
        let step = break_step(t, before.0, keys[k - 1]);
        (step.0, before.1.push(step.1))
    }
}

/// The state of the encoder: the formula, the break variables, the
/// cardinality constraints kept for later, and the catalog.
pub struct EncState {
    pub roles: Seq<Role>,
    pub networks: Seq<Network>,
    pub rules: Seq<Rule>,
    pub breaks: Seq<BreakVar>,
    pub cards: Seq<CardView>,
    pub soft: Seq<SoftView>,
}

/// The output of a cumulative difference network of `d` outputs from the
/// variable `nv` on for a difference of more than `bound`.
pub open spec fn diff_over(nv: int, d: int, bound: int) -> Bool {
    if bound < d {
        lit_var(nv + bound)
    } else {
        Bool::Const(false)
    }
}

/// Carrying out one task.
pub open spec fn task_step(t: VarTable, st: EncState, task: TaskView) -> EncState {
    match task {
        TaskView::Clause(lits) => EncState {
            roles: st.roles,
            networks: st.networks,
            rules: st.rules.push(Rule::Clause(lits)),
            breaks: st.breaks,
            cards: st.cards,
            soft: st.soft,
        },
        TaskView::Card { lits, min, max, cost } => EncState {
            roles: st.roles,
            networks: st.networks,
            rules: st.rules,
            breaks: st.breaks,
            cards: st.cards.push(CardView { lits, min, max, cost }),
            soft: st.soft,
        },
        TaskView::Breaks { keys, max, cost } => {
            let made = break_run(
                t,
                BreakState { roles: st.roles, rules: st.rules, breaks: st.breaks },
                keys,
                keys.len() as int,
            );
            EncState {
                roles: made.0.roles,
                networks: st.networks,
                rules: made.0.rules,
                breaks: made.0.breaks,
                cards: st.cards.push(CardView { lits: made.1, min: None, max: Some(max), cost }),
                soft: st.soft,
            }
        },
        TaskView::Diff { pairs, bound, cost } => match cost {
            Some(c) => EncState {
                roles: st.roles,
                networks: st.networks,
                rules: st.rules,
                breaks: st.breaks,
                cards: st.cards,
                soft: st.soft.push(
                    SoftView::Constructable {
                        cost: c,
                        relax: RelaxView::NewCumDiff { lits: pairs, bound: bound as usize },
                    },
                ),
            },
            None => {
                let nv = st.roles.len() as int;
                let net = st.networks.len() as usize;
                let d = outputs_up_to(pairs.len() as int, bound as int);
                EncState {
                    roles: st.roles + output_roles(net, d),
                    networks: st.networks.push(Network::CumulativeDiff),
                    rules: st.rules.push(
                        Rule::CumulativeDiff { network: net, pairs, first: 0, outputs: output_lits(nv, d) },
                    ).push(Rule::Clause(seq![diff_over(nv, d, bound as int).negation()])),
                    breaks: st.breaks,
                    cards: st.cards,
                    soft: st.soft,
                }
            },
        },
        TaskView::Separation { t1, t2, min, penalty } => EncState {
            roles: st.roles,
            networks: st.networks,
            rules: st.rules,
            breaks: st.breaks,
            cards: st.cards,
            soft: st.soft.push(
                SoftView::Constructable { cost: penalty, relax: RelaxView::Separation { t1, t2, min } },
            ),
        },
    }
}

/// Carrying out the tasks before `k`, one after the other.
pub open spec fn tasks_run(t: VarTable, st: EncState, tasks: Seq<TaskView>, k: int) -> EncState
    decreases k,
{
    if k <= 0 {
        st
    } else {
        task_step(t, tasks_run(t, st, tasks, k - 1), tasks[k - 1])
    }
}

/// Encoding the cardinality constraints before `k`, one after the other.
pub open spec fn cards_run(st: EncState, cards: Seq<CardView>, k: int) -> EncState
    decreases k,
{
    if k <= 0 {
        st
    } else {
        let before = cards_run(st, cards, k - 1);
        let c = cards[k - 1];
        let a = cardinality_added(
            before.roles.len() as int,
            before.networks.len() as int,
            c.lits,
            c.min,
            c.max,
            c.cost,
        ).unwrap();
        EncState {
            roles: before.roles + a.roles,
            networks: before.networks + a.networks,
            rules: before.rules + a.rules,
            breaks: before.breaks,
            cards: before.cards,
            soft: before.soft + a.soft,
        }
    }
}

/// The state after all tasks are carried out and the cardinality
/// constraints that they left are encoded.
pub open spec fn encoded(t: VarTable, st: EncState, tasks: Seq<TaskView>) -> EncState {
    let done = tasks_run(t, st, tasks, tasks.len() as int);
    cards_run(done, done.cards, done.cards.len() as int)
}

/// Whether a cardinality constraint over `n` terms has an encoding: it is
/// encoded by one network, or its minimum is not above `n`.
pub open spec fn encodable(n: int, min: Option<u32>, max: Option<u32>, cost: Option<u32>) -> bool {
    let emin = effective_min(min);
    let emax = effective_max(max, n);
    (together(emin, emax, n) && (cost is None || 2 * emax > n)) || emin <= n
}

/// Every break variable of `keys` exists or can be made.
pub open spec fn keys_defined(t: VarTable, breaks: BreakVars, keys: Seq<BreakKey>) -> bool {
    forall|i: int| 0 <= i < keys.len() ==> #[trigger] break_var_defined(breaks, t, keys[i].0, keys[i].1, keys[i].2)
}

/// Why a task cannot be carried out, if it cannot.
pub open spec fn task_error(t: VarTable, breaks: BreakVars, task: TaskView) -> Option<EncodeError> {
    match task {
        TaskView::Card { lits, min, max, cost } => if encodable(lits.len() as int, min, max, cost) {
            None
        } else {
            Some(EncodeError::MinAboveCount)
        },
        TaskView::Breaks { keys, max, cost } => if keys_defined(t, breaks, keys) {
            None
        } else {
            Some(EncodeError::UnknownVariable)
        },
        _ => None,
    }
}

/// The error of the first of the tasks before `k` that has one.
pub open spec fn first_error(t: VarTable, breaks: BreakVars, tasks: Seq<TaskView>, k: int) -> Option<EncodeError>
    decreases k,
{
    if k <= 0 {
        None
    } else {
        match first_error(t, breaks, tasks, k - 1) {
            Some(e) => Some(e),
            None => task_error(t, breaks, tasks[k - 1]),
        }
    }
}

proof fn lemma_first_error_stays(t: VarTable, breaks: BreakVars, tasks: Seq<TaskView>, k: int, n: int)
    requires
        k <= n,
        first_error(t, breaks, tasks, k) is Some,
    ensures
        first_error(t, breaks, tasks, n) == first_error(t, breaks, tasks, k),
    decreases n - k,
{
    if k < n {
        lemma_first_error_stays(t, breaks, tasks, k, n - 1);
    }
}

fn can_encode(n: usize, min: Option<u32>, max: Option<u32>, cost: Option<u32>) -> (r: bool)
    ensures
        r == encodable(n as int, min, max, cost),
{
    let emin: usize = match min {
        Some(x) => x as usize,
        None => 0,
    };
    let emax: usize = match max {
        Some(x) => if (x as usize) < n {
            x as usize
        } else {
            n
        },
        None => n,
    };
    if emin <= n {
        return true;
    }
    // a minimum above the number of terms is above the maximum too
    if emax >= n {
        return false;
    }
    cost.is_none() || emax > n - emax
}

fn keys_can_be_made(t: &VarTable, breaks: &BreakVars, keys: &Vec<BreakKey>) -> (r: bool)
    requires
        t.wf(),
    ensures
        r == keys_defined(*t, *breaks, keys@),
{
    let mut i: usize = 0;
    while i < keys.len()
        invariant
            t.wf(),
            i <= keys.len(),
            forall|j: int| 0 <= j < i ==> #[trigger] break_var_defined(*breaks, *t, keys@[j].0, keys@[j].1, keys@[j].2),
        decreases keys.len() - i,
    {
        let key: BreakKey = keys[i];
        if !can_make_break_var(breaks, t, key.0, key.1, key.2) {
            return false;
        }
        i += 1;
    }
    true
}

/// The error of the first task that cannot be carried out, if there is
/// one.
fn check_tasks(t: &VarTable, breaks: &BreakVars, tasks: &Vec<Task>) -> (r: Option<EncodeError>)
    requires
        t.wf(),
    ensures
        r == first_error(*t, *breaks, tasks_view(tasks@), tasks@.len() as int),
{
    let mut i: usize = 0;
    while i < tasks.len()
        invariant
            t.wf(),
            i <= tasks.len(),
            first_error(*t, *breaks, tasks_view(tasks@), i as int) is None,
        decreases tasks.len() - i,
    {
        let e: Option<EncodeError> = match &tasks[i] {
            Task::Card { lits, min, max, cost } => if can_encode(lits.len(), *min, *max, *cost) {
                None
            } else {
                Some(EncodeError::MinAboveCount)
            },
            Task::Breaks { keys, max, cost } => if keys_can_be_made(t, breaks, keys) {
                None
            } else {
                Some(EncodeError::UnknownVariable)
            },
            _ => None,
        };
        assert(e == task_error(*t, *breaks, tasks_view(tasks@)[i as int]));
        if e.is_some() {
            proof {
                lemma_first_error_stays(*t, *breaks, tasks_view(tasks@), i + 1, tasks@.len() as int);
            }
            return e;
        }
        i += 1;
    }
    None
}

/// Every key that has a variable in `before` has one in `after`.
pub open spec fn lookups_kept(before: Seq<BreakVar>, after: Seq<BreakVar>) -> bool {
    forall|slot: SlotId, team: TeamId, is_home: bool|
        (#[trigger] break_lookup(before, slot, team, is_home)) is Some ==> break_lookup(after, slot, team, is_home)
            is Some
}

proof fn lemma_lookups_kept_push(before: Seq<BreakVar>, now: Seq<BreakVar>, e: BreakVar)
    requires
        lookups_kept(before, now),
    ensures
        lookups_kept(before, now.push(e)),
{
    assert forall|slot: SlotId, team: TeamId, is_home: bool|
        (#[trigger] break_lookup(before, slot, team, is_home)) is Some implies break_lookup(
        now.push(e),
        slot,
        team,
        is_home,
    ) is Some by {
        lemma_break_lookup_push(now, e, slot, team, is_home);
    }
}

/// The formula and the break variables are as `st` says.
pub open spec fn breaks_at(f: Formula, breaks: BreakVars, st: BreakState) -> bool {
    &&& f.roles@ == st.roles
    &&& f.rules() == st.rules
    &&& breaks.entries@ == st.breaks
}

#[verifier::rlimit(40)]
fn make_breaks(
    solver: &mut Formula,
    break_vars: &mut BreakVars,
    t: &VarTable,
    keys: &Vec<BreakKey>,
    Ghost(start): Ghost<BreakVars>,
) -> (lits: Vec<Bool>)
    requires
        t.wf(),
        keys_defined(*t, start, keys@),
        lookups_kept(start.entries@, old(break_vars).entries@),
    ensures
        breaks_at(
            *final(solver),
            *final(break_vars),
            break_run(
                *t,
                BreakState {
                    roles: old(solver).roles@,
                    rules: old(solver).rules(),
                    breaks: old(break_vars).entries@,
                },
                keys@,
                keys@.len() as int,
            ).0,
        ),
        lits@ == break_run(
            *t,
            BreakState { roles: old(solver).roles@, rules: old(solver).rules(), breaks: old(break_vars).entries@ },
            keys@,
            keys@.len() as int,
        ).1,
        final(solver).networks == old(solver).networks,
        lookups_kept(start.entries@, final(break_vars).entries@),
{
    let ghost st0 = BreakState {
        roles: old(solver).roles@,
        rules: old(solver).rules(),
        breaks: old(break_vars).entries@,
    };
    let mut lits: Vec<Bool> = Vec::new();
    let mut i: usize = 0;
    while i < keys.len()
        invariant
            t.wf(),
            keys_defined(*t, start, keys@),
            lookups_kept(start.entries@, break_vars.entries@),
            i <= keys.len(),
            breaks_at(*solver, *break_vars, break_run(*t, st0, keys@, i as int).0),
            lits@ == break_run(*t, st0, keys@, i as int).1,
            solver.networks == old(solver).networks,
        decreases keys.len() - i,
    {
        let key: BreakKey = keys[i];
        let ghost before = break_run(*t, st0, keys@, i as int);
        let ghost entries = break_vars.entries@;
        proof {
            assert(break_var_defined(start, *t, keys@[i as int].0, keys@[i as int].1, keys@[i as int].2));
            if break_lookup(start.entries@, key.0, key.1, key.2) is Some {
                assert(break_lookup(entries, key.0, key.1, key.2) is Some);
            }
        }
        let v: Bool = lazy_break_var(solver, break_vars, t, key.0, key.1, key.2);
        lits.push(v);
        proof {
            let after = break_step(*t, before.0, key);
            if break_lookup(entries, key.0, key.1, key.2) is None && key.0 != 0 {
                lemma_lookups_kept_push(
                    start.entries@,
                    entries,
                    BreakVar { slot: key.0, team: key.1, is_home: key.2, var: v },
                );
                assert(v == lit_var(before.0.roles.len() as int));
            }
            assert(v == after.1);
            assert(breaks_at(*solver, *break_vars, after.0));
        }
        i += 1;
    }
    lits
}

/// The formula, the break variables, the cardinality constraints kept and
/// the catalog are as `st` says.
pub open spec fn state_is(
    f: Formula,
    breaks: BreakVars,
    cards: Seq<CardinalityConstraint>,
    soft: Seq<Soft>,
    st: EncState,
) -> bool {
    &&& f.roles@ == st.roles
    &&& f.networks@ == st.networks
    &&& f.rules() == st.rules
    &&& breaks.entries@ == st.breaks
    &&& cards_view(cards) == st.cards
    &&& catalog(soft) == st.soft
}

/// The state that the formula, the break variables and an empty catalog
/// make.
pub open spec fn start_state(f: Formula, breaks: BreakVars) -> EncState {
    EncState {
        roles: f.roles@,
        networks: f.networks@,
        rules: f.rules(),
        breaks: breaks.entries@,
        cards: Seq::empty(),
        soft: Seq::empty(),
    }
}

fn push_card(cards: &mut Vec<CardinalityConstraint>, card: CardinalityConstraint)
    ensures
        cards_view(final(cards)@) == cards_view(old(cards)@).push(card@),
{
    cards.push(card);
    assert(cards_view(cards@) =~= cards_view(old(cards)@).push(card@));
}

fn push_entry(soft: &mut Vec<Soft>, entry: Soft)
    ensures
        catalog(final(soft)@) == catalog(old(soft)@).push(entry@),
{
    soft.push(entry);
    assert(catalog(soft@) =~= catalog(old(soft)@).push(entry@));
}

#[verifier::rlimit(40)]
fn run_task(
    solver: &mut Formula,
    break_vars: &mut BreakVars,
    cards: &mut Vec<CardinalityConstraint>,
    soft: &mut Vec<Soft>,
    t: &VarTable,
    task: &Task,
    Ghost(start): Ghost<BreakVars>,
    Ghost(st): Ghost<EncState>,
)
    requires
        t.wf(),
        task_error(*t, start, task@) is None,
        lookups_kept(start.entries@, old(break_vars).entries@),
        state_is(*old(solver), *old(break_vars), old(cards)@, old(soft)@, st),
    ensures
        state_is(*final(solver), *final(break_vars), final(cards)@, final(soft)@, task_step(*t, st, task@)),
        lookups_kept(start.entries@, final(break_vars).entries@),
{
    match task {
        Task::Clause(lits) => {
            solver.add_clause(copy_lits(lits));
        },
        Task::Card { lits, min, max, cost } => {
            push_card(
                cards,
                CardinalityConstraint { name: String::new(), lits: copy_lits(lits), min: *min, max: *max, cost: *cost },
            );
        },
        Task::Breaks { keys, max, cost } => {
            let lits: Vec<Bool> = make_breaks(solver, break_vars, t, keys, Ghost(start));
            push_card(cards, CardinalityConstraint { name: String::new(), lits, min: None, max: Some(*max), cost: *cost });
        },
        Task::Diff { pairs, bound, cost } => {
            match cost {
                Some(c) => {
                    push_entry(
                        soft,
                        Soft::Constructable(*c, Relax::NewCumDiff { lits: copy_pairs(pairs), bound: *bound as usize }),
                    );
                },
                None => {
                    let diff: CumulativeDiff = CumulativeDiff::new(solver, copy_pairs(pairs), *bound as usize);
                    solver.add_clause(one(diff.exceeds(*bound as usize).negate()));
                    proof {
                        let after = task_step(*t, st, task@);
                        assert(solver.roles@ =~= after.roles);
                        assert(solver.rules() =~= after.rules);
                    }
                },
            }
        },
        Task::Separation { t1, t2, min, penalty } => {
            push_entry(soft, Soft::Constructable(*penalty, Relax::Separation { t1: *t1, t2: *t2, min: *min }));
        },
    }
}

/// Once all tasks are found free of errors, each of them is.
proof fn lemma_no_error(t: VarTable, breaks: BreakVars, tasks: Seq<TaskView>, n: int, i: int)
    requires
        0 <= i < n,
        first_error(t, breaks, tasks, n) is None,
    ensures
        task_error(t, breaks, tasks[i]) is None,
    decreases n,
{
    if i < n - 1 {
        lemma_no_error(t, breaks, tasks, n - 1, i);
    }
}

/// The cardinality constraints that the tasks before `k` leave are
/// encodable, if the tasks are free of errors.
proof fn lemma_cards_encodable(t: VarTable, breaks: BreakVars, st: EncState, tasks: Seq<TaskView>, k: int)
    requires
        0 <= k <= tasks.len(),
        first_error(t, breaks, tasks, k) is None,
        forall|j: int|
            0 <= j < st.cards.len() ==> encodable(
                (#[trigger] st.cards[j]).lits.len() as int,
                st.cards[j].min,
                st.cards[j].max,
                st.cards[j].cost,
            ),
    ensures
        forall|j: int|
            0 <= j < tasks_run(t, st, tasks, k).cards.len() ==> encodable(
                (#[trigger] tasks_run(t, st, tasks, k).cards[j]).lits.len() as int,
                tasks_run(t, st, tasks, k).cards[j].min,
                tasks_run(t, st, tasks, k).cards[j].max,
                tasks_run(t, st, tasks, k).cards[j].cost,
            ),
    decreases k,
{
    if k > 0 {
        lemma_cards_encodable(t, breaks, st, tasks, k - 1);
    }
}

/// What `encode_constraints` is to do: the error of the first constraint
/// that is refused, else the error of the first task that cannot be
/// carried out, else the state after all of them.
pub open spec fn expected(
    t: VarTable,
    f: Formula,
    breaks: BreakVars,
    cs: Constraints,
    skip_br2: bool,
) -> Result<EncState, EncodeError> {
    match plan_of(t, cs, skip_br2) {
        Err(e) => Err(e),
        Ok(tasks) => match first_error(t, breaks, tasks, tasks.len() as int) {
            Some(e) => Err(e),
            None => Ok(encoded(t, start_state(f, breaks), tasks)),
        },
    }
}

/// Encodes the constraints of an instance over the variables `vars` into
/// `solver`. Hard constraints become rules; soft constraints become the
/// catalog that is returned. Break variables are made as the break
/// constraints ask for them and kept in `break_vars`. With `skip_br2` a
/// hard limit on the breaks of the whole season is left out. Where a
/// constraint is refused nothing is changed.
#[verifier::rlimit(40)]
pub fn encode_constraints(
    solver: &mut Formula,
    constraints: &Constraints,
    vars: &VarTable,
    break_vars: &mut BreakVars,
    skip_br2: bool,
) -> (r: Result<Vec<Soft>, EncodeError>)
    requires
        vars.wf(),
    ensures
        match expected(*vars, *old(solver), *old(break_vars), *constraints, skip_br2) {
            Err(e) => {
                &&& r matches Err(x)
                &&& x == e
                &&& *final(solver) == *old(solver)
                &&& *final(break_vars) == *old(break_vars)
            },
            Ok(st) => {
                &&& r matches Ok(soft)
                &&& catalog(soft@) == st.soft
                &&& final(solver).roles@ == st.roles
                &&& final(solver).networks@ == st.networks
                &&& final(solver).rules() == st.rules
                &&& final(break_vars).entries@ == st.breaks
            },
        },
{
    let tasks: Vec<Task> = match plan_constraints(vars, constraints, skip_br2) {
        Err(e) => {
            return Err(e);
        },
        Ok(tasks) => tasks,
    };
    match check_tasks(vars, break_vars, &tasks) {
        Some(e) => {
            return Err(e);
        },
        None => {},
    }
    let ghost tv = tasks_view(tasks@);
    let ghost start = *break_vars;
    let ghost st0 = start_state(*solver, *break_vars);
    let mut soft: Vec<Soft> = Vec::new();
    let mut cards: Vec<CardinalityConstraint> = Vec::new();
    assert(catalog(soft@) =~= st0.soft);
    assert(cards_view(cards@) =~= st0.cards);
    let mut i: usize = 0;
    while i < tasks.len()
        invariant
            vars.wf(),
            tv == tasks_view(tasks@),
            first_error(*vars, start, tv, tv.len() as int) is None,
            lookups_kept(start.entries@, break_vars.entries@),
            i <= tasks.len(),
            state_is(*solver, *break_vars, cards@, soft@, tasks_run(*vars, st0, tv, i as int)),
        decreases tasks.len() - i,
    {
        proof {
            lemma_no_error(*vars, start, tv, tv.len() as int, i as int);
        }
        run_task(
            solver,
            break_vars,
            &mut cards,
            &mut soft,
            vars,
            &tasks[i],
            Ghost(start),
            Ghost(tasks_run(*vars, st0, tv, i as int)),
        );
        i += 1;
    }
    let ghost st1 = tasks_run(*vars, st0, tv, tv.len() as int);
    proof {
        lemma_cards_encodable(*vars, start, st0, tv, tv.len() as int);
    }
    let mut k: usize = 0;
    while k < cards.len()
        invariant
            k <= cards.len(),
            cards_view(cards@) == st1.cards,
            forall|j: int|
                0 <= j < st1.cards.len() ==> encodable(
                    (#[trigger] st1.cards[j]).lits.len() as int,
                    st1.cards[j].min,
                    st1.cards[j].max,
                    st1.cards[j].cost,
                ),
            state_is(*solver, *break_vars, cards@, soft@, cards_run(st1, st1.cards, k as int)),
        decreases cards.len() - k,
    {
        let ghost before = cards_run(st1, st1.cards, k as int);
        let ghost c = st1.cards[k as int];
        assert(cards_view(cards@)[k as int] == cards@[k as int]@);
        let card = CardinalityConstraint {
            name: String::new(),
            lits: copy_lits(&cards[k].lits),
            min: cards[k].min,
            max: cards[k].max,
            cost: cards[k].cost,
        };
        assert(card@ == c);
        assert(encodable(c.lits.len() as int, c.min, c.max, c.cost));
        let done: Result<(), EncodeError> = encode_cardinality(solver, &mut soft, card);
        assert(done is Ok);
        k += 1;
    }
    Ok(soft)
}

/// Every one of the cardinality constraints has an encoding.
pub open spec fn all_encodable(cards: Seq<CardView>) -> bool {
    forall|j: int|
        0 <= j < cards.len() ==> encodable(
            (#[trigger] cards[j]).lits.len() as int,
            cards[j].min,
            cards[j].max,
            cards[j].cost,
        )
}

/// In every model of the rules that are there once the first `k`
/// cardinality constraints are encoded, each of them that is hard is
/// kept: at least its minimum and at most its maximum of its terms hold.
/// The model is a model of the rules that were there before.
pub proof fn lemma_hard_cards_hold(st: EncState, cards: Seq<CardView>, k: int, j: int, m: Seq<bool>)
    requires
        0 <= j < k <= cards.len(),
        all_encodable(cards),
        cards[j].cost is None,
        all_hold(cards_run(st, cards, k).rules, m),
    ensures
        all_hold(st.rules, m),
        effective_min(cards[j].min) <= count_true(cards[j].lits, m) <= effective_max(
            cards[j].max,
            cards[j].lits.len() as int,
        ),
    decreases k,
{
    let before = cards_run(st, cards, k - 1);
    let c = cards[k - 1];
    assert(encodable(c.lits.len() as int, c.min, c.max, c.cost));
    let a = cardinality_added(before.roles.len() as int, before.networks.len() as int, c.lits, c.min, c.max, c.cost).unwrap();
    lemma_all_hold_concat(before.rules, a.rules, m);
    if j == k - 1 {
        lemma_hard_rules(before.roles.len() as int, before.networks.len() as int, c.lits, c.min, c.max, m);
        lemma_rules_grow(st, cards, k - 1, m);
    } else {
        lemma_hard_cards_hold(st, cards, k - 1, j, m);
    }
}

/// A model of the rules after the first `k` cardinality constraints are
/// encoded is a model of the rules before.
pub proof fn lemma_rules_grow(st: EncState, cards: Seq<CardView>, k: int, m: Seq<bool>)
    requires
        0 <= k <= cards.len(),
        all_encodable(cards),
        all_hold(cards_run(st, cards, k).rules, m),
    ensures
        all_hold(st.rules, m),
    decreases k,
{
    if k > 0 {
        let before = cards_run(st, cards, k - 1);
        let c = cards[k - 1];
        assert(encodable(c.lits.len() as int, c.min, c.max, c.cost));
        let a = cardinality_added(
            before.roles.len() as int,
            before.networks.len() as int,
            c.lits,
            c.min,
            c.max,
            c.cost,
        ).unwrap();
        lemma_all_hold_concat(before.rules, a.rules, m);
        lemma_rules_grow(st, cards, k - 1, m);
    }
}

/// In every model of the two rules of a hard limit on a cumulative
/// difference the two counts never come apart by more than the bound.
pub proof fn lemma_hard_difference(network: usize, nv: int, pairs: Seq<(Bool, Bool)>, bound: int, m: Seq<bool>)
    requires
        0 <= bound,
        all_hold(
            seq![
                Rule::CumulativeDiff {
                    network,
                    pairs,
                    first: 0,
                    outputs: output_lits(nv, outputs_up_to(pairs.len() as int, bound)),
                },
                Rule::Clause(seq![diff_over(nv, outputs_up_to(pairs.len() as int, bound), bound).negation()]),
            ],
            m,
        ),
    ensures
        !diff_exceeds(pairs, m, bound),
{
    let d = outputs_up_to(pairs.len() as int, bound);
    let outputs = output_lits(nv, d);
    let rules = seq![
        Rule::CumulativeDiff { network, pairs, first: 0, outputs },
        Rule::Clause(seq![diff_over(nv, d, bound).negation()]),
    ];
    assert(rules[0].holds(m) && rules[1].holds(m));
    crate::models::lemma_count_true_one(diff_over(nv, d, bound).negation(), m);
    if bound < d {
        assert(outputs[bound] == lit_var(nv + bound));
        assert(outputs[bound].holds(m) == diff_exceeds(pairs, m, 0 + bound));
    } else {
        lemma_diff_bounded(pairs, m, bound);
    }
}

} // verus!
