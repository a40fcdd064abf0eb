use sportsat::breaks::BreakVars;
use sportsat::compact::encode_compact_2rr;
use sportsat::conflict::{apply_core, core_can_be_applied, CoreOutcome};
use sportsat::encode::encode_constraints;
use sportsat::error::EncodeError;
use sportsat::formula::{Constraint, Formula, Role};
use sportsat::instance::{Br2, BreakLimit, Ca1, Capacity, Constraints};
use sportsat::lit::Bool;
use sportsat::materialize::materialize;
use sportsat::networks::Totalizer;
use sportsat::optimizer::{assumptions, prepare_window, sort_by_weight, Optimizer, FIRST_WINDOW};
use sportsat::soft::{Relax, Soft};
use sportsat::table::VarTable;

fn league(n: i64) -> (Formula, VarTable) {
    let slots: Vec<i64> = (0..2 * (n - 1)).collect();
    let teams: Vec<i64> = (0..n).collect();
    let mut f = Formula::new();
    let t = encode_compact_2rr(&mut f, &slots, &teams, false);
    (f, t)
}

fn no_constraints() -> Constraints {
    Constraints { capacity: vec![], game: vec![], breaks: vec![], fairness: vec![], separation: vec![] }
}

fn next_model(model: &mut Vec<bool>) -> bool {
    for i in 0..model.len() {
        if model[i] {
            model[i] = false;
        } else {
            model[i] = true;
            return true;
        }
    }
    false
}

/// A model of the formula in which the assumptions hold, if there is one.
fn model_under(f: &Formula, assumed: &[Bool]) -> Option<Vec<bool>> {
    let mut model = vec![false; f.roles.len()];
    loop {
        if assumed.iter().all(|l| l.value(&model)) && f.check(&model) {
            return Some(model);
        }
        if !next_model(&mut model) {
            return None;
        }
    }
}

/// An engine by trial: a model, or a core from which nothing can be left out.
fn solve(f: &Formula, assumed: &[Bool]) -> Result<Vec<bool>, Vec<Bool>> {
    if let Some(model) = model_under(f, assumed) {
        return Ok(model);
    }
    let mut core: Vec<Bool> = Vec::new();
    for l in assumed {
        if !core.contains(l) {
            core.push(*l);
        }
    }
    let mut i = 0;
    while i < core.len() {
        let mut fewer = core.clone();
        fewer.remove(i);
        if model_under(f, &fewer).is_none() {
            core = fewer;
        } else {
            i += 1;
        }
    }
    Err(core)
}

/// Runs the search to its end and returns the least cost, or `None` where
/// the hard rules have no model.
fn least_cost(f: &mut Formula, t: &VarTable, soft: Vec<Soft>) -> Option<usize> {
    let mut search = Optimizer::new(soft);
    let mut last = 0;
    for _ in 0..50 {
        let assumed = search.start_round(f, t).unwrap();
        assert_eq!(assumed.len(), search.window);
        match solve(f, &assumed) {
            Ok(_) => {
                if search.model_found() {
                    return Some(search.current_lb);
                }
            },
            Err(core) => match search.core_found(f, &core).unwrap() {
                CoreOutcome::Infeasible => return None,
                CoreOutcome::Refined { conflict_cost } => {
                    assert!(conflict_cost > 0);
                    assert_eq!(search.current_lb, last + conflict_cost);
                },
            },
        }
        // the lower bound never falls
        assert!(search.current_lb >= last);
        last = search.current_lb;
    }
    panic!("the search did not end");
}

#[test]
fn a_limit_on_breaks_that_can_be_kept_costs_nothing() {
    let (mut f, t) = league(2);
    let mut cs = no_constraints();
    cs.breaks.push(BreakLimit::Br2(Br2 {
        hard: false,
        penalty: Some(3),
        regular_or_any_venue: true,
        teams: vec![0, 1],
        slots: vec![0, 1],
        intp: 0,
    }));
    let mut breaks = BreakVars::new();
    let soft = encode_constraints(&mut f, &cs, &t, &mut breaks, false).unwrap();
    assert_eq!(soft.len(), 1);
    assert_eq!(least_cost(&mut f, &t, soft), Some(0));
}

#[test]
fn a_home_game_that_must_be_played_costs_its_penalty() {
    let (mut f, t) = league(2);
    let mut cs = no_constraints();
    // team 0 should play no game at home, and must play one
    cs.capacity.push(Capacity::Ca1(Ca1 {
        hard: false,
        penalty: 5,
        home: true,
        teams: vec![0],
        slots: vec![0, 1],
        max: 0,
        min: None,
    }));
    let mut breaks = BreakVars::new();
    let soft = encode_constraints(&mut f, &cs, &t, &mut breaks, false).unwrap();
    assert_eq!(least_cost(&mut f, &t, soft), Some(5));
}

#[test]
fn every_game_away_from_home_costs_the_penalty_again() {
    let (mut f, t) = league(2);
    let mut cs = no_constraints();
    // team 0 should play no game at all in the two slots, and plays two
    cs.capacity.push(Capacity::Ca1(Ca1 {
        hard: false,
        penalty: 2,
        home: true,
        teams: vec![0],
        slots: vec![0, 1],
        max: 0,
        min: None,
    }));
    cs.capacity.push(Capacity::Ca1(Ca1 {
        hard: false,
        penalty: 7,
        home: false,
        teams: vec![0],
        slots: vec![0, 1],
        max: 0,
        min: None,
    }));
    let mut breaks = BreakVars::new();
    let soft = encode_constraints(&mut f, &cs, &t, &mut breaks, false).unwrap();
    assert_eq!(least_cost(&mut f, &t, soft), Some(9));
}

#[test]
fn of_two_wishes_that_exclude_each_other_the_cheaper_is_given_up() {
    let (mut f, t) = league(2);
    // both teams at home in slot 0
    let soft = vec![
        Soft::Constructable(3, Relax::Chain(vec![t.home[0][0]])),
        Soft::Constructable(5, Relax::Chain(vec![t.home[0][1]])),
    ];
    assert_eq!(least_cost(&mut f, &t, soft), Some(3));
}

#[test]
fn hard_rules_without_a_model_are_found_out() {
    let (mut f, t) = league(2);
    f.add_clause(vec![t.home[0][0]]);
    f.add_clause(vec![t.home[0][1]]);
    assert_eq!(least_cost(&mut f, &t, vec![Soft::Constructable(3, Relax::Chain(vec![t.home[1][0]]))]), None);
}

#[test]
fn a_core_of_one_literal_becomes_a_rule() {
    let (mut f, t) = league(2);
    let rules = f.constraints.len();
    let x = t.home[0][0];
    let y = t.home[1][0];
    let mut soft = vec![Soft::Relaxable(9, y, None), Soft::Relaxable(4, x, None)];
    let mut lb = 10;
    assert!(core_can_be_applied(&soft, 2, &vec![x]));
    let r = apply_core(&mut f, &mut soft, 2, &vec![x], &mut lb);
    assert_eq!(r, CoreOutcome::Refined { conflict_cost: 4 });
    // the bound rises by the weight, once
    assert_eq!(lb, 14);
    // the entry is gone, the other stays
    assert_eq!(soft, vec![Soft::Relaxable(9, y, None)]);
    // the literal is ruled out
    assert_eq!(f.constraints.len(), rules + 1);
    assert_eq!(f.constraints[rules], Constraint::Clause(vec![x.negate()]));
}

#[test]
fn a_core_of_several_literals_comes_back_as_an_entry() {
    let mut f = Formula::new();
    let a = f.new_var(Role::Output { network: 0 });
    let b = f.new_var(Role::Output { network: 0 });
    let c = f.new_var(Role::Output { network: 0 });
    let d = f.new_var(Role::Output { network: 0 });
    let follow = Relax::Chain(vec![d]);
    let mut soft = vec![
        Soft::Relaxable(8, a, None),
        Soft::Relaxable(5, b, None),
        Soft::Relaxable(5, c, Some((2, follow))),
        Soft::Constructable(1, Relax::Chain(vec![d])),
    ];
    let mut lb = 0;
    let core = vec![c, a, b];
    assert!(core_can_be_applied(&soft, 3, &core));
    let r = apply_core(&mut f, &mut soft, 3, &core, &mut lb);
    assert_eq!(r, CoreOutcome::Refined { conflict_cost: 5 });
    assert_eq!(lb, 5);
    assert!(f.constraints.is_empty());
    assert_eq!(
        soft,
        vec![
            // the new entry stands in front of the first entry that weighs no more
            Soft::Constructable(5, Relax::NewTotalizer { lits: vec![c.negate(), a.negate(), b.negate()], bound: 1 }),
            // 8 less 5
            Soft::Relaxable(3, a, None),
            // the entry of b had nothing to follow and is gone; that of c gave way
            Soft::Constructable(2, Relax::Chain(vec![d])),
            Soft::Constructable(1, Relax::Chain(vec![d])),
        ]
    );
}

#[test]
fn an_empty_core_changes_nothing() {
    let mut f = Formula::new();
    let a = f.new_var(Role::Output { network: 0 });
    let mut soft = vec![Soft::Relaxable(8, a, None)];
    let mut lb = 3;
    assert_eq!(apply_core(&mut f, &mut soft, 1, &vec![], &mut lb), CoreOutcome::Infeasible);
    assert_eq!(lb, 3);
    assert_eq!(soft, vec![Soft::Relaxable(8, a, None)]);
}

#[test]
fn a_core_that_does_not_fit_is_refused() {
    let mut f = Formula::new();
    let a = f.new_var(Role::Output { network: 0 });
    let b = f.new_var(Role::Output { network: 0 });
    let soft = vec![Soft::Relaxable(8, a, None), Soft::Relaxable(2, b, None)];
    // b is not assumed in a window of one
    assert!(!core_can_be_applied(&soft, 1, &vec![b]));
    assert!(core_can_be_applied(&soft, 2, &vec![b]));
    // a literal twice
    assert!(!core_can_be_applied(&soft, 2, &vec![a, a]));
    // the window is larger than the catalog
    assert!(!core_can_be_applied(&soft, 3, &vec![a]));
    let mut search = Optimizer::new(soft);
    search.window = 1;
    assert_eq!(search.core_found(&mut f, &vec![b]), None);
    assert_eq!(search.current_lb, 0);
    let unbuilt = vec![Soft::Constructable(1, Relax::Chain(vec![a]))];
    assert!(!core_can_be_applied(&unbuilt, 1, &vec![a]));
    assert!(!core_can_be_applied(&vec![Soft::Undef], 0, &vec![]));
}

#[test]
fn the_catalog_is_sorted_by_falling_weight() {
    let x = Bool::Lit { var: 0, negated: false };
    let y = Bool::Lit { var: 1, negated: false };
    let mut soft = vec![
        Soft::Relaxable(2, x, None),
        Soft::Relaxable(7, x, None),
        Soft::Relaxable(2, y, None),
        Soft::Constructable(9, Relax::Chain(vec![x])),
        Soft::Relaxable(7, y, None),
    ];
    sort_by_weight(&mut soft);
    assert_eq!(
        soft,
        vec![
            Soft::Constructable(9, Relax::Chain(vec![x])),
            Soft::Relaxable(7, x, None),
            Soft::Relaxable(7, y, None),
            Soft::Relaxable(2, x, None),
            Soft::Relaxable(2, y, None),
        ]
    );
}

#[test]
fn the_window_is_built_up_to_the_limit() {
    let (mut f, t) = league(2);
    let vars = f.roles.len();
    let x = t.home[0][0];
    let y = t.home[1][0];
    let mut soft = vec![
        Soft::Constructable(9, Relax::Chain(vec![x, y])),
        Soft::Relaxable(8, y, None),
        Soft::Constructable(7, Relax::NewUnary { lits: vec![x, y], truncate: None, min: Some(1), max: Some(1) }),
        Soft::Constructable(6, Relax::Chain(vec![y])),
        Soft::Constructable(5, Relax::Chain(vec![x])),
    ];
    assert_eq!(prepare_window(&mut f, &t, &mut soft, 4), Ok(4));
    let d0 = Bool::Lit { var: vars, negated: false };
    let d1 = Bool::Lit { var: vars + 1, negated: false };
    assert_eq!(
        soft,
        vec![
            Soft::Relaxable(9, x, Some((9, Relax::Chain(vec![y])))),
            Soft::Relaxable(8, y, None),
            // at least one
            Soft::Relaxable(7, d0, None),
            // at most one, and then at most two
            Soft::Relaxable(7, d1.negate(), Some((7, Relax::Chain(vec![Bool::Const(true)])))),
            Soft::Constructable(6, Relax::Chain(vec![y])),
            Soft::Constructable(5, Relax::Chain(vec![x])),
        ]
    );
    assert_eq!(assumptions(&soft, 4), vec![x, y, d0, d1.negate()]);
    // a limit of none builds nothing
    assert_eq!(prepare_window(&mut f, &t, &mut soft, 0), Ok(0));
}

#[test]
fn entries_that_cannot_be_built_are_refused() {
    let (mut f, t) = league(2);
    let x = t.home[0][0];
    let unsupported = |soft: Vec<Soft>, f: &mut Formula| {
        let mut soft = soft;
        assert_eq!(prepare_window(f, &t, &mut soft, 10), Err(EncodeError::Unsupported));
    };
    unsupported(vec![Soft::Undef], &mut f);
    unsupported(vec![Soft::Relaxable(0, x, None)], &mut f);
    unsupported(vec![Soft::Constructable(1, Relax::Chain(vec![]))], &mut f);
    unsupported(vec![Soft::Constructable(1, Relax::Chain(vec![Bool::Const(true)]))], &mut f);
    unsupported(vec![Soft::Constructable(1, Relax::NewTotalizer { lits: vec![x], bound: 1 })], &mut f);
    unsupported(vec![Soft::Constructable(1, Relax::NewCumDiff { lits: vec![(x, x)], bound: 1 })], &mut f);
    unsupported(vec![Soft::Constructable(1, Relax::Separation { t1: 0, t2: 1, min: 0 })], &mut f);
    unsupported(
        vec![Soft::Constructable(1, Relax::NewUnary { lits: vec![x], truncate: None, min: Some(0), max: None })],
        &mut f,
    );
    let mut soft = vec![Soft::Constructable(1, Relax::Separation { t1: 0, t2: 4, min: 1 })];
    assert_eq!(prepare_window(&mut f, &t, &mut soft, 10), Err(EncodeError::UnknownVariable));
}

#[test]
fn a_totalizer_is_raised_step_by_step() {
    let mut f = Formula::new();
    let t = VarTable { slot_ids: vec![], team_ids: vec![], matched: vec![], home: vec![], first_half: vec![] };
    let a = f.new_var(Role::Output { network: 9 });
    let b = f.new_var(Role::Output { network: 9 });
    let built = materialize(&mut f, &t, 4, Relax::NewTotalizer { lits: vec![a, b], bound: 0 }).unwrap();
    let out0 = Bool::Lit { var: 2, negated: false };
    let tot0 = Totalizer { network: 0, inputs: vec![a, b], rhs: vec![out0] };
    assert_eq!(built, vec![Soft::Relaxable(4, out0.negate(), Some((4, Relax::ExtendTotalizer(tot0, 1))))]);
    let tot0 = Totalizer { network: 0, inputs: vec![a, b], rhs: vec![out0] };
    let built = materialize(&mut f, &t, 4, Relax::ExtendTotalizer(tot0, 1)).unwrap();
    let out1 = Bool::Lit { var: 3, negated: false };
    let tot1 = Totalizer { network: 0, inputs: vec![a, b], rhs: vec![out0, out1] };
    assert_eq!(built, vec![Soft::Relaxable(4, out1.negate(), Some((4, Relax::ExtendTotalizer(tot1, 2))))]);
    // more than two of two cannot hold: nothing is left to assume
    let tot1 = Totalizer { network: 0, inputs: vec![a, b], rhs: vec![out0, out1] };
    assert_eq!(materialize(&mut f, &t, 4, Relax::ExtendTotalizer(tot1, 2)), Ok(vec![]));
    assert_eq!(f.roles.len(), 4);
    assert_eq!(
        f.constraints[1],
        Constraint::Count { network: 0, inputs: vec![a, b], first: 1, outputs: vec![out1] }
    );
}

#[test]
fn a_separation_ties_close_slots_to_its_variables() {
    let (mut f, t) = league(2);
    let vars = f.roles.len();
    let rules = f.constraints.len();
    let built = materialize(&mut f, &t, 6, Relax::Separation { t1: 0, t2: 1, min: 2 }).unwrap();
    let s1 = Bool::Lit { var: vars, negated: false };
    let s2 = Bool::Lit { var: vars + 1, negated: false };
    assert_eq!(f.roles[vars + 1], Role::Separation { gap: 2 });
    assert_eq!(built, vec![Soft::Relaxable(6, s2.negate(), Some((6, Relax::Chain(vec![s1.negate()]))))]);
    // one link, and four rules for the slots 0 and 1
    assert_eq!(f.constraints.len(), rules + 5);
    assert_eq!(f.constraints[rules], Constraint::Clause(vec![s1.negate(), s2]));
    assert_eq!(
        f.constraints[rules + 1],
        Constraint::Clause(vec![t.matched[0][0][1].negate(), t.matched[1][1][0].negate(), s1])
    );
    // the two games lie one slot apart: both wishes cost
    assert_eq!(least_cost(&mut f, &t, built), Some(12));
}

#[test]
fn the_limit_grows_while_entries_are_left() {
    let x = Bool::Lit { var: 0, negated: false };
    let mut search = Optimizer::new(vec![Soft::Relaxable(1, x, None), Soft::Relaxable(1, x, None)]);
    assert_eq!(search.max_constraints, FIRST_WINDOW);
    assert_eq!(FIRST_WINDOW, 10);
    search.window = 1;
    assert!(!search.model_found());
    assert_eq!(search.max_constraints, 20);
    search.window = 2;
    assert!(search.model_found());
    assert_eq!(search.max_constraints, 20);
    assert_eq!(search.current_lb, 0);
}

#[test]
fn a_round_over_a_placeholder_is_refused() {
    let (mut f, t) = league(2);
    let rules = f.constraints.len();
    let mut search = Optimizer::new(vec![Soft::Relaxable(3, t.home[0][0], None), Soft::Undef]);
    assert_eq!(search.start_round(&mut f, &t), Err(EncodeError::Unsupported));
    assert_eq!(search.soft.len(), 2);
    assert_eq!(f.constraints.len(), rules);
}

#[test]
fn a_round_assumes_the_heaviest_entries() {
    let (mut f, t) = league(2);
    let x = t.home[0][0];
    let soft: Vec<Soft> = (1..=12).map(|w| Soft::Constructable(w, Relax::Chain(vec![x]))).collect();
    let mut search = Optimizer::new(soft);
    let assumed = search.start_round(&mut f, &t).unwrap();
    assert_eq!(assumed.len(), 10);
    assert_eq!(search.window, 10);
    assert_eq!(search.soft[0], Soft::Relaxable(12, x, None));
    assert_eq!(search.soft[9], Soft::Relaxable(3, x, None));
    assert_eq!(search.soft[10], Soft::Constructable(2, Relax::Chain(vec![x])));
    assert!(!search.model_found());
    let assumed = search.start_round(&mut f, &t).unwrap();
    assert_eq!(assumed.len(), 12);
    assert!(search.model_found());
}
