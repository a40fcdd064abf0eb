use sportsat::breaks::BreakVars;
use sportsat::compact::encode_compact_2rr;
use sportsat::encode::encode_constraints;
use sportsat::error::EncodeError;
use sportsat::formula::{Constraint, Formula, Network};
use sportsat::instance::{Br1, Br2, BreakLimit, Ca1, Ca2, Ca3, Ca4, Capacity, Constraints, Fa2, Ga1, Se1};
use sportsat::lit::Bool;
use sportsat::models::schedule_of;
use sportsat::plan::{plan_constraints, Task};
use sportsat::soft::{Relax, Soft};
use sportsat::table::VarTable;
use sportsat::terms::without_repeats;

fn no_constraints() -> Constraints {
    Constraints { capacity: vec![], game: vec![], breaks: vec![], fairness: vec![], separation: vec![] }
}

fn league(n: i64, phased: bool) -> (Formula, VarTable) {
    let slots: Vec<i64> = (0..2 * (n - 1)).collect();
    let teams: Vec<i64> = (0..n).collect();
    let mut f = Formula::new();
    let t = encode_compact_2rr(&mut f, &slots, &teams, phased);
    (f, t)
}

fn next_model(model: &mut Vec<bool>) -> bool {
    for i in 0..model.len() {
        if model[i] {
            model[i] = false;
        } else {
            model[i] = true;
            return true;
        }
    }
    false
}

fn models(f: &Formula) -> Vec<Vec<bool>> {
    let mut found = Vec::new();
    let mut model = vec![false; f.roles.len()];
    loop {
        if f.check(&model) {
            found.push(model.clone());
        }
        if !next_model(&mut model) {
            break;
        }
    }
    found
}

fn ca1(hard: bool, home: bool, team: i64, slots: Vec<i64>, max: u32) -> Capacity {
    Capacity::Ca1(Ca1 { hard, penalty: 5, home, teams: vec![team], slots, max, min: Some(0) })
}

#[test]
fn a_hard_place_constraint_holds_in_every_model() {
    let (mut f, t) = league(2, false);
    let mut cs = no_constraints();
    // team 0 may not play at home in slot 0
    cs.capacity.push(ca1(true, true, 0, vec![0], 0));
    let mut breaks = BreakVars::new();
    let soft = encode_constraints(&mut f, &cs, &t, &mut breaks, false).unwrap();
    assert!(soft.is_empty());
    let found = models(&f);
    assert_eq!(found.len(), 1);
    for model in &found {
        assert!(!t.home[0][0].value(model));
        let grid = schedule_of(&t, model);
        assert!(grid[0][1][0] && grid[1][0][1]);
    }
}

#[test]
fn place_constraints_that_exclude_each_other_leave_no_model() {
    let (mut f, t) = league(2, false);
    let mut cs = no_constraints();
    cs.capacity.push(ca1(true, true, 0, vec![0], 0));
    cs.capacity.push(ca1(true, false, 0, vec![0, 1], 0));
    let mut breaks = BreakVars::new();
    encode_constraints(&mut f, &cs, &t, &mut breaks, false).unwrap();
    assert!(models(&f).is_empty());
}

#[test]
fn a_soft_place_constraint_becomes_a_recipe() {
    let (mut f, t) = league(2, false);
    let rules = f.constraints.len();
    let mut cs = no_constraints();
    cs.capacity.push(ca1(false, false, 1, vec![1, 0], 1));
    let mut breaks = BreakVars::new();
    let soft = encode_constraints(&mut f, &cs, &t, &mut breaks, false).unwrap();
    assert_eq!(f.constraints.len(), rules);
    assert_eq!(
        soft,
        vec![Soft::Constructable(5, Relax::NewTotalizer { lits: vec![t.home[1][1].negate(), t.home[0][1].negate()], bound: 1 })]
    );
}

#[test]
fn a_hard_game_constraint_fixes_the_game() {
    let (mut f, t) = league(2, false);
    let mut cs = no_constraints();
    // team 1 hosts team 0 in slot 0
    cs.game.push(Ga1 { hard: true, penalty: None, min: Some(1), max: Some(1), slots: vec![0], meetings: vec![(1, 0)] });
    let mut breaks = BreakVars::new();
    encode_constraints(&mut f, &cs, &t, &mut breaks, false).unwrap();
    let found = models(&f);
    assert_eq!(found.len(), 1);
    assert!(schedule_of(&t, &found[0])[0][1][0]);
}

#[test]
fn constraints_that_name_what_the_league_lacks_are_refused() {
    let (mut f, t) = league(2, false);
    let before = (f.roles.len(), f.constraints.len());
    let mut breaks = BreakVars::new();
    let mut cs = no_constraints();
    cs.capacity.push(ca1(true, true, 0, vec![0], 0));
    cs.capacity.push(ca1(true, true, 7, vec![0], 0));
    assert_eq!(encode_constraints(&mut f, &cs, &t, &mut breaks, false), Err(EncodeError::UnknownVariable));
    assert_eq!((f.roles.len(), f.constraints.len()), before);
    let mut cs = no_constraints();
    cs.capacity.push(ca1(true, true, 0, vec![2], 0));
    assert_eq!(encode_constraints(&mut f, &cs, &t, &mut breaks, false), Err(EncodeError::UnknownVariable));
    // a game of a team against itself
    let mut cs = no_constraints();
    cs.game.push(Ga1 { hard: true, penalty: None, min: None, max: Some(0), slots: vec![0], meetings: vec![(1, 1)] });
    assert_eq!(encode_constraints(&mut f, &cs, &t, &mut breaks, false), Err(EncodeError::UnknownVariable));
    // a break in a slot whose slot before the league does not have
    let mut cs = no_constraints();
    cs.breaks.push(BreakLimit::Br1(Br1 {
        hard: true,
        penalty: None,
        teams: vec![0],
        slots: vec![5],
        intp: 0,
        home: None,
    }));
    assert_eq!(encode_constraints(&mut f, &cs, &t, &mut breaks, false), Err(EncodeError::UnknownVariable));
    assert_eq!((f.roles.len(), f.constraints.len()), before);
    assert!(breaks.entries.is_empty());
}

#[test]
fn constraints_of_a_form_that_is_not_dealt_with_are_refused() {
    let (mut f, t) = league(2, false);
    let mut breaks = BreakVars::new();
    let unsupported = |cs: Constraints, f: &mut Formula, breaks: &mut BreakVars| {
        assert_eq!(encode_constraints(f, &cs, &t, breaks, false), Err(EncodeError::Unsupported));
    };
    // two teams in CA1
    let mut cs = no_constraints();
    cs.capacity.push(Capacity::Ca1(Ca1 {
        hard: true,
        penalty: 1,
        home: true,
        teams: vec![0, 1],
        slots: vec![0],
        max: 0,
        min: None,
    }));
    unsupported(cs, &mut f, &mut breaks);
    // a minimum in CA1
    let mut cs = no_constraints();
    cs.capacity.push(Capacity::Ca1(Ca1 {
        hard: true,
        penalty: 1,
        home: true,
        teams: vec![0],
        slots: vec![0],
        max: 1,
        min: Some(1),
    }));
    unsupported(cs, &mut f, &mut breaks);
    // CA2 that does not count over all slots together
    let mut cs = no_constraints();
    cs.capacity.push(Capacity::Ca2(Ca2 {
        hard: true,
        penalty: 1,
        home: None,
        global: false,
        teams1: vec![0],
        teams2: vec![1],
        slots: vec![0],
        max: 1,
        min: None,
    }));
    unsupported(cs, &mut f, &mut breaks);
    // home stands that are soft
    let mut cs = no_constraints();
    cs.capacity.push(Capacity::Ca3(Ca3 {
        hard: false,
        penalty: 1,
        home: Some(true),
        by_slots: true,
        teams1: vec![0, 1],
        teams2: vec![0, 1],
        max: 1,
        intp: 2,
        min: None,
    }));
    unsupported(cs, &mut f, &mut breaks);
    // a soft game constraint without a penalty
    let mut cs = no_constraints();
    cs.game.push(Ga1 { hard: false, penalty: None, min: None, max: Some(0), slots: vec![0], meetings: vec![(0, 1)] });
    unsupported(cs, &mut f, &mut breaks);
    // a break constraint with a mode that is not dealt with
    let mut cs = no_constraints();
    cs.breaks.push(BreakLimit::Br2(Br2 {
        hard: true,
        penalty: None,
        regular_or_any_venue: false,
        teams: vec![0],
        slots: vec![1],
        intp: 0,
    }));
    unsupported(cs, &mut f, &mut breaks);
    // fairness of away games
    let mut cs = no_constraints();
    cs.fairness.push(Fa2 { hard: true, penalty: 1, home_games: false, teams: vec![0, 1], intp: 1 });
    unsupported(cs, &mut f, &mut breaks);
    // a separation with a maximum, with a negative minimum, with a negative penalty
    for (min, max, penalty) in [(1, Some(4), 1), (-1, None, 1), (1, None, -1)] {
        let mut cs = no_constraints();
        cs.separation.push(Se1 { hard: false, penalty, min, max, teams: vec![0, 1] });
        unsupported(cs, &mut f, &mut breaks);
    }
}

#[test]
fn a_minimum_above_the_number_of_games_is_refused() {
    let (mut f, t) = league(2, false);
    let mut breaks = BreakVars::new();
    let mut cs = no_constraints();
    cs.game.push(Ga1 { hard: true, penalty: None, min: Some(3), max: None, slots: vec![0, 1], meetings: vec![(0, 1)] });
    assert_eq!(encode_constraints(&mut f, &cs, &t, &mut breaks, false), Err(EncodeError::MinAboveCount));
}

#[test]
fn break_constraints_make_break_variables() {
    let (mut f, t) = league(2, false);
    let vars = f.roles.len();
    let mut breaks = BreakVars::new();
    let mut cs = no_constraints();
    // no break at all: both teams alternate
    cs.breaks.push(BreakLimit::Br2(Br2 {
        hard: true,
        penalty: None,
        regular_or_any_venue: true,
        teams: vec![0, 1],
        slots: vec![0, 1],
        intp: 0,
    }));
    let soft = encode_constraints(&mut f, &cs, &t, &mut breaks, false).unwrap();
    assert!(soft.is_empty());
    // a break variable for each team and venue in slot 1, none in slot 0
    assert_eq!(breaks.entries.len(), 4);
    assert_eq!(f.roles.len(), vars + 4);
    assert_eq!(breaks.entries[0].slot, 1);
    assert_eq!(breaks.entries[0].team, 0);
    assert!(breaks.entries[0].is_home);
    assert!(!breaks.entries[1].is_home);
    // a tournament of two teams has no breaks anyway
    assert_eq!(models(&f).len(), 2);
}

#[test]
fn the_limit_on_all_breaks_can_be_left_out() {
    let (mut f, t) = league(2, false);
    let before = (f.roles.len(), f.constraints.len());
    let mut breaks = BreakVars::new();
    let mut cs = no_constraints();
    cs.breaks.push(BreakLimit::Br2(Br2 {
        hard: true,
        penalty: None,
        regular_or_any_venue: true,
        teams: vec![0, 1],
        slots: vec![0, 1],
        intp: 0,
    }));
    let soft = encode_constraints(&mut f, &cs, &t, &mut breaks, true).unwrap();
    assert!(soft.is_empty());
    assert_eq!((f.roles.len(), f.constraints.len()), before);
    assert!(breaks.entries.is_empty());
}

#[test]
fn a_soft_break_constraint_counts_break_variables() {
    let (mut f, t) = league(2, false);
    let vars = f.roles.len();
    let mut breaks = BreakVars::new();
    let mut cs = no_constraints();
    cs.breaks.push(BreakLimit::Br1(Br1 {
        hard: false,
        penalty: Some(3),
        teams: vec![1],
        slots: vec![0, 1],
        intp: 0,
        home: Some(false),
    }));
    let soft = encode_constraints(&mut f, &cs, &t, &mut breaks, false).unwrap();
    let v = Bool::Lit { var: vars, negated: false };
    assert_eq!(soft, vec![Soft::Constructable(3, Relax::NewTotalizer { lits: vec![Bool::Const(false), v], bound: 0 })]);
    assert_eq!(breaks.get(1, 1, false), Some(v));
}

#[test]
fn fairness_is_a_cumulative_difference() {
    let (mut f, t) = league(2, false);
    let rules = f.constraints.len();
    let vars = f.roles.len();
    let mut breaks = BreakVars::new();
    let mut cs = no_constraints();
    cs.fairness.push(Fa2 { hard: true, penalty: 0, home_games: true, teams: vec![1, 0], intp: 0 });
    cs.fairness.push(Fa2 { hard: false, penalty: 4, home_games: true, teams: vec![0, 1], intp: 1 });
    let soft = encode_constraints(&mut f, &cs, &t, &mut breaks, false).unwrap();
    let pairs = vec![(t.home[0][0], t.home[0][1]), (t.home[1][0], t.home[1][1])];
    assert_eq!(f.networks, vec![Network::CumulativeDiff]);
    assert_eq!(
        f.constraints[rules],
        Constraint::CumulativeDiff {
            network: 0,
            pairs: pairs.clone(),
            first: 0,
            outputs: vec![Bool::Lit { var: vars, negated: false }]
        }
    );
    assert_eq!(f.constraints[rules + 1], Constraint::Clause(vec![Bool::Lit { var: vars, negated: true }]));
    assert_eq!(soft, vec![Soft::Constructable(4, Relax::NewCumDiff { lits: pairs, bound: 1 })]);
    // after slot 0 one team has played at home and the other has not
    assert!(models(&f).is_empty());
}

#[test]
fn separations_are_kept_for_later() {
    let (mut f, t) = league(4, false);
    let before = (f.roles.len(), f.constraints.len());
    let mut breaks = BreakVars::new();
    let mut cs = no_constraints();
    cs.separation.push(Se1 { hard: false, penalty: 2, min: 3, max: None, teams: vec![2, 0, 1] });
    let soft = encode_constraints(&mut f, &cs, &t, &mut breaks, false).unwrap();
    assert_eq!((f.roles.len(), f.constraints.len()), before);
    assert_eq!(
        soft,
        vec![
            Soft::Constructable(2, Relax::Separation { t1: 0, t2: 2, min: 3 }),
            Soft::Constructable(2, Relax::Separation { t1: 0, t2: 1, min: 3 }),
            Soft::Constructable(2, Relax::Separation { t1: 1, t2: 2, min: 3 }),
        ]
    );
}

#[test]
fn home_stands_are_limited_by_one_rule_for_each_run() {
    let (mut f, t) = league(4, false);
    let rules = f.constraints.len();
    let mut breaks = BreakVars::new();
    let mut cs = no_constraints();
    cs.capacity.push(Capacity::Ca3(Ca3 {
        hard: true,
        penalty: 0,
        home: Some(true),
        by_slots: true,
        teams1: vec![0, 1, 2, 3],
        teams2: vec![0, 1, 2, 3],
        max: 2,
        intp: 3,
        min: None,
    }));
    encode_constraints(&mut f, &cs, &t, &mut breaks, false).unwrap();
    // four runs of three slots for each of four teams
    assert_eq!(f.constraints.len(), rules + 16);
    assert_eq!(
        f.constraints[rules + 5],
        Constraint::Clause(vec![t.home[1][1].negate(), t.home[2][1].negate(), t.home[3][1].negate()])
    );
}

#[test]
fn games_in_runs_of_slots_are_counted_run_by_run() {
    let (f, t) = league(4, false);
    let mut cs = no_constraints();
    cs.capacity.push(Capacity::Ca3(Ca3 {
        hard: false,
        penalty: 6,
        home: None,
        by_slots: true,
        teams1: vec![0],
        teams2: vec![1, 2],
        max: 1,
        intp: 5,
        min: None,
    }));
    let tasks = plan_constraints(&t, &cs, false).unwrap();
    assert_eq!(tasks.len(), 2);
    match &tasks[1] {
        Task::Card { lits, min, max, cost } => {
            assert_eq!(lits.len(), 20);
            assert_eq!(lits[0], t.matched[1][0][1]);
            assert_eq!(lits[1], t.matched[1][1][0]);
            assert_eq!(lits[2], t.matched[1][0][2]);
            assert_eq!((*min, *max, *cost), (None, Some(1), Some(6)));
        },
        other => panic!("{:?}", other),
    }
    assert_eq!(f.networks.len(), 0);
}

#[test]
fn shared_games_are_counted_once() {
    let (_, t) = league(4, false);
    let mut cs = no_constraints();
    cs.capacity.push(Capacity::Ca4(Ca4 {
        hard: true,
        penalty: 0,
        global: true,
        home: None,
        teams1: vec![0, 1],
        teams2: vec![1, 0],
        slots: vec![2],
        max: 1,
        min: None,
    }));
    cs.capacity.push(Capacity::Ca4(Ca4 {
        hard: true,
        penalty: 0,
        global: false,
        home: Some(true),
        teams1: vec![0, 1],
        teams2: vec![0, 1, 2, 3],
        slots: vec![0, 1],
        max: 1,
        min: None,
    }));
    let tasks = plan_constraints(&t, &cs, false).unwrap();
    assert_eq!(tasks.len(), 3);
    match &tasks[0] {
        Task::Card { lits, .. } => assert_eq!(lits, &vec![t.matched[2][0][1], t.matched[2][1][0]]),
        other => panic!("{:?}", other),
    }
    match &tasks[2] {
        Task::Card { lits, .. } => assert_eq!(lits, &vec![t.home[1][0], t.home[1][1]]),
        other => panic!("{:?}", other),
    }
    let a = Bool::Lit { var: 0, negated: false };
    let b = Bool::Lit { var: 1, negated: false };
    assert_eq!(without_repeats(&vec![a, b, a, a.negate(), b]), vec![a, b, a.negate()]);
}

#[test]
fn games_against_a_group_are_counted() {
    let (mut f, t) = league(2, false);
    let mut breaks = BreakVars::new();
    let mut cs = no_constraints();
    // team 0 plays no game against team 1 in slot 0: but it must
    cs.capacity.push(Capacity::Ca2(Ca2 {
        hard: true,
        penalty: 0,
        home: None,
        global: true,
        teams1: vec![0],
        teams2: vec![1],
        slots: vec![0],
        max: 0,
        min: None,
    }));
    encode_constraints(&mut f, &cs, &t, &mut breaks, false).unwrap();
    assert!(models(&f).is_empty());
}

#[test]
fn cardinality_constraints_are_encoded_after_the_other_tasks() {
    let (mut f, t) = league(2, false);
    let rules = f.constraints.len();
    let mut breaks = BreakVars::new();
    let mut cs = no_constraints();
    cs.capacity.push(ca1(true, true, 0, vec![0], 0));
    cs.fairness.push(Fa2 { hard: true, penalty: 0, home_games: true, teams: vec![0, 1], intp: 1 });
    encode_constraints(&mut f, &cs, &t, &mut breaks, false).unwrap();
    // the cumulative difference and its rule come first, then the rule of the place constraint
    assert_eq!(f.constraints.len(), rules + 3);
    assert_eq!(f.constraints[rules + 2], Constraint::Clause(vec![t.home[0][0].negate()]));
}
