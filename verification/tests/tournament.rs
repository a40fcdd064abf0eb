use sportsat::breaks::{can_make_break_var, lazy_break_var, BreakVars};
use sportsat::compact::encode_compact_2rr;
use sportsat::formula::{Constraint, Formula, Role};
use sportsat::lit::Bool;
use sportsat::models::schedule_of;
use sportsat::schedule::{is_grid, verify_schedule};
use sportsat::table::{position, VarTable};

/// The games of a double round-robin tournament of four teams over six
/// slots, as (slot, host, guest); the second half mirrors the first.
fn four_team_games() -> Vec<(usize, usize, usize)> {
    vec![
        (0, 0, 3),
        (0, 1, 2),
        (1, 0, 2),
        (1, 3, 1),
        (2, 0, 1),
        (2, 2, 3),
        (3, 3, 0),
        (3, 2, 1),
        (4, 2, 0),
        (4, 1, 3),
        (5, 1, 0),
        (5, 3, 2),
    ]
}

fn var_of(b: Bool) -> usize {
    b.lit().unwrap().0
}

/// The model of the formula that the games give.
fn model_of(f: &Formula, t: &VarTable, games: &[(usize, usize, usize)], phased: bool) -> Vec<bool> {
    let mut model = vec![false; f.roles.len()];
    let half = t.slot_ids.len() / 2;
    for &(s, a, b) in games {
        model[var_of(t.matched[s][a][b])] = true;
        model[var_of(t.home[s][a])] = true;
        if phased && s < half {
            if t.team_ids[a] < t.team_ids[b] {
                model[var_of(t.first_half[a][b])] = true;
            }
        }
    }
    model
}

fn next_model(model: &mut Vec<bool>) -> bool {
    for i in 0..model.len() {
        if model[i] {
            model[i] = false;
        } else {
            model[i] = true;
            return true;
        }
    }
    false
}

#[test]
fn four_teams_have_a_schedule() {
    let slots: Vec<i64> = vec![0, 1, 2, 3, 4, 5];
    let teams: Vec<i64> = vec![0, 1, 2, 3];
    let mut f = Formula::new();
    let t = encode_compact_2rr(&mut f, &slots, &teams, false);
    // 12 games and 4 venues in each of 6 slots
    assert_eq!(f.roles.len(), 96);
    // per slot 4 + 8 + 24 rules, and 2 for each of the 6 pairs
    assert_eq!(f.constraints.len(), 6 * 36 + 12);
    let model = model_of(&f, &t, &four_team_games(), false);
    assert!(f.check(&model));
    let grid = schedule_of(&t, &model);
    assert!(verify_schedule(&slots, &teams, false, &grid));
    for team in 0..4 {
        let mut home = 0;
        let mut away = 0;
        for s in 0..6 {
            for other in 0..4 {
                if grid[s][team][other] {
                    home += 1;
                }
                if grid[s][other][team] {
                    away += 1;
                }
            }
        }
        assert_eq!(home, 3);
        assert_eq!(away, 3);
    }
}

#[test]
fn a_game_too_many_is_no_model() {
    let slots: Vec<i64> = vec![0, 1, 2, 3, 4, 5];
    let teams: Vec<i64> = vec![0, 1, 2, 3];
    let mut f = Formula::new();
    let t = encode_compact_2rr(&mut f, &slots, &teams, false);
    let mut model = model_of(&f, &t, &four_team_games(), false);
    model[var_of(t.matched[0][0][1])] = true;
    assert!(!f.check(&model));
    let grid = schedule_of(&t, &model);
    assert!(!verify_schedule(&slots, &teams, false, &grid));
}

#[test]
fn a_wrong_venue_is_no_model() {
    let slots: Vec<i64> = vec![0, 1, 2, 3, 4, 5];
    let teams: Vec<i64> = vec![0, 1, 2, 3];
    let mut f = Formula::new();
    let t = encode_compact_2rr(&mut f, &slots, &teams, false);
    let mut model = model_of(&f, &t, &four_team_games(), false);
    // team 3 is the guest in slot 0
    model[var_of(t.home[0][3])] = true;
    assert!(!f.check(&model));
    model[var_of(t.home[0][3])] = false;
    // team 0 is the host in slot 0
    model[var_of(t.home[0][0])] = false;
    assert!(!f.check(&model));
}

#[test]
fn phased_four_teams_have_a_schedule() {
    let slots: Vec<i64> = vec![0, 1, 2, 3, 4, 5];
    let teams: Vec<i64> = vec![0, 1, 2, 3];
    let mut f = Formula::new();
    let t = encode_compact_2rr(&mut f, &slots, &teams, true);
    // one more variable for each of the 6 pairs
    assert_eq!(f.roles.len(), 102);
    assert_eq!(f.constraints.len(), 6 * 36 + 24);
    let model = model_of(&f, &t, &four_team_games(), true);
    assert!(f.check(&model));
    let grid = schedule_of(&t, &model);
    assert!(verify_schedule(&slots, &teams, true, &grid));
}

#[test]
fn both_games_in_one_half_are_not_phased() {
    let slots: Vec<i64> = vec![0, 1, 2, 3, 4, 5];
    let teams: Vec<i64> = vec![0, 1, 2, 3];
    // the slots 2 and 3 of the mirrored schedule change places
    let games: Vec<(usize, usize, usize)> = four_team_games()
        .into_iter()
        .map(|(s, a, b)| (if s == 2 { 3 } else if s == 3 { 2 } else { s }, a, b))
        .collect();
    let mut plain = Formula::new();
    let t = encode_compact_2rr(&mut plain, &slots, &teams, false);
    let model = model_of(&plain, &t, &games, false);
    assert!(plain.check(&model));
    let grid = schedule_of(&t, &model);
    assert!(verify_schedule(&slots, &teams, false, &grid));
    assert!(!verify_schedule(&slots, &teams, true, &grid));
    // no value of the variable of the pair 0 and 3 makes it a model of the phased rules
    let mut phased = Formula::new();
    let tp = encode_compact_2rr(&mut phased, &slots, &teams, true);
    let mut model = model_of(&phased, &tp, &games, true);
    assert!(!phased.check(&model));
    let v = var_of(tp.first_half[0][3]);
    model[v] = !model[v];
    assert!(!phased.check(&model));
}

#[test]
fn every_model_of_two_teams_is_a_tournament() {
    for phased in [false, true] {
        let slots: Vec<i64> = vec![10, 20];
        let teams: Vec<i64> = vec![7, 5];
        let mut f = Formula::new();
        let t = encode_compact_2rr(&mut f, &slots, &teams, phased);
        assert_eq!(f.roles.len(), if phased { 9 } else { 8 });
        let mut model = vec![false; f.roles.len()];
        let mut models = 0;
        loop {
            if f.check(&model) {
                models += 1;
                let grid = schedule_of(&t, &model);
                assert!(verify_schedule(&slots, &teams, phased, &grid));
                for s in 0..2 {
                    for i in 0..2 {
                        // at home exactly when hosting
                        assert_eq!(t.home[s][i].value(&model), grid[s][i][1 - i]);
                        // exactly one game in the slot
                        assert!(grid[s][i][1 - i] != grid[s][1 - i][i]);
                    }
                }
                // each team hosts the other once
                assert!(grid[0][0][1] != grid[1][0][1]);
                assert!(grid[0][1][0] != grid[1][1][0]);
            }
            if !next_model(&mut model) {
                break;
            }
        }
        // either team may host first
        assert_eq!(models, 2);
    }
}

#[test]
fn encoding_twice_gives_the_same() {
    let slots: Vec<i64> = vec![0, 1, 2, 3, 4, 5];
    let teams: Vec<i64> = vec![0, 1, 2, 3];
    let mut f1 = Formula::new();
    let t1 = encode_compact_2rr(&mut f1, &slots, &teams, true);
    let mut f2 = Formula::new();
    let t2 = encode_compact_2rr(&mut f2, &slots, &teams, true);
    assert_eq!(f1.roles.len(), f2.roles.len());
    assert_eq!(f1.constraints.len(), f2.constraints.len());
    assert_eq!(f1.roles, f2.roles);
    assert_eq!(t1.matched, t2.matched);
    assert_eq!(t1.home, t2.home);
    assert_eq!(t1.first_half, t2.first_half);
}

#[test]
fn variables_carry_their_roles() {
    let slots: Vec<i64> = vec![4, 9];
    let teams: Vec<i64> = vec![1, 2];
    let mut f = Formula::new();
    let t = encode_compact_2rr(&mut f, &slots, &teams, true);
    assert_eq!(t.matched[0][0][0], Bool::Const(false));
    assert_eq!(t.matched[1][0][1], Bool::Lit { var: 4, negated: false });
    assert_eq!(f.roles[4], Role::Match { slot: 1, home: 0, away: 1 });
    assert_eq!(f.roles[var_of(t.home[1][1])], Role::Home { slot: 1, team: 1 });
    assert_eq!(f.roles[var_of(t.first_half[0][1])], Role::FirstHalf { first: 0, second: 1 });
    assert_eq!(t.first_half[1][0], Bool::Const(false));
    // lookups go by identifier
    assert_eq!(position(&teams, 2), Some(1));
    assert_eq!(position(&teams, 3), None);
    assert_eq!(t.home_var(9, 2), Some(t.home[1][1]));
    assert_eq!(t.home_var(5, 2), None);
    assert_eq!(t.matched_var(4, 1, 2), Some(t.matched[0][0][1]));
    assert_eq!(t.matched_var(4, 1, 1), None);
    assert_eq!(t.matched_var(4, 1, 3), None);
}

#[test]
fn the_verifier_refuses_what_is_no_tournament() {
    let slots: Vec<i64> = vec![0, 1];
    let teams: Vec<i64> = vec![0, 1];
    let none = vec![vec![vec![false; 2]; 2]; 2];
    assert!(!verify_schedule(&slots, &teams, false, &none));
    // team 0 hosts in both slots
    let mut twice = none.clone();
    twice[0][0][1] = true;
    twice[1][0][1] = true;
    assert!(!verify_schedule(&slots, &teams, false, &twice));
    let mut good = none.clone();
    good[0][0][1] = true;
    good[1][1][0] = true;
    assert!(verify_schedule(&slots, &teams, false, &good));
    assert!(verify_schedule(&slots, &teams, true, &good));
    // no slots and no teams: nothing is asked
    let empty: Vec<Vec<Vec<bool>>> = Vec::new();
    assert!(verify_schedule(&Vec::new(), &Vec::new(), true, &empty));
}

#[test]
fn break_variables_are_made_once() {
    let slots: Vec<i64> = vec![0, 1];
    let teams: Vec<i64> = vec![0, 1];
    let mut f = Formula::new();
    let t = encode_compact_2rr(&mut f, &slots, &teams, false);
    let vars = f.roles.len();
    let rules = f.constraints.len();
    let mut breaks = BreakVars::new();
    // no break in slot 0
    assert!(can_make_break_var(&breaks, &t, 0, 0, true));
    assert_eq!(lazy_break_var(&mut f, &mut breaks, &t, 0, 0, true), Bool::Const(false));
    assert_eq!(f.roles.len(), vars);
    assert_eq!(breaks.entries.len(), 0);
    // a break variable with its three rules
    assert!(can_make_break_var(&breaks, &t, 1, 0, true));
    let v = lazy_break_var(&mut f, &mut breaks, &t, 1, 0, true);
    assert_eq!(v, Bool::Lit { var: vars, negated: false });
    assert_eq!(f.roles[vars], Role::Break { slot_id: 1, team_id: 0, at_home: true });
    assert_eq!(f.constraints.len(), rules + 3);
    let h1 = t.home[0][0];
    let h2 = t.home[1][0];
    match &f.constraints[rules] {
        Constraint::Clause(lits) => assert_eq!(lits, &vec![h1.negate(), h2.negate(), v]),
        other => panic!("{:?}", other),
    }
    match &f.constraints[rules + 1] {
        Constraint::Clause(lits) => assert_eq!(lits, &vec![h1, v.negate()]),
        other => panic!("{:?}", other),
    }
    match &f.constraints[rules + 2] {
        Constraint::Clause(lits) => assert_eq!(lits, &vec![h2, v.negate()]),
        other => panic!("{:?}", other),
    }
    // the same variable again, and nothing new
    assert_eq!(lazy_break_var(&mut f, &mut breaks, &t, 1, 0, true), v);
    assert_eq!(f.roles.len(), vars + 1);
    assert_eq!(f.constraints.len(), rules + 3);
    // away
    let w = lazy_break_var(&mut f, &mut breaks, &t, 1, 0, false);
    match &f.constraints[rules + 3] {
        Constraint::Clause(lits) => assert_eq!(lits, &vec![h1, h2, w]),
        other => panic!("{:?}", other),
    }
    assert_eq!(breaks.get(1, 0, false), Some(w));
    assert_eq!(breaks.get(1, 1, false), None);
    // a slot or a team that the league does not have
    assert!(!can_make_break_var(&breaks, &t, 2, 0, true));
    assert!(!can_make_break_var(&breaks, &t, 1, 5, true));
    assert!(!can_make_break_var(&breaks, &t, i64::MIN, 0, true));
}

#[test]
fn a_break_is_the_same_venue_twice() {
    let slots: Vec<i64> = vec![0, 1];
    let teams: Vec<i64> = vec![0, 1];
    let mut f = Formula::new();
    let mut t = encode_compact_2rr(&mut f, &slots, &teams, false);
    // only the break rules are looked at
    f.constraints.clear();
    let mut breaks = BreakVars::new();
    let at_home = lazy_break_var(&mut f, &mut breaks, &t, 1, 0, true);
    let away = lazy_break_var(&mut f, &mut breaks, &t, 1, 0, false);
    let mut model = vec![false; f.roles.len()];
    let mut models = 0;
    loop {
        if f.check(&model) {
            models += 1;
            let h1 = t.home[0][0].value(&model);
            let h2 = t.home[1][0].value(&model);
            assert_eq!(at_home.value(&model), h1 && h2);
            assert_eq!(away.value(&model), !h1 && !h2);
        }
        if !next_model(&mut model) {
            break;
        }
    }
    // the 8 variables of the tournament are free, the two break variables follow
    assert_eq!(models, 256);
    t.home.clear();
}

#[test]
fn grids_have_a_square_for_each_slot() {
    let good = vec![vec![vec![false; 2]; 2]; 3];
    assert!(is_grid(&good, 3, 2));
    assert!(!is_grid(&good, 2, 2));
    assert!(!is_grid(&good, 3, 3));
    let mut short = good.clone();
    short[2][1].pop();
    assert!(!is_grid(&short, 3, 2));
    let mut narrow = good.clone();
    narrow[0].pop();
    assert!(!is_grid(&narrow, 3, 2));
    assert!(is_grid(&Vec::new(), 0, 5));
}
