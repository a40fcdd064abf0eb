use sportsat::cardinality::encode_cardinality;
use sportsat::error::EncodeError;
use sportsat::formula::{Constraint, Formula, Network, Role};
use sportsat::lit::{count_holding, Bool};
use sportsat::networks::{CumulativeDiff, Totalizer, Unary};
use sportsat::soft::{CardinalityConstraint, Relax, Soft};

fn fresh(f: &mut Formula, n: usize) -> Vec<Bool> {
    (0..n).map(|gap| f.new_var(Role::Separation { gap })).collect()
}

fn card(lits: &[Bool], min: Option<u32>, max: Option<u32>, cost: Option<u32>) -> CardinalityConstraint {
    CardinalityConstraint { name: String::from("test"), lits: lits.to_vec(), min, max, cost }
}

fn next_model(model: &mut Vec<bool>) -> bool {
    for i in 0..model.len() {
        if model[i] {
            model[i] = false;
        } else {
            model[i] = true;
            return true;
        }
    }
    false
}

/// The numbers of terms of `lits` that hold in the models of `f`.
fn counts_in_models(f: &Formula, lits: &Vec<Bool>) -> Vec<usize> {
    let mut seen = vec![0usize; lits.len() + 1];
    let mut model = vec![false; f.roles.len()];
    loop {
        if f.check(&model) {
            seen[count_holding(lits, &model)] += 1;
        }
        if !next_model(&mut model) {
            break;
        }
    }
    seen
}

/// The number of ways to choose `k` of `n`.
fn ways(n: usize, k: usize) -> usize {
    if k > n {
        0
    } else {
        (0..k).fold(1, |c, i| c * (n - i) / (i + 1))
    }
}

/// Encodes the hard constraint and sees that the models of the formula
/// are the choices of the terms within the bounds, each once.
fn hard_is_exact(n: usize, min: Option<u32>, max: Option<u32>) -> Formula {
    let mut f = Formula::new();
    let lits = fresh(&mut f, n);
    let mut soft: Vec<Soft> = Vec::new();
    assert_eq!(encode_cardinality(&mut f, &mut soft, card(&lits, min, max, None)), Ok(()));
    assert!(soft.is_empty());
    let lo = min.unwrap_or(0) as usize;
    let hi = max.map(|m| m as usize).unwrap_or(n);
    let seen = counts_in_models(&f, &lits);
    for k in 0..=n {
        let expected = if lo <= k && k <= hi { ways(n, k) } else { 0 };
        assert_eq!(seen[k], expected, "n={} min={:?} max={:?} k={}", n, min, max, k);
    }
    f
}

#[test]
fn hard_maximum_of_none_is_one_rule_for_each_term() {
    let f = hard_is_exact(3, None, Some(0));
    assert_eq!(f.roles.len(), 3);
    assert_eq!(f.constraints.len(), 3);
    assert_eq!(f.constraints[1], Constraint::Clause(vec![Bool::Lit { var: 1, negated: true }]));
}

#[test]
fn hard_maximum_of_one_is_one_rule() {
    let f = hard_is_exact(4, Some(0), Some(1));
    assert_eq!(f.roles.len(), 4);
    assert_eq!(f.constraints.len(), 1);
    match &f.constraints[0] {
        Constraint::AtMostOne(lits) => assert_eq!(lits.len(), 4),
        other => panic!("{:?}", other),
    }
}

#[test]
fn hard_maximum_is_a_totalizer() {
    let f = hard_is_exact(4, None, Some(2));
    assert_eq!(f.networks, vec![Network::Totalizer]);
    // outputs for more than 0, 1 and 2
    assert_eq!(f.roles.len(), 7);
    assert_eq!(f.roles[6], Role::Output { network: 0 });
    assert_eq!(f.constraints.len(), 2);
    assert_eq!(f.constraints[1], Constraint::Clause(vec![Bool::Lit { var: 6, negated: true }]));
}

#[test]
fn hard_minimum_below_half_is_a_unary_sum() {
    let f = hard_is_exact(4, Some(2), None);
    assert_eq!(f.networks, vec![Network::UnarySum]);
    assert_eq!(f.roles.len(), 6);
    assert_eq!(f.constraints[1], Constraint::Clause(vec![Bool::Lit { var: 5, negated: false }]));
}

#[test]
fn hard_minimum_above_half_counts_the_negations() {
    let f = hard_is_exact(4, Some(3), Some(9));
    assert_eq!(f.networks, vec![Network::Totalizer]);
    // at most one of the negations: outputs for more than 0 and 1
    assert_eq!(f.roles.len(), 6);
    match &f.constraints[0] {
        Constraint::Count { network, inputs, first, outputs } => {
            assert_eq!(*network, 0);
            assert_eq!(inputs[0], Bool::Lit { var: 0, negated: true });
            assert_eq!(*first, 0);
            assert_eq!(outputs.len(), 2);
        },
        other => panic!("{:?}", other),
    }
}

#[test]
fn hard_minimum_and_maximum_that_are_close_share_a_sum() {
    let f = hard_is_exact(5, Some(2), Some(3));
    assert_eq!(f.networks, vec![Network::UnarySum]);
    // cut off after four digits
    assert_eq!(f.roles.len(), 9);
    assert_eq!(f.constraints.len(), 3);
    assert_eq!(f.constraints[1], Constraint::Clause(vec![Bool::Lit { var: 6, negated: false }]));
    assert_eq!(f.constraints[2], Constraint::Clause(vec![Bool::Lit { var: 8, negated: true }]));
}

#[test]
fn hard_minimum_and_maximum_that_are_apart_are_encoded_apart() {
    // 3 * (7 - 1) is not below 1, and 7 is more than 1 + 2
    let f = hard_is_exact(8, Some(1), Some(7));
    assert_eq!(f.networks, vec![Network::UnarySum, Network::Totalizer]);
}

#[test]
fn a_minimum_above_the_maximum_has_no_model() {
    let mut f = Formula::new();
    let lits = fresh(&mut f, 4);
    let mut soft: Vec<Soft> = Vec::new();
    assert_eq!(encode_cardinality(&mut f, &mut soft, card(&lits, Some(3), Some(1), None)), Ok(()));
    assert_eq!(counts_in_models(&f, &lits), vec![0, 0, 0, 0, 0]);
}

#[test]
fn bounds_that_ask_nothing_add_nothing() {
    let mut f = Formula::new();
    let lits = fresh(&mut f, 3);
    let mut soft: Vec<Soft> = Vec::new();
    assert_eq!(encode_cardinality(&mut f, &mut soft, card(&lits, Some(0), Some(3), None)), Ok(()));
    assert_eq!(encode_cardinality(&mut f, &mut soft, card(&lits, None, Some(7), Some(5))), Ok(()));
    assert_eq!(f.roles.len(), 3);
    assert!(f.constraints.is_empty());
    assert!(soft.is_empty());
}

#[test]
fn a_minimum_above_the_number_of_terms_is_refused() {
    let mut f = Formula::new();
    let lits = fresh(&mut f, 3);
    let mut soft: Vec<Soft> = Vec::new();
    let r = encode_cardinality(&mut f, &mut soft, card(&lits, Some(5), None, None));
    assert_eq!(r, Err(EncodeError::MinAboveCount));
    assert!(f.constraints.is_empty());
    let r = encode_cardinality(&mut f, &mut soft, card(&lits, Some(5), None, Some(2)));
    assert_eq!(r, Err(EncodeError::MinAboveCount));
    assert!(soft.is_empty());
}

#[test]
fn soft_constraints_become_recipes() {
    let mut f = Formula::new();
    let lits = fresh(&mut f, 5);
    let negated: Vec<Bool> = lits.iter().map(|l| l.negate()).collect();
    let mut soft: Vec<Soft> = Vec::new();
    // a maximum
    assert_eq!(encode_cardinality(&mut f, &mut soft, card(&lits, None, Some(2), Some(7))), Ok(()));
    assert_eq!(soft[0], Soft::Constructable(7, Relax::NewTotalizer { lits: lits.clone(), bound: 2 }));
    // a minimum of at most half
    assert_eq!(encode_cardinality(&mut f, &mut soft, card(&lits, Some(2), None, Some(3))), Ok(()));
    assert_eq!(
        soft[1],
        Soft::Constructable(3, Relax::NewUnary { lits: lits.clone(), truncate: Some(2), min: Some(2), max: None })
    );
    // a minimum of more than half
    assert_eq!(encode_cardinality(&mut f, &mut soft, card(&lits, Some(4), None, Some(3))), Ok(()));
    assert_eq!(soft[2], Soft::Constructable(3, Relax::NewTotalizer { lits: negated, bound: 1 }));
    // both, close, and the maximum above half
    assert_eq!(encode_cardinality(&mut f, &mut soft, card(&lits, Some(2), Some(3), Some(4))), Ok(()));
    assert_eq!(
        soft[3],
        Soft::Constructable(4, Relax::NewUnary { lits: lits.clone(), truncate: None, min: Some(2), max: Some(3) })
    );
    // both, close, and the maximum not above half: one entry for each
    assert_eq!(encode_cardinality(&mut f, &mut soft, card(&lits, Some(1), Some(2), Some(4))), Ok(()));
    assert_eq!(soft.len(), 6);
    assert_eq!(
        soft[4],
        Soft::Constructable(4, Relax::NewUnary { lits: lits.clone(), truncate: Some(1), min: Some(1), max: None })
    );
    assert_eq!(soft[5], Soft::Constructable(4, Relax::NewTotalizer { lits: lits.clone(), bound: 2 }));
    // nothing was added to the formula
    assert_eq!(f.roles.len(), 5);
    assert!(f.constraints.is_empty());
}

#[test]
fn weights() {
    let lit = Bool::Lit { var: 0, negated: false };
    assert_eq!(Soft::Relaxable(4, lit, None).weight(), 4);
    assert_eq!(Soft::Constructable(9, Relax::Chain(vec![lit])).weight(), 9);
    assert_eq!(Soft::default(), Soft::Undef);
}

#[test]
fn terms_and_their_values() {
    let x = Bool::Lit { var: 1, negated: false };
    assert_eq!(x.negate(), Bool::Lit { var: 1, negated: true });
    assert_eq!(x.negate().negate(), x);
    assert_eq!(Bool::Const(true).negate(), Bool::Const(false));
    assert_eq!(x.lit(), Some((1, false)));
    assert_eq!(Bool::Const(true).lit(), None);
    let model = vec![false, true];
    assert!(x.value(&model));
    assert!(!x.negate().value(&model));
    // a variable beyond the model is false
    let far = Bool::Lit { var: 5, negated: false };
    assert!(!far.value(&model));
    assert!(far.negate().value(&model));
    assert_eq!(count_holding(&vec![x, far, far.negate(), Bool::Const(true), Bool::Const(false)], &model), 3);
}

#[test]
fn rules_and_their_models() {
    let a = Bool::Lit { var: 0, negated: false };
    let b = Bool::Lit { var: 1, negated: false };
    let c = Bool::Lit { var: 2, negated: false };
    let none = vec![false, false, false];
    let one = vec![true, false, false];
    let two = vec![true, true, false];
    assert!(!Constraint::Clause(vec![a, b]).check(&none));
    assert!(Constraint::Clause(vec![a, b]).check(&one));
    assert!(!Constraint::Clause(vec![]).check(&one));
    assert!(!Constraint::ExactlyOne(vec![a, b]).check(&none));
    assert!(Constraint::ExactlyOne(vec![a, b]).check(&one));
    assert!(!Constraint::ExactlyOne(vec![a, b]).check(&two));
    assert!(Constraint::AtMostOne(vec![a, b]).check(&none));
    assert!(!Constraint::AtMostOne(vec![a, b]).check(&two));
    // c says that more than one of a and b holds
    let count = Constraint::Count { network: 0, inputs: vec![a, b], first: 1, outputs: vec![c] };
    assert!(count.check(&one));
    assert!(!count.check(&two));
    assert!(count.check(&vec![true, true, true]));
    assert!(!count.check(&vec![true, false, true]));
    // c says that a and b have come apart by more than zero
    let diff = Constraint::CumulativeDiff { network: 0, pairs: vec![(a, b)], first: 0, outputs: vec![c] };
    assert!(diff.check(&none));
    assert!(!diff.check(&one));
    assert!(diff.check(&vec![true, false, true]));
    assert!(diff.check(&two));
    assert!(!diff.check(&vec![true, true, true]));
}

#[test]
fn networks_count() {
    let mut f = Formula::new();
    let lits = fresh(&mut f, 3);
    let mut tot = Totalizer::count(&mut f, lits.clone(), 0);
    assert_eq!(tot.rhs, vec![Bool::Lit { var: 3, negated: false }]);
    assert_eq!(tot.exceeds(0), tot.rhs[0]);
    assert_eq!(tot.exceeds(1), Bool::Const(false));
    tot.increase_bound(&mut f, 5);
    // no more outputs than inputs
    assert_eq!(tot.rhs.len(), 3);
    assert_eq!(f.constraints.len(), 2);
    tot.increase_bound(&mut f, 1);
    assert_eq!(f.constraints.len(), 2);
    let sum = Unary::sum_truncate(&mut f, lits.clone(), 2);
    assert_eq!(sum.digits.len(), 2);
    assert_eq!(sum.gte_const(0), Bool::Const(true));
    assert_eq!(sum.gte_const(2), sum.digits[1]);
    assert_eq!(sum.gte_const(3), Bool::Const(false));
    assert_eq!(sum.lte_const(1), sum.digits[1].negate());
    assert_eq!(sum.lte_const(2), Bool::Const(true));
    assert_eq!(Unary::sum(&mut f, lits.clone()).digits.len(), 3);
    let mut diff = CumulativeDiff::new(&mut f, vec![(lits[0], lits[1]), (lits[1], lits[2])], 0);
    assert_eq!(diff.outputs.len(), 1);
    assert_eq!(diff.exceeds(1), Bool::Const(false));
    diff.extend(&mut f, 1);
    assert_eq!(diff.outputs.len(), 2);
    assert_eq!(diff.exceeds(1), diff.outputs[1]);
    assert_eq!(f.networks, vec![Network::Totalizer, Network::UnarySum, Network::UnarySum, Network::CumulativeDiff]);
    // in every model the outputs say how many inputs hold
    let mut model = vec![false; f.roles.len()];
    let mut models = 0;
    loop {
        if f.check(&model) {
            models += 1;
            let n = count_holding(&lits, &model);
            for k in 0..3 {
                assert_eq!(tot.rhs[k].value(&model), n > k);
            }
            assert_eq!(sum.gte_const(1).value(&model), n >= 1);
            assert_eq!(sum.lte_const(1).value(&model), n <= 1);
        }
        if !next_model(&mut model) {
            break;
        }
    }
    assert_eq!(models, 8);
}
