//! The encoding of a cardinality constraint.
//!
//! A hard constraint becomes rules of the formula; a soft one becomes
//! entries of the catalog. Which encoding is used depends on the bounds and
//! on the number of terms counted.

use vstd::prelude::*;
use crate::lit::{copy_lits, count_true, lemma_count_true_bounds, lemma_count_true_negated, lemma_count_true_zero, negate_all, negated, one, Bool};
use crate::formula::{all_hold, lemma_all_hold_concat, Formula, Network, Role, Rule};
use crate::networks::{lemma_unary_gte, output_lits, output_roles, unary_gte, unary_lte, Totalizer, Unary};
use crate::soft::{catalog, CardinalityConstraint, Relax, RelaxView, Soft, SoftView};
use crate::error::EncodeError;
use crate::models::lemma_count_true_one;

verus! {

/// The positive literal of the variable `v`.
pub open spec fn lit_var(v: int) -> Bool {
    Bool::Lit { var: v as usize, negated: false }
}

/// The least number of terms that must hold: none when no minimum is given.
pub open spec fn effective_min(min: Option<u32>) -> int {
    match min {
        Some(x) => x as int,
        None => 0,
    }
}

/// The greatest number of terms that may hold: all `n` when no maximum is
/// given or the maximum is `n` or more.
pub open spec fn effective_max(max: Option<u32>, n: int) -> int {
    match max {
        Some(x) => if x < n {
            x as int
        } else {
            n
        },
        None => n,
    }
}

/// Whether a minimum and a maximum are close enough to be encoded by one
/// network.
pub open spec fn together(emin: int, emax: int, n: int) -> bool {
    emin > 0 && emax < n && (3 * (emax - emin) < emin || (emax <= emin + 2 && emin <= 5))
}

/// What the encoding of a constraint adds to the formula and the catalog.
pub struct Added {
    pub roles: Seq<Role>,
    pub networks: Seq<Network>,
    pub rules: Seq<Rule>,
    pub soft: Seq<SoftView>,
}

pub open spec fn nothing_added() -> Added {
    Added { roles: Seq::empty(), networks: Seq::empty(), rules: Seq::empty(), soft: Seq::empty() }
}

pub open spec fn only_soft(entry: SoftView) -> Added {
    Added { roles: Seq::empty(), networks: Seq::empty(), rules: Seq::empty(), soft: seq![entry] }
}

/// One after the other.
pub open spec fn both_added(a: Added, b: Added) -> Added {
    Added { roles: a.roles + b.roles, networks: a.networks + b.networks, rules: a.rules + b.rules, soft: a.soft + b.soft }
}

/// For each term the rule that it does not hold.
pub open spec fn unit_clauses(lits: Seq<Bool>) -> Seq<Rule> {
    Seq::new(lits.len(), |i: int| Rule::Clause(seq![lits[i].negation()]))
}

/// A hard minimum and maximum by one unary sum, cut off after the maximum.
pub open spec fn hard_together(nv: int, net: int, lits: Seq<Bool>, emin: int, emax: int) -> Added {
    let digits = output_lits(nv, emax + 1);
    Added {
        roles: output_roles(net as usize, emax + 1),
        networks: seq![Network::UnarySum],
        rules: seq![
            Rule::Count { network: net as usize, inputs: lits, first: 0, outputs: digits },
            Rule::Clause(seq![unary_gte(digits, emin)]),
            Rule::Clause(seq![unary_lte(digits, emax)]),
        ],
        soft: Seq::empty(),
    }
}

/// A minimum alone: where more than half of the terms must hold, a
/// totalizer over their negations; else a unary sum cut off at the minimum.
pub open spec fn min_added(nv: int, net: int, lits: Seq<Bool>, emin: int, cost: Option<u32>) -> Added {
    let n = lits.len() as int;
    if emin <= 0 {
        nothing_added()
    } else if 2 * emin > n {
        let inv = n - emin;
        match cost {
            Some(c) => only_soft(
                SoftView::Constructable {
                    cost: c as usize,
                    relax: RelaxView::NewTotalizer { lits: negate_all(lits), bound: inv as usize },
                },
            ),
            None => Added {
                roles: output_roles(net as usize, inv + 1),
                networks: seq![Network::Totalizer],
                rules: seq![
                    Rule::Count {
                        network: net as usize,
                        inputs: negate_all(lits),
                        first: 0,
                        outputs: output_lits(nv, inv + 1),
                    },
                    Rule::Clause(seq![lit_var(nv + inv).negation()]),
                ],
                soft: Seq::empty(),
            },
        }
    } else {
        match cost {
            Some(c) => only_soft(
                SoftView::Constructable {
                    cost: c as usize,
                    relax: RelaxView::NewUnary {
                        lits,
                        truncate: Some(emin as usize),
                        min: Some(emin as usize),
                        max: None,
                    },
                },
            ),
            None => Added {
                roles: output_roles(net as usize, emin),
                networks: seq![Network::UnarySum],
                rules: seq![
                    Rule::Count { network: net as usize, inputs: lits, first: 0, outputs: output_lits(nv, emin) },
                    Rule::Clause(seq![lit_var(nv + emin - 1)]),
                ],
                soft: Seq::empty(),
            },
        }
    }
}

/// A maximum alone: soft, a totalizer to be built; hard, one rule per term
/// for a maximum of none, one rule for a maximum of one, and else a
/// totalizer whose output for more than the maximum is forbidden.
pub open spec fn max_added(nv: int, net: int, lits: Seq<Bool>, emax: int, cost: Option<u32>) -> Added {
    let n = lits.len() as int;
    if emax >= n {
        nothing_added()
    } else {
        match cost {
            Some(c) => only_soft(
                SoftView::Constructable {
                    cost: c as usize,
                    relax: RelaxView::NewTotalizer { lits, bound: emax as usize },
                },
            ),
            None => if emax == 0 {
                Added { roles: Seq::empty(), networks: Seq::empty(), rules: unit_clauses(lits), soft: Seq::empty() }
            } else if emax == 1 {
                Added {
                    roles: Seq::empty(),
                    networks: Seq::empty(),
                    rules: seq![Rule::AtMostOne(lits)],
                    soft: Seq::empty(),
                }
            } else {
                Added {
                    roles: output_roles(net as usize, emax + 1),
                    networks: seq![Network::Totalizer],
                    rules: seq![
                        Rule::Count { network: net as usize, inputs: lits, first: 0, outputs: output_lits(nv, emax + 1) },
                        Rule::Clause(seq![lit_var(nv + emax).negation()]),
                    ],
                    soft: Seq::empty(),
                }
            },
        }
    }
}

/// What the encoding of the constraint on `lits` adds to a formula that
/// has `nv` variables and `net` networks, or `None` where the constraint
/// is refused: a minimum encoded alone that is above the number of terms.
pub open spec fn cardinality_added(
    nv: int,
    net: int,
    lits: Seq<Bool>,
    min: Option<u32>,
    max: Option<u32>,
    cost: Option<u32>,
) -> Option<Added> {
    let n = lits.len() as int;
    let emin = effective_min(min);
    let emax = effective_max(max, n);
    if together(emin, emax, n) && cost is None {
        Some(hard_together(nv, net, lits, emin, emax))
    } else if together(emin, emax, n) && 2 * emax > n {
        Some(
            only_soft(
                SoftView::Constructable {
                    cost: cost.unwrap() as usize,
                    relax: RelaxView::NewUnary {
                        lits,
                        truncate: None,
                        min: Some(emin as usize),
                        max: Some(emax as usize),
                    },
                },
            ),
        )
    } else if emin > n {
        None
    } else {
        let first = min_added(nv, net, lits, emin, cost);
        Some(both_added(first, max_added(nv + first.roles.len(), net + first.networks.len(), lits, emax, cost)))
    }
}

/// The formula and the catalog have grown by `a`.
pub open spec fn grown_by(
    old_f: Formula,
    new_f: Formula,
    old_soft: Seq<Soft>,
    new_soft: Seq<Soft>,
    a: Added,
) -> bool {
    &&& new_f.roles@ == old_f.roles@ + a.roles
    &&& new_f.networks@ == old_f.networks@ + a.networks
    &&& new_f.rules() == old_f.rules() + a.rules
    &&& catalog(new_soft) == catalog(old_soft) + a.soft
}

fn push_soft(soft: &mut Vec<Soft>, entry: Soft)
    ensures
        catalog(final(soft)@) == catalog(old(soft)@).push(entry@),
{
    soft.push(entry);
    assert(catalog(soft@) =~= catalog(old(soft)@).push(entry@));
}

fn encode_hard_together(solver: &mut Formula, lits: Vec<Bool>, emin: usize, emax: usize)
    requires
        emax < lits@.len(),
    ensures
        final(solver).roles@ == old(solver).roles@ + hard_together(
            old(solver).num_vars() as int,
            old(solver).networks@.len() as int,
            lits@,
            emin as int,
            emax as int,
        ).roles,
        final(solver).networks@ == old(solver).networks@ + hard_together(
            old(solver).num_vars() as int,
            old(solver).networks@.len() as int,
            lits@,
            emin as int,
            emax as int,
        ).networks,
        final(solver).rules() == old(solver).rules() + hard_together(
            old(solver).num_vars() as int,
            old(solver).networks@.len() as int,
            lits@,
            emin as int,
            emax as int,
        ).rules,
{
    let n: usize = lits.len();
    assert(emax < n);
    let sum: Unary = Unary::sum_truncate(solver, lits, emax + 1);
    solver.add_clause(one(sum.gte_const(emin)));
    solver.add_clause(one(sum.lte_const(emax)));
    proof {
        let a = hard_together(
            old(solver).num_vars() as int,
            old(solver).networks@.len() as int,
            lits@,
            emin as int,
            emax as int,
        );
        assert(solver.rules() =~= old(solver).rules() + a.rules);
        assert(solver.networks@ =~= old(solver).networks@ + a.networks);
    }
}

fn encode_min(solver: &mut Formula, soft: &mut Vec<Soft>, lits: &Vec<Bool>, emin: usize, cost: Option<u32>)
    requires
        emin <= lits@.len(),
    ensures
        grown_by(
            *old(solver),
            *final(solver),
            old(soft)@,
            final(soft)@,
            min_added(old(solver).num_vars() as int, old(solver).networks@.len() as int, lits@, emin as int, cost),
        ),
{
    let n: usize = lits.len();
    let ghost a = min_added(old(solver).num_vars() as int, old(solver).networks@.len() as int, lits@, emin as int, cost);
    if emin > 0 {
        if emin > n - emin {
            let inv: usize = n - emin;
            match cost {
                Some(c) => {
                    push_soft(soft, Soft::Constructable(c as usize, Relax::NewTotalizer { lits: negated(lits), bound: inv }));
                },
                None => {
                    let tot: Totalizer = Totalizer::count(solver, negated(lits), inv);
                    solver.add_clause(one(tot.exceeds(inv).negate()));
                },
            }
        } else {
            match cost {
                Some(c) => {
                    push_soft(
                        soft,
                        Soft::Constructable(
                            c as usize,
                            Relax::NewUnary { lits: copy_lits(lits), truncate: Some(emin), min: Some(emin), max: None },
                        ),
                    );
                },
                None => {
                    let sum: Unary = Unary::sum_truncate(solver, copy_lits(lits), emin);
                    solver.add_clause(one(sum.gte_const(emin)));
                },
            }
        }
    }
    proof {
        assert(solver.roles@ =~= old(solver).roles@ + a.roles);
        assert(solver.networks@ =~= old(solver).networks@ + a.networks);
        assert(solver.rules() =~= old(solver).rules() + a.rules);
        assert(catalog(soft@) =~= catalog(old(soft)@) + a.soft);
    }
}

fn add_unit_clauses(solver: &mut Formula, lits: &Vec<Bool>)
    ensures
        final(solver).rules() == old(solver).rules() + unit_clauses(lits@),
        final(solver).roles == old(solver).roles,
        final(solver).networks == old(solver).networks,
{
    let mut i: usize = 0;
    assert(solver.rules() =~= old(solver).rules() + unit_clauses(lits@.take(0)));
    while i < lits.len()
        invariant
            i <= lits.len(),
            solver.rules() == old(solver).rules() + unit_clauses(lits@.take(i as int)),
            solver.roles == old(solver).roles,
            solver.networks == old(solver).networks,
        decreases lits.len() - i,
    {
        solver.add_clause(one(lits[i].negate()));
        assert(solver.rules() =~= old(solver).rules() + unit_clauses(lits@.take(i + 1)));
        i += 1;
    }
    assert(lits@.take(lits.len() as int) =~= lits@);
}

fn encode_max(solver: &mut Formula, soft: &mut Vec<Soft>, lits: Vec<Bool>, emax: usize, cost: Option<u32>)
    ensures
        grown_by(
            *old(solver),
            *final(solver),
            old(soft)@,
            final(soft)@,
            max_added(old(solver).num_vars() as int, old(solver).networks@.len() as int, lits@, emax as int, cost),
        ),
{
    let n: usize = lits.len();
    let ghost a = max_added(old(solver).num_vars() as int, old(solver).networks@.len() as int, lits@, emax as int, cost);
    if emax < n {
        match cost {
            Some(c) => {
                push_soft(soft, Soft::Constructable(c as usize, Relax::NewTotalizer { lits, bound: emax }));
            },
            None => {
                if emax == 0 {
                    add_unit_clauses(solver, &lits);
                } else if emax == 1 {
                    solver.assert_at_most_one(lits);
                } else {
                    let tot: Totalizer = Totalizer::count(solver, lits, emax);
                    solver.add_clause(one(tot.exceeds(emax).negate()));
                }
            },
        }
    }
    proof {
        assert(solver.roles@ =~= old(solver).roles@ + a.roles);
        assert(solver.networks@ =~= old(solver).networks@ + a.networks);
        assert(solver.rules() =~= old(solver).rules() + a.rules);
        assert(catalog(soft@) =~= catalog(old(soft)@) + a.soft);
    }
}

/// Whether `together` holds of the given bounds.
fn is_together(emin: usize, emax: usize, n: usize) -> (r: bool)
    requires
        emin <= u32::MAX,
        emax <= u32::MAX || emax == n,
    ensures
        r == together(emin as int, emax as int, n as int),
{
    if emin == 0 || emax >= n {
        return false;
    }
    if emax < emin {
        return true;
    }
    let lo: u64 = emin as u64;
    let hi: u64 = emax as u64;
    3 * (hi - lo) < lo || (hi <= lo + 2 && lo <= 5)
}

/// Encodes the cardinality constraint `card`: a hard one as rules of
/// `solver`, a soft one as entries at the end of `soft`.
pub fn encode_cardinality(solver: &mut Formula, soft: &mut Vec<Soft>, card: CardinalityConstraint) -> (r: Result<
    (),
    EncodeError,
>)
    ensures
        match cardinality_added(
            old(solver).num_vars() as int,
            old(solver).networks@.len() as int,
            card.lits@,
            card.min,
            card.max,
            card.cost,
        ) {
            Some(a) => r is Ok && grown_by(*old(solver), *final(solver), old(soft)@, final(soft)@, a),
            None => r == Err::<(), EncodeError>(EncodeError::MinAboveCount) && *final(solver) == *old(solver)
                && *final(soft) == *old(soft),
        },
{
    let CardinalityConstraint { name, lits, min, max, cost } = card;
    let n: usize = lits.len();
    let emin: usize = match min {
        Some(x) => x as usize,
        None => 0,
    };
    let emax: usize = match max {
        Some(x) => if (x as usize) < n {
            x as usize
        } else {
            n
        },
        None => n,
    };
    let close: bool = is_together(emin, emax, n);
    if close && cost.is_none() {
        encode_hard_together(solver, lits, emin, emax);
        proof {
            assert(catalog(soft@) =~= catalog(old(soft)@) + Seq::<SoftView>::empty());
        }
        return Ok(());
    }
    if close && emax > n - emax {
        let c: u32 = cost.unwrap();
        push_soft(
            soft,
            Soft::Constructable(c as usize, Relax::NewUnary { lits, truncate: None, min: Some(emin), max: Some(emax) }),
        );
        proof {
            let entry = SoftView::Constructable {
                cost: c as usize,
                relax: RelaxView::NewUnary { lits: lits@, truncate: None, min: Some(emin), max: Some(emax) },
            };
            assert(solver.roles@ =~= old(solver).roles@ + Seq::<Role>::empty());
            assert(solver.networks@ =~= old(solver).networks@ + Seq::<Network>::empty());
            assert(solver.rules() =~= old(solver).rules() + Seq::<Rule>::empty());
            assert(catalog(soft@) =~= catalog(old(soft)@) + seq![entry]);
        }
        return Ok(());
    }
    if emin > n {
        return Err(EncodeError::MinAboveCount);
    }
    let ghost first = min_added(old(solver).num_vars() as int, old(solver).networks@.len() as int, lits@, emin as int, cost);
    encode_min(solver, soft, &lits, emin, cost);
    let ghost mid_f = *solver;
    let ghost mid_soft = soft@;
    encode_max(solver, soft, lits, emax, cost);
    proof {
        let second = max_added(mid_f.num_vars() as int, mid_f.networks@.len() as int, lits@, emax as int, cost);
        let a = both_added(first, second);
        assert(solver.roles@ =~= old(solver).roles@ + a.roles);
        assert(solver.networks@ =~= old(solver).networks@ + a.networks);
        assert(solver.rules() =~= old(solver).rules() + a.rules);
        assert(catalog(soft@) =~= catalog(old(soft)@) + a.soft);
    }
    Ok(())
}

proof fn lemma_unit_holds(b: Bool, m: Seq<bool>)
    ensures
        Rule::Clause(seq![b]).holds(m) == b.holds(m),
{
    lemma_count_true_one(b, m);
}

proof fn lemma_hard_together(nv: int, net: int, lits: Seq<Bool>, emin: int, emax: int, m: Seq<bool>)
    requires
        0 <= emax < lits.len(),
        all_hold(hard_together(nv, net, lits, emin, emax).rules, m),
    ensures
        emin <= count_true(lits, m) <= emax,
{
    let rules = hard_together(nv, net, lits, emin, emax).rules;
    let digits = output_lits(nv, emax + 1);
    assert(rules[0].holds(m) && rules[1].holds(m) && rules[2].holds(m));
    lemma_unit_holds(unary_gte(digits, emin), m);
    lemma_unit_holds(unary_lte(digits, emax), m);
    lemma_count_true_bounds(lits, m);
    lemma_unary_gte(lits, digits, m, emax + 1);
    if emin <= emax + 1 {
        lemma_unary_gte(lits, digits, m, emin);
    }
}

proof fn lemma_hard_min(nv: int, net: int, lits: Seq<Bool>, emin: int, m: Seq<bool>)
    requires
        emin <= lits.len(),
        all_hold(min_added(nv, net, lits, emin, None).rules, m),
    ensures
        emin <= count_true(lits, m),
{
    let rules = min_added(nv, net, lits, emin, None).rules;
    let n = lits.len() as int;
    if emin > 0 {
        assert(rules[0].holds(m) && rules[1].holds(m));
        if 2 * emin > n {
            let inv = n - emin;
            let rhs = output_lits(nv, inv + 1);
            lemma_unit_holds(lit_var(nv + inv).negation(), m);
            assert(rhs[inv] == lit_var(nv + inv));
            assert(rhs[inv].holds(m) == (count_true(negate_all(lits), m) > 0 + inv));
            lemma_count_true_negated(lits, m);
        } else {
            let digits = output_lits(nv, emin);
            lemma_unit_holds(lit_var(nv + emin - 1), m);
            assert(digits[emin - 1] == lit_var(nv + emin - 1));
            assert(digits[emin - 1].holds(m) == (count_true(lits, m) > 0 + (emin - 1)));
        }
    }
}

proof fn lemma_hard_max(nv: int, net: int, lits: Seq<Bool>, emax: int, m: Seq<bool>)
    requires
        0 <= emax,
        all_hold(max_added(nv, net, lits, emax, None).rules, m),
    ensures
        count_true(lits, m) <= emax,
{
    let rules = max_added(nv, net, lits, emax, None).rules;
    let n = lits.len() as int;
    lemma_count_true_bounds(lits, m);
    if emax < n {
        if emax == 0 {
            assert forall|i: int| 0 <= i < lits.len() implies !(#[trigger] lits[i]).holds(m) by {
                assert(rules[i].holds(m));
                lemma_unit_holds(lits[i].negation(), m);
            }
            lemma_count_true_zero(lits, m);
        } else if emax == 1 {
            assert(rules[0].holds(m));
        } else {
            let rhs = output_lits(nv, emax + 1);
            assert(rules[0].holds(m) && rules[1].holds(m));
            lemma_unit_holds(lit_var(nv + emax).negation(), m);
            assert(rhs[emax] == lit_var(nv + emax));
            assert(rhs[emax].holds(m) == (count_true(lits, m) > 0 + emax));
        }
    }
}

/// In every model of the rules that a hard cardinality constraint adds, at
/// least the minimum and at most the maximum of its terms hold.
pub proof fn lemma_hard_rules(nv: int, net: int, lits: Seq<Bool>, min: Option<u32>, max: Option<u32>, m: Seq<bool>)
    requires
        cardinality_added(nv, net, lits, min, max, None) is Some,
        all_hold(cardinality_added(nv, net, lits, min, max, None).unwrap().rules, m),
    ensures
        effective_min(min) <= count_true(lits, m) <= effective_max(max, lits.len() as int),
{
    let n = lits.len() as int;
    let emin = effective_min(min);
    let emax = effective_max(max, n);
    lemma_count_true_bounds(lits, m);
    if together(emin, emax, n) {
        lemma_hard_together(nv, net, lits, emin, emax, m);
    } else {
        let first = min_added(nv, net, lits, emin, None);
        let second = max_added(nv + first.roles.len(), net + first.networks.len(), lits, emax, None);
        lemma_all_hold_concat(first.rules, second.rules, m);
        lemma_hard_min(nv, net, lits, emin, m);
        lemma_hard_max(nv + first.roles.len(), net + first.networks.len(), lits, emax, m);
    }
}

/// In every model of a formula to which a hard cardinality constraint was
/// added, at least the minimum and at most the maximum of its terms hold,
/// and the model is one of the formula before.
pub proof fn lemma_hard_cardinality(
    before: Formula,
    after: Formula,
    lits: Seq<Bool>,
    min: Option<u32>,
    max: Option<u32>,
    m: Seq<bool>,
)
    requires
        cardinality_added(before.num_vars() as int, before.networks@.len() as int, lits, min, max, None) is Some,
        after.rules() == before.rules() + cardinality_added(
            before.num_vars() as int,
            before.networks@.len() as int,
            lits,
            min,
            max,
            None,
        ).unwrap().rules,
        after.satisfied_by(m),
    ensures
        before.satisfied_by(m),
        effective_min(min) <= count_true(lits, m) <= effective_max(max, lits.len() as int),
{
    let nv = before.num_vars() as int;
    let net = before.networks@.len() as int;
    let a = cardinality_added(nv, net, lits, min, max, None).unwrap();
    lemma_all_hold_concat(before.rules(), a.rules, m);
    lemma_hard_rules(nv, net, lits, min, max, m);
}

} // verus!
