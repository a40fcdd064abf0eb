//! Counting networks: totalizers, unary sums and cumulative differences.
//!
//! A network is a rule of the formula that defines output variables by how
//! many of its inputs hold. How an engine realises the rule is its own
//! matter; the formula records what the outputs mean.

use vstd::prelude::*;
use crate::lit::{copy_lits, count_true, lemma_count_true_bounds, Bool};
use crate::formula::{diff_exceeds, diff_exceeds_at, firsts, outputs_count, seconds, Constraint, Formula, Network, Role, Rule};

verus! {

/// The positive literals of the `d` variables from `first_var` on.
pub open spec fn output_lits(first_var: int, d: int) -> Seq<Bool> {
    Seq::new(d as nat, |k: int| Bool::Lit { var: (first_var + k) as usize, negated: false })
}

/// The roles of `d` outputs of the network `network`.
pub open spec fn output_roles(network: usize, d: int) -> Seq<Role> {
    Seq::new(d as nat, |k: int| Role::Output { network })
}

/// The number of outputs that a network over `n` inputs has once it counts
/// up to `bound`: one for each count from 1 to `bound + 1`, and none for a
/// count above `n`.
pub open spec fn outputs_up_to(n: int, bound: int) -> int {
    if bound < n {
        bound + 1
    } else {
        n
    }
}

fn outputs_needed(n: usize, bound: usize) -> (d: usize)
    ensures
        d == outputs_up_to(n as int, bound as int),
        d <= n,
{
    if bound < n {
        bound + 1
    } else {
        n
    }
}

/// Creates `d` output variables of the network `network`.
fn new_outputs(f: &mut Formula, network: usize, d: usize) -> (out: Vec<Bool>)
    ensures
        out@ == output_lits(old(f).num_vars() as int, d as int),
        final(f).roles@ == old(f).roles@ + output_roles(network, d as int),
        final(f).constraints == old(f).constraints,
        final(f).networks == old(f).networks,
{
    let mut out: Vec<Bool> = Vec::new();
    let mut k: usize = 0;
    assert(f.roles@ =~= old(f).roles@ + output_roles(network, 0));
    assert(out@ =~= output_lits(old(f).num_vars() as int, 0));
    while k < d
        invariant
            k <= d,
            out@ == output_lits(old(f).num_vars() as int, k as int),
            f.roles@ == old(f).roles@ + output_roles(network, k as int),
            f.constraints == old(f).constraints,
            f.networks == old(f).networks,
        decreases d - k,
    {
        let v: Bool = f.new_var(Role::Output { network });
        out.push(v);
        assert(f.roles@ =~= old(f).roles@ + output_roles(network, k + 1));
        assert(out@ =~= output_lits(old(f).num_vars() as int, k + 1));
        k += 1;
    }
    out
}

/// A copy of `pairs`.
pub fn copy_pairs(pairs: &Vec<(Bool, Bool)>) -> (r: Vec<(Bool, Bool)>)
    ensures
        r@ == pairs@,
{
    let mut r: Vec<(Bool, Bool)> = Vec::new();
    let mut i: usize = 0;
    while i < pairs.len()
        invariant
            i <= pairs.len(),
            r@ == pairs@.take(i as int),
        decreases pairs.len() - i,
    {
        r.push(pairs[i]);
        assert(r@ =~= pairs@.take(i + 1));
        i += 1;
    }
    assert(pairs@.take(pairs.len() as int) =~= pairs@);
    r
}

fn append(to: &mut Vec<Bool>, from: &Vec<Bool>)
    ensures
        final(to)@ == old(to)@ + from@,
{
    let mut i: usize = 0;
    assert(to@ =~= old(to)@ + from@.take(0));
    while i < from.len()
        invariant
            i <= from.len(),
            to@ == old(to)@ + from@.take(i as int),
        decreases from.len() - i,
    {
        to.push(from[i]);
        assert(to@ =~= old(to)@ + from@.take(i + 1));
        i += 1;
    }
    assert(from@.take(from.len() as int) =~= from@);
}

/// A totalizer: `rhs[k]` holds exactly when more than `k` of `inputs` hold.
#[derive(Debug, PartialEq, Eq)]
pub struct Totalizer {
    pub network: usize,
    pub inputs: Vec<Bool>,
    pub rhs: Vec<Bool>,
}

impl Totalizer {
    /// Builds a totalizer over `lits` that counts up to `bound`.
    pub fn count(solver: &mut Formula, lits: Vec<Bool>, bound: usize) -> (tot: Totalizer)
        ensures
            tot.network == old(solver).networks@.len(),
            tot.inputs@ == lits@,
            tot.rhs@ == output_lits(old(solver).num_vars() as int, outputs_up_to(lits@.len() as int, bound as int)),
            final(solver).networks@ == old(solver).networks@.push(Network::Totalizer),
            final(solver).roles@ == old(solver).roles@ + output_roles(
                tot.network,
                outputs_up_to(lits@.len() as int, bound as int),
            ),
            final(solver).rules() == old(solver).rules().push(
                Rule::Count { network: tot.network, inputs: lits@, first: 0, outputs: tot.rhs@ },
            ),
    {
        let network: usize = solver.new_network(Network::Totalizer);
        let d: usize = outputs_needed(lits.len(), bound);
        let rhs: Vec<Bool> = new_outputs(solver, network, d);
        let inputs: Vec<Bool> = copy_lits(&lits);
        solver.add(Constraint::Count { network, inputs: lits, first: 0, outputs: copy_lits(&rhs) });
        Totalizer { network, inputs, rhs }
    }

    /// Raises the bound up to which the totalizer counts to `bound`. A
    /// bound that it has reached already changes nothing.
    pub fn increase_bound(&mut self, solver: &mut Formula, bound: usize)
        ensures
            final(self).network == old(self).network,
            final(self).inputs@ == old(self).inputs@,
            outputs_up_to(old(self).inputs@.len() as int, bound as int) <= old(self).rhs@.len() ==> {
                &&& final(self).rhs@ == old(self).rhs@
                &&& *final(solver) == *old(solver)
            },
            outputs_up_to(old(self).inputs@.len() as int, bound as int) > old(self).rhs@.len() ==> {
                let more = outputs_up_to(old(self).inputs@.len() as int, bound as int) - old(self).rhs@.len();
                let fresh = output_lits(old(solver).num_vars() as int, more);
                &&& final(self).rhs@ == old(self).rhs@ + fresh
                &&& final(solver).networks == old(solver).networks
                &&& final(solver).roles@ == old(solver).roles@ + output_roles(old(self).network, more)
                &&& final(solver).rules() == old(solver).rules().push(
                    Rule::Count {
                        network: old(self).network,
                        inputs: old(self).inputs@,
                        first: old(self).rhs@.len() as usize,
                        outputs: fresh,
                    },
                )
            },
    {
        let d: usize = outputs_needed(self.inputs.len(), bound);
        let have: usize = self.rhs.len();
        if d > have {
            let fresh: Vec<Bool> = new_outputs(solver, self.network, d - have);
            append(&mut self.rhs, &fresh);
            solver.add(
                Constraint::Count { network: self.network, inputs: copy_lits(&self.inputs), first: have, outputs: fresh },
            );
        }
    }

    /// The output for more than `k` inputs, or the constant false where
    /// the totalizer has no such output.
    pub open spec fn over(&self, k: int) -> Bool {
        if 0 <= k < self.rhs@.len() {
            self.rhs@[k]
        } else {
            Bool::Const(false)
        }
    }

    /// The output for more than `k`, or the constant false where there is none.
    pub fn exceeds(&self, k: usize) -> (r: Bool)
        ensures
            r == self.over(k as int),
    {
        if k < self.rhs.len() {
            self.rhs[k]
        } else {
            Bool::Const(false)
        }
    }
}

/// The sum of its inputs in unary: `digits[k]` holds exactly when more
/// than `k` of the inputs hold.
#[derive(Debug, PartialEq, Eq)]
pub struct Unary {
    pub network: usize,
    pub digits: Vec<Bool>,
}

/// The term for "at least `k`" of a unary sum with the digits `digits`.
pub open spec fn unary_gte(digits: Seq<Bool>, k: int) -> Bool {
    if k <= 0 {
        Bool::Const(true)
    } else if k <= digits.len() {
        digits[k - 1]
    } else {
        Bool::Const(false)
    }
}

/// The term for "at most `k`" of a unary sum with the digits `digits`.
pub open spec fn unary_lte(digits: Seq<Bool>, k: int) -> Bool {
    unary_gte(digits, k + 1).negation()
}

impl Unary {
    fn build(solver: &mut Formula, lits: Vec<Bool>, d: usize) -> (sum: Unary)
        ensures
            sum.network == old(solver).networks@.len(),
            sum.digits@ == output_lits(old(solver).num_vars() as int, d as int),
            final(solver).networks@ == old(solver).networks@.push(Network::UnarySum),
            final(solver).roles@ == old(solver).roles@ + output_roles(sum.network, d as int),
            final(solver).rules() == old(solver).rules().push(
                Rule::Count { network: sum.network, inputs: lits@, first: 0, outputs: sum.digits@ },
            ),
    {
        let network: usize = solver.new_network(Network::UnarySum);
        let digits: Vec<Bool> = new_outputs(solver, network, d);
        solver.add(Constraint::Count { network, inputs: lits, first: 0, outputs: copy_lits(&digits) });
        Unary { network, digits }
    }

    /// The sum of `lits`, with one digit for each of them.
    pub fn sum(solver: &mut Formula, lits: Vec<Bool>) -> (sum: Unary)
        ensures
            sum.network == old(solver).networks@.len(),
            sum.digits@ == output_lits(old(solver).num_vars() as int, lits@.len() as int),
            final(solver).networks@ == old(solver).networks@.push(Network::UnarySum),
            final(solver).roles@ == old(solver).roles@ + output_roles(sum.network, lits@.len() as int),
            final(solver).rules() == old(solver).rules().push(
                Rule::Count { network: sum.network, inputs: lits@, first: 0, outputs: sum.digits@ },
            ),
    {
        let d: usize = lits.len();
        Unary::build(solver, lits, d)
    }

    /// The sum of `lits`, cut off after `truncate` digits.
    pub fn sum_truncate(solver: &mut Formula, lits: Vec<Bool>, truncate: usize) -> (sum: Unary)
        ensures
            sum.network == old(solver).networks@.len(),
            sum.digits@ == output_lits(
                old(solver).num_vars() as int,
                if truncate < lits@.len() {
                    truncate as int
                } else {
                    lits@.len() as int
                },
            ),
            final(solver).networks@ == old(solver).networks@.push(Network::UnarySum),
            final(solver).roles@ == old(solver).roles@ + output_roles(
                sum.network,
                if truncate < lits@.len() {
                    truncate as int
                } else {
                    lits@.len() as int
                },
            ),
            final(solver).rules() == old(solver).rules().push(
                Rule::Count { network: sum.network, inputs: lits@, first: 0, outputs: sum.digits@ },
            ),
    {
        let d: usize = if truncate < lits.len() {
            truncate
        } else {
            lits.len()
        };
        Unary::build(solver, lits, d)
    }

    /// The term that holds when the sum is at least `k`.
    pub fn gte_const(&self, k: usize) -> (r: Bool)
        ensures
            r == unary_gte(self.digits@, k as int),
    {
        if k == 0 {
            Bool::Const(true)
        } else if k <= self.digits.len() {
            self.digits[k - 1]
        } else {
            Bool::Const(false)
        }
    }

    /// The term that holds when the sum is at most `k`.
    pub fn lte_const(&self, k: usize) -> (r: Bool)
        ensures
            r == unary_lte(self.digits@, k as int),
    {
        if k < self.digits.len() {
            self.digits[k].negate()
        } else {
            Bool::Const(true)
        }
    }
}

/// In every model of a unary sum's rule, the term for "at least `k`" says
/// so, as far as the digits reach or the inputs cannot.
pub proof fn lemma_unary_gte(inputs: Seq<Bool>, digits: Seq<Bool>, m: Seq<bool>, k: int)
    requires
        outputs_count(inputs, 0, digits, m),
        k <= digits.len() || k > inputs.len(),
    ensures
        unary_gte(digits, k).holds(m) == (count_true(inputs, m) >= k),
        k - 1 <= digits.len() || k - 1 > inputs.len() ==> unary_lte(digits, k - 1).holds(m) == (count_true(inputs, m)
            < k),
{
    lemma_count_true_bounds(inputs, m);
    if 0 < k <= digits.len() {
        assert(digits[k - 1].holds(m) == (count_true(inputs, m) > 0 + (k - 1)));
    }
}

/// Follows the difference between the number of first and of second terms
/// of its pairs that hold: `outputs[k]` holds exactly when after some
/// prefix of the pairs the two numbers differ by more than `k`.
#[derive(Debug, PartialEq, Eq)]
pub struct CumulativeDiff {
    pub network: usize,
    pub pairs: Vec<(Bool, Bool)>,
    pub outputs: Vec<Bool>,
}

impl CumulativeDiff {
    /// Builds the network over `pairs`, following the difference up to
    /// `bound`.
    pub fn new(solver: &mut Formula, pairs: Vec<(Bool, Bool)>, bound: usize) -> (diff: CumulativeDiff)
        ensures
            diff.network == old(solver).networks@.len(),
            diff.pairs@ == pairs@,
            diff.outputs@ == output_lits(
                old(solver).num_vars() as int,
                outputs_up_to(pairs@.len() as int, bound as int),
            ),
            final(solver).networks@ == old(solver).networks@.push(Network::CumulativeDiff),
            final(solver).roles@ == old(solver).roles@ + output_roles(
                diff.network,
                outputs_up_to(pairs@.len() as int, bound as int),
            ),
            final(solver).rules() == old(solver).rules().push(
                Rule::CumulativeDiff { network: diff.network, pairs: pairs@, first: 0, outputs: diff.outputs@ },
            ),
    {
        let network: usize = solver.new_network(Network::CumulativeDiff);
        let d: usize = outputs_needed(pairs.len(), bound);
        let outputs: Vec<Bool> = new_outputs(solver, network, d);
        let kept: Vec<(Bool, Bool)> = copy_pairs(&pairs);
        solver.add(Constraint::CumulativeDiff { network, pairs, first: 0, outputs: copy_lits(&outputs) });
        CumulativeDiff { network, pairs: kept, outputs }
    }

    /// Raises the bound up to which the difference is followed to `bound`.
    pub fn extend(&mut self, solver: &mut Formula, bound: usize)
        ensures
            final(self).network == old(self).network,
            final(self).pairs@ == old(self).pairs@,
            outputs_up_to(old(self).pairs@.len() as int, bound as int) <= old(self).outputs@.len() ==> {
                &&& final(self).outputs@ == old(self).outputs@
                &&& *final(solver) == *old(solver)
            },
            outputs_up_to(old(self).pairs@.len() as int, bound as int) > old(self).outputs@.len() ==> {
                let more = outputs_up_to(old(self).pairs@.len() as int, bound as int) - old(self).outputs@.len();
                let fresh = output_lits(old(solver).num_vars() as int, more);
                &&& final(self).outputs@ == old(self).outputs@ + fresh
                &&& final(solver).networks == old(solver).networks
                &&& final(solver).roles@ == old(solver).roles@ + output_roles(old(self).network, more)
                &&& final(solver).rules() == old(solver).rules().push(
                    Rule::CumulativeDiff {
                        network: old(self).network,
                        pairs: old(self).pairs@,
                        first: old(self).outputs@.len() as usize,
                        outputs: fresh,
                    },
                )
            },
    {
        let d: usize = outputs_needed(self.pairs.len(), bound);
        let have: usize = self.outputs.len();
        if d > have {
            let fresh: Vec<Bool> = new_outputs(solver, self.network, d - have);
            append(&mut self.outputs, &fresh);
            solver.add(
                Constraint::CumulativeDiff {
                    network: self.network,
                    pairs: copy_pairs(&self.pairs),
                    first: have,
                    outputs: fresh,
                },
            );
        }
    }

    /// The output for a difference of more than `k`, or the constant false
    /// where the network has no such output.
    pub open spec fn over(&self, k: int) -> Bool {
        if 0 <= k < self.outputs@.len() {
            self.outputs@[k]
        } else {
            Bool::Const(false)
        }
    }

    /// The output for more than `k`, or the constant false where there is none.
    pub fn exceeds(&self, k: usize) -> (r: Bool)
        ensures
            r == self.over(k as int),
    {
        if k < self.outputs.len() {
            self.outputs[k]
        } else {
            Bool::Const(false)
        }
    }
}

/// The two counts never differ by more than the number of pairs.
pub proof fn lemma_diff_bounded(pairs: Seq<(Bool, Bool)>, m: Seq<bool>, bound: int)
    requires
        bound >= pairs.len(),
    ensures
        !diff_exceeds(pairs, m, bound),
{
    assert forall|i: int| 0 <= i <= pairs.len() implies !#[trigger] diff_exceeds_at(pairs, m, i, bound) by {
        lemma_count_true_bounds(firsts(pairs.take(i)), m);
        lemma_count_true_bounds(seconds(pairs.take(i)), m);
    }
}

} // verus!
