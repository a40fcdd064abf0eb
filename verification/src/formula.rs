//! The formula under construction: variables with their roles, and rules.

use vstd::prelude::*;
use crate::lit::{count_holding, count_true, Bool, SlotId, TeamId};

verus! {

/// What a variable of the formula stands for.
#[allow(inconsistent_fields)]
#[derive(Clone, Copy, PartialEq, Eq, Structural, Debug, Hash)]
pub enum Role {
    /// Team `home` hosts team `away` in slot `slot` (positions in the league).
    Match { slot: usize, home: usize, away: usize },
    /// Team `team` plays at home in slot `slot`.
    Home { slot: usize, team: usize },
    /// The game of `first` at home against `second` lies in the first half.
    FirstHalf { first: usize, second: usize },
    /// The team `team_id` has a break in the slot `slot_id`, at home or away.
    Break { slot_id: SlotId, team_id: TeamId, at_home: bool },
    /// Teams meet again within `gap` slots.
    Separation { gap: usize },
    /// An output of the counting network `network`.
    Output { network: usize },
}

/// The kind of a counting network.
#[derive(Clone, Copy, PartialEq, Eq, Structural, Debug, Hash)]
pub enum Network {
    /// Counts its inputs up to a bound that can be raised.
    Totalizer,
    /// The sum of its inputs in unary, cut off at a length or not at all.
    UnarySum,
    /// Follows the difference of two running counts.
    CumulativeDiff,
}

/// A rule of the formula, over mathematical sequences.
pub enum Rule {
    /// At least one of the terms holds.
    Clause(Seq<Bool>),
    /// Exactly one of the terms holds.
    ExactlyOne(Seq<Bool>),
    /// At most one of the terms holds.
    AtMostOne(Seq<Bool>),
    /// `outputs[k]` holds exactly when more than `first + k` of `inputs`
    /// hold.
    Count { network: usize, inputs: Seq<Bool>, first: usize, outputs: Seq<Bool> },
    /// `outputs[k]` holds exactly when, after some prefix of `pairs`, the
    /// number of first terms that hold and the number of second terms that
    /// hold differ by more than `first + k`.
    CumulativeDiff { network: usize, pairs: Seq<(Bool, Bool)>, first: usize, outputs: Seq<Bool> },
}

/// The first terms of `pairs`.
pub open spec fn firsts(pairs: Seq<(Bool, Bool)>) -> Seq<Bool> {
    Seq::new(pairs.len(), |i: int| pairs[i].0)
}

/// The second terms of `pairs`.
pub open spec fn seconds(pairs: Seq<(Bool, Bool)>) -> Seq<Bool> {
    Seq::new(pairs.len(), |i: int| pairs[i].1)
}

/// After the first `i` pairs, the counts of first and of second terms that
/// hold differ by more than `bound`.
pub open spec fn diff_exceeds_at(pairs: Seq<(Bool, Bool)>, m: Seq<bool>, i: int, bound: int) -> bool {
    let a = count_true(firsts(pairs.take(i)), m);
    let b = count_true(seconds(pairs.take(i)), m);
    a - b > bound || b - a > bound
}

/// After some prefix of `pairs` the two counts differ by more than `bound`.
pub open spec fn diff_exceeds(pairs: Seq<(Bool, Bool)>, m: Seq<bool>, bound: int) -> bool {
    exists|i: int| 0 <= i <= pairs.len() && #[trigger] diff_exceeds_at(pairs, m, i, bound)
}

/// Each term `outputs[k]` holds exactly when more than `first + k` of
/// `inputs` hold.
pub open spec fn outputs_count(inputs: Seq<Bool>, first: int, outputs: Seq<Bool>, m: Seq<bool>) -> bool {
    forall|k: int| 0 <= k < outputs.len() ==> (#[trigger] outputs[k]).holds(m) == (count_true(inputs, m) > first + k)
}

/// Each term `outputs[k]` holds exactly when after some prefix of `pairs`
/// the two counts differ by more than `first + k`.
pub open spec fn outputs_diff(pairs: Seq<(Bool, Bool)>, first: int, outputs: Seq<Bool>, m: Seq<bool>) -> bool {
    forall|k: int| 0 <= k < outputs.len() ==> (#[trigger] outputs[k]).holds(m) == diff_exceeds(pairs, m, first + k)
}

impl Rule {
    /// Whether the model `m` obeys the rule.
    pub open spec fn holds(self, m: Seq<bool>) -> bool {
        match self {
            Rule::Clause(lits) => count_true(lits, m) >= 1,
            Rule::ExactlyOne(lits) => count_true(lits, m) == 1,
            Rule::AtMostOne(lits) => count_true(lits, m) <= 1,
            Rule::Count { network, inputs, first, outputs } => outputs_count(inputs, first as int, outputs, m),
            Rule::CumulativeDiff { network, pairs, first, outputs } => outputs_diff(pairs, first as int, outputs, m),
        }
    }
}

/// Whether the model `m` obeys every rule of `rules`.
pub open spec fn all_hold(rules: Seq<Rule>, m: Seq<bool>) -> bool {
    forall|i: int| 0 <= i < rules.len() ==> (#[trigger] rules[i]).holds(m)
}

/// A model obeys two lists of rules put together exactly when it obeys
/// each of them.
pub proof fn lemma_all_hold_concat(a: Seq<Rule>, b: Seq<Rule>, m: Seq<bool>)
    ensures
        all_hold(a + b, m) <==> all_hold(a, m) && all_hold(b, m),
{
    if all_hold(a + b, m) {
        assert forall|i: int| 0 <= i < a.len() implies (#[trigger] a[i]).holds(m) by {
            assert((a + b)[i] == a[i]);
        }
        assert forall|i: int| 0 <= i < b.len() implies (#[trigger] b[i]).holds(m) by {
            assert((a + b)[a.len() + i] == b[i]);
        }
    }
}

/// A model obeys a list of rules with one more exactly when it obeys the
/// list and the rule.
pub proof fn lemma_all_hold_push(a: Seq<Rule>, r: Rule, m: Seq<bool>)
    ensures
        all_hold(a.push(r), m) <==> all_hold(a, m) && r.holds(m),
{
    assert(a.push(r) =~= a + seq![r]);
    lemma_all_hold_concat(a, seq![r], m);
    assert(seq![r][0] == r);
}

/// A rule as the formula stores it.
#[derive(Debug, PartialEq, Eq)]
pub enum Constraint {
    Clause(Vec<Bool>),
    ExactlyOne(Vec<Bool>),
    AtMostOne(Vec<Bool>),
    Count { network: usize, inputs: Vec<Bool>, first: usize, outputs: Vec<Bool> },
    CumulativeDiff { network: usize, pairs: Vec<(Bool, Bool)>, first: usize, outputs: Vec<Bool> },
}

impl View for Constraint {
    type V = Rule;

    open spec fn view(&self) -> Rule {
        match *self {
            Constraint::Clause(lits) => Rule::Clause(lits@),
            Constraint::ExactlyOne(lits) => Rule::ExactlyOne(lits@),
            Constraint::AtMostOne(lits) => Rule::AtMostOne(lits@),
            Constraint::Count { network, inputs, first, outputs } => Rule::Count {
                network,
                inputs: inputs@,
                first,
                outputs: outputs@,
            },
            Constraint::CumulativeDiff { network, pairs, first, outputs } => Rule::CumulativeDiff {
                network,
                pairs: pairs@,
                first,
                outputs: outputs@,
            },
        }
    }
}

/// Whether after some prefix of `pairs` the counts of first and second terms
/// that hold under `model` differ by more than `bound`.
pub fn pairs_diff_exceeds(pairs: &Vec<(Bool, Bool)>, model: &Vec<bool>, first: usize, more: usize) -> (r: bool)
    ensures
        r == diff_exceeds(pairs@, model@, first + more),
{
    let ghost bound: int = first + more;
    let mut a: usize = 0;
    let mut b: usize = 0;
    let mut i: usize = 0;
    let mut found: bool = false;
    proof {
        assert(pairs@.take(0).len() == 0);
    }
    while i < pairs.len()
        invariant
            i <= pairs.len(),
            a <= i,
            b <= i,
            a == count_true(firsts(pairs@.take(i as int)), model@),
            b == count_true(seconds(pairs@.take(i as int)), model@),
            bound == first + more,
            found == (exists|j: int| 0 <= j <= i && #[trigger] diff_exceeds_at(pairs@, model@, j, bound)),
        decreases pairs.len() - i,
    {
        proof {
            assert(firsts(pairs@.take(i + 1)).drop_last() =~= firsts(pairs@.take(i as int)));
            assert(seconds(pairs@.take(i + 1)).drop_last() =~= seconds(pairs@.take(i as int)));
        }
        let p: (Bool, Bool) = pairs[i];
        if p.0.value(model) {
            a += 1;
        }
        if p.1.value(model) {
            b += 1;
        }
        i += 1;
        let d: usize = if a >= b {
            a - b
        } else {
            b - a
        };
        let now: bool = d > first && d - first > more;
        assert(now == diff_exceeds_at(pairs@, model@, i as int, bound));
        found = found || now;
    }
    found
}

impl Constraint {
    /// Whether `model` obeys the rule.
    pub fn check(&self, model: &Vec<bool>) -> (r: bool)
        ensures
            r == self@.holds(model@),
    {
        match self {
            Constraint::Clause(lits) => {
                let c: usize = count_holding(lits, model);
                c >= 1
            },
            Constraint::ExactlyOne(lits) => {
                let c: usize = count_holding(lits, model);
                c == 1
            },
            Constraint::AtMostOne(lits) => {
                let c: usize = count_holding(lits, model);
                c <= 1
            },
            Constraint::Count { network, inputs, first, outputs } => {
                let c: usize = count_holding(inputs, model);
                let mut k: usize = 0;
                let mut ok: bool = true;
                while k < outputs.len()
                    invariant
                        k <= outputs.len(),
                        c == count_true(inputs@, model@),
                        ok == (forall|j: int|
                            0 <= j < k ==> (#[trigger] outputs@[j]).holds(model@) == (c > *first + j)),
                    decreases outputs.len() - k,
                {
                    let d: bool = outputs[k].value(model);
                    let over: bool = c > *first && c - *first > k;
                    if d != over {
                        ok = false;
                    }
                    k += 1;
                }
                ok
            },
            Constraint::CumulativeDiff { network, pairs, first, outputs } => {
                let mut k: usize = 0;
                let mut ok: bool = true;
                while k < outputs.len()
                    invariant
                        k <= outputs.len(),
                        ok == (forall|j: int|
                            0 <= j < k ==> (#[trigger] outputs@[j]).holds(model@) == diff_exceeds(
                                pairs@,
                                model@,
                                *first + j,
                            )),
                    decreases outputs.len() - k,
                {
                    let d: bool = outputs[k].value(model);
                    let over: bool = pairs_diff_exceeds(pairs, model, *first, k);
                    if d != over {
                        ok = false;
                    }
                    k += 1;
                }
                ok
            },
        }
    }
}

/// A formula under construction. Variables are numbered from zero in the
/// order of their creation, and each carries the role it was created for.
#[derive(Debug)]
pub struct Formula {
    pub roles: Vec<Role>,
    pub constraints: Vec<Constraint>,
    pub networks: Vec<Network>,
}

impl Formula {
    /// The number of variables.
    pub open spec fn num_vars(&self) -> nat {
        self.roles@.len()
    }

    /// The rules, in the order in which they were added.
    pub open spec fn rules(&self) -> Seq<Rule> {
        Seq::new(self.constraints@.len(), |i: int| self.constraints@[i]@)
    }

    /// Whether the model `m` obeys every rule of the formula.
    pub open spec fn satisfied_by(&self, m: Seq<bool>) -> bool {
        all_hold(self.rules(), m)
    }

    /// A formula without variables and rules.
    pub fn new() -> (f: Formula)
        ensures
            f.num_vars() == 0,
            f.rules() == Seq::<Rule>::empty(),
            f.networks@ == Seq::<Network>::empty(),
    {
        let f = Formula { roles: Vec::new(), constraints: Vec::new(), networks: Vec::new() };
        assert(f.rules() =~= Seq::<Rule>::empty());
        f
    }

    /// Creates a variable for `role` and returns its positive literal.
    pub fn new_var(&mut self, role: Role) -> (v: Bool)
        ensures
            v is Lit,
            v->var == old(self).num_vars(),
            !v->negated,
            final(self).roles@ == old(self).roles@.push(role),
            final(self).constraints == old(self).constraints,
            final(self).networks == old(self).networks,
    {
        let var: usize = self.roles.len();
        self.roles.push(role);
        Bool::Lit { var, negated: false }
    }

    /// Registers a counting network of kind `kind` and returns its number.
    pub fn new_network(&mut self, kind: Network) -> (id: usize)
        ensures
            id == old(self).networks@.len(),
            final(self).networks@ == old(self).networks@.push(kind),
            final(self).roles == old(self).roles,
            final(self).constraints == old(self).constraints,
    {
        let id: usize = self.networks.len();
        self.networks.push(kind);
        id
    }

    /// Adds the rule `c`.
    pub fn add(&mut self, c: Constraint)
        ensures
            final(self).rules() == old(self).rules().push(c@),
            final(self).roles == old(self).roles,
            final(self).networks == old(self).networks,
    {
        self.constraints.push(c);
        assert(self.rules() =~= old(self).rules().push(c@));
    }

    /// Adds the rule that at least one of `lits` holds.
    pub fn add_clause(&mut self, lits: Vec<Bool>)
        ensures
            final(self).rules() == old(self).rules().push(Rule::Clause(lits@)),
            final(self).roles == old(self).roles,
            final(self).networks == old(self).networks,
    {
        self.add(Constraint::Clause(lits));
    }

    /// Adds the rule that exactly one of `lits` holds.
    pub fn assert_exactly_one(&mut self, lits: Vec<Bool>)
        ensures
            final(self).rules() == old(self).rules().push(Rule::ExactlyOne(lits@)),
            final(self).roles == old(self).roles,
            final(self).networks == old(self).networks,
    {
        self.add(Constraint::ExactlyOne(lits));
    }

    /// Adds the rule that at most one of `lits` holds.
    pub fn assert_at_most_one(&mut self, lits: Vec<Bool>)
        ensures
            final(self).rules() == old(self).rules().push(Rule::AtMostOne(lits@)),
            final(self).roles == old(self).roles,
            final(self).networks == old(self).networks,
    {
        self.add(Constraint::AtMostOne(lits));
    }

    /// Whether `model` obeys every rule of the formula.
    pub fn check(&self, model: &Vec<bool>) -> (r: bool)
        ensures
            r == self.satisfied_by(model@),
    {
        let mut i: usize = 0;
        while i < self.constraints.len()
            invariant
                i <= self.constraints.len(),
                forall|j: int| 0 <= j < i ==> (#[trigger] self.rules()[j]).holds(model@),
            decreases self.constraints.len() - i,
        {
            if !self.constraints[i].check(model) {
                assert(!self.rules()[i as int].holds(model@));
                return false;
            }
            i += 1;
        }
        true
    }
}

} // verus!
