//! Boolean terms and their value under a model.

use vstd::prelude::*;

verus! {

/// Identifier of a team.
pub type TeamId = i64;

/// Identifier of a time slot.
pub type SlotId = i64;

/// A Boolean term: a constant, or a variable of the formula with a sign.
#[derive(Clone, Copy, PartialEq, Eq, Structural, Debug, Hash)]
pub enum Bool {
    Const(bool),
    Lit { var: usize, negated: bool },
}

impl Bool {
    /// The value of the term under the model `m`, which lists the value of
    /// each variable; a variable beyond the end of `m` is false.
    pub open spec fn holds(self, m: Seq<bool>) -> bool {
        match self {
            Bool::Const(c) => c,
            Bool::Lit { var, negated } => (var < m.len() && m[var as int]) != negated,
        }
    }

    /// The term with the opposite value under every model.
    pub open spec fn negation(self) -> Bool {
        match self {
            Bool::Const(c) => Bool::Const(!c),
            Bool::Lit { var, negated } => Bool::Lit { var, negated: !negated },
        }
    }

    /// Whether the term is a variable with a sign rather than a constant.
    pub open spec fn is_lit(self) -> bool {
        self is Lit
    }

    /// The term with the opposite value.
    pub fn negate(self) -> (r: Bool)
        ensures
            r == self.negation(),
    {
        match self {
            Bool::Const(c) => Bool::Const(!c),
            Bool::Lit { var, negated } => Bool::Lit { var, negated: !negated },
        }
    }

    /// The variable and the sign of the term, unless it is a constant.
    pub fn lit(self) -> (r: Option<(usize, bool)>)
        ensures
            r == (match self {
                Bool::Const(_) => None::<(usize, bool)>,
                Bool::Lit { var, negated } => Some((var, negated)),
            }),
    {
        match self {
            Bool::Const(_) => None,
            Bool::Lit { var, negated } => Some((var, negated)),
        }
    }

    /// The value of the term under `model`.
    pub fn value(self, model: &Vec<bool>) -> (b: bool)
        ensures
            b == self.holds(model@),
    {
        match self {
            Bool::Const(c) => c,
            Bool::Lit { var, negated } => {
                let v: bool = var < model.len() && model[var];
                v != negated
            },
        }
    }
}

/// Negating a term flips its value and negating twice gives the term back.
pub proof fn lemma_negation(b: Bool, m: Seq<bool>)
    ensures
        b.negation().holds(m) == !b.holds(m),
        b.negation().negation() == b,
        b.negation().is_lit() == b.is_lit(),
{
}

/// The number of terms of `lits` that hold under `m`.
pub open spec fn count_true(lits: Seq<Bool>, m: Seq<bool>) -> nat
    decreases lits.len(),
{
    if lits.len() == 0 {
        0
    } else {
        count_true(lits.drop_last(), m) + if lits.last().holds(m) {
            1nat
        } else {
            0nat
        }
    }
}

/// The terms of `lits`, each negated.
pub open spec fn negate_all(lits: Seq<Bool>) -> Seq<Bool> {
    Seq::new(lits.len(), |i: int| lits[i].negation())
}

/// No more terms hold than there are.
pub proof fn lemma_count_true_bounds(lits: Seq<Bool>, m: Seq<bool>)
    ensures
        count_true(lits, m) <= lits.len(),
    decreases lits.len(),
{
    if lits.len() > 0 {
        lemma_count_true_bounds(lits.drop_last(), m);
    }
}

/// One more term counts if it holds.
pub proof fn lemma_count_true_push(lits: Seq<Bool>, b: Bool, m: Seq<bool>)
    ensures
        count_true(lits.push(b), m) == count_true(lits, m) + if b.holds(m) {
            1nat
        } else {
            0nat
        },
{
    assert(lits.push(b).drop_last() =~= lits);
}

/// The count of two lists put together is the sum of their counts.
pub proof fn lemma_count_true_concat(a: Seq<Bool>, b: Seq<Bool>, m: Seq<bool>)
    ensures
        count_true(a + b, m) == count_true(a, m) + count_true(b, m),
    decreases b.len(),
{
    if b.len() == 0 {
        assert(a + b =~= a);
    } else {
        assert((a + b).drop_last() =~= a + b.drop_last());
        lemma_count_true_concat(a, b.drop_last(), m);
    }
}

/// A count of zero means that no term holds; a positive count, that one does.
pub proof fn lemma_count_true_zero(lits: Seq<Bool>, m: Seq<bool>)
    ensures
        count_true(lits, m) == 0 <==> (forall|i: int| 0 <= i < lits.len() ==> !(#[trigger] lits[i]).holds(m)),
    decreases lits.len(),
{
    if lits.len() > 0 {
        let front = lits.drop_last();
        lemma_count_true_zero(front, m);
        if count_true(lits, m) == 0 {
            assert forall|i: int| 0 <= i < lits.len() implies !(#[trigger] lits[i]).holds(m) by {
                if i < front.len() {
                    assert(front[i] == lits[i]);
                }
            }
        } else {
            if lits.last().holds(m) {
                assert(lits[lits.len() - 1].holds(m));
            } else {
                let i = choose|i: int| 0 <= i < front.len() && (#[trigger] front[i]).holds(m);
                assert(lits[i] == front[i]);
            }
        }
    }
}

/// Of the negated terms, those hold that did not hold before.
pub proof fn lemma_count_true_negated(lits: Seq<Bool>, m: Seq<bool>)
    ensures
        count_true(negate_all(lits), m) + count_true(lits, m) == lits.len(),
    decreases lits.len(),
{
    if lits.len() > 0 {
        assert(negate_all(lits).drop_last() =~= negate_all(lits.drop_last()));
        lemma_count_true_negated(lits.drop_last(), m);
    }
}

/// The number of terms of `lits` that hold under `model`.
pub fn count_holding(lits: &Vec<Bool>, model: &Vec<bool>) -> (c: usize)
    ensures
        c == count_true(lits@, model@),
{
    let mut c: usize = 0;
    let mut i: usize = 0;
    while i < lits.len()
        invariant
            i <= lits.len(),
            c <= i,
            c == count_true(lits@.take(i as int), model@),
        decreases lits.len() - i,
    {
        assert(lits@.take(i + 1).drop_last() =~= lits@.take(i as int));
        if lits[i].value(model) {
            c += 1;
        }
        i += 1;
    }
    assert(lits@.take(lits.len() as int) =~= lits@);
    c
}

/// A copy of `lits` with each term negated.
pub fn negated(lits: &Vec<Bool>) -> (r: Vec<Bool>)
    ensures
        r@ == negate_all(lits@),
{
    let mut r: Vec<Bool> = Vec::new();
    let mut i: usize = 0;
    while i < lits.len()
        invariant
            i <= lits.len(),
            r@ == negate_all(lits@.take(i as int)),
        decreases lits.len() - i,
    {
        r.push(lits[i].negate());
        assert(r@ =~= negate_all(lits@.take(i + 1)));
        i += 1;
    }
    assert(lits@.take(lits.len() as int) =~= lits@);
    r
}

/// A copy of `lits`.
pub fn copy_lits(lits: &Vec<Bool>) -> (r: Vec<Bool>)
    ensures
        r@ == lits@,
{
    let mut r: Vec<Bool> = Vec::new();
    let mut i: usize = 0;
    while i < lits.len()
        invariant
            i <= lits.len(),
            r@ == lits@.take(i as int),
        decreases lits.len() - i,
    {
        r.push(lits[i]);
        assert(r@ =~= lits@.take(i + 1));
        i += 1;
    }
    assert(lits@.take(lits.len() as int) =~= lits@);
    r
}

/// The one term `a` as a vector.
pub fn one(a: Bool) -> (r: Vec<Bool>)
    ensures
        r@ == seq![a],
{
    let mut r: Vec<Bool> = Vec::new();
    r.push(a);
    assert(r@ =~= seq![a]);
    r
}

/// The two terms `a` and `b` as a vector.
pub fn two(a: Bool, b: Bool) -> (r: Vec<Bool>)
    ensures
        r@ == seq![a, b],
{
    let mut r: Vec<Bool> = Vec::new();
    r.push(a);
    r.push(b);
    assert(r@ =~= seq![a, b]);
    r
}

/// The three terms `a`, `b` and `c` as a vector.
pub fn three(a: Bool, b: Bool, c: Bool) -> (r: Vec<Bool>)
    ensures
        r@ == seq![a, b, c],
{
    let mut r: Vec<Bool> = Vec::new();
    r.push(a);
    r.push(b);
    r.push(c);
    assert(r@ =~= seq![a, b, c]);
    r
}

} // verus!
