//! The catalog of soft constraints.
//!
//! A soft constraint costs its weight when it is broken. Until it is first
//! used it is a recipe (`Constructable`); once built it is a literal to
//! assume (`Relaxable`), with the recipe of the next, weaker constraint to
//! fall back on when the literal cannot be kept.

use vstd::prelude::*;
use crate::lit::{Bool, TeamId};
use crate::networks::{CumulativeDiff, Totalizer};

verus! {

/// How to build the literal of a soft constraint.
#[allow(inconsistent_fields)]
#[derive(Debug, PartialEq, Eq)]
pub enum Relax {
    /// Literals to assume one after the other, the next when the one before
    /// had to be given up.
    Chain(Vec<Bool>),
    /// A cumulative difference over `lits` that should not exceed `bound`.
    NewCumDiff { lits: Vec<(Bool, Bool)>, bound: usize },
    /// A unary sum of `lits`, cut off after `truncate` digits if given, of
    /// which at least `min` and at most `max` should hold.
    NewUnary { lits: Vec<Bool>, truncate: Option<usize>, min: Option<usize>, max: Option<usize> },
    /// A totalizer over `lits` of which at most `bound` should hold.
    NewTotalizer { lits: Vec<Bool>, bound: usize },
    /// A totalizer to be raised to the bound given.
    ExtendTotalizer(Totalizer, usize),
    /// A cumulative difference to be raised to `bound`.
    ExtendCumDiff { diff: CumulativeDiff, bound: usize },
    /// The two games of `t1` and `t2` should lie more than `min` slots
    /// apart.
    Separation { t1: TeamId, t2: TeamId, min: usize },
}

/// A soft constraint of the catalog.
#[derive(Debug, PartialEq, Eq)]
pub enum Soft {
    /// Stands in for an entry while it is being rebuilt.
    Undef,
    /// Weight, literal to assume, and the weight and recipe of what follows.
    Relaxable(usize, Bool, Option<(usize, Relax)>),
    /// Weight and recipe.
    Constructable(usize, Relax),
}

/// The mathematical content of a `Relax`.
#[allow(inconsistent_fields)]
pub enum RelaxView {
    Chain(Seq<Bool>),
    NewCumDiff { lits: Seq<(Bool, Bool)>, bound: usize },
    NewUnary { lits: Seq<Bool>, truncate: Option<usize>, min: Option<usize>, max: Option<usize> },
    NewTotalizer { lits: Seq<Bool>, bound: usize },
    ExtendTotalizer { network: usize, inputs: Seq<Bool>, rhs: Seq<Bool>, bound: usize },
    ExtendCumDiff { network: usize, pairs: Seq<(Bool, Bool)>, outputs: Seq<Bool>, bound: usize },
    Separation { t1: TeamId, t2: TeamId, min: usize },
}

/// The mathematical content of a `Soft`.
pub enum SoftView {
    Undef,
    Relaxable { cost: usize, lit: Bool, next: Option<(usize, RelaxView)> },
    Constructable { cost: usize, relax: RelaxView },
}

impl View for Relax {
    type V = RelaxView;

    open spec fn view(&self) -> RelaxView {
        match *self {
            Relax::Chain(lits) => RelaxView::Chain(lits@),
            Relax::NewCumDiff { lits, bound } => RelaxView::NewCumDiff { lits: lits@, bound },
            Relax::NewUnary { lits, truncate, min, max } => RelaxView::NewUnary { lits: lits@, truncate, min, max },
            Relax::NewTotalizer { lits, bound } => RelaxView::NewTotalizer { lits: lits@, bound },
            Relax::ExtendTotalizer(tot, bound) => RelaxView::ExtendTotalizer {
                network: tot.network,
                inputs: tot.inputs@,
                rhs: tot.rhs@,
                bound,
            },
            Relax::ExtendCumDiff { diff, bound } => RelaxView::ExtendCumDiff {
                network: diff.network,
                pairs: diff.pairs@,
                outputs: diff.outputs@,
                bound,
            },
            Relax::Separation { t1, t2, min } => RelaxView::Separation { t1, t2, min },
        }
    }
}

/// The weight and content of what follows a soft constraint.
pub open spec fn next_view(next: Option<(usize, Relax)>) -> Option<(usize, RelaxView)> {
    match next {
        Some((cost, relax)) => Some((cost, relax@)),
        None => None,
    }
}

impl View for Soft {
    type V = SoftView;

    open spec fn view(&self) -> SoftView {
        match *self {
            Soft::Undef => SoftView::Undef,
            Soft::Relaxable(cost, lit, next) => SoftView::Relaxable { cost, lit, next: next_view(next) },
            Soft::Constructable(cost, relax) => SoftView::Constructable { cost, relax: relax@ },
        }
    }
}

impl SoftView {
    /// The weight of a soft constraint; `Undef` has none.
    pub open spec fn weight(self) -> usize
        recommends
            !(self is Undef),
    {
        match self {
            SoftView::Relaxable { cost, lit, next } => cost,
            SoftView::Constructable { cost, relax } => cost,
            SoftView::Undef => 0,
        }
    }
}

impl Default for Soft {
    fn default() -> (r: Soft)
        ensures
            r@ == SoftView::Undef,
    {
        Soft::Undef
    }
}

impl Soft {
    /// The cost of breaking the constraint.
    pub fn weight(&self) -> (w: usize)
        requires
            !(self@ is Undef),
        ensures
            w == self@.weight(),
    {
        match self {
            Soft::Relaxable(w, _, _) => *w,
            Soft::Constructable(w, _) => *w,
            Soft::Undef => 0,
        }
    }
}

/// The content of a catalog, entry by entry.
pub open spec fn catalog(soft: Seq<Soft>) -> Seq<SoftView> {
    Seq::new(soft.len(), |i: int| soft[i]@)
}

/// A constraint on how many of `lits` hold: at least `min` and at most
/// `max`, where given. It is hard when `cost` is `None`, and else costs
/// `cost` for each unit by which it is missed.
#[derive(Debug)]
pub struct CardinalityConstraint {
    pub name: String,
    pub lits: Vec<Bool>,
    pub min: Option<u32>,
    pub max: Option<u32>,
    pub cost: Option<u32>,
}

/// The mathematical content of a `CardinalityConstraint`; the name is
/// left out.
pub struct CardView {
    pub lits: Seq<Bool>,
    pub min: Option<u32>,
    pub max: Option<u32>,
    pub cost: Option<u32>,
}

impl View for CardinalityConstraint {
    type V = CardView;

    open spec fn view(&self) -> CardView {
        CardView { lits: self.lits@, min: self.min, max: self.max, cost: self.cost }
    }
}

/// The content of a list of cardinality constraints.
pub open spec fn cards_view(cards: Seq<CardinalityConstraint>) -> Seq<CardView> {
    Seq::new(cards.len(), |i: int| cards[i]@)
}

} // verus!
