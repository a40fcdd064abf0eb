//! The constraints of an instance, as the data says them.

use vstd::prelude::*;
use crate::lit::{SlotId, TeamId};

verus! {

/// CA1: each team of `teams` plays at most `max` games at home (`home`) or
/// away in the slots `slots`.
#[derive(Debug)]
pub struct Ca1 {
    pub hard: bool,
    pub penalty: u32,
    pub home: bool,
    pub teams: Vec<TeamId>,
    pub slots: Vec<SlotId>,
    pub max: u32,
    pub min: Option<u32>,
}

/// CA2: each team of `teams1` plays at most `max` games at home, away or
/// either (`home`) against the teams of `teams2` in the slots `slots`.
#[derive(Debug)]
pub struct Ca2 {
    pub hard: bool,
    pub penalty: u32,
    pub home: Option<bool>,
    /// Whether the constraint counts over all of `slots` together.
    pub global: bool,
    pub teams1: Vec<TeamId>,
    pub teams2: Vec<TeamId>,
    pub slots: Vec<SlotId>,
    pub max: u32,
    pub min: Option<u32>,
}

/// CA3: each team of `teams1` plays at most `max` games at home, away or
/// either against the teams of `teams2` in every run of `intp` slots.
#[derive(Debug)]
pub struct Ca3 {
    pub hard: bool,
    pub penalty: u32,
    pub home: Option<bool>,
    /// Whether the constraint counts over runs of slots.
    pub by_slots: bool,
    pub teams1: Vec<TeamId>,
    pub teams2: Vec<TeamId>,
    pub max: u32,
    pub intp: u32,
    pub min: Option<u32>,
}

/// CA4: the teams of `teams1` together play at most `max` games at home,
/// away or either against the teams of `teams2`, in all of `slots`
/// (`global`) or in each of them.
#[derive(Debug)]
pub struct Ca4 {
    pub hard: bool,
    pub penalty: u32,
    pub global: bool,
    pub home: Option<bool>,
    pub teams1: Vec<TeamId>,
    pub teams2: Vec<TeamId>,
    pub slots: Vec<SlotId>,
    pub max: u32,
    pub min: Option<u32>,
}

/// A capacity constraint.
#[derive(Debug)]
pub enum Capacity {
    Ca1(Ca1),
    Ca2(Ca2),
    Ca3(Ca3),
    Ca4(Ca4),
}

/// GA1: at least `min` and at most `max` of the games `meetings` take
/// place in the slots `slots`.
#[derive(Debug)]
pub struct Ga1 {
    pub hard: bool,
    pub penalty: Option<u32>,
    pub min: Option<u32>,
    pub max: Option<u32>,
    pub slots: Vec<SlotId>,
    pub meetings: Vec<(TeamId, TeamId)>,
}

/// BR1: the one team of `teams` has at most `intp` breaks at home, away or
/// either in the slots `slots`.
#[derive(Debug)]
pub struct Br1 {
    pub hard: bool,
    pub penalty: Option<u32>,
    pub teams: Vec<TeamId>,
    pub slots: Vec<SlotId>,
    pub intp: u32,
    pub home: Option<bool>,
}

/// BR2: the teams of `teams` have at most `intp` breaks in all in the
/// slots `slots`.
#[derive(Debug)]
pub struct Br2 {
    pub hard: bool,
    pub penalty: Option<u32>,
    /// Whether the constraint has a mode that is dealt with.
    pub regular_or_any_venue: bool,
    pub teams: Vec<TeamId>,
    pub slots: Vec<SlotId>,
    pub intp: u32,
}

/// A break constraint.
#[derive(Debug)]
pub enum BreakLimit {
    Br1(Br1),
    Br2(Br2),
}

/// FA2: after every slot, any two teams of `teams` have played numbers of
/// home games that differ by at most `intp`.
#[derive(Debug)]
pub struct Fa2 {
    pub hard: bool,
    pub penalty: i64,
    /// Whether the constraint counts home games.
    pub home_games: bool,
    pub teams: Vec<TeamId>,
    pub intp: u32,
}

/// SE1: the two games of any two teams of `teams` lie at least `min` slots
/// apart.
#[derive(Debug)]
pub struct Se1 {
    pub hard: bool,
    pub penalty: i64,
    pub min: i32,
    pub max: Option<i64>,
    pub teams: Vec<TeamId>,
}

/// All constraints of an instance, group by group.
#[derive(Debug)]
pub struct Constraints {
    pub capacity: Vec<Capacity>,
    pub game: Vec<Ga1>,
    pub breaks: Vec<BreakLimit>,
    pub fairness: Vec<Fa2>,
    pub separation: Vec<Se1>,
}

/// The cost of a constraint: none if it is hard, else its penalty.
pub open spec fn cost_of(hard: bool, penalty: u32) -> Option<u32> {
    if hard {
        None
    } else {
        Some(penalty)
    }
}

/// The mathematical content of a capacity constraint of any kind: the
/// fields that its kind has, and for the others nothing.
pub struct CapacityView {
    /// 1 to 4, for CA1 to CA4.
    pub kind: int,
    pub hard: bool,
    pub penalty: u32,
    pub home: Option<bool>,
    /// `global` of CA2 and CA4, `by_slots` of CA3.
    pub flag: bool,
    pub teams1: Seq<TeamId>,
    pub teams2: Seq<TeamId>,
    pub slots: Seq<SlotId>,
    pub max: u32,
    pub intp: u32,
    pub min: Option<u32>,
}

impl View for Capacity {
    type V = CapacityView;

    open spec fn view(&self) -> CapacityView {
        match *self {
            Capacity::Ca1(c) => CapacityView {
                kind: 1,
                hard: c.hard,
                penalty: c.penalty,
                home: Some(c.home),
                flag: false,
                teams1: c.teams@,
                teams2: Seq::empty(),
                slots: c.slots@,
                max: c.max,
                intp: 0,
                min: c.min,
            },
            Capacity::Ca2(c) => CapacityView {
                kind: 2,
                hard: c.hard,
                penalty: c.penalty,
                home: c.home,
                flag: c.global,
                teams1: c.teams1@,
                teams2: c.teams2@,
                slots: c.slots@,
                max: c.max,
                intp: 0,
                min: c.min,
            },
            Capacity::Ca3(c) => CapacityView {
                kind: 3,
                hard: c.hard,
                penalty: c.penalty,
                home: c.home,
                flag: c.by_slots,
                teams1: c.teams1@,
                teams2: c.teams2@,
                slots: Seq::empty(),
                max: c.max,
                intp: c.intp,
                min: c.min,
            },
            Capacity::Ca4(c) => CapacityView {
                kind: 4,
                hard: c.hard,
                penalty: c.penalty,
                home: c.home,
                flag: c.global,
                teams1: c.teams1@,
                teams2: c.teams2@,
                slots: c.slots@,
                max: c.max,
                intp: 0,
                min: c.min,
            },
        }
    }
}

/// The mathematical content of a GA1 constraint.
pub struct Ga1View {
    pub hard: bool,
    pub penalty: Option<u32>,
    pub min: Option<u32>,
    pub max: Option<u32>,
    pub slots: Seq<SlotId>,
    pub meetings: Seq<(TeamId, TeamId)>,
}

impl View for Ga1 {
    type V = Ga1View;

    open spec fn view(&self) -> Ga1View {
        Ga1View {
            hard: self.hard,
            penalty: self.penalty,
            min: self.min,
            max: self.max,
            slots: self.slots@,
            meetings: self.meetings@,
        }
    }
}

/// The mathematical content of a break constraint of either kind.
pub struct BreakLimitView {
    /// 1 for BR1, 2 for BR2.
    pub kind: int,
    pub hard: bool,
    pub penalty: Option<u32>,
    pub teams: Seq<TeamId>,
    pub slots: Seq<SlotId>,
    pub intp: u32,
    pub home: Option<bool>,
    pub regular_or_any_venue: bool,
}

impl View for BreakLimit {
    type V = BreakLimitView;

    open spec fn view(&self) -> BreakLimitView {
        match *self {
            BreakLimit::Br1(c) => BreakLimitView {
                kind: 1,
                hard: c.hard,
                penalty: c.penalty,
                teams: c.teams@,
                slots: c.slots@,
                intp: c.intp,
                home: c.home,
                regular_or_any_venue: false,
            },
            BreakLimit::Br2(c) => BreakLimitView {
                kind: 2,
                hard: c.hard,
                penalty: c.penalty,
                teams: c.teams@,
                slots: c.slots@,
                intp: c.intp,
                home: None,
                regular_or_any_venue: c.regular_or_any_venue,
            },
        }
    }
}

/// The mathematical content of an FA2 constraint.
pub struct Fa2View {
    pub hard: bool,
    pub penalty: i64,
    pub home_games: bool,
    pub teams: Seq<TeamId>,
    pub intp: u32,
}

impl View for Fa2 {
    type V = Fa2View;

    open spec fn view(&self) -> Fa2View {
        Fa2View { hard: self.hard, penalty: self.penalty, home_games: self.home_games, teams: self.teams@, intp: self.intp }
    }
}

/// The mathematical content of an SE1 constraint.
pub struct Se1View {
    pub hard: bool,
    pub penalty: i64,
    pub min: i32,
    pub max: Option<i64>,
    pub teams: Seq<TeamId>,
}

impl View for Se1 {
    type V = Se1View;

    open spec fn view(&self) -> Se1View {
        Se1View { hard: self.hard, penalty: self.penalty, min: self.min, max: self.max, teams: self.teams@ }
    }
}

/// The mathematical content of the constraints of an instance.
pub struct ConstraintsView {
    pub capacity: Seq<CapacityView>,
    pub game: Seq<Ga1View>,
    pub breaks: Seq<BreakLimitView>,
    pub fairness: Seq<Fa2View>,
    pub separation: Seq<Se1View>,
}

impl View for Constraints {
    type V = ConstraintsView;

    open spec fn view(&self) -> ConstraintsView {
        ConstraintsView {
            capacity: Seq::new(self.capacity@.len(), |i: int| self.capacity@[i]@),
            game: Seq::new(self.game@.len(), |i: int| self.game@[i]@),
            breaks: Seq::new(self.breaks@.len(), |i: int| self.breaks@[i]@),
            fairness: Seq::new(self.fairness@.len(), |i: int| self.fairness@[i]@),
            separation: Seq::new(self.separation@.len(), |i: int| self.separation@[i]@),
        }
    }
}

} // verus!
