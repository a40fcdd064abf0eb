//! From the constraints of an instance to the tasks of the encoder.
//!
//! A task is one step of the encoding: a rule to add, a cardinality
//! constraint over terms of the table or over break variables, a limit on a
//! cumulative difference, or a separation. What the tasks of a constraint
//! are depends on the constraint and the table alone.

use vstd::prelude::*;
use crate::lit::{Bool, SlotId, TeamId};
use crate::table::VarTable;
use crate::error::EncodeError;
use crate::instance::{cost_of, BreakLimit, Br1, Br2, Ca1, Ca2, Ca3, Ca4, Capacity, Constraints, Fa2, Ga1, Se1};
use crate::terms::{
    dedup,
    game_terms,
    game_terms_of,
    games_known,
    meeting_terms,
    meeting_terms_of,
    meetings_known,
    stand_terms,
    stand_terms_of,
    venue_pairs,
    venue_pairs_of,
    venue_terms,
    venue_terms_of,
    venues_known,
    without_repeats,
};

verus! {

/// The slot, team and venue of a break variable.
pub type BreakKey = (SlotId, TeamId, bool);

/// One step of the encoding.
#[allow(inconsistent_fields)]
#[derive(Debug)]
pub enum Task {
    /// Add the rule that one of the terms holds.
    Clause(Vec<Bool>),
    /// Constrain how many of `lits` hold.
    Card { lits: Vec<Bool>, min: Option<u32>, max: Option<u32>, cost: Option<u32> },
    /// Constrain how many of the break variables of `keys` hold.
    Breaks { keys: Vec<BreakKey>, max: u32, cost: Option<u32> },
    /// Keep the cumulative difference of `pairs` at `bound` or below.
    Diff { pairs: Vec<(Bool, Bool)>, bound: u32, cost: Option<usize> },
    /// Keep the two games of `t1` and `t2` at least `min` slots apart.
    Separation { t1: TeamId, t2: TeamId, min: usize, penalty: usize },
}

/// The mathematical content of a `Task`.
#[allow(inconsistent_fields)]
pub enum TaskView {
    Clause(Seq<Bool>),
    Card { lits: Seq<Bool>, min: Option<u32>, max: Option<u32>, cost: Option<u32> },
    Breaks { keys: Seq<BreakKey>, max: u32, cost: Option<u32> },
    Diff { pairs: Seq<(Bool, Bool)>, bound: u32, cost: Option<usize> },
    Separation { t1: TeamId, t2: TeamId, min: usize, penalty: usize },
}

impl View for Task {
    type V = TaskView;

    open spec fn view(&self) -> TaskView {
        match *self {
            Task::Clause(lits) => TaskView::Clause(lits@),
            Task::Card { lits, min, max, cost } => TaskView::Card { lits: lits@, min, max, cost },
            Task::Breaks { keys, max, cost } => TaskView::Breaks { keys: keys@, max, cost },
            Task::Diff { pairs, bound, cost } => TaskView::Diff { pairs: pairs@, bound, cost },
            Task::Separation { t1, t2, min, penalty } => TaskView::Separation { t1, t2, min, penalty },
        }
    }
}

/// The content of a list of tasks.
pub open spec fn tasks_view(tasks: Seq<Task>) -> Seq<TaskView> {
    Seq::new(tasks.len(), |i: int| tasks[i]@)
}

fn push_task(out: &mut Vec<Task>, task: Task)
    ensures
        tasks_view(final(out)@) == tasks_view(old(out)@).push(task@),
{
    out.push(task);
    assert(tasks_view(out@) =~= tasks_view(old(out)@).push(task@));
}

/// A minimum is given and is not zero.
pub open spec fn has_min(min: Option<u32>) -> bool {
    !(min is None || min == Some(0u32))
}

fn min_given(min: Option<u32>) -> (r: bool)
    ensures
        r == has_min(min),
{
    match min {
        Some(x) => x != 0,
        None => false,
    }
}

/// The cost of a constraint whose penalty may be missing: `None` from the
/// outer `Option` where a soft constraint has no penalty.
pub open spec fn cost_if_given(hard: bool, penalty: Option<u32>) -> Option<Option<u32>> {
    if hard {
        Some(None)
    } else {
        match penalty {
            Some(p) => Some(Some(p)),
            None => None,
        }
    }
}

fn cost_given(hard: bool, penalty: Option<u32>) -> (r: Option<Option<u32>>)
    ensures
        r == cost_if_given(hard, penalty),
{
    if hard {
        Some(None)
    } else {
        match penalty {
            Some(p) => Some(Some(p)),
            None => None,
        }
    }
}

fn cost(hard: bool, penalty: u32) -> (r: Option<u32>)
    ensures
        r == cost_of(hard, penalty),
{
    if hard {
        None
    } else {
        Some(penalty)
    }
}

/// The tasks of a CA1 constraint: one cardinality constraint over the
/// venue terms of its one team in its slots. Refused with a minimum other
/// than zero or with another number of teams than one.
pub open spec fn ca1_plan(t: VarTable, c: Ca1) -> Result<Seq<TaskView>, EncodeError> {
    if has_min(c.min) || c.teams@.len() != 1 {
        Err(EncodeError::Unsupported)
    } else if !venues_known(t, c.slots@, c.teams@) {
        Err(EncodeError::UnknownVariable)
    } else {
        Ok(
            seq![
                TaskView::Card {
                    lits: venue_terms(t, c.slots@, c.teams@, c.home, c.slots@.len() as int),
                    min: c.min,
                    max: Some(c.max),
                    cost: cost_of(c.hard, c.penalty),
                },
            ],
        )
    }
}

fn plan_ca1(t: &VarTable, c: &Ca1, out: &mut Vec<Task>) -> (r: Result<(), EncodeError>)
    requires
        t.wf(),
    ensures
        match ca1_plan(*t, *c) {
            Ok(ts) => r is Ok && tasks_view(final(out)@) == tasks_view(old(out)@) + ts,
            Err(e) => r == Err::<(), EncodeError>(e),
        },
{
    if min_given(c.min) || c.teams.len() != 1 {
        return Err(EncodeError::Unsupported);
    }
    match venue_terms_of(t, &c.slots, &c.teams, c.home) {
        None => Err(EncodeError::UnknownVariable),
        Some(lits) => {
            let task = Task::Card { lits, min: c.min, max: Some(c.max), cost: cost(c.hard, c.penalty) };
            push_task(out, task);
            assert(tasks_view(out@) =~= tasks_view(old(out)@) + seq![task@]);
            Ok(())
        },
    }
}

/// The tasks of a CA2 constraint: one cardinality constraint over the
/// games of its one team against the others in its slots.
pub open spec fn ca2_plan(t: VarTable, c: Ca2) -> Result<Seq<TaskView>, EncodeError> {
    if !c.global || has_min(c.min) || c.teams1@.len() != 1 {
        Err(EncodeError::Unsupported)
    } else if !games_known(t, c.slots@, c.teams1@, c.teams2@, false) {
        Err(EncodeError::UnknownVariable)
    } else {
        Ok(
            seq![
                TaskView::Card {
                    lits: game_terms(t, c.slots@, c.teams1@, c.teams2@, c.home, false, c.slots@.len() as int),
                    min: c.min,
                    max: Some(c.max),
                    cost: cost_of(c.hard, c.penalty),
                },
            ],
        )
    }
}

fn plan_ca2(t: &VarTable, c: &Ca2, out: &mut Vec<Task>) -> (r: Result<(), EncodeError>)
    requires
        t.wf(),
    ensures
        match ca2_plan(*t, *c) {
            Ok(ts) => r is Ok && tasks_view(final(out)@) == tasks_view(old(out)@) + ts,
            Err(e) => r == Err::<(), EncodeError>(e),
        },
{
    if !c.global || min_given(c.min) || c.teams1.len() != 1 {
        return Err(EncodeError::Unsupported);
    }
    match game_terms_of(t, &c.slots, &c.teams1, &c.teams2, c.home, false) {
        None => Err(EncodeError::UnknownVariable),
        Some(lits) => {
            let task = Task::Card { lits, min: c.min, max: Some(c.max), cost: cost(c.hard, c.penalty) };
            push_task(out, task);
            assert(tasks_view(out@) =~= tasks_view(old(out)@) + seq![task@]);
            Ok(())
        },
    }
}

/// The `len` slots of the league from position `w` on.
pub open spec fn window(t: VarTable, w: int, len: int) -> Seq<SlotId> {
    t.slot_ids@.subrange(w, w + len)
}

fn window_of(t: &VarTable, w: usize, len: usize) -> (r: Vec<SlotId>)
    requires
        w + len <= t.slots(),
    ensures
        r@ == window(*t, w as int, len as int),
{
    let mut out: Vec<SlotId> = Vec::new();
    let mut k: usize = 0;
    let total: usize = t.slot_ids.len();
    while k < len
        invariant
            w + len <= total,
            total == t.slots(),
            k <= len,
            out@ == window(*t, w as int, k as int),
        decreases len - k,
    {
        out.push(t.slot_ids[w + k]);
        assert(out@ =~= window(*t, w as int, k + 1));
        k += 1;
    }
    out
}

fn single(id: i64) -> (r: Vec<i64>)
    ensures
        r@ == seq![id],
{
    let mut r: Vec<i64> = Vec::new();
    r.push(id);
    assert(r@ =~= seq![id]);
    r
}

/// Whether a CA3 constraint limits the length of home stands or of away
/// trips: it names as many teams on either side as the league has.
pub open spec fn ca3_is_stands(t: VarTable, c: Ca3) -> bool {
    c.teams1@.len() == t.teams() && c.teams2@.len() == t.teams()
}

/// For the team at position `i`, the rules for the runs that start before
/// position `k`: in each run of `intp` slots the team is not at home
/// (`home`) or not away throughout.
pub open spec fn stands_row(t: VarTable, i: int, k: int, intp: int, home: bool) -> Seq<TaskView>
    decreases k,
{
    if k <= 0 {
        Seq::empty()
    } else {
        stands_row(t, i, k - 1, intp, home).push(TaskView::Clause(stand_terms(t, i, k - 1, intp, home)))
    }
}

pub open spec fn stands_tasks(t: VarTable, k: int, intp: int, home: bool) -> Seq<TaskView>
    decreases k,
{
    if k <= 0 {
        Seq::empty()
    } else {
        stands_tasks(t, k - 1, intp, home) + stands_row(t, k - 1, t.slots() - intp + 1, intp, home)
    }
}

/// The cardinality constraint of the team `teams1[i]` for the run that
/// starts at position `w`.
pub open spec fn ca3_card(t: VarTable, c: Ca3, i: int, w: int) -> TaskView {
    TaskView::Card {
        lits: game_terms(t, window(t, w, c.intp as int), seq![c.teams1@[i]], c.teams2@, c.home, false, c.intp as int),
        min: None,
        max: Some(c.max),
        cost: Some(c.penalty),
    }
}

pub open spec fn ca3_card_known(t: VarTable, c: Ca3, i: int, w: int) -> bool {
    games_known(t, window(t, w, c.intp as int), seq![c.teams1@[i]], c.teams2@, false)
}

pub open spec fn ca3_row(t: VarTable, c: Ca3, i: int, k: int) -> Seq<TaskView>
    decreases k,
{
    if k <= 0 {
        Seq::empty()
    } else {
        ca3_row(t, c, i, k - 1).push(ca3_card(t, c, i, k - 1))
    }
}

pub open spec fn ca3_cards(t: VarTable, c: Ca3, k: int) -> Seq<TaskView>
    decreases k,
{
    if k <= 0 {
        Seq::empty()
    } else {
        ca3_cards(t, c, k - 1) + ca3_row(t, c, k - 1, t.slots() - c.intp + 1)
    }
}

/// The league has every game that the cardinality constraints of a CA3
/// constraint count.
pub open spec fn ca3_known(t: VarTable, c: Ca3) -> bool {
    forall|i: int, w: int|
        0 <= i < c.teams1@.len() && 0 <= w <= t.slots() - c.intp ==> #[trigger] ca3_card_known(t, c, i, w)
}

/// The tasks of a CA3 constraint. Over all teams of the league it must be
/// hard, for one venue and with runs one longer than the maximum: then it
/// is one rule for each team and run. Else it must be soft, with fewer
/// opponents than the league has teams: then it is one cardinality
/// constraint for each of its teams and each run.
pub open spec fn ca3_plan(t: VarTable, c: Ca3) -> Result<Seq<TaskView>, EncodeError> {
    if has_min(c.min) || !c.by_slots {
        Err(EncodeError::Unsupported)
    } else if ca3_is_stands(t, c) {
        if c.home is None || c.intp != c.max + 1 || !c.hard || c.intp > t.slots() {
            Err(EncodeError::Unsupported)
        } else {
            Ok(stands_tasks(t, t.teams(), c.intp as int, c.home == Some(true)))
        }
    } else if c.teams2@.len() == t.teams() || c.hard || c.intp > t.slots() {
        Err(EncodeError::Unsupported)
    } else if !ca3_known(t, c) {
        Err(EncodeError::UnknownVariable)
    } else {
        Ok(ca3_cards(t, c, c.teams1@.len() as int))
    }
}

#[verifier::rlimit(40)]
fn plan_ca3(t: &VarTable, c: &Ca3, out: &mut Vec<Task>) -> (r: Result<(), EncodeError>)
    requires
        t.wf(),
    ensures
        match ca3_plan(*t, *c) {
            Ok(ts) => r is Ok && tasks_view(final(out)@) == tasks_view(old(out)@) + ts,
            Err(e) => r == Err::<(), EncodeError>(e),
        },
{
    let n: usize = t.team_ids.len();
    let slots: usize = t.slot_ids.len();
    if min_given(c.min) || !c.by_slots {
        return Err(EncodeError::Unsupported);
    }
    let intp: usize = c.intp as usize;
    if c.teams1.len() == n && c.teams2.len() == n {
        if c.home.is_none() || c.max == u32::MAX || c.intp != c.max + 1 || !c.hard || intp > slots {
            return Err(EncodeError::Unsupported);
        }
        let home: bool = c.home == Some(true);
        let runs: usize = slots - intp + 1;
        let mut i: usize = 0;
        assert(tasks_view(out@) =~= tasks_view(old(out)@) + stands_tasks(*t, 0, intp as int, home));
        while i < n
            invariant
                t.wf(),
                n == t.teams(),
                slots == t.slots(),
                intp <= slots,
                runs == slots - intp + 1,
                i <= n,
                tasks_view(out@) == tasks_view(old(out)@) + stands_tasks(*t, i as int, intp as int, home),
            decreases n - i,
        {
            let ghost before = tasks_view(out@);
            let mut w: usize = 0;
            assert(tasks_view(out@) =~= before + stands_row(*t, i as int, 0, intp as int, home));
            while w < runs
                invariant
                    t.wf(),
                    n == t.teams(),
                    slots == t.slots(),
                    intp <= slots,
                    runs == slots - intp + 1,
                    i < n,
                    w <= runs,
                    tasks_view(out@) == before + stands_row(*t, i as int, w as int, intp as int, home),
                decreases runs - w,
            {
                push_task(out, Task::Clause(stand_terms_of(t, i, w, intp, home)));
                assert(tasks_view(out@) =~= before + stands_row(*t, i as int, w + 1, intp as int, home));
                w += 1;
            }
            assert(tasks_view(out@) =~= tasks_view(old(out)@) + stands_tasks(*t, i + 1, intp as int, home));
            i += 1;
        }
        return Ok(());
    }
    if c.teams2.len() == n || c.hard || intp > slots {
        return Err(EncodeError::Unsupported);
    }
    let last: usize = slots - intp;
    let mut i: usize = 0;
    assert(tasks_view(out@) =~= tasks_view(old(out)@) + ca3_cards(*t, *c, 0));
    while i < c.teams1.len()
        invariant
            t.wf(),
            slots == t.slots(),
            intp == c.intp,
            intp <= slots,
            last == slots - intp,
            i <= c.teams1.len(),
            tasks_view(out@) == tasks_view(old(out)@) + ca3_cards(*t, *c, i as int),
            forall|i1: int, w1: int| 0 <= i1 < i && 0 <= w1 <= slots - intp ==> #[trigger] ca3_card_known(*t, *c, i1, w1),
            ca3_plan(*t, *c) == (if ca3_known(*t, *c) {
                Ok::<Seq<TaskView>, EncodeError>(ca3_cards(*t, *c, c.teams1@.len() as int))
            } else {
                Err::<Seq<TaskView>, EncodeError>(EncodeError::UnknownVariable)
            }),
        decreases c.teams1.len() - i,
    {
        let ghost before = tasks_view(out@);
        let team: Vec<TeamId> = single(c.teams1[i]);
        let mut w: usize = 0;
        let mut done: bool = false;
        assert(tasks_view(out@) =~= before + ca3_row(*t, *c, i as int, 0));
        while !done
            invariant
                t.wf(),
                slots == t.slots(),
                intp == c.intp,
                intp <= slots,
                last == slots - intp,
                i < c.teams1.len(),
                team@ == seq![c.teams1@[i as int]],
                w <= last,
                done ==> w == last,
                tasks_view(out@) == before + ca3_row(
                    *t,
                    *c,
                    i as int,
                    if done {
                        last + 1
                    } else {
                        w as int
                    },
                ),
                forall|w1: int|
                    0 <= w1 < (if done {
                        last + 1
                    } else {
                        w as int
                    }) ==> #[trigger] ca3_card_known(*t, *c, i as int, w1),
                ca3_plan(*t, *c) == (if ca3_known(*t, *c) {
                    Ok::<Seq<TaskView>, EncodeError>(ca3_cards(*t, *c, c.teams1@.len() as int))
                } else {
                    Err::<Seq<TaskView>, EncodeError>(EncodeError::UnknownVariable)
                }),
            decreases
                    last - w + if done {
                        0int
                    } else {
                        1int
                    },
        {
            let run: Vec<SlotId> = window_of(t, w, intp);
            match game_terms_of(t, &run, &team, &c.teams2, c.home, false) {
                None => {
                    assert(!ca3_card_known(*t, *c, i as int, w as int));
                    return Err(EncodeError::UnknownVariable);
                },
                Some(lits) => {
                    push_task(out, Task::Card { lits, min: None, max: Some(c.max), cost: Some(c.penalty) });
                    assert(tasks_view(out@) =~= before + ca3_row(*t, *c, i as int, w + 1));
                },
            }
            if w == last {
                done = true;
            } else {
                w += 1;
            }
        }
        assert(tasks_view(out@) =~= tasks_view(old(out)@) + ca3_cards(*t, *c, i + 1));
        i += 1;
    }
    Ok(())
}

/// Whether a CA4 constraint counts venues: it names as many opponents as
/// the league has teams.
pub open spec fn ca4_by_venue(t: VarTable, c: Ca4) -> bool {
    c.teams2@.len() == t.teams()
}

/// The terms that a CA4 constraint counts in the slots `slots`, none of
/// them twice.
pub open spec fn ca4_lits(t: VarTable, c: Ca4, slots: Seq<SlotId>) -> Seq<Bool> {
    if ca4_by_venue(t, c) {
        let all = venue_terms(t, slots, c.teams1@, c.home.unwrap(), slots.len() as int);
        dedup(all, all.len() as int)
    } else {
        let all = game_terms(t, slots, c.teams1@, c.teams2@, c.home, true, slots.len() as int);
        dedup(all, all.len() as int)
    }
}

pub open spec fn ca4_known(t: VarTable, c: Ca4, slots: Seq<SlotId>) -> bool {
    if ca4_by_venue(t, c) {
        venues_known(t, slots, c.teams1@)
    } else {
        games_known(t, slots, c.teams1@, c.teams2@, true)
    }
}

pub open spec fn ca4_card(t: VarTable, c: Ca4, slots: Seq<SlotId>) -> TaskView {
    TaskView::Card { lits: ca4_lits(t, c, slots), min: c.min, max: Some(c.max), cost: cost_of(c.hard, c.penalty) }
}

pub open spec fn ca4_slot_known(t: VarTable, c: Ca4, k: int) -> bool {
    ca4_known(t, c, seq![c.slots@[k]])
}

/// One cardinality constraint for each of the slots before `k`.
pub open spec fn ca4_cards(t: VarTable, c: Ca4, k: int) -> Seq<TaskView>
    decreases k,
{
    if k <= 0 {
        Seq::empty()
    } else {
        ca4_cards(t, c, k - 1).push(ca4_card(t, c, seq![c.slots@[k - 1]]))
    }
}

/// The tasks of a CA4 constraint: one cardinality constraint over all its
/// slots, or one for each of them. Counting venues it must name a venue.
pub open spec fn ca4_plan(t: VarTable, c: Ca4) -> Result<Seq<TaskView>, EncodeError> {
    if ca4_by_venue(t, c) && c.home is None {
        if c.global || c.slots@.len() > 0 {
            Err(EncodeError::Unsupported)
        } else {
            Ok(Seq::empty())
        }
    } else if c.global {
        if ca4_known(t, c, c.slots@) {
            Ok(seq![ca4_card(t, c, c.slots@)])
        } else {
            Err(EncodeError::UnknownVariable)
        }
    } else if forall|k: int| 0 <= k < c.slots@.len() ==> #[trigger] ca4_slot_known(t, c, k) {
        Ok(ca4_cards(t, c, c.slots@.len() as int))
    } else {
        Err(EncodeError::UnknownVariable)
    }
}

fn ca4_terms(t: &VarTable, c: &Ca4, slots: &Vec<SlotId>) -> (r: Option<Vec<Bool>>)
    requires
        t.wf(),
        ca4_by_venue(*t, *c) ==> c.home is Some,
    ensures
        r is Some == ca4_known(*t, *c, slots@),
        r matches Some(v) ==> v@ == ca4_lits(*t, *c, slots@),
{
    if c.teams2.len() == t.team_ids.len() {
        match venue_terms_of(t, slots, &c.teams1, c.home.unwrap()) {
            Some(all) => Some(without_repeats(&all)),
            None => None,
        }
    } else {
        match game_terms_of(t, slots, &c.teams1, &c.teams2, c.home, true) {
            Some(all) => Some(without_repeats(&all)),
            None => None,
        }
    }
}

fn plan_ca4(t: &VarTable, c: &Ca4, out: &mut Vec<Task>) -> (r: Result<(), EncodeError>)
    requires
        t.wf(),
    ensures
        match ca4_plan(*t, *c) {
            Ok(ts) => r is Ok && tasks_view(final(out)@) == tasks_view(old(out)@) + ts,
            Err(e) => r == Err::<(), EncodeError>(e),
        },
{
    if c.teams2.len() == t.team_ids.len() && c.home.is_none() {
        if c.global || c.slots.len() > 0 {
            return Err(EncodeError::Unsupported);
        }
        assert(tasks_view(out@) =~= tasks_view(old(out)@) + Seq::<TaskView>::empty());
        return Ok(());
    }
    if c.global {
        match ca4_terms(t, c, &c.slots) {
            None => {
                return Err(EncodeError::UnknownVariable);
            },
            Some(lits) => {
                let task = Task::Card { lits, min: c.min, max: Some(c.max), cost: cost(c.hard, c.penalty) };
                push_task(out, task);
                assert(tasks_view(out@) =~= tasks_view(old(out)@) + seq![task@]);
                return Ok(());
            },
        }
    }
    let mut k: usize = 0;
    assert(tasks_view(out@) =~= tasks_view(old(out)@) + ca4_cards(*t, *c, 0));
    while k < c.slots.len()
        invariant
            t.wf(),
            !c.global,
            !(ca4_by_venue(*t, *c) && c.home is None),
            k <= c.slots.len(),
            tasks_view(out@) == tasks_view(old(out)@) + ca4_cards(*t, *c, k as int),
            forall|k1: int| 0 <= k1 < k ==> #[trigger] ca4_slot_known(*t, *c, k1),
        decreases c.slots.len() - k,
    {
        let slot: Vec<SlotId> = single(c.slots[k]);
        match ca4_terms(t, c, &slot) {
            None => {
                assert(!ca4_slot_known(*t, *c, k as int));
                return Err(EncodeError::UnknownVariable);
            },
            Some(lits) => {
                push_task(out, Task::Card { lits, min: c.min, max: Some(c.max), cost: cost(c.hard, c.penalty) });
                assert(tasks_view(out@) =~= tasks_view(old(out)@) + ca4_cards(*t, *c, k + 1));
            },
        }
        k += 1;
    }
    Ok(())
}

/// The tasks of a capacity constraint.
pub open spec fn capacity_plan(t: VarTable, c: Capacity) -> Result<Seq<TaskView>, EncodeError> {
    match c {
        Capacity::Ca1(c) => ca1_plan(t, c),
        Capacity::Ca2(c) => ca2_plan(t, c),
        Capacity::Ca3(c) => ca3_plan(t, c),
        Capacity::Ca4(c) => ca4_plan(t, c),
    }
}

/// Appends the tasks of a capacity constraint to `out`.
pub fn plan_capacity(t: &VarTable, c: &Capacity, out: &mut Vec<Task>) -> (r: Result<(), EncodeError>)
    requires
        t.wf(),
    ensures
        match capacity_plan(*t, *c) {
            Ok(ts) => r is Ok && tasks_view(final(out)@) == tasks_view(old(out)@) + ts,
            Err(e) => r == Err::<(), EncodeError>(e),
        },
{
    match c {
        Capacity::Ca1(c) => plan_ca1(t, c, out),
        Capacity::Ca2(c) => plan_ca2(t, c, out),
        Capacity::Ca3(c) => plan_ca3(t, c, out),
        Capacity::Ca4(c) => plan_ca4(t, c, out),
    }
}

/// The tasks of a GA1 constraint: one cardinality constraint over its
/// games in its slots. A soft one must have a penalty.
pub open spec fn ga1_plan(t: VarTable, c: Ga1) -> Result<Seq<TaskView>, EncodeError> {
    if !meetings_known(t, c.slots@, c.meetings@) {
        Err(EncodeError::UnknownVariable)
    } else if cost_if_given(c.hard, c.penalty) is None {
        Err(EncodeError::Unsupported)
    } else {
        Ok(
            seq![
                TaskView::Card {
                    lits: meeting_terms(t, c.slots@, c.meetings@, c.slots@.len() as int),
                    min: c.min,
                    max: c.max,
                    cost: cost_if_given(c.hard, c.penalty).unwrap(),
                },
            ],
        )
    }
}

/// Appends the task of a GA1 constraint to `out`.
pub fn plan_ga1(t: &VarTable, c: &Ga1, out: &mut Vec<Task>) -> (r: Result<(), EncodeError>)
    requires
        t.wf(),
    ensures
        match ga1_plan(*t, *c) {
            Ok(ts) => r is Ok && tasks_view(final(out)@) == tasks_view(old(out)@) + ts,
            Err(e) => r == Err::<(), EncodeError>(e),
        },
{
    match meeting_terms_of(t, &c.slots, &c.meetings) {
        None => Err(EncodeError::UnknownVariable),
        Some(lits) => match cost_given(c.hard, c.penalty) {
            None => Err(EncodeError::Unsupported),
            Some(cost) => {
                let task = Task::Card { lits, min: c.min, max: c.max, cost };
                push_task(out, task);
                assert(tasks_view(out@) =~= tasks_view(old(out)@) + seq![task@]);
                Ok(())
            },
        },
    }
}

/// The break variables of `team` in the slots before `k`: at the venue
/// given, or at home and then away in each slot.
pub open spec fn break_keys(team: TeamId, slots: Seq<SlotId>, home: Option<bool>, k: int) -> Seq<BreakKey>
    decreases k,
{
    if k <= 0 {
        Seq::empty()
    } else {
        match home {
            Some(h) => break_keys(team, slots, home, k - 1).push((slots[k - 1], team, h)),
            None => break_keys(team, slots, home, k - 1).push((slots[k - 1], team, true)).push(
                (slots[k - 1], team, false),
            ),
        }
    }
}

fn append_break_keys(out: &mut Vec<BreakKey>, team: TeamId, slots: &Vec<SlotId>, home: Option<bool>)
    ensures
        final(out)@ == old(out)@ + break_keys(team, slots@, home, slots@.len() as int),
{
    let mut k: usize = 0;
    assert(out@ =~= old(out)@ + break_keys(team, slots@, home, 0));
    while k < slots.len()
        invariant
            k <= slots.len(),
            out@ == old(out)@ + break_keys(team, slots@, home, k as int),
        decreases slots.len() - k,
    {
        match home {
            Some(h) => {
                out.push((slots[k], team, h));
            },
            None => {
                out.push((slots[k], team, true));
                out.push((slots[k], team, false));
            },
        }
        assert(out@ =~= old(out)@ + break_keys(team, slots@, home, k + 1));
        k += 1;
    }
}

/// The tasks of a BR1 constraint: one cardinality constraint over the
/// break variables of its one team in its slots.
pub open spec fn br1_plan(c: Br1) -> Result<Seq<TaskView>, EncodeError> {
    if c.teams@.len() != 1 || cost_if_given(c.hard, c.penalty) is None {
        Err(EncodeError::Unsupported)
    } else {
        Ok(
            seq![
                TaskView::Breaks {
                    keys: break_keys(c.teams@[0], c.slots@, c.home, c.slots@.len() as int),
                    max: c.intp,
                    cost: cost_if_given(c.hard, c.penalty).unwrap(),
                },
            ],
        )
    }
}

/// The break variables of the teams before `k`, at home and away, team by
/// team.
pub open spec fn all_break_keys(teams: Seq<TeamId>, slots: Seq<SlotId>, k: int) -> Seq<BreakKey>
    decreases k,
{
    if k <= 0 {
        Seq::empty()
    } else {
        all_break_keys(teams, slots, k - 1) + break_keys(teams[k - 1], slots, None, slots.len() as int)
    }
}

/// Whether a BR2 constraint limits the breaks of the whole season: it is
/// hard and names as many teams and slots as the league has.
pub open spec fn br2_is_global(t: VarTable, c: Br2) -> bool {
    c.hard && c.teams@.len() == t.teams() && c.slots@.len() == t.slots()
}

/// The tasks of a BR2 constraint: one cardinality constraint over the
/// break variables of its teams in its slots; none where it limits the
/// breaks of the whole season and `skip_br2` asks to leave that out.
pub open spec fn br2_plan(t: VarTable, c: Br2, skip_br2: bool) -> Result<Seq<TaskView>, EncodeError> {
    if !c.regular_or_any_venue {
        Err(EncodeError::Unsupported)
    } else if br2_is_global(t, c) && skip_br2 {
        Ok(Seq::empty())
    } else if cost_if_given(c.hard, c.penalty) is None {
        Err(EncodeError::Unsupported)
    } else {
        Ok(
            seq![
                TaskView::Breaks {
                    keys: all_break_keys(c.teams@, c.slots@, c.teams@.len() as int),
                    max: c.intp,
                    cost: cost_if_given(c.hard, c.penalty).unwrap(),
                },
            ],
        )
    }
}

pub open spec fn break_plan(t: VarTable, c: BreakLimit, skip_br2: bool) -> Result<Seq<TaskView>, EncodeError> {
    match c {
        BreakLimit::Br1(c) => br1_plan(c),
        BreakLimit::Br2(c) => br2_plan(t, c, skip_br2),
    }
}

/// Appends the task of a break constraint to `out`.
pub fn plan_break(t: &VarTable, c: &BreakLimit, skip_br2: bool, out: &mut Vec<Task>) -> (r: Result<(), EncodeError>)
    ensures
        match break_plan(*t, *c, skip_br2) {
            Ok(ts) => r is Ok && tasks_view(final(out)@) == tasks_view(old(out)@) + ts,
            Err(e) => r == Err::<(), EncodeError>(e),
        },
{
    match c {
        BreakLimit::Br1(c) => {
            if c.teams.len() != 1 {
                return Err(EncodeError::Unsupported);
            }
            match cost_given(c.hard, c.penalty) {
                None => Err(EncodeError::Unsupported),
                Some(cost) => {
                    let mut keys: Vec<BreakKey> = Vec::new();
                    append_break_keys(&mut keys, c.teams[0], &c.slots, c.home);
                    assert(keys@ =~= break_keys(c.teams@[0], c.slots@, c.home, c.slots@.len() as int));
                    let task = Task::Breaks { keys, max: c.intp, cost };
                    push_task(out, task);
                    assert(tasks_view(out@) =~= tasks_view(old(out)@) + seq![task@]);
                    Ok(())
                },
            }
        },
        BreakLimit::Br2(c) => {
            if !c.regular_or_any_venue {
                return Err(EncodeError::Unsupported);
            }
            if c.hard && c.teams.len() == t.team_ids.len() && c.slots.len() == t.slot_ids.len() && skip_br2 {
                assert(tasks_view(out@) =~= tasks_view(old(out)@) + Seq::<TaskView>::empty());
                return Ok(());
            }
            match cost_given(c.hard, c.penalty) {
                None => Err(EncodeError::Unsupported),
                Some(cost) => {
                    let mut keys: Vec<BreakKey> = Vec::new();
                    let mut i: usize = 0;
                    assert(keys@ =~= all_break_keys(c.teams@, c.slots@, 0));
                    while i < c.teams.len()
                        invariant
                            i <= c.teams.len(),
                            keys@ == all_break_keys(c.teams@, c.slots@, i as int),
                        decreases c.teams.len() - i,
                    {
                        append_break_keys(&mut keys, c.teams[i], &c.slots, None);
                        i += 1;
                    }
                    let task = Task::Breaks { keys, max: c.intp, cost };
                    push_task(out, task);
                    assert(tasks_view(out@) =~= tasks_view(old(out)@) + seq![task@]);
                    Ok(())
                },
            }
        },
    }
}

/// The task of an FA2 constraint for the teams `a` and `b`.
pub open spec fn fa2_task(t: VarTable, c: Fa2, a: TeamId, b: TeamId) -> TaskView {
    TaskView::Diff {
        pairs: venue_pairs(t, a, b, t.slots()),
        bound: c.intp,
        cost: if c.hard {
            None
        } else {
            Some(c.penalty as usize)
        },
    }
}

/// The tasks for the pairs of the team at position `i` with the teams
/// before `k` whose identifier is greater than its own.
pub open spec fn fa2_row(t: VarTable, c: Fa2, i: int, k: int) -> Seq<TaskView>
    decreases k,
{
    if k <= 0 {
        Seq::empty()
    } else if c.teams@[i] < c.teams@[k - 1] {
        fa2_row(t, c, i, k - 1).push(fa2_task(t, c, c.teams@[i], c.teams@[k - 1]))
    } else {
        fa2_row(t, c, i, k - 1)
    }
}

pub open spec fn fa2_tasks(t: VarTable, c: Fa2, k: int) -> Seq<TaskView>
    decreases k,
{
    if k <= 0 {
        Seq::empty()
    } else {
        fa2_tasks(t, c, k - 1) + fa2_row(t, c, k - 1, c.teams@.len() as int)
    }
}

pub open spec fn fa2_pair_known(t: VarTable, a: TeamId, b: TeamId) -> bool {
    t.slots() == 0 || (t.team_pos(a) is Some && t.team_pos(b) is Some)
}

/// The league has every pair of teams that an FA2 constraint compares.
pub open spec fn fa2_known(t: VarTable, c: Fa2) -> bool {
    forall|i: int, j: int|
        0 <= i < c.teams@.len() && 0 <= j < c.teams@.len() && c.teams@[i] < c.teams@[j] ==> #[trigger] fa2_pair_known(
            t,
            c.teams@[i],
            c.teams@[j],
        )
}

/// A penalty that can be a weight: it is not negative, and on a machine
/// with short words not too large.
pub open spec fn is_weight(penalty: i64) -> bool {
    0 <= penalty <= usize::MAX
}

/// The tasks of an FA2 constraint: for each two of its teams a limit on
/// the cumulative difference of their home games. It must count home
/// games, and a soft one must have a penalty that can be a weight.
pub open spec fn fa2_plan(t: VarTable, c: Fa2) -> Result<Seq<TaskView>, EncodeError> {
    if !c.home_games || (!c.hard && !is_weight(c.penalty)) {
        Err(EncodeError::Unsupported)
    } else if !fa2_known(t, c) {
        Err(EncodeError::UnknownVariable)
    } else {
        Ok(fa2_tasks(t, c, c.teams@.len() as int))
    }
}

fn weight_of(penalty: i64) -> (r: Option<usize>)
    ensures
        r is Some == is_weight(penalty),
        r matches Some(w) ==> w == penalty,
{
    if penalty < 0 {
        None
    } else if penalty as u64 > usize::MAX as u64 {
        None
    } else {
        Some(penalty as usize)
    }
}

/// Appends the tasks of an FA2 constraint to `out`.
pub fn plan_fa2(t: &VarTable, c: &Fa2, out: &mut Vec<Task>) -> (r: Result<(), EncodeError>)
    requires
        t.wf(),
    ensures
        match fa2_plan(*t, *c) {
            Ok(ts) => r is Ok && tasks_view(final(out)@) == tasks_view(old(out)@) + ts,
            Err(e) => r == Err::<(), EncodeError>(e),
        },
{
    if !c.home_games {
        return Err(EncodeError::Unsupported);
    }
    let cost: Option<usize> = if c.hard {
        None
    } else {
        match weight_of(c.penalty) {
            Some(w) => Some(w),
            None => {
                return Err(EncodeError::Unsupported);
            },
        }
    };
    let n: usize = c.teams.len();
    let mut i: usize = 0;
    assert(tasks_view(out@) =~= tasks_view(old(out)@) + fa2_tasks(*t, *c, 0));
    while i < n
        invariant
            t.wf(),
            n == c.teams@.len(),
            i <= n,
            c.home_games,
            c.hard || is_weight(c.penalty),
            cost == (if c.hard {
                None::<usize>
            } else {
                Some(c.penalty as usize)
            }),
            tasks_view(out@) == tasks_view(old(out)@) + fa2_tasks(*t, *c, i as int),
            forall|i1: int, j1: int|
                0 <= i1 < i && 0 <= j1 < n && c.teams@[i1] < c.teams@[j1] ==> #[trigger] fa2_pair_known(
                    *t,
                    c.teams@[i1],
                    c.teams@[j1],
                ),
        decreases n - i,
    {
        let ghost before = tasks_view(out@);
        let a: TeamId = c.teams[i];
        let mut j: usize = 0;
        assert(tasks_view(out@) =~= before + fa2_row(*t, *c, i as int, 0));
        while j < n
            invariant
                t.wf(),
                n == c.teams@.len(),
                i < n,
                j <= n,
                a == c.teams@[i as int],
                c.home_games,
                c.hard || is_weight(c.penalty),
                cost == (if c.hard {
                    None::<usize>
                } else {
                    Some(c.penalty as usize)
                }),
                tasks_view(out@) == before + fa2_row(*t, *c, i as int, j as int),
                forall|j1: int|
                    0 <= j1 < j && a < c.teams@[j1] ==> #[trigger] fa2_pair_known(*t, a, c.teams@[j1]),
            decreases n - j,
        {
            let b: TeamId = c.teams[j];
            if a < b {
                match venue_pairs_of(t, a, b) {
                    None => {
                        assert(!fa2_pair_known(*t, c.teams@[i as int], c.teams@[j as int]));
                        return Err(EncodeError::UnknownVariable);
                    },
                    Some(pairs) => {
                        push_task(out, Task::Diff { pairs, bound: c.intp, cost });
                    },
                }
            }
            assert(tasks_view(out@) =~= before + fa2_row(*t, *c, i as int, j + 1));
            j += 1;
        }
        assert(tasks_view(out@) =~= tasks_view(old(out)@) + fa2_tasks(*t, *c, i + 1));
        i += 1;
    }
    Ok(())
}

/// The task of an SE1 constraint for the teams `a` and `b`.
pub open spec fn se1_task(c: Se1, a: TeamId, b: TeamId) -> TaskView {
    TaskView::Separation { t1: a, t2: b, min: c.min as usize, penalty: c.penalty as usize }
}

pub open spec fn se1_row(c: Se1, i: int, k: int) -> Seq<TaskView>
    decreases k,
{
    if k <= 0 {
        Seq::empty()
    } else if c.teams@[i] < c.teams@[k - 1] {
        se1_row(c, i, k - 1).push(se1_task(c, c.teams@[i], c.teams@[k - 1]))
    } else {
        se1_row(c, i, k - 1)
    }
}

pub open spec fn se1_tasks(c: Se1, k: int) -> Seq<TaskView>
    decreases k,
{
    if k <= 0 {
        Seq::empty()
    } else {
        se1_tasks(c, k - 1) + se1_row(c, k - 1, c.teams@.len() as int)
    }
}

/// The tasks of an SE1 constraint: a separation for each two of its
/// teams. It must have no maximum, a minimum that is not negative and a
/// penalty that can be a weight.
pub open spec fn se1_plan(c: Se1) -> Result<Seq<TaskView>, EncodeError> {
    if c.max is Some || c.min < 0 || !is_weight(c.penalty) {
        Err(EncodeError::Unsupported)
    } else {
        Ok(se1_tasks(c, c.teams@.len() as int))
    }
}

/// Appends the tasks of an SE1 constraint to `out`.
pub fn plan_se1(c: &Se1, out: &mut Vec<Task>) -> (r: Result<(), EncodeError>)
    ensures
        match se1_plan(*c) {
            Ok(ts) => r is Ok && tasks_view(final(out)@) == tasks_view(old(out)@) + ts,
            Err(e) => r == Err::<(), EncodeError>(e),
        },
{
    if c.max.is_some() || c.min < 0 {
        return Err(EncodeError::Unsupported);
    }
    let penalty: usize = match weight_of(c.penalty) {
        Some(w) => w,
        None => {
            return Err(EncodeError::Unsupported);
        },
    };
    let min: usize = c.min as usize;
    let n: usize = c.teams.len();
    let mut i: usize = 0;
    assert(tasks_view(out@) =~= tasks_view(old(out)@) + se1_tasks(*c, 0));
    while i < n
        invariant
            n == c.teams@.len(),
            i <= n,
            min == c.min as usize,
            penalty == c.penalty as usize,
            tasks_view(out@) == tasks_view(old(out)@) + se1_tasks(*c, i as int),
        decreases n - i,
    {
        let ghost before = tasks_view(out@);
        let a: TeamId = c.teams[i];
        let mut j: usize = 0;
        assert(tasks_view(out@) =~= before + se1_row(*c, i as int, 0));
        while j < n
            invariant
                n == c.teams@.len(),
                i < n,
                j <= n,
                a == c.teams@[i as int],
                min == c.min as usize,
                penalty == c.penalty as usize,
                tasks_view(out@) == before + se1_row(*c, i as int, j as int),
            decreases n - j,
        {
            let b: TeamId = c.teams[j];
            if a < b {
                push_task(out, Task::Separation { t1: a, t2: b, min, penalty });
            }
            assert(tasks_view(out@) =~= before + se1_row(*c, i as int, j + 1));
            j += 1;
        }
        assert(tasks_view(out@) =~= tasks_view(old(out)@) + se1_tasks(*c, i + 1));
        i += 1;
    }
    Ok(())
}

/// The plans of the items before `k`, one after the other, or the error
/// of the first item that has one.
pub open spec fn plans<T>(items: Seq<T>, each: spec_fn(T) -> Result<Seq<TaskView>, EncodeError>, k: int) -> Result<
    Seq<TaskView>,
    EncodeError,
>
    decreases k,
{
    if k <= 0 {
        Ok(Seq::empty())
    } else {
        match plans(items, each, k - 1) {
            Err(e) => Err(e),
            Ok(ts) => match each(items[k - 1]) {
                Err(e) => Err(e),
                Ok(more) => Ok(ts + more),
            },
        }
    }
}

/// An error stays: once the plans of the first items are an error, so are
/// the plans of more of them.
pub proof fn lemma_plans_error<T>(
    items: Seq<T>,
    each: spec_fn(T) -> Result<Seq<TaskView>, EncodeError>,
    k: int,
    n: int,
)
    requires
        k <= n,
        plans(items, each, k) is Err,
    ensures
        plans(items, each, n) == plans(items, each, k),
    decreases n - k,
{
    if k < n {
        lemma_plans_error(items, each, k, n - 1);
    }
}

/// One plan after the other, or the first error.
pub open spec fn and_then(a: Result<Seq<TaskView>, EncodeError>, b: Result<Seq<TaskView>, EncodeError>) -> Result<
    Seq<TaskView>,
    EncodeError,
> {
    match a {
        Err(e) => Err(e),
        Ok(x) => match b {
            Err(e) => Err(e),
            Ok(y) => Ok(x + y),
        },
    }
}

pub open spec fn capacity_each(t: VarTable) -> spec_fn(Capacity) -> Result<Seq<TaskView>, EncodeError> {
    |c: Capacity| capacity_plan(t, c)
}

pub open spec fn game_each(t: VarTable) -> spec_fn(Ga1) -> Result<Seq<TaskView>, EncodeError> {
    |c: Ga1| ga1_plan(t, c)
}

pub open spec fn break_each(t: VarTable, skip_br2: bool) -> spec_fn(BreakLimit) -> Result<Seq<TaskView>, EncodeError> {
    |c: BreakLimit| break_plan(t, c, skip_br2)
}

pub open spec fn fairness_each(t: VarTable) -> spec_fn(Fa2) -> Result<Seq<TaskView>, EncodeError> {
    |c: Fa2| fa2_plan(t, c)
}

pub open spec fn separation_each() -> spec_fn(Se1) -> Result<Seq<TaskView>, EncodeError> {
    |c: Se1| se1_plan(c)
}

/// The tasks of all constraints of an instance: those of the capacity
/// constraints, then of the game, break, fairness and separation
/// constraints; or the error of the first constraint that is refused.
pub open spec fn plan_of(t: VarTable, cs: Constraints, skip_br2: bool) -> Result<Seq<TaskView>, EncodeError> {
    and_then(
        and_then(
            and_then(
                and_then(
                    plans(cs.capacity@, capacity_each(t), cs.capacity@.len() as int),
                    plans(cs.game@, game_each(t), cs.game@.len() as int),
                ),
                plans(cs.breaks@, break_each(t, skip_br2), cs.breaks@.len() as int),
            ),
            plans(cs.fairness@, fairness_each(t), cs.fairness@.len() as int),
        ),
        plans(cs.separation@, separation_each(), cs.separation@.len() as int),
    )
}

/// The tasks of all constraints of an instance.
#[verifier::rlimit(40)]
pub fn plan_constraints(t: &VarTable, cs: &Constraints, skip_br2: bool) -> (r: Result<Vec<Task>, EncodeError>)
    requires
        t.wf(),
    ensures
        match plan_of(*t, *cs, skip_br2) {
            Ok(ts) => r matches Ok(v) && tasks_view(v@) == ts,
            Err(e) => r matches Err(x) && x == e,
        },
{
    let mut out: Vec<Task> = Vec::new();
    assert(tasks_view(out@) =~= Seq::<TaskView>::empty());
    let mut i: usize = 0;
    while i < cs.capacity.len()
        invariant
            t.wf(),
            i <= cs.capacity.len(),
            plans(cs.capacity@, capacity_each(*t), i as int) == Ok::<Seq<TaskView>, EncodeError>(tasks_view(out@)),
        decreases cs.capacity.len() - i,
    {
        let ghost before = tasks_view(out@);
        match plan_capacity(t, &cs.capacity[i], &mut out) {
            Err(e) => {
                proof {
                    lemma_plans_error(cs.capacity@, capacity_each(*t), i + 1, cs.capacity@.len() as int);
                }
                return Err(e);
            },
            Ok(()) => {},
        }
        i += 1;
    }
    let ghost p1 = tasks_view(out@);
    i = 0;
    assert(tasks_view(out@) =~= p1 + Seq::<TaskView>::empty());
    while i < cs.game.len()
        invariant
            t.wf(),
            i <= cs.game.len(),
            plans(cs.capacity@, capacity_each(*t), cs.capacity@.len() as int) == Ok::<Seq<TaskView>, EncodeError>(p1),
            plans(cs.game@, game_each(*t), i as int) is Ok,
            tasks_view(out@) == p1 + plans(cs.game@, game_each(*t), i as int).unwrap(),
        decreases cs.game.len() - i,
    {
        match plan_ga1(t, &cs.game[i], &mut out) {
            Err(e) => {
                proof {
                    lemma_plans_error(cs.game@, game_each(*t), i + 1, cs.game@.len() as int);
                }
                return Err(e);
            },
            Ok(()) => {
                assert(tasks_view(out@) =~= p1 + plans(cs.game@, game_each(*t), i + 1).unwrap());
            },
        }
        i += 1;
    }
    let ghost p2 = tasks_view(out@);
    i = 0;
    assert(tasks_view(out@) =~= p2 + Seq::<TaskView>::empty());
    while i < cs.breaks.len()
        invariant
            t.wf(),
            i <= cs.breaks.len(),
            and_then(
                plans(cs.capacity@, capacity_each(*t), cs.capacity@.len() as int),
                plans(cs.game@, game_each(*t), cs.game@.len() as int),
            ) == Ok::<Seq<TaskView>, EncodeError>(p2),
            plans(cs.breaks@, break_each(*t, skip_br2), i as int) is Ok,
            tasks_view(out@) == p2 + plans(cs.breaks@, break_each(*t, skip_br2), i as int).unwrap(),
        decreases cs.breaks.len() - i,
    {
        match plan_break(t, &cs.breaks[i], skip_br2, &mut out) {
            Err(e) => {
                proof {
                    lemma_plans_error(cs.breaks@, break_each(*t, skip_br2), i + 1, cs.breaks@.len() as int);
                }
                return Err(e);
            },
            Ok(()) => {
                assert(tasks_view(out@) =~= p2 + plans(cs.breaks@, break_each(*t, skip_br2), i + 1).unwrap());
            },
        }
        i += 1;
    }
    let ghost p3 = tasks_view(out@);
    i = 0;
    assert(tasks_view(out@) =~= p3 + Seq::<TaskView>::empty());
    while i < cs.fairness.len()
        invariant
            t.wf(),
            i <= cs.fairness.len(),
            and_then(
                and_then(
                    plans(cs.capacity@, capacity_each(*t), cs.capacity@.len() as int),
                    plans(cs.game@, game_each(*t), cs.game@.len() as int),
                ),
                plans(cs.breaks@, break_each(*t, skip_br2), cs.breaks@.len() as int),
            ) == Ok::<Seq<TaskView>, EncodeError>(p3),
            plans(cs.fairness@, fairness_each(*t), i as int) is Ok,
            tasks_view(out@) == p3 + plans(cs.fairness@, fairness_each(*t), i as int).unwrap(),
        decreases cs.fairness.len() - i,
    {
        match plan_fa2(t, &cs.fairness[i], &mut out) {
            Err(e) => {
                proof {
                    lemma_plans_error(cs.fairness@, fairness_each(*t), i + 1, cs.fairness@.len() as int);
                }
                return Err(e);
            },
            Ok(()) => {
                assert(tasks_view(out@) =~= p3 + plans(cs.fairness@, fairness_each(*t), i + 1).unwrap());
            },
        }
        i += 1;
    }
    let ghost p4 = tasks_view(out@);
    i = 0;
    assert(tasks_view(out@) =~= p4 + Seq::<TaskView>::empty());
    while i < cs.separation.len()
        invariant
            i <= cs.separation.len(),
            and_then(
                and_then(
                    and_then(
                        plans(cs.capacity@, capacity_each(*t), cs.capacity@.len() as int),
                        plans(cs.game@, game_each(*t), cs.game@.len() as int),
                    ),
                    plans(cs.breaks@, break_each(*t, skip_br2), cs.breaks@.len() as int),
                ),
                plans(cs.fairness@, fairness_each(*t), cs.fairness@.len() as int),
            ) == Ok::<Seq<TaskView>, EncodeError>(p4),
            plans(cs.separation@, separation_each(), i as int) is Ok,
            tasks_view(out@) == p4 + plans(cs.separation@, separation_each(), i as int).unwrap(),
        decreases cs.separation.len() - i,
    {
        match plan_se1(&cs.separation[i], &mut out) {
            Err(e) => {
                proof {
                    lemma_plans_error(cs.separation@, separation_each(), i + 1, cs.separation@.len() as int);
                }
                return Err(e);
            },
            Ok(()) => {
                assert(tasks_view(out@) =~= p4 + plans(cs.separation@, separation_each(), i + 1).unwrap());
            },
        }
        i += 1;
    }
    Ok(out)
}

} // verus!
