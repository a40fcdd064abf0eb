//! The bookkeeping of the core-guided search for the least cost.
//!
//! The search goes round by round. In each round the catalog is sorted by
//! weight and the heaviest entries, up to a limit, are built and their
//! literals handed out to be assumed. A model ends the search if all
//! entries were assumed, and else raises the limit. A core raises the
//! lower bound by the least weight among its entries and weakens them.

use vstd::prelude::*;
use crate::lit::Bool;
use crate::formula::{Formula, Network, Role, Rule};
use crate::table::VarTable;
use crate::soft::{catalog, Soft, SoftView};
use crate::error::EncodeError;
use crate::materialize::{built, materialize, Built};

verus! {

/// No entry is the placeholder.
pub open spec fn no_undef(c: Seq<SoftView>) -> bool {
    forall|i: int| 0 <= i < c.len() ==> !((#[trigger] c[i]) is Undef)
}

/// `x` put into `s` behind the last entry that weighs as much or more.
pub open spec fn insert_desc(s: Seq<SoftView>, x: SoftView) -> Seq<SoftView>
    decreases s.len(),
{
    if s.len() == 0 {
        seq![x]
    } else if s.last().weight() >= x.weight() {
        s.push(x)
    } else {
        insert_desc(s.drop_last(), x).push(s.last())
    }
}

/// The entries of `s` by falling weight, entries of one weight in the
/// order they had.
pub open spec fn sort_desc(s: Seq<SoftView>) -> Seq<SoftView>
    decreases s.len(),
{
    if s.len() == 0 {
        Seq::empty()
    } else {
        insert_desc(sort_desc(s.drop_last()), s.last())
    }
}

/// The weights of `s` do not rise.
pub open spec fn is_desc(s: Seq<SoftView>) -> bool {
    forall|i: int, j: int| 0 <= i <= j < s.len() ==> (#[trigger] s[i]).weight() >= (#[trigger] s[j]).weight()
}

/// Putting `x` in at position `p` is `insert_desc` where the entries from
/// `p` on weigh less than `x` and the one before `p` does not.
proof fn lemma_insert_at(s: Seq<SoftView>, x: SoftView, p: int)
    requires
        0 <= p <= s.len(),
        forall|j: int| p <= j < s.len() ==> (#[trigger] s[j]).weight() < x.weight(),
        p > 0 ==> s[p - 1].weight() >= x.weight(),
    ensures
        insert_desc(s, x) == s.insert(p, x),
    decreases s.len() - p,
{
    if p == s.len() {
        assert(s.insert(p, x) =~= s.push(x));
        if s.len() > 0 {
            assert(s.last() == s[p - 1]);
        }
    } else {
        assert(s.last() == s[s.len() - 1]);
        let front = s.drop_last();
        assert forall|j: int| p <= j < front.len() implies (#[trigger] front[j]).weight() < x.weight() by {
            assert(front[j] == s[j]);
        }
        if p > 0 {
            assert(front[p - 1] == s[p - 1]);
        }
        lemma_insert_at(front, x, p);
        assert(front.insert(p, x).push(s.last()) =~= s.insert(p, x));
    }
}

#[verifier::rlimit(40)]
proof fn lemma_insert_desc_props(s: Seq<SoftView>, x: SoftView)
    requires
        is_desc(s),
    ensures
        is_desc(insert_desc(s, x)),
        insert_desc(s, x).len() == s.len() + 1,
        insert_desc(s, x).to_multiset() == s.to_multiset().insert(x),
    decreases s.len(),
{
    broadcast use vstd::seq_lib::group_to_multiset_ensures;

    if s.len() == 0 {
        assert(seq![x] =~= Seq::<SoftView>::empty().push(x));
    } else if s.last().weight() >= x.weight() {
        let r = s.push(x);
        assert forall|i: int, j: int| 0 <= i <= j < r.len() implies (#[trigger] r[i]).weight() >= (#[trigger] r[
            j
        ]).weight() by {
            if j == s.len() {
                if i < s.len() {
                    assert(s[i].weight() >= s[s.len() - 1].weight());
                }
            }
        }
    } else {
        let front = s.drop_last();
        assert(is_desc(front)) by {
            assert forall|i: int, j: int| 0 <= i <= j < front.len() implies (#[trigger] front[i]).weight() >= (
            #[trigger] front[j]).weight() by {
                assert(front[i] == s[i] && front[j] == s[j]);
            }
        }
        lemma_insert_desc_props(front, x);
        let mid = insert_desc(front, x);
        let r = mid.push(s.last());
        assert(s =~= front.push(s.last()));
        assert(mid.to_multiset().contains(x));
        assert forall|i: int, j: int| 0 <= i <= j < r.len() implies (#[trigger] r[i]).weight() >= (#[trigger] r[
            j
        ]).weight() by {
            if j == mid.len() && i < mid.len() {
                // every entry of `mid` is `x` or an entry of `front`
                assert(mid.to_multiset().count(mid[i]) > 0);
                if mid[i] != x {
                    assert(front.to_multiset().count(mid[i]) > 0);
                    let k = choose|k: int| 0 <= k < front.len() && front[k] == mid[i];
                    assert(s[k].weight() >= s[s.len() - 1].weight());
                }
            }
        }
        assert(r.to_multiset() =~= s.to_multiset().insert(x));
    }
}

/// The sorted catalog has the entries of the catalog, by falling weight.
pub proof fn lemma_sort_desc(s: Seq<SoftView>)
    ensures
        is_desc(sort_desc(s)),
        sort_desc(s).len() == s.len(),
        sort_desc(s).to_multiset() == s.to_multiset(),
    decreases s.len(),
{
    broadcast use vstd::seq_lib::group_to_multiset_ensures;

    if s.len() > 0 {
        lemma_sort_desc(s.drop_last());
        lemma_insert_desc_props(sort_desc(s.drop_last()), s.last());
        assert(s =~= s.drop_last().push(s.last()));
    } else {
        assert(s =~= Seq::<SoftView>::empty());
    }
}

/// Sorts the catalog by falling weight; entries of one weight keep their
/// order.
#[verifier::rlimit(40)]
pub fn sort_by_weight(soft: &mut Vec<Soft>)
    requires
        no_undef(catalog(old(soft)@)),
    ensures
        catalog(final(soft)@) == sort_desc(catalog(old(soft)@)),
{
    let ghost orig = catalog(soft@);
    let n: usize = soft.len();
    let mut i: usize = 0;
    assert(catalog(soft@).take(0) =~= sort_desc(orig.take(0)));
    assert(catalog(soft@).skip(0) =~= orig.skip(0));
    while i < n
        invariant
            n == orig.len(),
            soft@.len() == n,
            i <= n,
            no_undef(orig),
            catalog(soft@).take(i as int) == sort_desc(orig.take(i as int)),
            catalog(soft@).skip(i as int) == orig.skip(i as int),
        decreases n - i,
    {
        let ghost c0 = catalog(soft@);
        let ghost sorted = c0.take(i as int);
        assert(c0[i as int] == c0.skip(i as int)[0]);
        assert(orig[i as int] == orig.skip(i as int)[0]);
        let x: Soft = soft.remove(i);
        let ghost c1 = catalog(soft@);
        proof {
            assert(c1 =~= c0.remove(i as int));
            assert(x@ == orig[i as int]);
            assert(forall|j: int| 0 <= j < i ==> c1[j] == #[trigger] sorted[j]);
            lemma_sort_desc(orig.take(i as int));
            // the sorted part holds entries of the catalog, none of them the placeholder
            assert forall|j: int| 0 <= j < i implies !((#[trigger] sorted[j]) is Undef) by {
                broadcast use vstd::seq_lib::group_to_multiset_ensures;

                assert(sorted.to_multiset().count(sorted[j]) > 0);
                assert(orig.take(i as int).to_multiset().count(sorted[j]) > 0);
                let k = choose|k: int| 0 <= k < orig.take(i as int).len() && orig.take(i as int)[k] == sorted[j];
                assert(orig[k] == sorted[j]);
            }
        }
        let w: usize = x.weight();
        let mut p: usize = i;
        let mut go: bool = true;
        while go
            invariant
                p <= i,
                i < n,
                soft@.len() == n - 1,
                c1 == catalog(soft@),
                w == x@.weight(),
                forall|j: int| 0 <= j < i ==> c1[j] == #[trigger] sorted[j],
                forall|j: int| 0 <= j < i ==> !((#[trigger] sorted[j]) is Undef),
                forall|j: int| p <= j < i ==> (#[trigger] sorted[j]).weight() < w,
                !go ==> p == 0 || sorted[p - 1].weight() >= w,
            decreases
                    p + if go {
                        1int
                    } else {
                        0int
                    },
        {
            if p == 0 {
                go = false;
            } else {
                assert(c1[p - 1] == sorted[p - 1]);
                assert(c1[p - 1] == soft@[p - 1]@);
                if soft[p - 1].weight() < w {
                    p -= 1;
                } else {
                    go = false;
                }
            }
        }
        proof {
            lemma_insert_at(sorted, x@, p as int);
            assert forall|k: int| i <= k < n implies c0[k] == orig[k] by {
                assert(c0.skip(i as int)[k - i] == orig.skip(i as int)[k - i]);
            }
        }
        soft.insert(p, x);
        proof {
            let c2 = catalog(soft@);
            assert(c2 =~= c1.insert(p as int, x@));
            assert(c2.take(i + 1) =~= sorted.insert(p as int, x@));
            assert(orig.take(i + 1).drop_last() =~= orig.take(i as int));
            assert(c2.skip(i + 1) =~= orig.skip(i + 1));
        }
        i += 1;
    }
    assert(catalog(soft@).take(n as int) =~= catalog(soft@));
    assert(orig.take(n as int) =~= orig);
}

/// The formula and the catalog in the course of a round.
pub struct OptState {
    pub roles: Seq<Role>,
    pub networks: Seq<Network>,
    pub rules: Seq<Rule>,
    pub soft: Seq<SoftView>,
}

/// The state that a formula and a catalog make.
pub open spec fn opt_state(f: Formula, soft: Seq<Soft>) -> OptState {
    OptState { roles: f.roles@, networks: f.networks@, rules: f.rules(), soft: catalog(soft) }
}

/// The catalog with `entries` in place of the entry at position `n`.
pub open spec fn splice(soft: Seq<SoftView>, n: int, entries: Seq<SoftView>) -> Seq<SoftView> {
    soft.take(n) + entries + soft.skip(n + 1)
}

/// The state after the entry at position `n` is built into `b`.
pub open spec fn after_build(st: OptState, n: int, b: Built) -> OptState {
    OptState {
        roles: st.roles + b.roles,
        networks: st.networks + b.networks,
        rules: st.rules + b.rules,
        soft: splice(st.soft, n, b.entries),
    }
}

/// Building the entries from position `n` on until `limit` of them are
/// built or the catalog ends: an entry that is built already is passed
/// over, and must have a weight above zero; a recipe is built and replaced
/// by what it yields. The result is the state and the number of entries
/// that are ready to be assumed, or the error of the first entry that is
/// refused.
#[verifier::opaque]
pub open spec fn prepare_from(t: VarTable, st: OptState, n: int, limit: int) -> Result<(OptState, int), EncodeError>
    decreases st.soft.len() - n,
{
    if n < 0 || n >= st.soft.len() || n >= limit {
        Ok((st, n))
    } else {
        match st.soft[n] {
            SoftView::Undef => Err(EncodeError::Unsupported),
            SoftView::Relaxable { cost, lit, next } => if cost > 0 {
                prepare_from(t, st, n + 1, limit)
            } else {
                Err(EncodeError::Unsupported)
            },
            SoftView::Constructable { cost, relax } => match built(
                t,
                st.roles.len() as int,
                st.networks.len() as int,
                cost,
                relax,
            ) {
                Err(e) => Err(e),
                Ok(b) => prepare_from(t, after_build(st, n, b), n + b.entries.len(), limit),
            },
        }
    }
}

/// The first `n` entries of the catalog are built.
pub open spec fn window_ready(c: Seq<SoftView>, n: int) -> bool {
    0 <= n <= c.len() && forall|i: int| 0 <= i < n ==> (#[trigger] c[i]) is Relaxable
}

/// The literals of the first `n` entries.
pub open spec fn window_lits(c: Seq<SoftView>, n: int) -> Seq<Bool> {
    Seq::new(n as nat, |i: int| c[i]->lit)
}

/// Whatever is built, the entries that come of it are built.
pub proof fn lemma_built_entries(t: VarTable, nv: int, net: int, cost: usize, relax: crate::soft::RelaxView)
    requires
        built(t, nv, net, cost, relax) is Ok,
    ensures
        forall|i: int|
            0 <= i < built(t, nv, net, cost, relax).unwrap().entries.len() ==> (#[trigger] built(
                t,
                nv,
                net,
                cost,
                relax,
            ).unwrap().entries[i]) is Relaxable,
{
}

/// What building the entry at position `n` makes of the state: the error
/// for the placeholder or a recipe that is refused, else the state after.
pub open spec fn build_at(t: VarTable, st: OptState, n: int) -> Result<(OptState, int), EncodeError> {
    match st.soft[n] {
        SoftView::Constructable { cost, relax } => match built(
            t,
            st.roles.len() as int,
            st.networks.len() as int,
            cost,
            relax,
        ) {
            Err(e) => Err(e),
            Ok(b) => Ok((after_build(st, n, b), b.entries.len() as int)),
        },
        _ => Err(EncodeError::Unsupported),
    }
}

/// Puts `entries` into the catalog at position `n`.
fn insert_entries(soft: &mut Vec<Soft>, n: usize, entries: Vec<Soft>)
    requires
        n <= old(soft)@.len(),
    ensures
        catalog(final(soft)@) == catalog(old(soft)@).take(n as int) + catalog(entries@) + catalog(old(soft)@).skip(
            n as int,
        ),
        final(soft)@.len() == old(soft)@.len() + entries@.len(),
{
    let ghost c1 = catalog(soft@);
    let ghost ent = catalog(entries@);
    let e: usize = entries.len();
    let mut entries: Vec<Soft> = entries;
    let mut k: usize = e;
    assert(catalog(soft@) =~= c1.take(n as int) + ent.skip(k as int) + c1.skip(n as int));
    assert(catalog(entries@) =~= ent.take(k as int));
    while k > 0
        invariant
            k <= e,
            e == ent.len(),
            n <= c1.len(),
            entries@.len() == k,
            soft@.len() == c1.len() + e - k,
            catalog(entries@) == ent.take(k as int),
            catalog(soft@) == c1.take(n as int) + ent.skip(k as int) + c1.skip(n as int),
        decreases k,
    {
        let ghost before = catalog(soft@);
        let ghost rest = catalog(entries@);
        assert(rest[k - 1] == entries@[k - 1]@);
        let last: Soft = entries.pop().unwrap();
        assert(last@ == ent[k - 1]);
        soft.insert(n, last);
        assert(catalog(soft@) =~= before.insert(n as int, last@));
        k -= 1;
        assert(catalog(entries@) =~= ent.take(k as int));
        assert(catalog(soft@) =~= c1.take(n as int) + ent.skip(k as int) + c1.skip(n as int));
    }
    assert(ent.skip(0) =~= ent);
}

/// Builds the entry at position `n`, which is a recipe, and puts what it
/// yields in its place. Returns the number of entries that it yields.
#[verifier::rlimit(40)]
fn build_entry(solver: &mut Formula, vars: &VarTable, soft: &mut Vec<Soft>, n: usize) -> (r: Result<
    usize,
    EncodeError,
>)
    requires
        vars.wf(),
        n < old(soft)@.len(),
    ensures
        match build_at(*vars, opt_state(*old(solver), old(soft)@), n as int) {
            Err(e) => r matches Err(x) && x == e,
            Ok(done) => {
                &&& r matches Ok(k)
                &&& k == done.1
                &&& n + k <= final(soft)@.len()
                &&& final(soft)@.len() == old(soft)@.len() - 1 + k
                &&& opt_state(*final(solver), final(soft)@) == done.0
                &&& forall|i: int| n <= i < n + k ==> (#[trigger] done.0.soft[i]) is Relaxable
            },
        },
{
    let ghost st = opt_state(*solver, soft@);
    let ghost c0 = catalog(soft@);
    assert(c0[n as int] == soft@[n as int]@);
    let entry: Soft = soft.remove(n);
    let ghost c1 = catalog(soft@);
    assert(c1 =~= c0.remove(n as int));
    match entry {
        Soft::Constructable(cost, relax) => {
            let ghost recipe = relax@;
            match materialize(solver, vars, cost, relax) {
                Err(e) => Err(e),
                Ok(entries) => {
                    let ghost b = built(*vars, st.roles.len() as int, st.networks.len() as int, cost, recipe).unwrap();
                    let ghost ent = catalog(entries@);
                    proof {
                        lemma_built_entries(*vars, st.roles.len() as int, st.networks.len() as int, cost, recipe);
                    }
                    let e: usize = entries.len();
                    insert_entries(soft, n, entries);
                    proof {
                        assert(catalog(soft@) =~= splice(c0, n as int, ent));
                        assert forall|i: int| n <= i < n + e implies (#[trigger] catalog(soft@)[i]) is Relaxable by {
                            assert(catalog(soft@)[i] == ent[i - n]);
                        }
                    }
                    Ok(e)
                },
            }
        },
        _ => Err(EncodeError::Unsupported),
    }
}

/// One step of `prepare_from`.
pub proof fn lemma_prepare_from(t: VarTable, st: OptState, n: int, limit: int)
    ensures
        prepare_from(t, st, n, limit) == (if n < 0 || n >= st.soft.len() || n >= limit {
            Ok::<(OptState, int), EncodeError>((st, n))
        } else {
            match st.soft[n] {
                SoftView::Relaxable { cost, lit, next } => if cost > 0 {
                    prepare_from(t, st, n + 1, limit)
                } else {
                    Err(EncodeError::Unsupported)
                },
                _ => match build_at(t, st, n) {
                    Err(e) => Err(e),
                    Ok(done) => prepare_from(t, done.0, n + done.1, limit),
                },
            }
        }),
{
    reveal(prepare_from);
}

/// Builds the entries of the catalog from the first on until `limit` of
/// them are ready or the catalog ends, and returns how many are ready.
#[verifier::rlimit(50)]
pub fn prepare_window(solver: &mut Formula, vars: &VarTable, soft: &mut Vec<Soft>, limit: usize) -> (r: Result<
    usize,
    EncodeError,
>)
    requires
        vars.wf(),
    ensures
        match prepare_from(*vars, opt_state(*old(solver), old(soft)@), 0, limit as int) {
            Err(e) => r matches Err(x) && x == e,
            Ok(done) => {
                &&& r matches Ok(n)
                &&& n == done.1
                &&& opt_state(*final(solver), final(soft)@) == done.0
                &&& window_ready(done.0.soft, done.1)
            },
        },
{
    let ghost goal = prepare_from(*vars, opt_state(*old(solver), old(soft)@), 0, limit as int);
    let mut n: usize = 0;
    while n < soft.len() && n < limit
        invariant
            vars.wf(),
            n <= soft@.len(),
            goal == prepare_from(*vars, opt_state(*old(solver), old(soft)@), 0, limit as int),
            prepare_from(*vars, opt_state(*solver, soft@), n as int, limit as int) == goal,
            window_ready(catalog(soft@), n as int),
        decreases soft@.len() - n,
    {
        let ghost st = opt_state(*solver, soft@);
        let ghost c0 = catalog(soft@);
        assert(c0[n as int] == soft@[n as int]@);
        proof {
            lemma_prepare_from(*vars, st, n as int, limit as int);
        }
        let ready: Option<usize> = match &soft[n] {
            Soft::Relaxable(c, _, _) => Some(*c),
            _ => None,
        };
        match ready {
            Some(c) => {
                if c == 0 {
                    return Err(EncodeError::Unsupported);
                }
                n += 1;
            },
            None => {
                match build_entry(solver, vars, soft, n) {
                    Err(e) => {
                        return Err(e);
                    },
                    Ok(k) => {
                        proof {
                            assert(build_at(*vars, st, n as int) is Ok);
                            assert(n + k <= soft@.len());
                            assert(soft@.len() == c0.len() - 1 + k);
                            let c2 = catalog(soft@);
                            assert forall|i: int| 0 <= i < n + k implies (#[trigger] c2[i]) is Relaxable by {
                                if i < n {
                                    assert(c2[i] == c0[i]);
                                }
                            }
                        }
                        let total: usize = soft.len();
                        assert(n + k <= total);
                        n = n + k;
                    },
                }
            },
        }
    }
    proof {
        lemma_prepare_from(*vars, opt_state(*solver, soft@), n as int, limit as int);
    }
    Ok(n)
}

/// The literals of the first `n` entries of the catalog, to be assumed.
pub fn assumptions(soft: &Vec<Soft>, n: usize) -> (r: Vec<Bool>)
    requires
        window_ready(catalog(soft@), n as int),
    ensures
        r@ == window_lits(catalog(soft@), n as int),
{
    let mut out: Vec<Bool> = Vec::new();
    let mut i: usize = 0;
    while i < n
        invariant
            i <= n,
            window_ready(catalog(soft@), n as int),
            out@ == window_lits(catalog(soft@), i as int),
        decreases n - i,
    {
        assert(catalog(soft@)[i as int] == soft@[i as int]@);
        match &soft[i] {
            Soft::Relaxable(_, lit, _) => {
                out.push(*lit);
            },
            _ => {},
        }
        assert(out@ =~= window_lits(catalog(soft@), i + 1));
        i += 1;
    }
    out
}

/// The number of entries assumed in the first round, and the number by
/// which it grows.
pub const FIRST_WINDOW: usize = 10;

/// The search for the least cost: the catalog, the lower bound on the
/// cost, the greatest number of entries to assume, the step by which that
/// number grows, and the number of entries assumed in this round.
#[derive(Debug)]
pub struct Optimizer {
    pub soft: Vec<Soft>,
    pub current_lb: usize,
    pub max_constraints: usize,
    pub max_constraints_step: usize,
    pub window: usize,
}

impl Optimizer {
    /// A search over the catalog `soft` with a lower bound of zero.
    pub fn new(soft: Vec<Soft>) -> (r: Optimizer)
        ensures
            r.soft == soft,
            r.current_lb == 0,
            r.max_constraints == FIRST_WINDOW,
            r.max_constraints_step == FIRST_WINDOW,
            r.window == 0,
    {
        Optimizer {
            soft,
            current_lb: 0,
            max_constraints: FIRST_WINDOW,
            max_constraints_step: FIRST_WINDOW,
            window: 0,
        }
    }

    /// Begins a round: sorts the catalog by falling weight, builds its
    /// first entries up to the limit, and returns their literals, which
    /// are to be assumed. A catalog that holds the placeholder is refused.
    pub fn start_round(&mut self, solver: &mut Formula, vars: &VarTable) -> (r: Result<Vec<Bool>, EncodeError>)
        requires
            vars.wf(),
        ensures
            final(self).current_lb == old(self).current_lb,
            final(self).max_constraints == old(self).max_constraints,
            final(self).max_constraints_step == old(self).max_constraints_step,
            !no_undef(catalog(old(self).soft@)) ==> {
                &&& r matches Err(x)
                &&& x == EncodeError::Unsupported
                &&& *final(self) == *old(self)
                &&& *final(solver) == *old(solver)
            },
            no_undef(catalog(old(self).soft@)) ==> match prepare_from(
                *vars,
                OptState {
                    roles: old(solver).roles@,
                    networks: old(solver).networks@,
                    rules: old(solver).rules(),
                    soft: sort_desc(catalog(old(self).soft@)),
                },
                0,
                old(self).max_constraints as int,
            ) {
                Err(e) => r matches Err(x) && x == e,
                Ok(done) => {
                    &&& r matches Ok(lits)
                    &&& lits@ == window_lits(done.0.soft, done.1)
                    &&& final(self).window == done.1
                    &&& opt_state(*final(solver), final(self).soft@) == done.0
                    &&& window_ready(done.0.soft, done.1)
                },
            },
    {
        if !crate::conflict::has_no_undef(&self.soft) {
            return Err(EncodeError::Unsupported);
        }
        sort_by_weight(&mut self.soft);
        match prepare_window(solver, vars, &mut self.soft, self.max_constraints) {
            Err(e) => Err(e),
            Ok(n) => {
                self.window = n;
                Ok(assumptions(&self.soft, n))
            },
        }
    }

    /// A model was found under the assumptions of the round. Where every
    /// entry of the catalog was assumed the search is done, and the least
    /// cost is the lower bound. Else the limit grows by its step.
    pub fn model_found(&mut self) -> (done: bool)
        ensures
            done == (old(self).window >= old(self).soft@.len()),
            final(self).soft == old(self).soft,
            final(self).current_lb == old(self).current_lb,
            final(self).max_constraints_step == old(self).max_constraints_step,
            final(self).window == old(self).window,
            done ==> final(self).max_constraints == old(self).max_constraints,
            !done ==> final(self).max_constraints == crate::conflict::saturating_sum(
                old(self).max_constraints,
                old(self).max_constraints_step,
            ),
    {
        if self.window < self.soft.len() {
            let room: usize = usize::MAX - self.max_constraints;
            if self.max_constraints_step > room {
                self.max_constraints = usize::MAX;
            } else {
                self.max_constraints = self.max_constraints + self.max_constraints_step;
            }
            false
        } else {
            true
        }
    }

    /// A core was found under the assumptions of the round. Returns
    /// `None`, with nothing changed, where the core does not fit the
    /// round; else what `apply_core` makes of it.
    pub fn core_found(&mut self, solver: &mut Formula, core: &Vec<Bool>) -> (r: Option<
        crate::conflict::CoreOutcome,
    >)
        ensures
            final(self).current_lb >= old(self).current_lb,
            final(self).max_constraints == old(self).max_constraints,
            final(self).max_constraints_step == old(self).max_constraints_step,
            final(self).window == old(self).window,
            final(solver).roles == old(solver).roles,
            final(solver).networks == old(solver).networks,
            !crate::conflict::core_fits(catalog(old(self).soft@), old(self).window as int, core@) ==> {
                &&& r is None
                &&& *final(self) == *old(self)
                &&& *final(solver) == *old(solver)
            },
            crate::conflict::core_fits(catalog(old(self).soft@), old(self).window as int, core@) ==> {
                &&& r is Some
                &&& core@.len() == 0 ==> {
                    &&& r == Some(crate::conflict::CoreOutcome::Infeasible)
                    &&& *final(self) == *old(self)
                    &&& *final(solver) == *old(solver)
                }
                &&& core@.len() > 0 ==> {
                    &&& r == Some(
                        crate::conflict::CoreOutcome::Refined {
                            conflict_cost: crate::conflict::conflict_cost(
                                catalog(old(self).soft@),
                                old(self).window as int,
                                core@,
                                core@.len() as int,
                            ),
                        },
                    )
                    &&& catalog(final(self).soft@) == crate::conflict::after_core(
                        catalog(old(self).soft@),
                        old(self).window as int,
                        core@,
                    )
                    &&& final(self).current_lb == crate::conflict::saturating_sum(
                        old(self).current_lb,
                        crate::conflict::conflict_cost(
                            catalog(old(self).soft@),
                            old(self).window as int,
                            core@,
                            core@.len() as int,
                        ),
                    )
                }
                &&& core@.len() == 1 ==> final(solver).rules() == old(solver).rules().push(
                    Rule::Clause(seq![core@[0].negation()]),
                )
                &&& core@.len() != 1 ==> final(solver).constraints == old(solver).constraints
            },
    {
        if !crate::conflict::core_can_be_applied(&self.soft, self.window, core) {
            return None;
        }
        Some(crate::conflict::apply_core(solver, &mut self.soft, self.window, core, &mut self.current_lb))
    }
}

} // verus!
