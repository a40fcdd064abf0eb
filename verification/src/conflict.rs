//! What a core does to the catalog.
//!
//! A core is a set of assumed literals that cannot all hold. The least
//! weight among their entries is the cost of the conflict: each entry of
//! the core loses that much weight, and an entry that has none left gives
//! way to what follows it, or leaves the catalog. A core of several
//! literals comes back as a new entry that asks for at most one of them
//! to fail; a core of one literal becomes a rule.

use vstd::prelude::*;
use crate::lit::{negate_all, negated, one, Bool};
use crate::formula::{Formula, Rule};
use crate::soft::{catalog, Relax, RelaxView, Soft, SoftView};
use crate::optimizer::{no_undef, window_ready};

verus! {

/// The last position before `n` whose entry assumes `l`, or -1.
pub open spec fn lit_index(c: Seq<SoftView>, n: int, l: Bool) -> int
    decreases n,
{
    if n <= 0 {
        -1
    } else if c[n - 1] is Relaxable && c[n - 1]->lit == l {
        n - 1
    } else {
        lit_index(c, n - 1, l)
    }
}

/// The position found is before `n`, and its entry assumes the literal.
pub proof fn lemma_lit_index(c: Seq<SoftView>, n: int, l: Bool)
    ensures
        -1 <= lit_index(c, n, l) < n || (n <= 0 && lit_index(c, n, l) == -1),
        lit_index(c, n, l) >= 0 ==> c[lit_index(c, n, l)] is Relaxable && c[lit_index(c, n, l)]->lit == l,
    decreases n,
{
    if n > 0 {
        lemma_lit_index(c, n - 1, l);
    }
}

/// Every literal of the core is assumed by one of the first `n` entries.
pub open spec fn core_in_window(c: Seq<SoftView>, n: int, core: Seq<Bool>) -> bool {
    forall|k: int| 0 <= k < core.len() ==> lit_index(c, n, #[trigger] core[k]) >= 0
}

/// The weight of the entry that assumes `l`.
pub open spec fn cost_at(c: Seq<SoftView>, n: int, l: Bool) -> usize {
    c[lit_index(c, n, l)].weight()
}

/// The least weight among the entries of the first `k` literals of the
/// core.
pub open spec fn conflict_cost(c: Seq<SoftView>, n: int, core: Seq<Bool>, k: int) -> usize
    decreases k,
{
    if k <= 1 {
        cost_at(c, n, core[0])
    } else if cost_at(c, n, core[k - 1]) < conflict_cost(c, n, core, k - 1) {
        cost_at(c, n, core[k - 1])
    } else {
        conflict_cost(c, n, core, k - 1)
    }
}

/// Whether the entry at position `i` assumes one of the first `k`
/// literals of the core.
pub open spec fn hit(c: Seq<SoftView>, n: int, core: Seq<Bool>, k: int, i: int) -> bool
    decreases k,
{
    k > 0 && (lit_index(c, n, core[k - 1]) == i || hit(c, n, core, k - 1, i))
}

/// What becomes of an entry of the core: it loses the cost of the
/// conflict; with no weight left it gives way to what follows it; with
/// nothing to follow it leaves the catalog.
pub open spec fn weakened(e: SoftView, cc: usize) -> Option<SoftView> {
    match e {
        SoftView::Relaxable { cost, lit, next } => if cost > cc {
            Some(SoftView::Relaxable { cost: (cost - cc) as usize, lit, next })
        } else {
            match next {
                Some(follow) => Some(SoftView::Constructable { cost: follow.0, relax: follow.1 }),
                None => None,
            }
        },
        _ => Some(e),
    }
}

/// The entry at position `i` leaves the catalog.
pub open spec fn leaves(c: Seq<SoftView>, n: int, core: Seq<Bool>, k: int, cc: usize, i: int) -> bool {
    hit(c, n, core, k, i) && weakened(c[i], cc) is None
}

/// The entry at position `i` after the first `k` literals of the core are
/// dealt with; one that is to leave is still in its place.
pub open spec fn refined_at(c: Seq<SoftView>, n: int, core: Seq<Bool>, k: int, cc: usize, i: int) -> SoftView {
    if hit(c, n, core, k, i) && weakened(c[i], cc) is Some {
        weakened(c[i], cc).unwrap()
    } else {
        c[i]
    }
}

pub open spec fn refined(c: Seq<SoftView>, n: int, core: Seq<Bool>, k: int, cc: usize) -> Seq<SoftView> {
    Seq::new(c.len(), |i: int| refined_at(c, n, core, k, cc, i))
}

/// Of the first `k` refined entries those that stay.
pub open spec fn staying(c: Seq<SoftView>, n: int, core: Seq<Bool>, cc: usize, k: int) -> Seq<SoftView>
    decreases k,
{
    if k <= 0 {
        Seq::empty()
    } else if leaves(c, n, core, core.len() as int, cc, k - 1) {
        staying(c, n, core, cc, k - 1)
    } else {
        staying(c, n, core, cc, k - 1).push(refined_at(c, n, core, core.len() as int, cc, k - 1))
    }
}

/// The first position whose entry weighs `w` or less, or the length.
pub open spec fn first_not_above(s: Seq<SoftView>, w: usize) -> int
    decreases s.len(),
{
    if s.len() == 0 {
        0
    } else if s[0].weight() <= w {
        0
    } else {
        1 + first_not_above(s.skip(1), w)
    }
}

/// The position in front of which every entry weighs more than `w` and at
/// which the entry does not is the first whose entry weighs `w` or less.
pub proof fn lemma_first_not_above(s: Seq<SoftView>, w: usize, p: int)
    requires
        0 <= p <= s.len(),
        forall|j: int| 0 <= j < p ==> (#[trigger] s[j]).weight() > w,
        p < s.len() ==> s[p].weight() <= w,
    ensures
        first_not_above(s, w) == p,
    decreases s.len(),
{
    if s.len() > 0 && p > 0 {
        assert(s[0].weight() > w);
        let rest = s.skip(1);
        assert forall|j: int| 0 <= j < p - 1 implies (#[trigger] rest[j]).weight() > w by {
            assert(rest[j] == s[j + 1]);
        }
        if p - 1 < rest.len() {
            assert(rest[p - 1] == s[p]);
        }
        lemma_first_not_above(rest, w, p - 1);
    }
}

/// The entry that asks for at most one of the literals of the core to
/// fail, at the cost of the conflict.
pub open spec fn merged(core: Seq<Bool>, cc: usize) -> SoftView {
    SoftView::Constructable { cost: cc, relax: RelaxView::NewTotalizer { lits: negate_all(core), bound: 1 } }
}

/// The catalog after the core: its entries weakened, those with nothing
/// left gone, and for a core of several literals the new entry in front
/// of the first entry that does not weigh more.
pub open spec fn after_core(c: Seq<SoftView>, n: int, core: Seq<Bool>) -> Seq<SoftView> {
    let cc = conflict_cost(c, n, core, core.len() as int);
    let stay = staying(c, n, core, cc, c.len() as int);
    if core.len() > 1 {
        stay.insert(first_not_above(stay, cc), merged(core, cc))
    } else {
        stay
    }
}

/// The position of the entry that assumes `l`.
fn find_lit(soft: &Vec<Soft>, n: usize, l: Bool) -> (r: usize)
    requires
        n <= soft@.len(),
        lit_index(catalog(soft@), n as int, l) >= 0,
    ensures
        r == lit_index(catalog(soft@), n as int, l),
        r < n,
{
    let ghost c = catalog(soft@);
    let mut i: usize = n;
    while i > 0
        invariant
            i <= n,
            n <= soft@.len(),
            c == catalog(soft@),
            lit_index(c, i as int, l) == lit_index(c, n as int, l),
            lit_index(c, n as int, l) >= 0,
        decreases i,
    {
        assert(c[i - 1] == soft@[i - 1]@);
        let here: bool = match &soft[i - 1] {
            Soft::Relaxable(_, lit, _) => *lit == l,
            _ => false,
        };
        if here {
            return i - 1;
        }
        i -= 1;
    }
    0
}

/// The positions of the entries of the core and the cost of the conflict.
fn locate(soft: &Vec<Soft>, n: usize, core: &Vec<Bool>) -> (r: (Vec<usize>, usize))
    requires
        core@.len() > 0,
        window_ready(catalog(soft@), n as int),
        core_in_window(catalog(soft@), n as int, core@),
    ensures
        r.0@.len() == core@.len(),
        forall|k: int| 0 <= k < core@.len() ==> #[trigger] r.0@[k] == lit_index(catalog(soft@), n as int, core@[k]),
        r.1 == conflict_cost(catalog(soft@), n as int, core@, core@.len() as int),
{
    let ghost c = catalog(soft@);
    let mut found: Vec<usize> = Vec::new();
    let mut least: usize = 0;
    let mut k: usize = 0;
    while k < core.len()
        invariant
            k <= core.len(),
            c == catalog(soft@),
            window_ready(c, n as int),
            core_in_window(c, n as int, core@),
            found@.len() == k,
            forall|j: int| 0 <= j < k ==> #[trigger] found@[j] == lit_index(c, n as int, core@[j]),
            k > 0 ==> least == conflict_cost(c, n as int, core@, k as int),
        decreases core.len() - k,
    {
        let l: Bool = core[k];
        assert(lit_index(c, n as int, core@[k as int]) >= 0);
        let idx: usize = find_lit(soft, n, l);
        proof {
            lemma_lit_index(c, n as int, l);
            assert(c[idx as int] == soft@[idx as int]@);
        }
        let w: usize = soft[idx].weight();
        if k == 0 || w < least {
            least = w;
        }
        found.push(idx);
        k += 1;
    }
    (found, least)
}

/// An entry that is hit assumes one of the literals of the core.
proof fn lemma_hit(c: Seq<SoftView>, n: int, core: Seq<Bool>, k: int, i: int)
    requires
        0 <= k <= core.len(),
        hit(c, n, core, k, i),
    ensures
        exists|j: int| 0 <= j < k && lit_index(c, n, #[trigger] core[j]) == i,
    decreases k,
{
    if lit_index(c, n, core[k - 1]) == i {
    } else {
        lemma_hit(c, n, core, k - 1, i);
    }
}

/// The entry of a literal of the core is not hit by the literals before
/// it, as no literal occurs twice in the core.
proof fn lemma_fresh_hit(c: Seq<SoftView>, n: int, core: Seq<Bool>, k: int)
    requires
        0 <= k < core.len(),
        core.no_duplicates(),
        core_in_window(c, n, core),
    ensures
        !hit(c, n, core, k, lit_index(c, n, core[k])),
{
    let i = lit_index(c, n, core[k]);
    if hit(c, n, core, k, i) {
        lemma_hit(c, n, core, k, i);
        let j = choose|j: int| 0 <= j < k && lit_index(c, n, #[trigger] core[j]) == i;
        lemma_lit_index(c, n, core[j]);
        lemma_lit_index(c, n, core[k]);
        assert(core[j] == core[k]);
    }
}

/// Weakens an entry of the core by the cost of the conflict. The flag
/// says that the entry is to leave the catalog; it is then unchanged.
fn weaken(entry: Soft, cc: usize) -> (r: (Soft, bool))
    ensures
        match weakened(entry@, cc) {
            Some(e) => r.0@ == e && !r.1,
            None => r.0@ == entry@ && r.1,
        },
{
    match entry {
        Soft::Relaxable(cost, lit, next) => {
            if cost > cc {
                (Soft::Relaxable(cost - cc, lit, next), false)
            } else {
                match next {
                    Some(follow) => (Soft::Constructable(follow.0, follow.1), false),
                    None => (Soft::Relaxable(cost, lit, None), true),
                }
            }
        },
        Soft::Constructable(cost, relax) => (Soft::Constructable(cost, relax), false),
        Soft::Undef => (Soft::Undef, false),
    }
}

/// Which of the entries leave the catalog.
pub open spec fn leaving(c: Seq<SoftView>, n: int, core: Seq<Bool>, k: int, cc: usize) -> Seq<bool> {
    Seq::new(c.len(), |i: int| leaves(c, n, core, k, cc, i))
}

/// Weakens the entries of the core in their places and says which of
/// them are to leave.
#[verifier::rlimit(40)]
fn weaken_core(soft: &mut Vec<Soft>, n: usize, core: &Vec<Bool>, found: &Vec<usize>, cc: usize) -> (marks: Vec<bool>)
    requires
        window_ready(catalog(old(soft)@), n as int),
        core_in_window(catalog(old(soft)@), n as int, core@),
        core@.no_duplicates(),
        no_undef(catalog(old(soft)@)),
        found@.len() == core@.len(),
        forall|k: int|
            0 <= k < core@.len() ==> #[trigger] found@[k] == lit_index(catalog(old(soft)@), n as int, core@[k]),
    ensures
        catalog(final(soft)@) == refined(catalog(old(soft)@), n as int, core@, core@.len() as int, cc),
        marks@ == leaving(catalog(old(soft)@), n as int, core@, core@.len() as int, cc),
        no_undef(catalog(final(soft)@)),
{
    let ghost c = catalog(soft@);
    let len: usize = soft.len();
    let mut marks: Vec<bool> = Vec::new();
    let mut i: usize = 0;
    while i < len
        invariant
            i <= len,
            marks@.len() == i,
            forall|j: int| 0 <= j < i ==> !#[trigger] marks@[j],
        decreases len - i,
    {
        marks.push(false);
        i += 1;
    }
    assert(marks@ =~= leaving(c, n as int, core@, 0, cc));
    assert(catalog(soft@) =~= refined(c, n as int, core@, 0, cc));
    let mut k: usize = 0;
    while k < core.len()
        invariant
            k <= core.len(),
            len == c.len(),
            soft@.len() == len,
            window_ready(c, n as int),
            core_in_window(c, n as int, core@),
            core@.no_duplicates(),
            no_undef(c),
            found@.len() == core@.len(),
            forall|j: int| 0 <= j < core@.len() ==> #[trigger] found@[j] == lit_index(c, n as int, core@[j]),
            catalog(soft@) == refined(c, n as int, core@, k as int, cc),
            marks@ == leaving(c, n as int, core@, k as int, cc),
        decreases core.len() - k,
    {
        let idx: usize = found[k];
        let ghost now = catalog(soft@);
        proof {
            assert(found@[k as int] == lit_index(c, n as int, core@[k as int]));
            assert(lit_index(c, n as int, core@[k as int]) >= 0);
            lemma_lit_index(c, n as int, core@[k as int]);
            lemma_fresh_hit(c, n as int, core@, k as int);
            assert(now[idx as int] == c[idx as int]);
            assert(now[idx as int] == soft@[idx as int]@);
        }
        let entry: Soft = soft.remove(idx);
        let weak: (Soft, bool) = weaken(entry, cc);
        let ghost put = weak.0@;
        soft.insert(idx, weak.0);
        if weak.1 {
            marks.set(idx, true);
        }
        proof {
            assert(catalog(soft@) =~= now.update(idx as int, put));
            assert(catalog(soft@) =~= refined(c, n as int, core@, k + 1, cc));
            assert(marks@ =~= leaving(c, n as int, core@, k + 1, cc));
        }
        k += 1;
    }
    proof {
        let r = catalog(soft@);
        assert forall|i: int| 0 <= i < r.len() implies !((#[trigger] r[i]) is Undef) by {
            assert(!(c[i] is Undef));
        }
    }
    marks
}

/// Takes the marked entries out of the catalog.
#[verifier::rlimit(40)]
fn drop_marked(soft: &mut Vec<Soft>, marks: &Vec<bool>, Ghost(c): Ghost<Seq<SoftView>>, Ghost(n): Ghost<int>, Ghost(
    core,
): Ghost<Seq<Bool>>, Ghost(cc): Ghost<usize>)
    requires
        catalog(old(soft)@) == refined(c, n, core, core.len() as int, cc),
        marks@ == leaving(c, n, core, core.len() as int, cc),
        no_undef(catalog(old(soft)@)),
    ensures
        catalog(final(soft)@) == staying(c, n, core, cc, c.len() as int),
        no_undef(catalog(final(soft)@)),
{
    let ghost r = catalog(soft@);
    let len: usize = marks.len();
    let mut i: usize = 0;
    let mut j: usize = 0;
    assert(catalog(soft@) =~= staying(c, n, core, cc, 0) + r.skip(0));
    while j < len
        invariant
            len == c.len(),
            r.len() == len,
            r == refined(c, n, core, core.len() as int, cc),
            marks@ == leaving(c, n, core, core.len() as int, cc),
            no_undef(r),
            i <= j <= len,
            i == staying(c, n, core, cc, j as int).len(),
            soft@.len() == i + (len - j),
            catalog(soft@) == staying(c, n, core, cc, j as int) + r.skip(j as int),
        decreases len - j,
    {
        let ghost now = catalog(soft@);
        assert(now[i as int] == r.skip(j as int)[0]);
        if marks[j] {
            let gone: Soft = soft.remove(i);
            assert(catalog(soft@) =~= now.remove(i as int));
            assert(catalog(soft@) =~= staying(c, n, core, cc, j + 1) + r.skip(j + 1));
        } else {
            assert(now =~= staying(c, n, core, cc, j + 1) + r.skip(j + 1));
            i += 1;
        }
        j += 1;
    }
    proof {
        let out = catalog(soft@);
        assert(out =~= staying(c, n, core, cc, len as int));
        assert(no_undef(out)) by {
            lemma_staying_no_undef(c, n, core, cc, len as int);
        }
    }
}

proof fn lemma_staying_no_undef(c: Seq<SoftView>, n: int, core: Seq<Bool>, cc: usize, k: int)
    requires
        0 <= k <= c.len(),
        no_undef(refined(c, n, core, core.len() as int, cc)),
    ensures
        no_undef(staying(c, n, core, cc, k)),
    decreases k,
{
    if k > 0 {
        lemma_staying_no_undef(c, n, core, cc, k - 1);
        assert(!(refined(c, n, core, core.len() as int, cc)[k - 1] is Undef));
    }
}

/// What a core has come to.
#[derive(Clone, Copy, PartialEq, Eq, Structural, Debug)]
pub enum CoreOutcome {
    /// The core is empty: the hard rules alone have no model.
    Infeasible,
    /// The catalog is refined and the lower bound raised by the cost.
    Refined { conflict_cost: usize },
}

/// The sum, or the greatest number where the sum is greater.
pub open spec fn saturating_sum(a: usize, b: usize) -> usize {
    if a + b > usize::MAX {
        usize::MAX
    } else {
        (a + b) as usize
    }
}

/// Deals with the core `core` of the assumptions of the first `n` entries
/// of the catalog. An empty core changes nothing. Else the entries of the
/// core are weakened by the least weight among them, the lower bound
/// `current_lb` rises by it, and the core comes back as a new entry, or as
/// a rule if it is one literal.
#[verifier::rlimit(40)]
pub fn apply_core(solver: &mut Formula, soft: &mut Vec<Soft>, n: usize, core: &Vec<Bool>, current_lb: &mut usize) -> (r:
    CoreOutcome)
    requires
        window_ready(catalog(old(soft)@), n as int),
        core_in_window(catalog(old(soft)@), n as int, core@),
        core@.no_duplicates(),
        no_undef(catalog(old(soft)@)),
    ensures
        final(solver).roles == old(solver).roles,
        final(solver).networks == old(solver).networks,
        *final(current_lb) >= *old(current_lb),
        core@.len() == 0 ==> {
            &&& r == CoreOutcome::Infeasible
            &&& *final(solver) == *old(solver)
            &&& *final(soft) == *old(soft)
            &&& *final(current_lb) == *old(current_lb)
        },
        core@.len() > 0 ==> {
            &&& r == (CoreOutcome::Refined {
                conflict_cost: conflict_cost(catalog(old(soft)@), n as int, core@, core@.len() as int),
            })
            &&& catalog(final(soft)@) == after_core(catalog(old(soft)@), n as int, core@)
            &&& *final(current_lb) == saturating_sum(
                *old(current_lb),
                conflict_cost(catalog(old(soft)@), n as int, core@, core@.len() as int),
            )
            &&& no_undef(catalog(final(soft)@))
        },
        core@.len() == 1 ==> final(solver).rules() == old(solver).rules().push(
            Rule::Clause(seq![core@[0].negation()]),
        ),
        core@.len() != 1 ==> final(solver).constraints == old(solver).constraints,
{
    if core.len() == 0 {
        return CoreOutcome::Infeasible;
    }
    let ghost c = catalog(soft@);
    let located: (Vec<usize>, usize) = locate(soft, n, core);
    let found: Vec<usize> = located.0;
    let cc: usize = located.1;
    let marks: Vec<bool> = weaken_core(soft, n, core, &found, cc);
    drop_marked(soft, &marks, Ghost(c), Ghost(n as int), Ghost(core@), Ghost(cc));
    if core.len() > 1 {
        let ghost stay = catalog(soft@);
        let mut p: usize = 0;
        let mut go: bool = true;
        while go
            invariant
                stay == catalog(soft@),
                no_undef(stay),
                p <= soft@.len(),
                forall|j: int| 0 <= j < p ==> (#[trigger] stay[j]).weight() > cc,
                !go ==> (p < stay.len() ==> stay[p as int].weight() <= cc),
            decreases
                    soft@.len() - p + if go {
                        1int
                    } else {
                        0int
                    },
        {
            if p >= soft.len() {
                go = false;
            } else {
                assert(stay[p as int] == soft@[p as int]@);
                if soft[p].weight() <= cc {
                    go = false;
                } else {
                    p += 1;
                }
            }
        }
        proof {
            lemma_first_not_above(stay, cc, p as int);
        }
        let entry = Soft::Constructable(cc, Relax::NewTotalizer { lits: negated(core), bound: 1 });
        assert(entry@ == merged(core@, cc));
        soft.insert(p, entry);
        proof {
            assert(catalog(soft@) =~= stay.insert(p as int, merged(core@, cc)));
            let out = catalog(soft@);
            assert forall|i: int| 0 <= i < out.len() implies !((#[trigger] out[i]) is Undef) by {
                if i < p {
                    assert(out[i] == stay[i]);
                } else if i > p {
                    assert(out[i] == stay[i - 1]);
                }
            }
        }
    } else {
        solver.add_clause(one(core[0].negate()));
    }
    let room: usize = usize::MAX - *current_lb;
    if cc > room {
        *current_lb = usize::MAX;
    } else {
        *current_lb = *current_lb + cc;
    }
    CoreOutcome::Refined { conflict_cost: cc }
}

/// Whether the core can be dealt with: the first `n` entries of the
/// catalog are built, no entry is the placeholder, and the core holds
/// literals that they assume, none of them twice.
pub open spec fn core_fits(c: Seq<SoftView>, n: int, core: Seq<Bool>) -> bool {
    &&& window_ready(c, n)
    &&& no_undef(c)
    &&& core_in_window(c, n, core)
    &&& core.no_duplicates()
}

fn window_is_ready(soft: &Vec<Soft>, n: usize) -> (r: bool)
    ensures
        r == window_ready(catalog(soft@), n as int),
{
    if n > soft.len() {
        return false;
    }
    let mut i: usize = 0;
    while i < n
        invariant
            i <= n <= soft@.len(),
            forall|j: int| 0 <= j < i ==> (#[trigger] catalog(soft@)[j]) is Relaxable,
        decreases n - i,
    {
        assert(catalog(soft@)[i as int] == soft@[i as int]@);
        let built: bool = match &soft[i] {
            Soft::Relaxable(_, _, _) => true,
            _ => false,
        };
        if !built {
            return false;
        }
        i += 1;
    }
    true
}

/// Whether no entry of the catalog is the placeholder.
pub fn has_no_undef(soft: &Vec<Soft>) -> (r: bool)
    ensures
        r == no_undef(catalog(soft@)),
{
    let mut i: usize = 0;
    while i < soft.len()
        invariant
            i <= soft@.len(),
            forall|j: int| 0 <= j < i ==> !((#[trigger] catalog(soft@)[j]) is Undef),
        decreases soft.len() - i,
    {
        assert(catalog(soft@)[i as int] == soft@[i as int]@);
        let placeholder: bool = match &soft[i] {
            Soft::Undef => true,
            _ => false,
        };
        if placeholder {
            return false;
        }
        i += 1;
    }
    true
}

fn is_assumed(soft: &Vec<Soft>, n: usize, l: Bool) -> (r: bool)
    requires
        n <= soft@.len(),
    ensures
        r == (lit_index(catalog(soft@), n as int, l) >= 0),
{
    let ghost c = catalog(soft@);
    let mut i: usize = n;
    while i > 0
        invariant
            i <= n <= soft@.len(),
            c == catalog(soft@),
            lit_index(c, i as int, l) == lit_index(c, n as int, l),
        decreases i,
    {
        assert(c[i - 1] == soft@[i - 1]@);
        let here: bool = match &soft[i - 1] {
            Soft::Relaxable(_, lit, _) => *lit == l,
            _ => false,
        };
        if here {
            return true;
        }
        i -= 1;
    }
    false
}

fn all_different(core: &Vec<Bool>) -> (r: bool)
    ensures
        r == core@.no_duplicates(),
{
    let mut i: usize = 0;
    while i < core.len()
        invariant
            i <= core.len(),
            forall|a: int, b: int| 0 <= a < i && 0 <= b < core@.len() && a != b ==> core@[a] != core@[b],
        decreases core.len() - i,
    {
        let mut j: usize = 0;
        while j < core.len()
            invariant
                i < core.len(),
                j <= core.len(),
                forall|b: int| 0 <= b < j && i != b ==> core@[i as int] != core@[b],
            decreases core.len() - j,
        {
            if i != j && core[i] == core[j] {
                return false;
            }
            j += 1;
        }
        i += 1;
    }
    true
}

/// Whether the core can be dealt with.
pub fn core_can_be_applied(soft: &Vec<Soft>, n: usize, core: &Vec<Bool>) -> (r: bool)
    ensures
        r == core_fits(catalog(soft@), n as int, core@),
{
    if !window_is_ready(soft, n) || !has_no_undef(soft) || !all_different(core) {
        return false;
    }
    let mut k: usize = 0;
    while k < core.len()
        invariant
            k <= core.len(),
            n <= soft@.len(),
            forall|j: int| 0 <= j < k ==> lit_index(catalog(soft@), n as int, #[trigger] core@[j]) >= 0,
        decreases core.len() - k,
    {
        if !is_assumed(soft, n, core[k]) {
            return false;
        }
        k += 1;
    }
    true
}

/// A core of one literal whose entry has nothing to follow: the entry
/// leaves the catalog and every other entry stays as it is, the cost of
/// the conflict is the weight of the entry, and nothing is put in.
pub proof fn lemma_core_of_one(c: Seq<SoftView>, n: int, l: Bool)
    requires
        core_fits(c, n, seq![l]),
        c[lit_index(c, n, l)]->next is None,
    ensures
        conflict_cost(c, n, seq![l], 1) == c[lit_index(c, n, l)].weight(),
        after_core(c, n, seq![l]) == c.remove(lit_index(c, n, l)),
{
    let core = seq![l];
    let idx = lit_index(c, n, l);
    let cc = conflict_cost(c, n, core, 1);
    assert(core[0] == l);
    lemma_lit_index(c, n, l);
    assert forall|i: int| 0 <= i < c.len() implies hit(c, n, core, 1, i) == (i == idx) by {
        assert(!hit(c, n, core, 0, i));
    }
    lemma_staying_one(c, n, core, cc, idx, c.len() as int);
    assert(c.take(c.len() as int) =~= c);
    if idx < c.len() {
        assert(c.take(idx) + c.subrange(idx + 1, c.len() as int) =~= c.remove(idx));
    }
}

/// Where exactly the entry at `idx` leaves and no other entry is changed,
/// the entries that stay are the others.
proof fn lemma_staying_one(c: Seq<SoftView>, n: int, core: Seq<Bool>, cc: usize, idx: int, k: int)
    requires
        0 <= k <= c.len(),
        0 <= idx < c.len(),
        forall|i: int| 0 <= i < c.len() ==> hit(c, n, core, core.len() as int, i) == (i == idx),
        weakened(c[idx], cc) is None,
    ensures
        staying(c, n, core, cc, k) == if k <= idx {
            c.take(k)
        } else {
            c.take(idx) + c.subrange(idx + 1, k)
        },
    decreases k,
{
    if k > 0 {
        lemma_staying_one(c, n, core, cc, idx, k - 1);
        if k - 1 == idx {
            assert(c.take(idx) + c.subrange(idx + 1, k) =~= c.take(k - 1));
        } else if k - 1 < idx {
            assert(c.take(k - 1).push(c[k - 1]) =~= c.take(k));
        } else {
            assert((c.take(idx) + c.subrange(idx + 1, k - 1)).push(c[k - 1]) =~= c.take(idx) + c.subrange(idx + 1, k));
        }
    }
}

} // verus!
