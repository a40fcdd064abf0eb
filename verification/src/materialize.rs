//! Building the literal of a soft constraint from its recipe.

use vstd::prelude::*;
use crate::lit::{three, two, Bool, SlotId, TeamId};
use crate::formula::{Formula, Network, Role, Rule};
use crate::table::VarTable;
use crate::networks::{output_lits, output_roles, outputs_up_to, unary_gte, unary_lte, CumulativeDiff, Totalizer, Unary};
use crate::soft::{catalog, Relax, RelaxView, Soft, SoftView};
use crate::error::EncodeError;
use crate::cardinality::lit_var;

verus! {

/// What building a soft constraint adds to the formula, and the entries
/// that take the place of its recipe in the catalog.
pub struct Built {
    pub roles: Seq<Role>,
    pub networks: Seq<Network>,
    pub rules: Seq<Rule>,
    pub entries: Seq<SoftView>,
}

/// Nothing is added to the formula.
pub open spec fn only_entries(entries: Seq<SoftView>) -> Built {
    Built { roles: Seq::empty(), networks: Seq::empty(), rules: Seq::empty(), entries }
}

/// The entry that assumes the first of `lits` and goes on with the rest.
pub open spec fn chain_entry(cost: usize, lits: Seq<Bool>) -> SoftView {
    SoftView::Relaxable {
        cost,
        lit: lits[0],
        next: if lits.len() > 1 {
            Some((cost, RelaxView::Chain(lits.skip(1))))
        } else {
            None
        },
    }
}

/// A chain: its first literal is assumed and the rest kept for later. An
/// empty chain and one that begins with a constant are refused.
pub open spec fn built_chain(cost: usize, lits: Seq<Bool>) -> Result<Built, EncodeError> {
    if lits.len() == 0 || !lits[0].is_lit() {
        Err(EncodeError::Unsupported)
    } else {
        Ok(only_entries(seq![chain_entry(cost, lits)]))
    }
}

/// A new totalizer counts up to its bound, and its output for more than
/// the bound is assumed not to hold. A bound that the inputs cannot exceed
/// is refused.
pub open spec fn built_new_totalizer(nv: int, net: int, cost: usize, lits: Seq<Bool>, bound: usize) -> Result<
    Built,
    EncodeError,
> {
    if bound >= lits.len() {
        Err(EncodeError::Unsupported)
    } else {
        let rhs = output_lits(nv, bound + 1);
        Ok(
            Built {
                roles: output_roles(net as usize, bound + 1),
                networks: seq![Network::Totalizer],
                rules: seq![Rule::Count { network: net as usize, inputs: lits, first: 0, outputs: rhs }],
                entries: seq![
                    SoftView::Relaxable {
                        cost,
                        lit: lit_var(nv + bound).negation(),
                        next: Some(
                            (
                                cost,
                                RelaxView::ExtendTotalizer {
                                    network: net as usize,
                                    inputs: lits,
                                    rhs,
                                    bound: (bound + 1) as usize,
                                },
                            ),
                        ),
                    },
                ],
            },
        )
    }
}

/// The outputs of a network after it is raised to `bound`: those it has,
/// and new ones from the variable `nv` on where it needs more.
pub open spec fn raised(nv: int, n: int, have: Seq<Bool>, bound: int) -> Seq<Bool> {
    if outputs_up_to(n, bound) > have.len() {
        have + output_lits(nv, outputs_up_to(n, bound) - have.len())
    } else {
        have
    }
}

/// A totalizer is raised to the bound, and its output for more than the
/// bound is assumed not to hold. Where it has no such output, since the
/// inputs cannot exceed the bound, no entry is left.
pub open spec fn built_extend_totalizer(
    nv: int,
    cost: usize,
    network: usize,
    inputs: Seq<Bool>,
    rhs: Seq<Bool>,
    bound: usize,
) -> Result<Built, EncodeError> {
    let d = outputs_up_to(inputs.len() as int, bound as int);
    let now = raised(nv, inputs.len() as int, rhs, bound as int);
    let entries = if bound < now.len() && bound < usize::MAX {
        seq![
            SoftView::Relaxable {
                cost,
                lit: now[bound as int].negation(),
                next: Some(
                    (cost, RelaxView::ExtendTotalizer { network, inputs, rhs: now, bound: (bound + 1) as usize }),
                ),
            },
        ]
    } else {
        Seq::empty()
    };
    if d > rhs.len() {
        Ok(
            Built {
                roles: output_roles(network, d - rhs.len()),
                networks: Seq::empty(),
                rules: seq![
                    Rule::Count {
                        network,
                        inputs,
                        first: rhs.len() as usize,
                        outputs: output_lits(nv, d - rhs.len()),
                    },
                ],
                entries,
            },
        )
    } else {
        Ok(only_entries(entries))
    }
}

/// A new cumulative difference follows the difference up to its bound, and
/// its output for more than the bound is assumed not to hold. A bound that
/// the difference cannot exceed is refused.
pub open spec fn built_new_cum_diff(nv: int, net: int, cost: usize, pairs: Seq<(Bool, Bool)>, bound: usize) -> Result<
    Built,
    EncodeError,
> {
    if bound >= pairs.len() {
        Err(EncodeError::Unsupported)
    } else {
        let outputs = output_lits(nv, bound + 1);
        Ok(
            Built {
                roles: output_roles(net as usize, bound + 1),
                networks: seq![Network::CumulativeDiff],
                rules: seq![Rule::CumulativeDiff { network: net as usize, pairs, first: 0, outputs }],
                entries: seq![
                    SoftView::Relaxable {
                        cost,
                        lit: lit_var(nv + bound).negation(),
                        next: Some(
                            (
                                cost,
                                RelaxView::ExtendCumDiff {
                                    network: net as usize,
                                    pairs,
                                    outputs,
                                    bound: (bound + 1) as usize,
                                },
                            ),
                        ),
                    },
                ],
            },
        )
    }
}

/// A cumulative difference is raised to the bound, and its output for more
/// than the bound is assumed not to hold. Where it has no such output it
/// is refused.
pub open spec fn built_extend_cum_diff(
    nv: int,
    cost: usize,
    network: usize,
    pairs: Seq<(Bool, Bool)>,
    outputs: Seq<Bool>,
    bound: usize,
) -> Result<Built, EncodeError> {
    let d = outputs_up_to(pairs.len() as int, bound as int);
    let now = raised(nv, pairs.len() as int, outputs, bound as int);
    if bound >= now.len() || bound == usize::MAX {
        Err(EncodeError::Unsupported)
    } else {
        let entries = seq![
            SoftView::Relaxable {
                cost,
                lit: now[bound as int].negation(),
                next: Some(
                    (cost, RelaxView::ExtendCumDiff { network, pairs, outputs: now, bound: (bound + 1) as usize }),
                ),
            },
        ];
        if d > outputs.len() {
            Ok(
                Built {
                    roles: output_roles(network, d - outputs.len()),
                    networks: Seq::empty(),
                    rules: seq![
                        Rule::CumulativeDiff {
                            network,
                            pairs,
                            first: outputs.len() as usize,
                            outputs: output_lits(nv, d - outputs.len()),
                        },
                    ],
                    entries,
                },
            )
        } else {
            Ok(only_entries(entries))
        }
    }
}

/// The formula has grown by what `b` adds.
pub open spec fn formula_grown(before: Formula, after: Formula, b: Built) -> bool {
    &&& after.roles@ == before.roles@ + b.roles
    &&& after.networks@ == before.networks@ + b.networks
    &&& after.rules() == before.rules() + b.rules
}

/// A formula that is left alone has grown by nothing.
pub proof fn lemma_nothing_grown(f: Formula, entries: Seq<SoftView>)
    ensures
        formula_grown(f, f, only_entries(entries)),
{
    assert(f.roles@ =~= f.roles@ + Seq::<Role>::empty());
    assert(f.networks@ =~= f.networks@ + Seq::<Network>::empty());
    assert(f.rules() =~= f.rules() + Seq::<Rule>::empty());
}

fn one_entry(entry: Soft) -> (r: Vec<Soft>)
    ensures
        catalog(r@) == seq![entry@],
{
    let mut r: Vec<Soft> = Vec::new();
    r.push(entry);
    assert(catalog(r@) =~= seq![entry@]);
    r
}

fn no_entry() -> (r: Vec<Soft>)
    ensures
        catalog(r@) == Seq::<SoftView>::empty(),
{
    let r: Vec<Soft> = Vec::new();
    assert(catalog(r@) =~= Seq::<SoftView>::empty());
    r
}

fn skip_first(lits: &Vec<Bool>) -> (r: Vec<Bool>)
    requires
        lits@.len() > 0,
    ensures
        r@ == lits@.skip(1),
{
    let mut r: Vec<Bool> = Vec::new();
    let mut i: usize = 1;
    while i < lits.len()
        invariant
            1 <= i <= lits.len(),
            r@ == lits@.subrange(1, i as int),
        decreases lits.len() - i,
    {
        r.push(lits[i]);
        assert(r@ =~= lits@.subrange(1, i + 1));
        i += 1;
    }
    assert(lits@.subrange(1, lits@.len() as int) =~= lits@.skip(1));
    r
}

/// The entry that assumes the first of `lits` and goes on with the rest.
pub fn chain_soft(cost: usize, lits: Vec<Bool>) -> (r: Soft)
    requires
        lits@.len() > 0,
    ensures
        r@ == chain_entry(cost, lits@),
{
    let first: Bool = lits[0];
    if lits.len() > 1 {
        Soft::Relaxable(cost, first, Some((cost, Relax::Chain(skip_first(&lits)))))
    } else {
        Soft::Relaxable(cost, first, None)
    }
}

fn materialize_chain(solver: &Formula, cost: usize, lits: Vec<Bool>) -> (r: Result<Vec<Soft>, EncodeError>)
    ensures
        match built_chain(cost, lits@) {
            Err(e) => r matches Err(x) && x == e,
            Ok(b) => r matches Ok(entries) && catalog(entries@) == b.entries && formula_grown(*solver, *solver, b),
        },
{
    if lits.len() == 0 {
        return Err(EncodeError::Unsupported);
    }
    if lits[0].lit().is_none() {
        return Err(EncodeError::Unsupported);
    }
    proof {
        lemma_nothing_grown(*solver, seq![chain_entry(cost, lits@)]);
    }
    Ok(one_entry(chain_soft(cost, lits)))
}

fn materialize_new_totalizer(solver: &mut Formula, cost: usize, lits: Vec<Bool>, bound: usize) -> (r: Result<
    Vec<Soft>,
    EncodeError,
>)
    ensures
        match built_new_totalizer(
            old(solver).num_vars() as int,
            old(solver).networks@.len() as int,
            cost,
            lits@,
            bound,
        ) {
            Err(e) => r matches Err(x) && x == e && *final(solver) == *old(solver),
            Ok(b) => r matches Ok(entries) && catalog(entries@) == b.entries && formula_grown(
                *old(solver),
                *final(solver),
                b,
            ),
        },
{
    if bound >= lits.len() {
        return Err(EncodeError::Unsupported);
    }
    let tot: Totalizer = Totalizer::count(solver, lits, bound);
    let lit: Bool = tot.exceeds(bound).negate();
    proof {
        let b = built_new_totalizer(
            old(solver).num_vars() as int,
            old(solver).networks@.len() as int,
            cost,
            lits@,
            bound,
        ).unwrap();
        assert(solver.networks@ =~= old(solver).networks@ + b.networks);
        assert(solver.rules() =~= old(solver).rules() + b.rules);
    }
    Ok(one_entry(Soft::Relaxable(cost, lit, Some((cost, Relax::ExtendTotalizer(tot, bound + 1))))))
}

fn materialize_extend_totalizer(solver: &mut Formula, cost: usize, tot: Totalizer, bound: usize) -> (r: Result<
    Vec<Soft>,
    EncodeError,
>)
    ensures
        match built_extend_totalizer(old(solver).num_vars() as int, cost, tot.network, tot.inputs@, tot.rhs@, bound) {
            Err(e) => r matches Err(x) && x == e && *final(solver) == *old(solver),
            Ok(b) => r matches Ok(entries) && catalog(entries@) == b.entries && formula_grown(
                *old(solver),
                *final(solver),
                b,
            ),
        },
{
    let mut tot: Totalizer = tot;
    let ghost before = tot;
    tot.increase_bound(solver, bound);
    proof {
        let b = built_extend_totalizer(
            old(solver).num_vars() as int,
            cost,
            before.network,
            before.inputs@,
            before.rhs@,
            bound,
        ).unwrap();
        if outputs_up_to(before.inputs@.len() as int, bound as int) > before.rhs@.len() {
            assert(solver.networks@ =~= old(solver).networks@ + b.networks);
            assert(solver.rules() =~= old(solver).rules() + b.rules);
        } else {
            lemma_nothing_grown(*solver, b.entries);
        }
    }
    if bound < tot.rhs.len() && bound < usize::MAX {
        let lit: Bool = tot.exceeds(bound).negate();
        Ok(one_entry(Soft::Relaxable(cost, lit, Some((cost, Relax::ExtendTotalizer(tot, bound + 1))))))
    } else {
        Ok(no_entry())
    }
}

fn materialize_new_cum_diff(solver: &mut Formula, cost: usize, pairs: Vec<(Bool, Bool)>, bound: usize) -> (r: Result<
    Vec<Soft>,
    EncodeError,
>)
    ensures
        match built_new_cum_diff(
            old(solver).num_vars() as int,
            old(solver).networks@.len() as int,
            cost,
            pairs@,
            bound,
        ) {
            Err(e) => r matches Err(x) && x == e && *final(solver) == *old(solver),
            Ok(b) => r matches Ok(entries) && catalog(entries@) == b.entries && formula_grown(
                *old(solver),
                *final(solver),
                b,
            ),
        },
{
    if bound >= pairs.len() {
        return Err(EncodeError::Unsupported);
    }
    let diff: CumulativeDiff = CumulativeDiff::new(solver, pairs, bound);
    let lit: Bool = diff.exceeds(bound).negate();
    proof {
        let b = built_new_cum_diff(
            old(solver).num_vars() as int,
            old(solver).networks@.len() as int,
            cost,
            pairs@,
            bound,
        ).unwrap();
        assert(solver.networks@ =~= old(solver).networks@ + b.networks);
        assert(solver.rules() =~= old(solver).rules() + b.rules);
    }
    Ok(one_entry(Soft::Relaxable(cost, lit, Some((cost, Relax::ExtendCumDiff { diff, bound: bound + 1 })))))
}

fn materialize_extend_cum_diff(solver: &mut Formula, cost: usize, diff: CumulativeDiff, bound: usize) -> (r: Result<
    Vec<Soft>,
    EncodeError,
>)
    ensures
        match built_extend_cum_diff(
            old(solver).num_vars() as int,
            cost,
            diff.network,
            diff.pairs@,
            diff.outputs@,
            bound,
        ) {
            Err(e) => r matches Err(x) && x == e && *final(solver) == *old(solver),
            Ok(b) => r matches Ok(entries) && catalog(entries@) == b.entries && formula_grown(
                *old(solver),
                *final(solver),
                b,
            ),
        },
{
    if bound == usize::MAX || !(bound < diff.pairs.len() || bound < diff.outputs.len()) {
        return Err(EncodeError::Unsupported);
    }
    let mut diff: CumulativeDiff = diff;
    let ghost before = diff;
    diff.extend(solver, bound);
    proof {
        let b = built_extend_cum_diff(
            old(solver).num_vars() as int,
            cost,
            before.network,
            before.pairs@,
            before.outputs@,
            bound,
        ).unwrap();
        if outputs_up_to(before.pairs@.len() as int, bound as int) > before.outputs@.len() {
            assert(solver.networks@ =~= old(solver).networks@ + b.networks);
            assert(solver.rules() =~= old(solver).rules() + b.rules);
        } else {
            lemma_nothing_grown(*solver, b.entries);
        }
    }
    let lit: Bool = diff.exceeds(bound).negate();
    Ok(one_entry(Soft::Relaxable(cost, lit, Some((cost, Relax::ExtendCumDiff { diff, bound: bound + 1 })))))
}

/// The number of digits of a unary sum over `n` terms, cut off after
/// `truncate` digits if given.
pub open spec fn digits_of(n: int, truncate: Option<usize>) -> int {
    match truncate {
        Some(t) => if t < n {
            t as int
        } else {
            n
        },
        None => n,
    }
}

/// The terms for "at least `m`", "at least `m - 1`" and so on down to "at
/// least 1".
pub open spec fn min_chain(digits: Seq<Bool>, m: int) -> Seq<Bool> {
    Seq::new(m as nat, |k: int| unary_gte(digits, m - k))
}

/// The terms for "at most `mx`", "at most `mx + 1`" and so on up to "at
/// most `n`".
pub open spec fn max_chain(digits: Seq<Bool>, mx: int, n: int) -> Seq<Bool> {
    Seq::new((n - mx + 1) as nat, |k: int| unary_lte(digits, mx + k))
}

/// Whether the chains of a unary sum with `d` digits over `n` terms begin
/// with a digit: the minimum is at least 1 and has a digit, and the
/// maximum is below the number of digits.
pub open spec fn unary_chains_defined(n: int, d: int, min: Option<usize>, max: Option<usize>) -> bool {
    &&& min matches Some(m) ==> 1 <= m <= d
    &&& max matches Some(mx) ==> mx < d
}

/// A new unary sum, with a chain for its minimum and one for its maximum,
/// where given.
pub open spec fn built_new_unary(
    nv: int,
    net: int,
    cost: usize,
    lits: Seq<Bool>,
    truncate: Option<usize>,
    min: Option<usize>,
    max: Option<usize>,
) -> Result<Built, EncodeError> {
    let n = lits.len() as int;
    let d = digits_of(n, truncate);
    let digits = output_lits(nv, d);
    if !unary_chains_defined(n, d, min, max) {
        Err(EncodeError::Unsupported)
    } else {
        Ok(
            Built {
                roles: output_roles(net as usize, d),
                networks: seq![Network::UnarySum],
                rules: seq![Rule::Count { network: net as usize, inputs: lits, first: 0, outputs: digits }],
                entries: (match min {
                    Some(m) => seq![chain_entry(cost, min_chain(digits, m as int))],
                    None => Seq::empty(),
                }) + (match max {
                    Some(mx) => seq![chain_entry(cost, max_chain(digits, mx as int, n))],
                    None => Seq::empty(),
                }),
            },
        )
    }
}

#[verifier::rlimit(40)]
fn materialize_new_unary(
    solver: &mut Formula,
    cost: usize,
    lits: Vec<Bool>,
    truncate: Option<usize>,
    min: Option<usize>,
    max: Option<usize>,
) -> (r: Result<Vec<Soft>, EncodeError>)
    ensures
        match built_new_unary(
            old(solver).num_vars() as int,
            old(solver).networks@.len() as int,
            cost,
            lits@,
            truncate,
            min,
            max,
        ) {
            Err(e) => r matches Err(x) && x == e && *final(solver) == *old(solver),
            Ok(b) => r matches Ok(entries) && catalog(entries@) == b.entries && formula_grown(
                *old(solver),
                *final(solver),
                b,
            ),
        },
{
    let n: usize = lits.len();
    let d: usize = match truncate {
        Some(t) => if t < n {
            t
        } else {
            n
        },
        None => n,
    };
    let min_ok: bool = match min {
        Some(m) => 1 <= m && m <= d,
        None => true,
    };
    let max_ok: bool = match max {
        Some(mx) => mx < d,
        None => true,
    };
    if !min_ok || !max_ok {
        return Err(EncodeError::Unsupported);
    }
    let sum: Unary = match truncate {
        Some(t) => Unary::sum_truncate(solver, lits, t),
        None => Unary::sum(solver, lits),
    };
    let ghost b = built_new_unary(
        old(solver).num_vars() as int,
        old(solver).networks@.len() as int,
        cost,
        lits@,
        truncate,
        min,
        max,
    ).unwrap();
    proof {
        assert(solver.networks@ =~= old(solver).networks@ + b.networks);
        assert(solver.rules() =~= old(solver).rules() + b.rules);
    }
    let mut entries: Vec<Soft> = Vec::new();
    assert(catalog(entries@) =~= Seq::<SoftView>::empty());
    match min {
        Some(m) => {
            let mut chain: Vec<Bool> = Vec::new();
            let mut k: usize = 0;
            while k < m
                invariant
                    k <= m,
                    chain@ == min_chain(sum.digits@, m as int).take(k as int),
                decreases m - k,
            {
                chain.push(sum.gte_const(m - k));
                assert(chain@ =~= min_chain(sum.digits@, m as int).take(k + 1));
                k += 1;
            }
            assert(chain@ =~= min_chain(sum.digits@, m as int));
            entries.push(chain_soft(cost, chain));
        },
        None => {},
    }
    let ghost first = catalog(entries@);
    assert(first =~= (match min {
        Some(m) => seq![chain_entry(cost, min_chain(sum.digits@, m as int))],
        None => Seq::empty(),
    }));
    match max {
        Some(mx) => {
            let mut chain: Vec<Bool> = Vec::new();
            let mut k: usize = mx;
            let mut done: bool = false;
            while !done
                invariant
                    mx <= k <= n,
                    done ==> k == n,
                    chain@ == max_chain(sum.digits@, mx as int, n as int).take(
                        if done {
                            n - mx + 1
                        } else {
                            k - mx
                        },
                    ),
                decreases
                        n - k + if done {
                            0int
                        } else {
                            1int
                        },
            {
                chain.push(sum.lte_const(k));
                assert(chain@ =~= max_chain(sum.digits@, mx as int, n as int).take(k - mx + 1));
                if k == n {
                    done = true;
                } else {
                    k += 1;
                }
            }
            assert(chain@ =~= max_chain(sum.digits@, mx as int, n as int));
            entries.push(chain_soft(cost, chain));
        },
        None => {},
    }
    assert(catalog(entries@) =~= b.entries);
    Ok(entries)
}

/// The variable for "the two games lie `k` slots apart or less", of those
/// made from the variable `nv` on.
pub open spec fn sep_var(nv: int, k: int) -> Bool {
    lit_var(nv + k - 1)
}

/// The slot at position `s2` is later than the slot at position `s1`, by
/// `min` or less.
pub open spec fn sep_close(t: VarTable, min: int, s1: int, s2: int) -> bool {
    t.slot_ids@[s1] < t.slot_ids@[s2] && t.slot_ids@[s2] - t.slot_ids@[s1] <= min
}

/// Two slots of the league lie `min` or less apart.
pub open spec fn sep_needs_games(t: VarTable, min: int) -> bool {
    exists|s1: int, s2: int| 0 <= s1 < t.slots() && 0 <= s2 < t.slots() && #[trigger] sep_close(t, min, s1, s2)
}

/// The league has the two teams and they are two.
pub open spec fn pair_known(t: VarTable, t1: TeamId, t2: TeamId) -> bool {
    t.team_pos(t1) is Some && t.team_pos(t2) is Some && t.team_pos(t1) != t.team_pos(t2)
}

/// The four rules for the slots at positions `s1` and `s2`: none of the
/// two games of the pair in the first with one in the second, unless the
/// variable for their distance holds.
pub open spec fn sep_slot_rules(t: VarTable, nv: int, t1: TeamId, t2: TeamId, s1: int, s2: int) -> Seq<Rule> {
    let a1 = t.match_at(t.slot_ids@[s1], t1, t2).unwrap();
    let b1 = t.match_at(t.slot_ids@[s1], t2, t1).unwrap();
    let a2 = t.match_at(t.slot_ids@[s2], t1, t2).unwrap();
    let b2 = t.match_at(t.slot_ids@[s2], t2, t1).unwrap();
    let v = sep_var(nv, t.slot_ids@[s2] - t.slot_ids@[s1]);
    seq![
        Rule::Clause(seq![a1.negation(), b2.negation(), v]),
        Rule::Clause(seq![a1.negation(), a2.negation(), v]),
        Rule::Clause(seq![b1.negation(), a2.negation(), v]),
        Rule::Clause(seq![b1.negation(), b2.negation(), v]),
    ]
}

pub open spec fn sep_row_rules(t: VarTable, nv: int, t1: TeamId, t2: TeamId, min: int, s1: int, k: int) -> Seq<Rule>
    decreases k,
{
    if k <= 0 {
        Seq::empty()
    } else if sep_close(t, min, s1, k - 1) {
        sep_row_rules(t, nv, t1, t2, min, s1, k - 1) + sep_slot_rules(t, nv, t1, t2, s1, k - 1)
    } else {
        sep_row_rules(t, nv, t1, t2, min, s1, k - 1)
    }
}

pub open spec fn sep_rules(t: VarTable, nv: int, t1: TeamId, t2: TeamId, min: int, k: int) -> Seq<Rule>
    decreases k,
{
    if k <= 0 {
        Seq::empty()
    } else {
        sep_rules(t, nv, t1, t2, min, k - 1) + sep_row_rules(t, nv, t1, t2, min, k - 1, t.slots())
    }
}

/// Each distance variable but the last implies the next.
pub open spec fn sep_links(nv: int, k: int) -> Seq<Rule> {
    Seq::new(k as nat, |i: int| Rule::Clause(seq![sep_var(nv, i + 1).negation(), sep_var(nv, i + 2)]))
}

pub open spec fn sep_roles(k: int) -> Seq<Role> {
    Seq::new(k as nat, |i: int| Role::Separation { gap: (i + 1) as usize })
}

/// The negated distance variables below `min`, the greatest first.
pub open spec fn sep_rest(nv: int, min: int) -> Seq<Bool> {
    Seq::new((min - 1) as nat, |i: int| sep_var(nv, min - 1 - i).negation())
}

/// A separation: a variable for each distance from 1 to `min`, each
/// implying the next; for any two slots that lie so close the rules that
/// tie the games of the pair to the variable of the distance; and the
/// negation of the variable for `min` to assume, with those for the
/// shorter distances to follow. A minimum of 0 is refused, and so is a
/// pair that the league does not have where two slots lie close enough.
pub open spec fn built_separation(t: VarTable, nv: int, cost: usize, t1: TeamId, t2: TeamId, min: usize) -> Result<
    Built,
    EncodeError,
> {
    if min == 0 {
        Err(EncodeError::Unsupported)
    } else if sep_needs_games(t, min as int) && !pair_known(t, t1, t2) {
        Err(EncodeError::UnknownVariable)
    } else {
        Ok(
            Built {
                roles: sep_roles(min as int),
                networks: Seq::empty(),
                rules: sep_links(nv, min - 1) + sep_rules(t, nv, t1, t2, min as int, t.slots()),
                entries: seq![
                    SoftView::Relaxable {
                        cost,
                        lit: sep_var(nv, min as int).negation(),
                        next: Some((cost, RelaxView::Chain(sep_rest(nv, min as int)))),
                    },
                ],
            },
        )
    }
}

fn slots_close(t: &VarTable, min: usize, s1: usize, s2: usize) -> (r: bool)
    requires
        s1 < t.slots(),
        s2 < t.slots(),
    ensures
        r == sep_close(*t, min as int, s1 as int, s2 as int),
{
    let a: i128 = t.slot_ids[s1] as i128;
    let b: i128 = t.slot_ids[s2] as i128;
    a < b && b - a <= min as i128
}

fn any_slots_close(t: &VarTable, min: usize) -> (r: bool)
    ensures
        r == sep_needs_games(*t, min as int),
{
    let n: usize = t.slot_ids.len();
    let mut s1: usize = 0;
    while s1 < n
        invariant
            n == t.slots(),
            s1 <= n,
            forall|a: int, b: int| 0 <= a < s1 && 0 <= b < n ==> !#[trigger] sep_close(*t, min as int, a, b),
        decreases n - s1,
    {
        let mut s2: usize = 0;
        while s2 < n
            invariant
                n == t.slots(),
                s1 < n,
                s2 <= n,
                forall|b: int| 0 <= b < s2 ==> !#[trigger] sep_close(*t, min as int, s1 as int, b),
            decreases n - s2,
        {
            if slots_close(t, min, s1, s2) {
                return true;
            }
            s2 += 1;
        }
        s1 += 1;
    }
    false
}

#[verifier::rlimit(40)]
fn materialize_separation(
    solver: &mut Formula,
    vars: &VarTable,
    cost: usize,
    t1: TeamId,
    t2: TeamId,
    min: usize,
) -> (r: Result<Vec<Soft>, EncodeError>)
    requires
        vars.wf(),
    ensures
        match built_separation(*vars, old(solver).num_vars() as int, cost, t1, t2, min) {
            Err(e) => r matches Err(x) && x == e && *final(solver) == *old(solver),
            Ok(b) => r matches Ok(entries) && catalog(entries@) == b.entries && formula_grown(
                *old(solver),
                *final(solver),
                b,
            ),
        },
{
    if min == 0 {
        return Err(EncodeError::Unsupported);
    }
    let known: bool = match crate::table::position(&vars.team_ids, t1) {
        Some(i) => match crate::table::position(&vars.team_ids, t2) {
            Some(j) => i != j,
            None => false,
        },
        None => false,
    };
    let needed: bool = any_slots_close(vars, min);
    if needed && !known {
        return Err(EncodeError::UnknownVariable);
    }
    let ghost nv: int = old(solver).num_vars() as int;
    let ghost b = built_separation(*vars, nv, cost, t1, t2, min).unwrap();
    // the variables
    let mut seps: Vec<Bool> = Vec::new();
    let mut k: usize = 0;
    assert(solver.roles@ =~= old(solver).roles@ + sep_roles(0));
    while k < min
        invariant
            k <= min,
            seps@.len() == k,
            forall|i: int| 0 <= i < k ==> #[trigger] seps@[i] == sep_var(nv, i + 1),
            nv == old(solver).num_vars(),
            solver.roles@ == old(solver).roles@ + sep_roles(k as int),
            solver.constraints == old(solver).constraints,
            solver.networks == old(solver).networks,
        decreases min - k,
    {
        let v: Bool = solver.new_var(Role::Separation { gap: k + 1 });
        seps.push(v);
        assert(solver.roles@ =~= old(solver).roles@ + sep_roles(k + 1));
        k += 1;
    }
    // each distance implies the next
    let mut i: usize = 0;
    assert(solver.rules() =~= old(solver).rules() + sep_links(nv, 0));
    while i + 1 < min
        invariant
            i + 1 <= min,
            seps@.len() == min,
            forall|i: int| 0 <= i < min ==> #[trigger] seps@[i] == sep_var(nv, i + 1),
            solver.rules() == old(solver).rules() + sep_links(nv, i as int),
            solver.roles@ == old(solver).roles@ + sep_roles(min as int),
            solver.networks == old(solver).networks,
        decreases min - i,
    {
        solver.add_clause(two(seps[i].negate(), seps[i + 1]));
        assert(solver.rules() =~= old(solver).rules() + sep_links(nv, i + 1));
        i += 1;
    }
    // the games of the pair in slots that lie close
    let ghost r1 = solver.rules();
    let n: usize = vars.slot_ids.len();
    let mut s1: usize = 0;
    assert(solver.rules() =~= r1 + sep_rules(*vars, nv, t1, t2, min as int, 0));
    while s1 < n
        invariant
            vars.wf(),
            n == vars.slots(),
            s1 <= n,
            seps@.len() == min,
            forall|i: int| 0 <= i < min ==> #[trigger] seps@[i] == sep_var(nv, i + 1),
            known == pair_known(*vars, t1, t2),
            sep_needs_games(*vars, min as int) ==> known,
            solver.rules() == r1 + sep_rules(*vars, nv, t1, t2, min as int, s1 as int),
            solver.roles@ == old(solver).roles@ + sep_roles(min as int),
            solver.networks == old(solver).networks,
        decreases n - s1,
    {
        let ghost r2 = solver.rules();
        let mut s2: usize = 0;
        assert(solver.rules() =~= r2 + sep_row_rules(*vars, nv, t1, t2, min as int, s1 as int, 0));
        while s2 < n
            invariant
                vars.wf(),
                n == vars.slots(),
                s1 < n,
                s2 <= n,
                seps@.len() == min,
                forall|i: int| 0 <= i < min ==> #[trigger] seps@[i] == sep_var(nv, i + 1),
                known == pair_known(*vars, t1, t2),
                sep_needs_games(*vars, min as int) ==> known,
                solver.rules() == r2 + sep_row_rules(*vars, nv, t1, t2, min as int, s1 as int, s2 as int),
                solver.roles@ == old(solver).roles@ + sep_roles(min as int),
                solver.networks == old(solver).networks,
            decreases n - s2,
        {
            if slots_close(vars, min, s1, s2) {
                let id1: SlotId = vars.slot_ids[s1];
                let id2: SlotId = vars.slot_ids[s2];
                proof {
                    assert(sep_close(*vars, min as int, s1 as int, s2 as int));
                    vars.slot_ids@.index_of_first_ensures(id1);
                    vars.slot_ids@.index_of_first_ensures(id2);
                    assert(vars.slot_ids@.contains(id1));
                    assert(vars.slot_ids@.contains(id2));
                }
                let gap: usize = (id2 as i128 - id1 as i128) as usize;
                let v: Bool = seps[gap - 1];
                let a1: Bool = vars.matched_var(id1, t1, t2).unwrap();
                let b1: Bool = vars.matched_var(id1, t2, t1).unwrap();
                let a2: Bool = vars.matched_var(id2, t1, t2).unwrap();
                let b2: Bool = vars.matched_var(id2, t2, t1).unwrap();
                solver.add_clause(three(a1.negate(), b2.negate(), v));
                solver.add_clause(three(a1.negate(), a2.negate(), v));
                solver.add_clause(three(b1.negate(), a2.negate(), v));
                solver.add_clause(three(b1.negate(), b2.negate(), v));
            }
            assert(solver.rules() =~= r2 + sep_row_rules(*vars, nv, t1, t2, min as int, s1 as int, s2 + 1));
            s2 += 1;
        }
        assert(solver.rules() =~= r1 + sep_rules(*vars, nv, t1, t2, min as int, s1 + 1));
        s1 += 1;
    }
    // the chain, the longest distance first
    let mut rest: Vec<Bool> = Vec::new();
    let mut j: usize = 1;
    while j < min
        invariant
            1 <= j <= min,
            seps@.len() == min,
            forall|i: int| 0 <= i < min ==> #[trigger] seps@[i] == sep_var(nv, i + 1),
            rest@ == sep_rest(nv, min as int).take(j - 1),
        decreases min - j,
    {
        rest.push(seps[min - 1 - j].negate());
        assert(rest@ =~= sep_rest(nv, min as int).take(j as int));
        j += 1;
    }
    assert(rest@ =~= sep_rest(nv, min as int));
    proof {
        assert(solver.networks@ =~= old(solver).networks@ + b.networks);
        assert(solver.rules() =~= old(solver).rules() + b.rules);
    }
    Ok(one_entry(Soft::Relaxable(cost, seps[min - 1].negate(), Some((cost, Relax::Chain(rest))))))
}

/// What building the soft constraint with the recipe `relax` adds to a
/// formula with `nv` variables and `net` networks, and the entries that
/// take its place; or why it is refused.
pub open spec fn built(t: VarTable, nv: int, net: int, cost: usize, relax: RelaxView) -> Result<Built, EncodeError> {
    match relax {
        RelaxView::Chain(lits) => built_chain(cost, lits),
        RelaxView::NewCumDiff { lits, bound } => built_new_cum_diff(nv, net, cost, lits, bound),
        RelaxView::NewUnary { lits, truncate, min, max } => built_new_unary(nv, net, cost, lits, truncate, min, max),
        RelaxView::NewTotalizer { lits, bound } => built_new_totalizer(nv, net, cost, lits, bound),
        RelaxView::ExtendTotalizer { network, inputs, rhs, bound } => built_extend_totalizer(
            nv,
            cost,
            network,
            inputs,
            rhs,
            bound,
        ),
        RelaxView::ExtendCumDiff { network, pairs, outputs, bound } => built_extend_cum_diff(
            nv,
            cost,
            network,
            pairs,
            outputs,
            bound,
        ),
        RelaxView::Separation { t1, t2, min } => built_separation(t, nv, cost, t1, t2, min),
    }
}

/// Builds the soft constraint of weight `cost` with the recipe `relax`:
/// adds its variables, networks and rules to `solver` and returns the
/// entries that take its place in the catalog. Where the recipe is refused
/// nothing is changed.
pub fn materialize(solver: &mut Formula, vars: &VarTable, cost: usize, relax: Relax) -> (r: Result<
    Vec<Soft>,
    EncodeError,
>)
    requires
        vars.wf(),
    ensures
        match built(*vars, old(solver).num_vars() as int, old(solver).networks@.len() as int, cost, relax@) {
            Err(e) => r matches Err(x) && x == e && *final(solver) == *old(solver),
            Ok(b) => r matches Ok(entries) && catalog(entries@) == b.entries && formula_grown(
                *old(solver),
                *final(solver),
                b,
            ),
        },
{
    match relax {
        Relax::Chain(lits) => materialize_chain(solver, cost, lits),
        Relax::NewCumDiff { lits, bound } => materialize_new_cum_diff(solver, cost, lits, bound),
        Relax::NewUnary { lits, truncate, min, max } => materialize_new_unary(solver, cost, lits, truncate, min, max),
        Relax::NewTotalizer { lits, bound } => materialize_new_totalizer(solver, cost, lits, bound),
        Relax::ExtendTotalizer(tot, bound) => materialize_extend_totalizer(solver, cost, tot, bound),
        Relax::ExtendCumDiff { diff, bound } => materialize_extend_cum_diff(solver, cost, diff, bound),
        Relax::Separation { t1, t2, min } => materialize_separation(solver, vars, cost, t1, t2, min),
    }
}

} // verus!
