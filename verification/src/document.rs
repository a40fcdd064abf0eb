//! The instance that a document holds: its teams, its slots, whether its
//! tournament is phased, and its constraints.

use vstd::prelude::*;
use crate::lit::{SlotId, TeamId};
use crate::instance::{BreakLimit, BreakLimitView, Capacity, CapacityView, Constraints, ConstraintsView, Fa2, Fa2View, Ga1, Ga1View, Se1, Se1View};
use crate::xml::{is_word, nodes_view, parse_xml, xml_nodes, XmlNode, XmlNodeView};
use crate::reader::{attr, attr_index, read_i64, break_of, capacity_of, fa2_of, ga1_of, read_break, read_capacity, read_fa2, read_ga1, read_se1, req_i64, se1_of};

verus! {

/// Why a text is no instance.
#[derive(Clone, Copy, PartialEq, Eq, Structural, Debug)]
pub enum ParseError {
    /// The text is no document.
    NotXml,
    /// An element or an attribute is missing or is not of the form that
    /// is asked for.
    Malformed,
    /// The number of slots is not twice the number of teams less two.
    WrongSize,
}

/// An instance.
#[derive(Debug)]
pub struct Instance {
    pub team_ids: Vec<TeamId>,
    pub slot_ids: Vec<SlotId>,
    pub phased: bool,
    pub constraints: Constraints,
}

/// The mathematical content of an `Instance`.
pub struct InstanceView {
    pub team_ids: Seq<TeamId>,
    pub slot_ids: Seq<SlotId>,
    pub phased: bool,
    pub constraints: ConstraintsView,
}

impl View for Instance {
    type V = InstanceView;

    open spec fn view(&self) -> InstanceView {
        InstanceView {
            team_ids: self.team_ids@,
            slot_ids: self.slot_ids@,
            phased: self.phased,
            constraints: self.constraints@,
        }
    }
}

/// The content of a list of nodes.
pub open spec fn nodes_of(nodes: Seq<XmlNode>) -> Seq<XmlNodeView> {
    Seq::new(nodes.len(), |i: int| nodes[i]@)
}

/// The node at position `c` is a child of the node at position `p`, the
/// nodes from `p` to `c` being in the order of the document and below `p`.
pub open spec fn is_child(ns: Seq<XmlNodeView>, p: int, c: int) -> bool {
    ns[c].depth == ns[p].depth + 1
}

/// The first child from position `c` on that the node at `p` has and
/// that `wanted` takes; the children of `p` end where a node is not below
/// it.
pub open spec fn next_child(ns: Seq<XmlNodeView>, p: int, c: int, wanted: spec_fn(XmlNodeView) -> bool) -> Option<
    int,
>
    decreases ns.len() - c,
{
    if c < 0 || c >= ns.len() || p < 0 || p >= ns.len() || ns[c].depth <= ns[p].depth {
        None
    } else if is_child(ns, p, c) && wanted(ns[c]) {
        Some(c)
    } else {
        next_child(ns, p, c + 1, wanted)
    }
}

/// The child found is at position `c` or behind it.
pub proof fn lemma_next_child(ns: Seq<XmlNodeView>, p: int, c: int, wanted: spec_fn(XmlNodeView) -> bool)
    ensures
        next_child(ns, p, c, wanted) matches Some(k) ==> c <= k < ns.len(),
    decreases ns.len() - c,
{
    if !(c < 0 || c >= ns.len() || p < 0 || p >= ns.len() || ns[c].depth <= ns[p].depth) {
        if !(is_child(ns, p, c) && wanted(ns[c])) {
            lemma_next_child(ns, p, c + 1, wanted);
        }
    }
}

/// Takes the elements.
pub open spec fn any_element() -> spec_fn(XmlNodeView) -> bool {
    |n: XmlNodeView| n.is_element
}

/// Takes the nodes with the tag name `name`.
pub open spec fn named(name: Seq<char>) -> spec_fn(XmlNodeView) -> bool {
    |n: XmlNodeView| n.name == name
}

/// The first child of `p` with the tag name `name`.
pub open spec fn child_named(ns: Seq<XmlNodeView>, p: int, name: Seq<char>) -> Option<int> {
    next_child(ns, p, p + 1, named(name))
}

/// A position as a number without bounds.
pub open spec fn as_position(r: Option<usize>) -> Option<int> {
    match r {
        Some(k) => Some(k as int),
        None => None,
    }
}

/// The first child from position `c` on that the node at `p` has and
/// that is an element, or that is named `name` where a name is given.
fn find_next(nodes: &Vec<XmlNode>, p: usize, c: usize, name: Option<&str>) -> (r: Option<usize>)
    requires
        p < nodes@.len(),
    ensures
        as_position(r) == next_child(
            nodes_of(nodes@),
            p as int,
            c as int,
            match name {
                Some(word) => named(word@),
                None => any_element(),
            },
        ),
        r matches Some(k) ==> c <= k < nodes@.len(),
{
    let ghost ns = nodes_of(nodes@);
    let ghost wanted = match name {
        Some(word) => named(word@),
        None => any_element(),
    };
    let depth: usize = nodes[p].depth;
    assert(ns[p as int] == nodes@[p as int]@);
    let mut k: usize = c;
    while k < nodes.len()
        invariant
            c <= k,
            p < nodes@.len(),
            ns == nodes_of(nodes@),
            depth == ns[p as int].depth,
            wanted == (match name {
                Some(word) => named(word@),
                None => any_element(),
            }),
            next_child(ns, p as int, k as int, wanted) == next_child(ns, p as int, c as int, wanted),
        decreases nodes.len() - k,
    {
        assert(ns[k as int] == nodes@[k as int]@);
        let here: usize = nodes[k].depth;
        if here <= depth {
            return None;
        }
        if here - 1 == depth {
            let takes: bool = match name {
                Some(word) => is_word(&nodes[k].name, word),
                None => nodes[k].is_element,
            };
            if takes {
                return Some(k);
            }
        }
        k += 1;
    }
    None
}

/// The element children of `p` from position `c` on, by their positions.
pub open spec fn children_from(ns: Seq<XmlNodeView>, p: int, c: int) -> Seq<int>
    decreases ns.len() - c,
{
    match next_child(ns, p, c, any_element()) {
        None => Seq::empty(),
        Some(k) => if c <= k < ns.len() {
            seq![k] + children_from(ns, p, k + 1)
        } else {
            Seq::empty()
        },
    }
}

/// The element children of `p`, by their positions.
pub open spec fn children(ns: Seq<XmlNodeView>, p: int) -> Seq<int> {
    children_from(ns, p, p + 1)
}

/// The positions as numbers without bounds.
pub open spec fn positions(found: Seq<usize>) -> Seq<int> {
    Seq::new(found.len(), |i: int| found[i] as int)
}

/// The element children of the node at `p`, by their positions.
pub fn children_of(nodes: &Vec<XmlNode>, p: usize) -> (r: Vec<usize>)
    requires
        p < nodes@.len(),
    ensures
        positions(r@) == children(nodes_of(nodes@), p as int),
        forall|i: int| 0 <= i < r@.len() ==> (#[trigger] r@[i]) < nodes@.len(),
{
    let ghost ns = nodes_of(nodes@);
    let total: usize = nodes.len();
    let mut out: Vec<usize> = Vec::new();
    let mut k: usize = p + 1;
    let mut more: bool = true;
    assert(positions(out@) + children_from(ns, p as int, k as int) =~= children(ns, p as int));
    while more
        invariant
            p < total,
            total == nodes@.len(),
            k <= total,
            ns == nodes_of(nodes@),
            forall|i: int| 0 <= i < out@.len() ==> (#[trigger] out@[i]) < total,
            more ==> positions(out@) + children_from(ns, p as int, k as int) == children(ns, p as int),
            !more ==> positions(out@) == children(ns, p as int),
        decreases
                total - k + if more {
                    1int
                } else {
                    0int
                },
    {
        let ghost found = positions(out@);
        match find_next(nodes, p, k, None) {
            None => {
                assert(found + Seq::<int>::empty() =~= found);
                more = false;
            },
            Some(e) => {
                out.push(e);
                proof {
                    assert(positions(out@) =~= found.push(e as int));
                    assert(found + (seq![e as int] + children_from(ns, p as int, e + 1)) =~= positions(out@)
                        + children_from(ns, p as int, e + 1));
                }
                k = e + 1;
            },
        }
    }
    out
}

/// The values that `each` gives for the first `k` of the nodes at the
/// positions `at`, or `None` where it gives none for one of them.
pub open spec fn collect<V>(
    ns: Seq<XmlNodeView>,
    at: Seq<int>,
    each: spec_fn(XmlNodeView) -> Option<V>,
    k: int,
) -> Option<Seq<V>>
    decreases k,
{
    if k <= 0 {
        Some(Seq::empty())
    } else {
        match (collect(ns, at, each, k - 1), each(ns[at[k - 1]])) {
            (Some(v), Some(x)) => Some(v.push(x)),
            _ => None,
        }
    }
}

/// A node without a value stays: more nodes cannot give the values back.
pub proof fn lemma_collect_none<V>(
    ns: Seq<XmlNodeView>,
    at: Seq<int>,
    each: spec_fn(XmlNodeView) -> Option<V>,
    k: int,
    n: int,
)
    requires
        0 <= k <= n,
        collect(ns, at, each, k) is None,
    ensures
        collect(ns, at, each, n) is None,
    decreases n - k,
{
    if k < n {
        lemma_collect_none(ns, at, each, k, n - 1);
    }
}

/// The values that `each` gives for the element children of `p`.
pub open spec fn group<V>(ns: Seq<XmlNodeView>, p: int, each: spec_fn(XmlNodeView) -> Option<V>) -> Option<Seq<V>> {
    collect(ns, children(ns, p), each, children(ns, p).len() as int)
}

pub open spec fn capacity_each() -> spec_fn(XmlNodeView) -> Option<CapacityView> {
    |n: XmlNodeView| capacity_of(n.name, n.attributes)
}

pub open spec fn game_each() -> spec_fn(XmlNodeView) -> Option<Ga1View> {
    |n: XmlNodeView| ga1_of(n.name, n.attributes)
}

pub open spec fn break_each() -> spec_fn(XmlNodeView) -> Option<BreakLimitView> {
    |n: XmlNodeView| break_of(n.name, n.attributes)
}

pub open spec fn fairness_each() -> spec_fn(XmlNodeView) -> Option<Fa2View> {
    |n: XmlNodeView| fa2_of(n.name, n.attributes)
}

pub open spec fn separation_each() -> spec_fn(XmlNodeView) -> Option<Se1View> {
    |n: XmlNodeView| se1_of(n.name, n.attributes)
}

/// The identifier of a team of the league `league`: the team must name
/// the league as the league names itself.
pub open spec fn team_each(league: Option<Seq<char>>) -> spec_fn(XmlNodeView) -> Option<i64> {
    |n: XmlNodeView|
        if attr(n.attributes, "league"@) == league {
            req_i64(n.attributes, "id"@)
        } else {
            None
        }
}

pub open spec fn slot_each() -> spec_fn(XmlNodeView) -> Option<i64> {
    |n: XmlNodeView| req_i64(n.attributes, "id"@)
}

/// The constraints of one group, where the instance has the group.
pub open spec fn group_if_any<V>(
    ns: Seq<XmlNodeView>,
    constraints: int,
    name: Seq<char>,
    each: spec_fn(XmlNodeView) -> Option<V>,
) -> Option<Seq<V>> {
    match child_named(ns, constraints, name) {
        Some(g) => group(ns, g, each),
        None => Some(Seq::empty()),
    }
}

/// The constraints that the element at position `c` holds, group by
/// group; a group may be missing.
pub open spec fn constraints_of(ns: Seq<XmlNodeView>, c: int) -> Option<ConstraintsView> {
    match (
        group_if_any(ns, c, "CapacityConstraints"@, capacity_each()),
        group_if_any(ns, c, "GameConstraints"@, game_each()),
        group_if_any(ns, c, "BreakConstraints"@, break_each()),
        group_if_any(ns, c, "FairnessConstraints"@, fairness_each()),
        group_if_any(ns, c, "SeparationConstraints"@, separation_each()),
    ) {
        (Some(capacity), Some(game), Some(breaks), Some(fairness), Some(separation)) => Some(
            ConstraintsView { capacity, game, breaks, fairness, separation },
        ),
        _ => None,
    }
}

fn read_capacity_group(nodes: &Vec<XmlNode>, c: usize) -> (r: Option<Vec<Capacity>>)
    requires
        c < nodes@.len(),
    ensures
        match group_if_any(nodes_of(nodes@), c as int, "CapacityConstraints"@, capacity_each()) {
            Some(v) => r matches Some(x) && Seq::new(x@.len(), |i: int| x@[i]@) == v,
            None => r is None,
        },
{
    let ghost ns = nodes_of(nodes@);
    let total: usize = nodes.len();
    let mut out: Vec<Capacity> = Vec::new();
    let g: usize = match find_next(nodes, c, c + 1, Some("CapacityConstraints")) {
        Some(g) => g,
        None => {
            assert(Seq::new(out@.len(), |i: int| out@[i]@) =~= Seq::<CapacityView>::empty());
            return Some(out);
        },
    };
    let at: Vec<usize> = children_of(nodes, g);
    let ghost idx = positions(at@);
    let mut k: usize = 0;
    assert(Seq::new(out@.len(), |i: int| out@[i]@) =~= Seq::<CapacityView>::empty());
    while k < at.len()
        invariant
            k <= at@.len(),
            ns == nodes_of(nodes@),
            idx == positions(at@),
            idx == children(ns, g as int),
            child_named(ns, c as int, "CapacityConstraints"@) == Some(g as int),
            forall|i: int| 0 <= i < at@.len() ==> (#[trigger] at@[i]) < nodes@.len(),
            collect(ns, idx, capacity_each(), k as int) == Some(Seq::new(out@.len(), |i: int| out@[i]@)),
        decreases at.len() - k,
    {
        let ghost found = Seq::new(out@.len(), |i: int| out@[i]@);
        let e: usize = at[k];
        assert(idx[k as int] == e as int);
        assert(ns[e as int] == nodes@[e as int]@);
        match read_capacity(&nodes[e]) {
            None => {
                proof {
                    lemma_collect_none(ns, idx, capacity_each(), k + 1, idx.len() as int);
                }
                return None;
            },
            Some(x) => {
                let ghost v = x@;
                out.push(x);
                assert(Seq::new(out@.len(), |i: int| out@[i]@) =~= found.push(v));
            },
        }
        k += 1;
    }
    Some(out)
}

fn read_game_group(nodes: &Vec<XmlNode>, c: usize) -> (r: Option<Vec<Ga1>>)
    requires
        c < nodes@.len(),
    ensures
        match group_if_any(nodes_of(nodes@), c as int, "GameConstraints"@, game_each()) {
            Some(v) => r matches Some(x) && Seq::new(x@.len(), |i: int| x@[i]@) == v,
            None => r is None,
        },
{
    let ghost ns = nodes_of(nodes@);
    let total: usize = nodes.len();
    let mut out: Vec<Ga1> = Vec::new();
    let g: usize = match find_next(nodes, c, c + 1, Some("GameConstraints")) {
        Some(g) => g,
        None => {
            assert(Seq::new(out@.len(), |i: int| out@[i]@) =~= Seq::<Ga1View>::empty());
            return Some(out);
        },
    };
    let at: Vec<usize> = children_of(nodes, g);
    let ghost idx = positions(at@);
    let mut k: usize = 0;
    assert(Seq::new(out@.len(), |i: int| out@[i]@) =~= Seq::<Ga1View>::empty());
    while k < at.len()
        invariant
            k <= at@.len(),
            ns == nodes_of(nodes@),
            idx == positions(at@),
            idx == children(ns, g as int),
            child_named(ns, c as int, "GameConstraints"@) == Some(g as int),
            forall|i: int| 0 <= i < at@.len() ==> (#[trigger] at@[i]) < nodes@.len(),
            collect(ns, idx, game_each(), k as int) == Some(Seq::new(out@.len(), |i: int| out@[i]@)),
        decreases at.len() - k,
    {
        let ghost found = Seq::new(out@.len(), |i: int| out@[i]@);
        let e: usize = at[k];
        assert(idx[k as int] == e as int);
        assert(ns[e as int] == nodes@[e as int]@);
        match read_ga1(&nodes[e]) {
            None => {
                proof {
                    lemma_collect_none(ns, idx, game_each(), k + 1, idx.len() as int);
                }
                return None;
            },
            Some(x) => {
                let ghost v = x@;
                out.push(x);
                assert(Seq::new(out@.len(), |i: int| out@[i]@) =~= found.push(v));
            },
        }
        k += 1;
    }
    Some(out)
}

fn read_break_group(nodes: &Vec<XmlNode>, c: usize) -> (r: Option<Vec<BreakLimit>>)
    requires
        c < nodes@.len(),
    ensures
        match group_if_any(nodes_of(nodes@), c as int, "BreakConstraints"@, break_each()) {
            Some(v) => r matches Some(x) && Seq::new(x@.len(), |i: int| x@[i]@) == v,
            None => r is None,
        },
{
    let ghost ns = nodes_of(nodes@);
    let total: usize = nodes.len();
    let mut out: Vec<BreakLimit> = Vec::new();
    let g: usize = match find_next(nodes, c, c + 1, Some("BreakConstraints")) {
        Some(g) => g,
        None => {
            assert(Seq::new(out@.len(), |i: int| out@[i]@) =~= Seq::<BreakLimitView>::empty());
            return Some(out);
        },
    };
    let at: Vec<usize> = children_of(nodes, g);
    let ghost idx = positions(at@);
    let mut k: usize = 0;
    assert(Seq::new(out@.len(), |i: int| out@[i]@) =~= Seq::<BreakLimitView>::empty());
    while k < at.len()
        invariant
            k <= at@.len(),
            ns == nodes_of(nodes@),
            idx == positions(at@),
            idx == children(ns, g as int),
            child_named(ns, c as int, "BreakConstraints"@) == Some(g as int),
            forall|i: int| 0 <= i < at@.len() ==> (#[trigger] at@[i]) < nodes@.len(),
            collect(ns, idx, break_each(), k as int) == Some(Seq::new(out@.len(), |i: int| out@[i]@)),
        decreases at.len() - k,
    {
        let ghost found = Seq::new(out@.len(), |i: int| out@[i]@);
        let e: usize = at[k];
        assert(idx[k as int] == e as int);
        assert(ns[e as int] == nodes@[e as int]@);
        match read_break(&nodes[e]) {
            None => {
                proof {
                    lemma_collect_none(ns, idx, break_each(), k + 1, idx.len() as int);
                }
                return None;
            },
            Some(x) => {
                let ghost v = x@;
                out.push(x);
                assert(Seq::new(out@.len(), |i: int| out@[i]@) =~= found.push(v));
            },
        }
        k += 1;
    }
    Some(out)
}

fn read_fairness_group(nodes: &Vec<XmlNode>, c: usize) -> (r: Option<Vec<Fa2>>)
    requires
        c < nodes@.len(),
    ensures
        match group_if_any(nodes_of(nodes@), c as int, "FairnessConstraints"@, fairness_each()) {
            Some(v) => r matches Some(x) && Seq::new(x@.len(), |i: int| x@[i]@) == v,
            None => r is None,
        },
{
    let ghost ns = nodes_of(nodes@);
    let total: usize = nodes.len();
    let mut out: Vec<Fa2> = Vec::new();
    let g: usize = match find_next(nodes, c, c + 1, Some("FairnessConstraints")) {
        Some(g) => g,
        None => {
            assert(Seq::new(out@.len(), |i: int| out@[i]@) =~= Seq::<Fa2View>::empty());
            return Some(out);
        },
    };
    let at: Vec<usize> = children_of(nodes, g);
    let ghost idx = positions(at@);
    let mut k: usize = 0;
    assert(Seq::new(out@.len(), |i: int| out@[i]@) =~= Seq::<Fa2View>::empty());
    while k < at.len()
        invariant
            k <= at@.len(),
            ns == nodes_of(nodes@),
            idx == positions(at@),
            idx == children(ns, g as int),
            child_named(ns, c as int, "FairnessConstraints"@) == Some(g as int),
            forall|i: int| 0 <= i < at@.len() ==> (#[trigger] at@[i]) < nodes@.len(),
            collect(ns, idx, fairness_each(), k as int) == Some(Seq::new(out@.len(), |i: int| out@[i]@)),
        decreases at.len() - k,
    {
        let ghost found = Seq::new(out@.len(), |i: int| out@[i]@);
        let e: usize = at[k];
        assert(idx[k as int] == e as int);
        assert(ns[e as int] == nodes@[e as int]@);
        match read_fa2(&nodes[e]) {
            None => {
                proof {
                    lemma_collect_none(ns, idx, fairness_each(), k + 1, idx.len() as int);
                }
                return None;
            },
            Some(x) => {
                let ghost v = x@;
                out.push(x);
                assert(Seq::new(out@.len(), |i: int| out@[i]@) =~= found.push(v));
            },
        }
        k += 1;
    }
    Some(out)
}

fn read_separation_group(nodes: &Vec<XmlNode>, c: usize) -> (r: Option<Vec<Se1>>)
    requires
        c < nodes@.len(),
    ensures
        match group_if_any(nodes_of(nodes@), c as int, "SeparationConstraints"@, separation_each()) {
            Some(v) => r matches Some(x) && Seq::new(x@.len(), |i: int| x@[i]@) == v,
            None => r is None,
        },
{
    let ghost ns = nodes_of(nodes@);
    let total: usize = nodes.len();
    let mut out: Vec<Se1> = Vec::new();
    let g: usize = match find_next(nodes, c, c + 1, Some("SeparationConstraints")) {
        Some(g) => g,
        None => {
            assert(Seq::new(out@.len(), |i: int| out@[i]@) =~= Seq::<Se1View>::empty());
            return Some(out);
        },
    };
    let at: Vec<usize> = children_of(nodes, g);
    let ghost idx = positions(at@);
    let mut k: usize = 0;
    assert(Seq::new(out@.len(), |i: int| out@[i]@) =~= Seq::<Se1View>::empty());
    while k < at.len()
        invariant
            k <= at@.len(),
            ns == nodes_of(nodes@),
            idx == positions(at@),
            idx == children(ns, g as int),
            child_named(ns, c as int, "SeparationConstraints"@) == Some(g as int),
            forall|i: int| 0 <= i < at@.len() ==> (#[trigger] at@[i]) < nodes@.len(),
            collect(ns, idx, separation_each(), k as int) == Some(Seq::new(out@.len(), |i: int| out@[i]@)),
        decreases at.len() - k,
    {
        let ghost found = Seq::new(out@.len(), |i: int| out@[i]@);
        let e: usize = at[k];
        assert(idx[k as int] == e as int);
        assert(ns[e as int] == nodes@[e as int]@);
        match read_se1(&nodes[e]) {
            None => {
                proof {
                    lemma_collect_none(ns, idx, separation_each(), k + 1, idx.len() as int);
                }
                return None;
            },
            Some(x) => {
                let ghost v = x@;
                out.push(x);
                assert(Seq::new(out@.len(), |i: int| out@[i]@) =~= found.push(v));
            },
        }
        k += 1;
    }
    Some(out)
}

/// The constraints that the element at position `c` holds.
pub fn read_constraints(nodes: &Vec<XmlNode>, c: usize) -> (r: Option<Constraints>)
    requires
        c < nodes@.len(),
    ensures
        match constraints_of(nodes_of(nodes@), c as int) {
            Some(v) => r matches Some(x) && x@ == v,
            None => r is None,
        },
{
    let capacity: Vec<Capacity> = match read_capacity_group(nodes, c) {
        Some(x) => x,
        None => {
            return None;
        },
    };
    let game: Vec<Ga1> = match read_game_group(nodes, c) {
        Some(x) => x,
        None => {
            return None;
        },
    };
    let breaks: Vec<BreakLimit> = match read_break_group(nodes, c) {
        Some(x) => x,
        None => {
            return None;
        },
    };
    let fairness: Vec<Fa2> = match read_fairness_group(nodes, c) {
        Some(x) => x,
        None => {
            return None;
        },
    };
    let separation: Vec<Se1> = match read_separation_group(nodes, c) {
        Some(x) => x,
        None => {
            return None;
        },
    };
    Some(Constraints { capacity, game, breaks, fairness, separation })
}

/// The identifiers of the element children of `p`: of teams, which must
/// name the league `league`, or of slots.
pub open spec fn id_each(teams: bool, league: Option<Seq<char>>) -> spec_fn(XmlNodeView) -> Option<i64> {
    if teams {
        team_each(league)
    } else {
        slot_each()
    }
}

#[verifier::rlimit(40)]
fn read_id_group(nodes: &Vec<XmlNode>, p: usize, teams: bool, league: usize) -> (r: Option<Vec<i64>>)
    requires
        p < nodes@.len(),
        league < nodes@.len(),
    ensures
        match group(
            nodes_of(nodes@),
            p as int,
            id_each(teams, attr(nodes_of(nodes@)[league as int].attributes, "id"@)),
        ) {
            Some(v) => r matches Some(x) && x@ == v,
            None => r is None,
        },
{
    let ghost ns = nodes_of(nodes@);
    let ghost each = id_each(teams, attr(ns[league as int].attributes, "id"@));
    assert(ns[league as int] == nodes@[league as int]@);
    let league_id: Option<usize> = attr_index(&nodes[league], "id");
    let at: Vec<usize> = children_of(nodes, p);
    let ghost idx = positions(at@);
    let mut out: Vec<i64> = Vec::new();
    let mut k: usize = 0;
    while k < at.len()
        invariant
            k <= at@.len(),
            league < nodes@.len(),
            ns == nodes_of(nodes@),
            idx == positions(at@),
            idx == children(ns, p as int),
            each == id_each(teams, attr(ns[league as int].attributes, "id"@)),
            match attr(ns[league as int].attributes, "id"@) {
                Some(v) => league_id matches Some(i) && i < nodes@[league as int].attributes@.len() && nodes@[
                    league as int
                ].attributes@[i as int].1@ == v,
                None => league_id is None,
            },
            forall|i: int| 0 <= i < at@.len() ==> (#[trigger] at@[i]) < nodes@.len(),
            collect(ns, idx, each, k as int) == Some(out@),
        decreases at.len() - k,
    {
        let e: usize = at[k];
        assert(idx[k as int] == e as int);
        assert(ns[e as int] == nodes@[e as int]@);
        let same_league: bool = if teams {
            match attr_index(&nodes[e], "league") {
                Some(i) => match league_id {
                    Some(j) => nodes[e].attributes[i].1 == nodes[league].attributes[j].1,
                    None => false,
                },
                None => league_id.is_none(),
            }
        } else {
            true
        };
        let id: Option<i64> = if same_league {
            read_i64(&nodes[e], "id")
        } else {
            None
        };
        match id {
            None => {
                proof {
                    lemma_collect_none(ns, idx, each, k + 1, idx.len() as int);
                }
                return None;
            },
            Some(x) => {
                out.push(x);
            },
        }
        k += 1;
    }
    Some(out)
}

/// The teams and the slots of the league that the element at position
/// `res` describes: it must have exactly one league, and each team must
/// name that league.
pub open spec fn league_of(ns: Seq<XmlNodeView>, res: int) -> Option<(Seq<i64>, Seq<i64>)> {
    match (child_named(ns, res, "Leagues"@), child_named(ns, res, "Teams"@), child_named(ns, res, "Slots"@)) {
        (Some(leagues), Some(teams), Some(slots)) => if children(ns, leagues).len() == 1 {
            let league = children(ns, leagues)[0];
            match (
                group(ns, teams, id_each(true, attr(ns[league].attributes, "id"@))),
                group(ns, slots, id_each(false, attr(ns[league].attributes, "id"@))),
            ) {
                (Some(t), Some(s)) => Some((t, s)),
                _ => None,
            }
        } else {
            None
        },
        _ => None,
    }
}

/// Whether the tournament that the element at position `st` describes is
/// phased. It must be a double round-robin tournament and compact.
pub open spec fn phased_of(ns: Seq<XmlNodeView>, st: int) -> Option<bool> {
    match child_named(ns, st, "Format"@) {
        Some(format) => match (
            child_named(ns, format, "numberRoundRobin"@),
            child_named(ns, format, "gameMode"@),
            child_named(ns, format, "compactness"@),
        ) {
            (Some(rounds), Some(mode), Some(compact)) => match (ns[rounds].text, ns[mode].text, ns[compact].text) {
                (Some(r), Some(m), Some(c)) => if r == "2"@ && c == "C"@ {
                    Some(m == "P"@)
                } else {
                    None
                },
                _ => None,
            },
            _ => None,
        },
        None => None,
    }
}

/// The instance that the nodes of a document hold.
pub open spec fn instance_of(ns: Seq<XmlNodeView>) -> Result<InstanceView, ParseError> {
    if ns.len() == 0 {
        Err(ParseError::Malformed)
    } else {
        match next_child(ns, 0, 1, any_element()) {
            None => Err(ParseError::Malformed),
            Some(root) => if ns[root].name != "Instance"@ {
                Err(ParseError::Malformed)
            } else {
                match (
                    child_named(ns, root, "MetaData"@),
                    child_named(ns, root, "Resources"@),
                    child_named(ns, root, "Structure"@),
                    child_named(ns, root, "Constraints"@),
                    child_named(ns, root, "ObjectiveFunction"@),
                ) {
                    (Some(meta), Some(res), Some(st), Some(cs), Some(objective)) => match league_of(ns, res) {
                        None => Err(ParseError::Malformed),
                        Some(league) => if league.0.len() < 1 || 2 * (league.0.len() - 1) != league.1.len() {
                            Err(ParseError::WrongSize)
                        } else {
                            match (phased_of(ns, st), constraints_of(ns, cs)) {
                                (Some(phased), Some(constraints)) => Ok(
                                    InstanceView { team_ids: league.0, slot_ids: league.1, phased, constraints },
                                ),
                                _ => Err(ParseError::Malformed),
                            }
                        },
                    },
                    _ => Err(ParseError::Malformed),
                }
            },
        }
    }
}

fn text_is(node: &XmlNode, word: &str) -> (r: Option<bool>)
    ensures
        match node@.text {
            Some(t) => r == Some(t == word@),
            None => r is None,
        },
{
    match &node.text {
        Some(t) => Some(is_word(t, word)),
        None => None,
    }
}

fn read_league(nodes: &Vec<XmlNode>, res: usize) -> (r: Option<(Vec<i64>, Vec<i64>)>)
    requires
        res < nodes@.len(),
    ensures
        match league_of(nodes_of(nodes@), res as int) {
            Some(v) => r matches Some(x) && x.0@ == v.0 && x.1@ == v.1,
            None => r is None,
        },
{
    let total: usize = nodes.len();
    let leagues: usize = match find_next(nodes, res, res + 1, Some("Leagues")) {
        Some(x) => x,
        None => {
            return None;
        },
    };
    let teams: usize = match find_next(nodes, res, res + 1, Some("Teams")) {
        Some(x) => x,
        None => {
            return None;
        },
    };
    let slots: usize = match find_next(nodes, res, res + 1, Some("Slots")) {
        Some(x) => x,
        None => {
            return None;
        },
    };
    let members: Vec<usize> = children_of(nodes, leagues);
    if members.len() != 1 {
        return None;
    }
    let league: usize = members[0];
    assert(positions(members@)[0] == league as int);
    let team_ids: Vec<i64> = match read_id_group(nodes, teams, true, league) {
        Some(x) => x,
        None => {
            return None;
        },
    };
    let slot_ids: Vec<i64> = match read_id_group(nodes, slots, false, league) {
        Some(x) => x,
        None => {
            return None;
        },
    };
    Some((team_ids, slot_ids))
}

fn read_phased(nodes: &Vec<XmlNode>, st: usize) -> (r: Option<bool>)
    requires
        st < nodes@.len(),
    ensures
        r == phased_of(nodes_of(nodes@), st as int),
{
    let ghost ns = nodes_of(nodes@);
    let total: usize = nodes.len();
    let format: usize = match find_next(nodes, st, st + 1, Some("Format")) {
        Some(x) => x,
        None => {
            return None;
        },
    };
    let rounds: usize = match find_next(nodes, format, format + 1, Some("numberRoundRobin")) {
        Some(x) => x,
        None => {
            return None;
        },
    };
    let mode: usize = match find_next(nodes, format, format + 1, Some("gameMode")) {
        Some(x) => x,
        None => {
            return None;
        },
    };
    let compact: usize = match find_next(nodes, format, format + 1, Some("compactness")) {
        Some(x) => x,
        None => {
            return None;
        },
    };
    assert(ns[rounds as int] == nodes@[rounds as int]@);
    assert(ns[mode as int] == nodes@[mode as int]@);
    assert(ns[compact as int] == nodes@[compact as int]@);
    let two: bool = match text_is(&nodes[rounds], "2") {
        Some(x) => x,
        None => {
            return None;
        },
    };
    let phased: bool = match text_is(&nodes[mode], "P") {
        Some(x) => x,
        None => {
            return None;
        },
    };
    let is_compact: bool = match text_is(&nodes[compact], "C") {
        Some(x) => x,
        None => {
            return None;
        },
    };
    if two && is_compact {
        Some(phased)
    } else {
        None
    }
}

/// The instance that the nodes of a document hold.
#[verifier::rlimit(40)]
pub fn instance_from_nodes(nodes: &Vec<XmlNode>) -> (r: Result<Instance, ParseError>)
    ensures
        match instance_of(nodes_of(nodes@)) {
            Ok(v) => r matches Ok(x) && x@ == v,
            Err(e) => r matches Err(x) && x == e,
        },
{
    let ghost ns = nodes_of(nodes@);
    if nodes.len() == 0 {
        return Err(ParseError::Malformed);
    }
    let root: usize = match find_next(nodes, 0, 1, None) {
        Some(x) => x,
        None => {
            return Err(ParseError::Malformed);
        },
    };
    assert(ns[root as int] == nodes@[root as int]@);
    if !is_word(&nodes[root].name, "Instance") {
        return Err(ParseError::Malformed);
    }
    let total: usize = nodes.len();
    if find_next(nodes, root, root + 1, Some("MetaData")).is_none() {
        return Err(ParseError::Malformed);
    }
    let res: usize = match find_next(nodes, root, root + 1, Some("Resources")) {
        Some(x) => x,
        None => {
            return Err(ParseError::Malformed);
        },
    };
    let st: usize = match find_next(nodes, root, root + 1, Some("Structure")) {
        Some(x) => x,
        None => {
            return Err(ParseError::Malformed);
        },
    };
    let cs: usize = match find_next(nodes, root, root + 1, Some("Constraints")) {
        Some(x) => x,
        None => {
            return Err(ParseError::Malformed);
        },
    };
    if find_next(nodes, root, root + 1, Some("ObjectiveFunction")).is_none() {
        return Err(ParseError::Malformed);
    }
    let league: (Vec<i64>, Vec<i64>) = match read_league(nodes, res) {
        Some(x) => x,
        None => {
            return Err(ParseError::Malformed);
        },
    };
    let n: usize = league.0.len();
    let slots: usize = league.1.len();
    if n < 1 || n - 1 > slots || slots - (n - 1) != n - 1 {
        return Err(ParseError::WrongSize);
    }
    let phased: bool = match read_phased(nodes, st) {
        Some(x) => x,
        None => {
            return Err(ParseError::Malformed);
        },
    };
    let constraints: Constraints = match read_constraints(nodes, cs) {
        Some(x) => x,
        None => {
            return Err(ParseError::Malformed);
        },
    };
    Ok(Instance { team_ids: league.0, slot_ids: league.1, phased, constraints })
}

/// The instance that the text holds, or why it holds none. Whether the
/// text is a document, and what its nodes are, is for the parser to say.
pub fn read_instance(text: &str) -> (r: Result<Instance, ParseError>)
    ensures
        match xml_nodes(text@) {
            None => r matches Err(x) && x == ParseError::NotXml,
            Some(ns) => match instance_of(ns) {
                Ok(v) => r matches Ok(x) && x@ == v,
                Err(e) => r matches Err(x) && x == e,
            },
        },
{
    match parse_xml(text) {
        None => Err(ParseError::NotXml),
        Some(nodes) => {
            assert(nodes_view(Some(nodes)).unwrap() =~= nodes_of(nodes@));
            instance_from_nodes(&nodes)
        },
    }
}

} // verus!
