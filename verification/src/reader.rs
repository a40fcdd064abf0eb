//! From the nodes of a document to an instance.

use vstd::prelude::*;
use crate::lit::{SlotId, TeamId};
use crate::instance::{Br1, Br2, BreakLimit, BreakLimitView, Ca1, Ca2, Ca3, Ca4, Capacity, CapacityView, Fa2, Fa2View, Ga1, Ga1View, Se1, Se1View};
use crate::xml::{ids_of, is_word, meetings_of, number_of, parse_i32, parse_i64, parse_ids, parse_meetings, parse_u32, within, XmlNode};

verus! {

/// The value of the first of the attributes from position `k` on that has
/// the name `name`.
pub open spec fn attr_from(attrs: Seq<(Seq<char>, Seq<char>)>, name: Seq<char>, k: int) -> Option<Seq<char>>
    decreases attrs.len() - k,
{
    if k < 0 || k >= attrs.len() {
        None
    } else if attrs[k].0 == name {
        Some(attrs[k].1)
    } else {
        attr_from(attrs, name, k + 1)
    }
}

/// The value of the attribute `name`, if there is one.
pub open spec fn attr(attrs: Seq<(Seq<char>, Seq<char>)>, name: Seq<char>) -> Option<Seq<char>> {
    attr_from(attrs, name, 0)
}

/// The position of the attribute `name` of the node, if it has one.
pub fn attr_index(node: &XmlNode, name: &str) -> (r: Option<usize>)
    ensures
        match attr(node@.attributes, name@) {
            Some(v) => r matches Some(k) && k < node.attributes@.len() && node.attributes@[k as int].1@ == v,
            None => r is None,
        },
{
    let ghost attrs = node@.attributes;
    let mut k: usize = 0;
    while k < node.attributes.len()
        invariant
            k <= node.attributes@.len(),
            attrs == node@.attributes,
            attr_from(attrs, name@, k as int) == attr(attrs, name@),
        decreases node.attributes.len() - k,
    {
        assert(attrs[k as int] == (node.attributes@[k as int].0@, node.attributes@[k as int].1@));
        if is_word(&node.attributes[k].0, name) {
            return Some(k);
        }
        k += 1;
    }
    None
}

/// A number of the type `u32` that may be given: `None` where the
/// attribute is there and is no such number.
pub open spec fn opt_u32(attrs: Seq<(Seq<char>, Seq<char>)>, name: Seq<char>) -> Option<Option<u32>> {
    match attr(attrs, name) {
        None => Some(None),
        Some(v) => match within(number_of(v, false), 0, u32::MAX as int) {
            Some(x) => Some(Some(x as u32)),
            None => None,
        },
    }
}

/// A number of the type `u32` that must be given.
pub open spec fn req_u32(attrs: Seq<(Seq<char>, Seq<char>)>, name: Seq<char>) -> Option<u32> {
    match opt_u32(attrs, name) {
        Some(Some(x)) => Some(x),
        _ => None,
    }
}

pub open spec fn opt_i64(attrs: Seq<(Seq<char>, Seq<char>)>, name: Seq<char>) -> Option<Option<i64>> {
    match attr(attrs, name) {
        None => Some(None),
        Some(v) => match within(number_of(v, true), i64::MIN as int, i64::MAX as int) {
            Some(x) => Some(Some(x as i64)),
            None => None,
        },
    }
}

pub open spec fn req_i64(attrs: Seq<(Seq<char>, Seq<char>)>, name: Seq<char>) -> Option<i64> {
    match opt_i64(attrs, name) {
        Some(Some(x)) => Some(x),
        _ => None,
    }
}

pub open spec fn req_i32(attrs: Seq<(Seq<char>, Seq<char>)>, name: Seq<char>) -> Option<i32> {
    match attr(attrs, name) {
        None => None,
        Some(v) => match within(number_of(v, true), i32::MIN as int, i32::MAX as int) {
            Some(x) => Some(x as i32),
            None => None,
        },
    }
}

/// A list of identifiers that must be given.
pub open spec fn req_ids(attrs: Seq<(Seq<char>, Seq<char>)>, name: Seq<char>) -> Option<Seq<i64>> {
    match attr(attrs, name) {
        None => None,
        Some(v) => ids_of(v),
    }
}

/// Whether the constraint is hard: its type must be `HARD` or `SOFT`.
pub open spec fn hard_of(attrs: Seq<(Seq<char>, Seq<char>)>) -> Option<bool> {
    match attr(attrs, "type"@) {
        Some(v) => if v == "HARD"@ {
            Some(true)
        } else if v == "SOFT"@ {
            Some(false)
        } else {
            None
        },
        None => None,
    }
}

/// The venue that an attribute names: `H` for home, `A` for away, `HA`
/// for either.
pub open spec fn venue_attr(attrs: Seq<(Seq<char>, Seq<char>)>, name: Seq<char>) -> Option<Option<bool>> {
    match attr(attrs, name) {
        Some(v) => if v == "H"@ {
            Some(Some(true))
        } else if v == "A"@ {
            Some(Some(false))
        } else if v == "HA"@ {
            Some(None)
        } else {
            None
        },
        None => None,
    }
}

/// Whether the attribute is there with the value `word`.
pub open spec fn has_value(attrs: Seq<(Seq<char>, Seq<char>)>, name: Seq<char>, word: Seq<char>) -> bool {
    attr(attrs, name) == Some(word)
}

fn read_opt_u32(node: &XmlNode, name: &str) -> (r: Option<Option<u32>>)
    ensures
        r == opt_u32(node@.attributes, name@),
{
    match attr_index(node, name) {
        None => Some(None),
        Some(k) => match parse_u32(node.attributes[k].1.as_str()) {
            Some(x) => Some(Some(x)),
            None => None,
        },
    }
}

fn read_u32(node: &XmlNode, name: &str) -> (r: Option<u32>)
    ensures
        r == req_u32(node@.attributes, name@),
{
    match read_opt_u32(node, name) {
        Some(Some(x)) => Some(x),
        _ => None,
    }
}

fn read_opt_i64(node: &XmlNode, name: &str) -> (r: Option<Option<i64>>)
    ensures
        r == opt_i64(node@.attributes, name@),
{
    match attr_index(node, name) {
        None => Some(None),
        Some(k) => match parse_i64(node.attributes[k].1.as_str()) {
            Some(x) => Some(Some(x)),
            None => None,
        },
    }
}

/// The number of the type `i64` that the attribute `name` must give.
pub fn read_i64(node: &XmlNode, name: &str) -> (r: Option<i64>)
    ensures
        r == req_i64(node@.attributes, name@),
{
    match read_opt_i64(node, name) {
        Some(Some(x)) => Some(x),
        _ => None,
    }
}

fn read_i32(node: &XmlNode, name: &str) -> (r: Option<i32>)
    ensures
        r == req_i32(node@.attributes, name@),
{
    match attr_index(node, name) {
        None => None,
        Some(k) => parse_i32(node.attributes[k].1.as_str()),
    }
}

fn read_ids(node: &XmlNode, name: &str) -> (r: Option<Vec<i64>>)
    ensures
        match req_ids(node@.attributes, name@) {
            Some(ids) => r matches Some(v) && v@ == ids,
            None => r is None,
        },
{
    match attr_index(node, name) {
        None => None,
        Some(k) => parse_ids(node.attributes[k].1.as_str()),
    }
}

fn read_hard(node: &XmlNode) -> (r: Option<bool>)
    ensures
        r == hard_of(node@.attributes),
{
    match attr_index(node, "type") {
        None => None,
        Some(k) => {
            if is_word(&node.attributes[k].1, "HARD") {
                Some(true)
            } else if is_word(&node.attributes[k].1, "SOFT") {
                Some(false)
            } else {
                None
            }
        },
    }
}

fn read_venue(node: &XmlNode, name: &str) -> (r: Option<Option<bool>>)
    ensures
        r == venue_attr(node@.attributes, name@),
{
    match attr_index(node, name) {
        None => None,
        Some(k) => {
            if is_word(&node.attributes[k].1, "H") {
                Some(Some(true))
            } else if is_word(&node.attributes[k].1, "A") {
                Some(Some(false))
            } else if is_word(&node.attributes[k].1, "HA") {
                Some(None)
            } else {
                None
            }
        },
    }
}

fn read_has_value(node: &XmlNode, name: &str, word: &str) -> (r: bool)
    ensures
        r == has_value(node@.attributes, name@, word@),
{
    match attr_index(node, name) {
        None => false,
        Some(k) => is_word(&node.attributes[k].1, word),
    }
}

/// The CA1 constraint that the attributes say. Its penalty must be given
/// and its venue must be `H` or `A`.
pub open spec fn ca1_of(a: Seq<(Seq<char>, Seq<char>)>) -> Option<CapacityView> {
    match (
        hard_of(a),
        req_u32(a, "penalty"@),
        venue_attr(a, "mode"@),
        req_ids(a, "teams"@),
        req_ids(a, "slots"@),
        req_u32(a, "max"@),
        opt_u32(a, "min"@),
    ) {
        (Some(hard), Some(penalty), Some(Some(home)), Some(teams), Some(slots), Some(max), Some(min)) => Some(
            CapacityView {
                kind: 1,
                hard,
                penalty,
                home: Some(home),
                flag: false,
                teams1: teams,
                teams2: Seq::empty(),
                slots,
                max,
                intp: 0,
                min,
            },
        ),
        _ => None,
    }
}

/// The CA2, CA3 or CA4 constraint that the attributes say, `kind` being 2,
/// 3 or 4. CA3 has a run length and no slots. The flag says that `mode2`
/// is `GLOBAL` for CA2 and CA4, which otherwise must have `EVERY` for
/// CA4, and `SLOTS` for CA3.
pub open spec fn ca234_of(a: Seq<(Seq<char>, Seq<char>)>, kind: int) -> Option<CapacityView> {
    match (
        hard_of(a),
        req_u32(a, "penalty"@),
        venue_attr(a, "mode1"@),
        req_ids(a, "teams1"@),
        req_ids(a, "teams2"@),
        if kind == 3 {
            Some(Seq::<i64>::empty())
        } else {
            req_ids(a, "slots"@)
        },
        req_u32(a, "max"@),
        if kind == 3 {
            req_u32(a, "intp"@)
        } else {
            Some(0u32)
        },
        opt_u32(a, "min"@),
    ) {
        (
            Some(hard),
            Some(penalty),
            Some(home),
            Some(teams1),
            Some(teams2),
            Some(slots),
            Some(max),
            Some(intp),
            Some(min),
        ) => if kind == 4 && !has_value(a, "mode2"@, "GLOBAL"@) && !has_value(a, "mode2"@, "EVERY"@) {
            None
        } else {
            Some(
                CapacityView {
                    kind,
                    hard,
                    penalty,
                    home,
                    flag: if kind == 3 {
                        has_value(a, "mode2"@, "SLOTS"@)
                    } else {
                        has_value(a, "mode2"@, "GLOBAL"@)
                    },
                    teams1,
                    teams2,
                    slots,
                    max,
                    intp,
                    min,
                },
            )
        },
        _ => None,
    }
}

/// The capacity constraint that an element says, by its name.
pub open spec fn capacity_of(name: Seq<char>, a: Seq<(Seq<char>, Seq<char>)>) -> Option<CapacityView> {
    if name == "CA1"@ {
        ca1_of(a)
    } else if name == "CA2"@ {
        ca234_of(a, 2)
    } else if name == "CA3"@ {
        ca234_of(a, 3)
    } else if name == "CA4"@ {
        ca234_of(a, 4)
    } else {
        None
    }
}

/// The capacity constraint that the element says.
#[verifier::rlimit(40)]
pub fn read_capacity(node: &XmlNode) -> (r: Option<Capacity>)
    ensures
        match capacity_of(node@.name, node@.attributes) {
            Some(v) => r matches Some(c) && c@ == v,
            None => r is None,
        },
{
    let kind: u8 = if is_word(&node.name, "CA1") {
        1
    } else if is_word(&node.name, "CA2") {
        2
    } else if is_word(&node.name, "CA3") {
        3
    } else if is_word(&node.name, "CA4") {
        4
    } else {
        return None;
    };
    let hard: bool = match read_hard(node) {
        Some(x) => x,
        None => {
            return None;
        },
    };
    let penalty: u32 = match read_u32(node, "penalty") {
        Some(x) => x,
        None => {
            return None;
        },
    };
    let home: Option<bool> = match read_venue(
        node,
        if kind == 1 {
            "mode"
        } else {
            "mode1"
        },
    ) {
        Some(x) => x,
        None => {
            return None;
        },
    };
    if kind == 1 {
        let at_home: bool = match home {
            Some(h) => h,
            None => {
                return None;
            },
        };
        let teams: Vec<TeamId> = match read_ids(node, "teams") {
            Some(x) => x,
            None => {
                return None;
            },
        };
        let slots: Vec<SlotId> = match read_ids(node, "slots") {
            Some(x) => x,
            None => {
                return None;
            },
        };
        let max: u32 = match read_u32(node, "max") {
            Some(x) => x,
            None => {
                return None;
            },
        };
        let min: Option<u32> = match read_opt_u32(node, "min") {
            Some(x) => x,
            None => {
                return None;
            },
        };
        return Some(Capacity::Ca1(Ca1 { hard, penalty, home: at_home, teams, slots, max, min }));
    }
    let teams1: Vec<TeamId> = match read_ids(node, "teams1") {
        Some(x) => x,
        None => {
            return None;
        },
    };
    let teams2: Vec<TeamId> = match read_ids(node, "teams2") {
        Some(x) => x,
        None => {
            return None;
        },
    };
    let slots: Vec<SlotId> = if kind == 3 {
        Vec::new()
    } else {
        match read_ids(node, "slots") {
            Some(x) => x,
            None => {
                return None;
            },
        }
    };
    let max: u32 = match read_u32(node, "max") {
        Some(x) => x,
        None => {
            return None;
        },
    };
    let intp: u32 = if kind == 3 {
        match read_u32(node, "intp") {
            Some(x) => x,
            None => {
                return None;
            },
        }
    } else {
        0
    };
    let min: Option<u32> = match read_opt_u32(node, "min") {
        Some(x) => x,
        None => {
            return None;
        },
    };
    let global: bool = read_has_value(node, "mode2", "GLOBAL");
    if kind == 2 {
        Some(Capacity::Ca2(Ca2 { hard, penalty, home, global, teams1, teams2, slots, max, min }))
    } else if kind == 3 {
        let by_slots: bool = read_has_value(node, "mode2", "SLOTS");
        assert(slots@ =~= Seq::<i64>::empty());
        Some(Capacity::Ca3(Ca3 { hard, penalty, home, by_slots, teams1, teams2, max, intp, min }))
    } else {
        if !global && !read_has_value(node, "mode2", "EVERY") {
            return None;
        }
        Some(Capacity::Ca4(Ca4 { hard, penalty, global, home, teams1, teams2, slots, max, min }))
    }
}

/// The GA1 constraint that an element says.
pub open spec fn ga1_of(name: Seq<char>, a: Seq<(Seq<char>, Seq<char>)>) -> Option<Ga1View> {
    match (
        hard_of(a),
        opt_u32(a, "penalty"@),
        opt_u32(a, "min"@),
        opt_u32(a, "max"@),
        req_ids(a, "slots"@),
        match attr(a, "meetings"@) {
            Some(v) => meetings_of(v),
            None => None,
        },
    ) {
        (Some(hard), Some(penalty), Some(min), Some(max), Some(slots), Some(meetings)) => if name == "GA1"@ {
            Some(Ga1View { hard, penalty, min, max, slots, meetings })
        } else {
            None
        },
        _ => None,
    }
}

/// The GA1 constraint that the element says.
pub fn read_ga1(node: &XmlNode) -> (r: Option<Ga1>)
    ensures
        match ga1_of(node@.name, node@.attributes) {
            Some(v) => r matches Some(c) && c@ == v,
            None => r is None,
        },
{
    if !is_word(&node.name, "GA1") {
        return None;
    }
    let hard: bool = match read_hard(node) {
        Some(x) => x,
        None => {
            return None;
        },
    };
    let penalty: Option<u32> = match read_opt_u32(node, "penalty") {
        Some(x) => x,
        None => {
            return None;
        },
    };
    let min: Option<u32> = match read_opt_u32(node, "min") {
        Some(x) => x,
        None => {
            return None;
        },
    };
    let max: Option<u32> = match read_opt_u32(node, "max") {
        Some(x) => x,
        None => {
            return None;
        },
    };
    let slots: Vec<SlotId> = match read_ids(node, "slots") {
        Some(x) => x,
        None => {
            return None;
        },
    };
    let meetings: Vec<(TeamId, TeamId)> = match attr_index(node, "meetings") {
        None => {
            return None;
        },
        Some(k) => match parse_meetings(node.attributes[k].1.as_str()) {
            Some(x) => x,
            None => {
                return None;
            },
        },
    };
    Some(Ga1 { hard, penalty, min, max, slots, meetings })
}

/// The break constraint that an element says. A minimum and a maximum
/// must be numbers if they are given; they are not used.
pub open spec fn break_of(name: Seq<char>, a: Seq<(Seq<char>, Seq<char>)>) -> Option<BreakLimitView> {
    match (
        hard_of(a),
        opt_u32(a, "penalty"@),
        opt_i64(a, "min"@),
        opt_i64(a, "max"@),
        req_ids(a, "teams"@),
        req_ids(a, "slots"@),
        req_u32(a, "intp"@),
    ) {
        (Some(hard), Some(penalty), Some(min), Some(max), Some(teams), Some(slots), Some(intp)) => if name == "BR1"@ {
            match venue_attr(a, "mode2"@) {
                Some(home) => Some(
                    BreakLimitView { kind: 1, hard, penalty, teams, slots, intp, home, regular_or_any_venue: false },
                ),
                None => None,
            }
        } else if name == "BR2"@ {
            Some(
                BreakLimitView {
                    kind: 2,
                    hard,
                    penalty,
                    teams,
                    slots,
                    intp,
                    home: None,
                    regular_or_any_venue: has_value(a, "mode1"@, "REGULAR"@) || has_value(a, "homeMode"@, "HA"@),
                },
            )
        } else {
            None
        },
        _ => None,
    }
}

/// The break constraint that the element says.
pub fn read_break(node: &XmlNode) -> (r: Option<BreakLimit>)
    ensures
        match break_of(node@.name, node@.attributes) {
            Some(v) => r matches Some(c) && c@ == v,
            None => r is None,
        },
{
    let hard: bool = match read_hard(node) {
        Some(x) => x,
        None => {
            return None;
        },
    };
    let penalty: Option<u32> = match read_opt_u32(node, "penalty") {
        Some(x) => x,
        None => {
            return None;
        },
    };
    if read_opt_i64(node, "min").is_none() || read_opt_i64(node, "max").is_none() {
        return None;
    }
    let teams: Vec<TeamId> = match read_ids(node, "teams") {
        Some(x) => x,
        None => {
            return None;
        },
    };
    let slots: Vec<SlotId> = match read_ids(node, "slots") {
        Some(x) => x,
        None => {
            return None;
        },
    };
    let intp: u32 = match read_u32(node, "intp") {
        Some(x) => x,
        None => {
            return None;
        },
    };
    if is_word(&node.name, "BR1") {
        match read_venue(node, "mode2") {
            Some(home) => Some(BreakLimit::Br1(Br1 { hard, penalty, teams, slots, intp, home })),
            None => None,
        }
    } else if is_word(&node.name, "BR2") {
        let regular_or_any_venue: bool = read_has_value(node, "mode1", "REGULAR") || read_has_value(
            node,
            "homeMode",
            "HA",
        );
        Some(BreakLimit::Br2(Br2 { hard, penalty, regular_or_any_venue, teams, slots, intp }))
    } else {
        None
    }
}

/// The FA2 constraint that an element says. Its slots, a minimum and a
/// maximum must be well formed if they are given; they are not used.
pub open spec fn fa2_of(name: Seq<char>, a: Seq<(Seq<char>, Seq<char>)>) -> Option<Fa2View> {
    match (
        hard_of(a),
        req_i64(a, "penalty"@),
        opt_i64(a, "min"@),
        opt_i64(a, "max"@),
        req_ids(a, "teams"@),
        req_ids(a, "slots"@),
        req_u32(a, "intp"@),
    ) {
        (Some(hard), Some(penalty), Some(min), Some(max), Some(teams), Some(slots), Some(intp)) => if name == "FA2"@ {
            Some(Fa2View { hard, penalty, home_games: has_value(a, "mode"@, "H"@), teams, intp })
        } else {
            None
        },
        _ => None,
    }
}

/// The FA2 constraint that the element says.
pub fn read_fa2(node: &XmlNode) -> (r: Option<Fa2>)
    ensures
        match fa2_of(node@.name, node@.attributes) {
            Some(v) => r matches Some(c) && c@ == v,
            None => r is None,
        },
{
    if !is_word(&node.name, "FA2") {
        return None;
    }
    let hard: bool = match read_hard(node) {
        Some(x) => x,
        None => {
            return None;
        },
    };
    let penalty: i64 = match read_i64(node, "penalty") {
        Some(x) => x,
        None => {
            return None;
        },
    };
    if read_opt_i64(node, "min").is_none() || read_opt_i64(node, "max").is_none() {
        return None;
    }
    let teams: Vec<TeamId> = match read_ids(node, "teams") {
        Some(x) => x,
        None => {
            return None;
        },
    };
    if read_ids(node, "slots").is_none() {
        return None;
    }
    let intp: u32 = match read_u32(node, "intp") {
        Some(x) => x,
        None => {
            return None;
        },
    };
    let home_games: bool = read_has_value(node, "mode", "H");
    Some(Fa2 { hard, penalty, home_games, teams, intp })
}

/// The SE1 constraint that an element says.
pub open spec fn se1_of(name: Seq<char>, a: Seq<(Seq<char>, Seq<char>)>) -> Option<Se1View> {
    match (hard_of(a), req_i64(a, "penalty"@), req_i32(a, "min"@), opt_i64(a, "max"@), req_ids(a, "teams"@)) {
        (Some(hard), Some(penalty), Some(min), Some(max), Some(teams)) => if name == "SE1"@ {
            Some(Se1View { hard, penalty, min, max, teams })
        } else {
            None
        },
        _ => None,
    }
}

/// The SE1 constraint that the element says.
pub fn read_se1(node: &XmlNode) -> (r: Option<Se1>)
    ensures
        match se1_of(node@.name, node@.attributes) {
            Some(v) => r matches Some(c) && c@ == v,
            None => r is None,
        },
{
    if !is_word(&node.name, "SE1") {
        return None;
    }
    let hard: bool = match read_hard(node) {
        Some(x) => x,
        None => {
            return None;
        },
    };
    let penalty: i64 = match read_i64(node, "penalty") {
        Some(x) => x,
        None => {
            return None;
        },
    };
    let min: i32 = match read_i32(node, "min") {
        Some(x) => x,
        None => {
            return None;
        },
    };
    let max: Option<i64> = match read_opt_i64(node, "max") {
        Some(x) => x,
        None => {
            return None;
        },
    };
    let teams: Vec<TeamId> = match read_ids(node, "teams") {
        Some(x) => x,
        None => {
            return None;
        },
    };
    Some(Se1 { hard, penalty, min, max, teams })
}

} // verus!
