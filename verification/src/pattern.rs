//! A home/away pattern, given as text, forced on the tournament.
//!
//! The text has one line for each team and in each line one character for
//! each slot: `1` where the team is at home and `0` where it is away. The
//! team of a line and the slot of a character are those whose identifier
//! is the position of the line and of the character.

use vstd::prelude::*;
use crate::lit::{one, Bool, SlotId, TeamId};
use crate::formula::{all_hold, lemma_all_hold_concat, lemma_all_hold_push, Formula, Rule};
use crate::table::VarTable;
use crate::error::EncodeError;
use crate::models::lemma_count_true_one;

verus! {

/// The position of the first line feed from `start` on, or the length.
pub open spec fn line_end(text: Seq<u8>, start: int) -> int
    decreases text.len() - start,
{
    if start >= text.len() || text[start] == 10u8 {
        start
    } else {
        line_end(text, start + 1)
    }
}

/// The end of a line is at a line feed or at the end of the text, and no
/// line feed stands before it.
pub proof fn lemma_line_end(text: Seq<u8>, start: int)
    requires
        0 <= start <= text.len(),
    ensures
        start <= line_end(text, start) <= text.len(),
        line_end(text, start) < text.len() ==> text[line_end(text, start)] == 10u8,
        forall|i: int| start <= i < line_end(text, start) ==> text[i] != 10u8,
    decreases text.len() - start,
{
    if start < text.len() && text[start] != 10u8 {
        lemma_line_end(text, start + 1);
    }
}

/// The line from `start` up to `end`: without the carriage return at its
/// end, if a line feed follows it.
pub open spec fn line_at(text: Seq<u8>, start: int, end: int) -> Seq<u8> {
    if end < text.len() && start < end && text[end - 1] == 13u8 {
        text.subrange(start, end - 1)
    } else {
        text.subrange(start, end)
    }
}

/// The lines of the text from `start` on. A line ends with a line feed or
/// with a carriage return and a line feed, or at the end of the text.
pub open spec fn lines_from(text: Seq<u8>, start: int) -> Seq<Seq<u8>>
    decreases text.len() - start,
{
    if start < 0 || start >= text.len() {
        Seq::empty()
    } else {
        let end = line_end(text, start);
        if start <= end < text.len() {
            seq![line_at(text, start, end)] + lines_from(text, end + 1)
        } else {
            seq![line_at(text, start, end)]
        }
    }
}

/// The lines of the text.
pub open spec fn lines_of(text: Seq<u8>) -> Seq<Seq<u8>> {
    lines_from(text, 0)
}

/// The content of a list of lines.
pub open spec fn lines_view(lines: Seq<Vec<u8>>) -> Seq<Seq<u8>> {
    Seq::new(lines.len(), |i: int| lines[i]@)
}

fn copy_range(text: &Vec<u8>, from: usize, to: usize) -> (r: Vec<u8>)
    requires
        from <= to <= text@.len(),
    ensures
        r@ == text@.subrange(from as int, to as int),
{
    let mut r: Vec<u8> = Vec::new();
    let mut i: usize = from;
    while i < to
        invariant
            from <= i <= to <= text@.len(),
            r@ == text@.subrange(from as int, i as int),
        decreases to - i,
    {
        r.push(text[i]);
        assert(r@ =~= text@.subrange(from as int, i + 1));
        i += 1;
    }
    r
}

/// The lines of the text.
#[verifier::rlimit(40)]
pub fn text_lines(text: &Vec<u8>) -> (lines: Vec<Vec<u8>>)
    ensures
        lines_view(lines@) == lines_of(text@),
{
    let mut lines: Vec<Vec<u8>> = Vec::new();
    let mut start: usize = 0;
    assert(lines_view(lines@) =~= Seq::<Seq<u8>>::empty());
    while start < text.len()
        invariant
            start <= text@.len(),
            lines_view(lines@) + lines_from(text@, start as int) == lines_of(text@),
        decreases text@.len() - start,
    {
        let mut end: usize = start;
        while end < text.len() && text[end] != 10u8
            invariant
                start <= end <= text@.len(),
                line_end(text@, end as int) == line_end(text@, start as int),
            decreases text.len() - end,
        {
            end += 1;
        }
        proof {
            lemma_line_end(text@, start as int);
        }
        let stop: usize = if end < text.len() && start < end && text[end - 1] == 13u8 {
            end - 1
        } else {
            end
        };
        let ghost before = lines_view(lines@);
        let line: Vec<u8> = copy_range(text, start, stop);
        lines.push(line);
        proof {
            assert(lines_view(lines@) =~= before.push(line_at(text@, start as int, end as int)));
            if end < text@.len() {
                assert(lines_view(lines@) + lines_from(text@, end + 1) =~= before + lines_from(text@, start as int));
            } else {
                assert(lines_view(lines@) + lines_from(text@, end as int) =~= before + lines_from(
                    text@,
                    start as int,
                ));
            }
        }
        if end < text.len() {
            start = end + 1;
        } else {
            start = end;
        }
    }
    assert(lines_view(lines@) + Seq::<Seq<u8>>::empty() =~= lines_view(lines@));
    lines
}

/// What a character of a pattern says: at home for `1`, away for `0`.
pub open spec fn venue_of(c: u8) -> Option<bool> {
    if c == 49u8 {
        Some(true)
    } else if c == 48u8 {
        Some(false)
    } else {
        None
    }
}

/// The lines are a pattern for `n` teams and `slots` slots: there are `n`
/// of them, each of `slots` characters, each character `0` or `1`.
pub open spec fn is_pattern(lines: Seq<Seq<u8>>, n: int, slots: int) -> bool {
    &&& lines.len() == n
    &&& forall|i: int| 0 <= i < lines.len() ==> (#[trigger] lines[i]).len() == slots
    &&& forall|i: int, s: int|
        0 <= i < lines.len() && 0 <= s < lines[i].len() ==> venue_of(#[trigger] lines[i][s]) is Some
}

/// Whether the team of line `i` is at home in the slot of character `s`.
pub open spec fn pattern_home(lines: Seq<Seq<u8>>, i: int, s: int) -> bool {
    lines[i][s] == 49u8
}

/// The league has the teams and the slots that the pattern speaks of:
/// those whose identifiers are the positions of its lines and characters.
pub open spec fn pattern_known(t: VarTable, n: int, slots: int) -> bool {
    &&& n <= i64::MAX
    &&& slots <= i64::MAX
    &&& forall|i: int, s: int|
        0 <= i < n && 0 <= s < slots ==> (#[trigger] t.home_at(s as SlotId, i as TeamId)) is Some
}

/// The term that holds when the team with the identifier `i` has in the
/// slot with the identifier `s` the venue that the pattern gives it.
pub open spec fn pattern_term(t: VarTable, lines: Seq<Seq<u8>>, i: int, s: int) -> Bool {
    if pattern_home(lines, i, s) {
        t.home_at(s as SlotId, i as TeamId).unwrap()
    } else {
        t.home_at(s as SlotId, i as TeamId).unwrap().negation()
    }
}

/// For the team of line `i`, one rule for each of the slots before `k`.
pub open spec fn pattern_row_rules(t: VarTable, lines: Seq<Seq<u8>>, i: int, k: int) -> Seq<Rule>
    decreases k,
{
    if k <= 0 {
        Seq::empty()
    } else {
        pattern_row_rules(t, lines, i, k - 1).push(Rule::Clause(seq![pattern_term(t, lines, i, k - 1)]))
    }
}

/// The rules of the lines before `k`.
pub open spec fn pattern_rules(t: VarTable, lines: Seq<Seq<u8>>, k: int) -> Seq<Rule>
    decreases k,
{
    if k <= 0 {
        Seq::empty()
    } else {
        pattern_rules(t, lines, k - 1) + pattern_row_rules(t, lines, k - 1, lines[k - 1].len() as int)
    }
}

fn lines_are_pattern(lines: &Vec<Vec<u8>>, n: usize, slots: usize) -> (r: bool)
    ensures
        r == is_pattern(lines_view(lines@), n as int, slots as int),
{
    let ghost v = lines_view(lines@);
    if lines.len() != n {
        return false;
    }
    let mut i: usize = 0;
    while i < lines.len()
        invariant
            i <= lines.len(),
            v == lines_view(lines@),
            lines@.len() == n,
            forall|i1: int| 0 <= i1 < i ==> (#[trigger] v[i1]).len() == slots,
            forall|i1: int, s1: int| 0 <= i1 < i && 0 <= s1 < v[i1].len() ==> venue_of(#[trigger] v[i1][s1]) is Some,
        decreases lines.len() - i,
    {
        assert(v[i as int] == lines@[i as int]@);
        if lines[i].len() != slots {
            return false;
        }
        let mut s: usize = 0;
        while s < slots
            invariant
                i < lines.len(),
                v == lines_view(lines@),
                v[i as int] == lines@[i as int]@,
                lines@[i as int]@.len() == slots,
                s <= slots,
                forall|s1: int| 0 <= s1 < s ==> venue_of(#[trigger] v[i as int][s1]) is Some,
            decreases slots - s,
        {
            let c: u8 = lines[i][s];
            if c != 49u8 && c != 48u8 {
                assert(venue_of(v[i as int][s as int]) is None);
                return false;
            }
            s += 1;
        }
        i += 1;
    }
    true
}

fn pattern_is_known(t: &VarTable, n: usize, slots: usize) -> (r: bool)
    requires
        t.wf(),
    ensures
        r == pattern_known(*t, n as int, slots as int),
{
    if n as u64 > i64::MAX as u64 || slots as u64 > i64::MAX as u64 {
        return false;
    }
    let mut i: usize = 0;
    while i < n
        invariant
            t.wf(),
            i <= n <= i64::MAX,
            slots <= i64::MAX,
            forall|i1: int, s1: int|
                0 <= i1 < i && 0 <= s1 < slots ==> (#[trigger] t.home_at(s1 as SlotId, i1 as TeamId)) is Some,
        decreases n - i,
    {
        let mut s: usize = 0;
        while s < slots
            invariant
                t.wf(),
                i < n <= i64::MAX,
                s <= slots <= i64::MAX,
                forall|s1: int| 0 <= s1 < s ==> (#[trigger] t.home_at(s1 as SlotId, i as TeamId)) is Some,
            decreases slots - s,
        {
            if t.home_var(s as i64, i as i64).is_none() {
                assert(t.home_at(s as SlotId, i as TeamId) is None);
                return false;
            }
            s += 1;
        }
        i += 1;
    }
    true
}

/// Forces the home/away pattern that `text` holds on the tournament: for
/// every team and slot one rule that gives the team its venue. The text
/// must be a pattern for the teams and slots of the league, and the league
/// must have a team for each line and a slot for each character. Where the
/// text is refused nothing is changed.
#[verifier::rlimit(40)]
pub fn force_pattern(solver: &mut Formula, vars: &VarTable, text: &Vec<u8>) -> (r: Result<(), EncodeError>)
    requires
        vars.wf(),
    ensures
        final(solver).roles == old(solver).roles,
        final(solver).networks == old(solver).networks,
        !is_pattern(lines_of(text@), vars.teams(), vars.slots()) ==> r == Err::<(), EncodeError>(
            EncodeError::Unsupported,
        ) && *final(solver) == *old(solver),
        is_pattern(lines_of(text@), vars.teams(), vars.slots()) && !pattern_known(*vars, vars.teams(), vars.slots())
            ==> r == Err::<(), EncodeError>(EncodeError::UnknownVariable) && *final(solver) == *old(solver),
        is_pattern(lines_of(text@), vars.teams(), vars.slots()) && pattern_known(*vars, vars.teams(), vars.slots())
            ==> r is Ok && final(solver).rules() == old(solver).rules() + pattern_rules(
            *vars,
            lines_of(text@),
            vars.teams(),
        ),
{
    let n: usize = vars.team_ids.len();
    let slots: usize = vars.slot_ids.len();
    let lines: Vec<Vec<u8>> = text_lines(text);
    let ghost v = lines_view(lines@);
    if !lines_are_pattern(&lines, n, slots) {
        return Err(EncodeError::Unsupported);
    }
    if !pattern_is_known(vars, n, slots) {
        return Err(EncodeError::UnknownVariable);
    }
    let mut i: usize = 0;
    assert(solver.rules() =~= old(solver).rules() + pattern_rules(*vars, v, 0));
    while i < n
        invariant
            vars.wf(),
            n == vars.teams(),
            slots == vars.slots(),
            n <= i64::MAX,
            slots <= i64::MAX,
            v == lines_view(lines@),
            lines@.len() == n,
            is_pattern(v, n as int, slots as int),
            pattern_known(*vars, n as int, slots as int),
            i <= n,
            solver.rules() == old(solver).rules() + pattern_rules(*vars, v, i as int),
            solver.roles == old(solver).roles,
            solver.networks == old(solver).networks,
        decreases n - i,
    {
        let ghost r1 = solver.rules();
        assert(v[i as int] == lines@[i as int]@);
        assert(v[i as int].len() == slots);
        let mut s: usize = 0;
        assert(solver.rules() =~= r1 + pattern_row_rules(*vars, v, i as int, 0));
        while s < slots
            invariant
                vars.wf(),
                n == vars.teams(),
                slots == vars.slots(),
                n <= i64::MAX,
                slots <= i64::MAX,
                v == lines_view(lines@),
                lines@.len() == n,
                v[i as int] == lines@[i as int]@,
                lines@[i as int]@.len() == slots,
                pattern_known(*vars, n as int, slots as int),
                i < n,
                s <= slots,
                solver.rules() == r1 + pattern_row_rules(*vars, v, i as int, s as int),
                solver.roles == old(solver).roles,
                solver.networks == old(solver).networks,
            decreases slots - s,
        {
            assert(vars.home_at(s as SlotId, i as TeamId) is Some);
            let home: Bool = vars.home_var(s as i64, i as i64).unwrap();
            let term: Bool = if lines[i][s] == 49u8 {
                home
            } else {
                home.negate()
            };
            solver.add_clause(one(term));
            assert(solver.rules() =~= r1 + pattern_row_rules(*vars, v, i as int, s + 1));
            s += 1;
        }
        assert(solver.rules() =~= old(solver).rules() + pattern_rules(*vars, v, i + 1));
        i += 1;
    }
    Ok(())
}

proof fn lemma_pattern_row(t: VarTable, lines: Seq<Seq<u8>>, i: int, k: int, s: int, m: Seq<bool>)
    requires
        all_hold(pattern_row_rules(t, lines, i, k), m),
        0 <= s < k,
    ensures
        pattern_term(t, lines, i, s).holds(m),
    decreases k,
{
    lemma_all_hold_push(pattern_row_rules(t, lines, i, k - 1), Rule::Clause(seq![pattern_term(t, lines, i, k - 1)]), m);
    if s < k - 1 {
        lemma_pattern_row(t, lines, i, k - 1, s, m);
    } else {
        lemma_count_true_one(pattern_term(t, lines, i, s), m);
    }
}

proof fn lemma_pattern_rows(t: VarTable, lines: Seq<Seq<u8>>, k: int, i: int, m: Seq<bool>)
    requires
        all_hold(pattern_rules(t, lines, k), m),
        0 <= i < k,
    ensures
        all_hold(pattern_row_rules(t, lines, i, lines[i].len() as int), m),
    decreases k,
{
    lemma_all_hold_concat(pattern_rules(t, lines, k - 1), pattern_row_rules(t, lines, k - 1, lines[k - 1].len() as int), m);
    if i < k - 1 {
        lemma_pattern_rows(t, lines, k - 1, i, m);
    }
}

/// In every model of the rules of a pattern each team has in each slot
/// the venue that the pattern gives it.
pub proof fn lemma_pattern_is_forced(t: VarTable, lines: Seq<Seq<u8>>, m: Seq<bool>, i: int, s: int)
    requires
        all_hold(pattern_rules(t, lines, lines.len() as int), m),
        0 <= i < lines.len(),
        0 <= s < lines[i].len(),
    ensures
        t.home_at(s as SlotId, i as TeamId).unwrap().holds(m) == pattern_home(lines, i, s),
{
    lemma_pattern_rows(t, lines, lines.len() as int, i, m);
    lemma_pattern_row(t, lines, i, lines[i].len() as int, s, m);
}

} // verus!
