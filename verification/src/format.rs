//! A schedule as text: as a table for the reader and as a solution
//! document.

use vstd::prelude::*;
use vstd::string::StringExecFns;
use crate::lit::{SlotId, TeamId};
use crate::schedule::{grid_shaped, plays};
use crate::text::{append_centered, append_decimal, append_left, append_right, centered, decimal, decimal_text, left_aligned, right_aligned};

verus! {

/// The games of slot `s` in which the team at position `i` hosts one of
/// the teams before `k`, as pairs of identifiers.
pub open spec fn pairs_row(
    g: Seq<Vec<Vec<bool>>>,
    teams: Seq<TeamId>,
    s: int,
    i: int,
    k: int,
) -> Seq<(TeamId, TeamId)>
    decreases k,
{
    if k <= 0 {
        Seq::empty()
    } else if teams[k - 1] != teams[i] && plays(g, s, i, k - 1) {
        pairs_row(g, teams, s, i, k - 1).push((teams[i], teams[k - 1]))
    } else {
        pairs_row(g, teams, s, i, k - 1)
    }
}

/// The games of slot `s` that the teams before `k` host.
pub open spec fn pairs_of_slot(g: Seq<Vec<Vec<bool>>>, teams: Seq<TeamId>, s: int, k: int) -> Seq<(TeamId, TeamId)>
    decreases k,
{
    if k <= 0 {
        Seq::empty()
    } else {
        pairs_of_slot(g, teams, s, k - 1) + pairs_row(g, teams, s, k - 1, teams.len() as int)
    }
}

/// The games of slot `s`, host by host.
pub fn games_of_slot(is_matched: &Vec<Vec<Vec<bool>>>, team_ids: &Vec<TeamId>, s: usize) -> (r: Vec<(TeamId, TeamId)>)
    requires
        grid_shaped(is_matched@, is_matched@.len() as int, team_ids@.len() as int),
        s < is_matched@.len(),
    ensures
        r@ == pairs_of_slot(is_matched@, team_ids@, s as int, team_ids@.len() as int),
{
    let n: usize = team_ids.len();
    let mut out: Vec<(TeamId, TeamId)> = Vec::new();
    let mut i: usize = 0;
    while i < n
        invariant
            grid_shaped(is_matched@, is_matched@.len() as int, n as int),
            n == team_ids@.len(),
            s < is_matched@.len(),
            i <= n,
            out@ == pairs_of_slot(is_matched@, team_ids@, s as int, i as int),
        decreases n - i,
    {
        let ghost before = out@;
        let mut j: usize = 0;
        assert(out@ =~= before + pairs_row(is_matched@, team_ids@, s as int, i as int, 0));
        while j < n
            invariant
                grid_shaped(is_matched@, is_matched@.len() as int, n as int),
                n == team_ids@.len(),
                s < is_matched@.len(),
                i < n,
                j <= n,
                out@ == before + pairs_row(is_matched@, team_ids@, s as int, i as int, j as int),
            decreases n - j,
        {
            if team_ids[j] != team_ids[i] && is_matched[s][i][j] {
                out.push((team_ids[i], team_ids[j]));
            }
            assert(out@ =~= before + pairs_row(is_matched@, team_ids@, s as int, i as int, j + 1));
            j += 1;
        }
        i += 1;
    }
    out
}

/// The line of the solution document for the game of `home` against
/// `away` in `slot`.
pub open spec fn game_line(home: TeamId, away: TeamId, slot: SlotId) -> Seq<char> {
    "    <ScheduledMatch home=\""@ + decimal_text(home as int) + "\" away=\""@ + decimal_text(away as int)
        + "\" slot=\""@ + decimal_text(slot as int) + "\" />\n"@
}

/// The lines for the first `k` of the games `pairs` of `slot`.
pub open spec fn game_lines(pairs: Seq<(TeamId, TeamId)>, slot: SlotId, k: int) -> Seq<char>
    decreases k,
{
    if k <= 0 {
        Seq::empty()
    } else {
        game_lines(pairs, slot, k - 1) + game_line(pairs[k - 1].0, pairs[k - 1].1, slot)
    }
}

/// The lines for the games of the slots before `k`.
pub open spec fn games_text(g: Seq<Vec<Vec<bool>>>, slots: Seq<SlotId>, teams: Seq<TeamId>, k: int) -> Seq<char>
    decreases k,
{
    if k <= 0 {
        Seq::empty()
    } else {
        let pairs = pairs_of_slot(g, teams, k - 1, teams.len() as int);
        games_text(g, slots, teams, k - 1) + game_lines(pairs, slots[k - 1], pairs.len() as int)
    }
}

/// The head of the solution document, with the name of the instance and
/// the name of the solution, which begins with `stem`.
pub open spec fn solution_head(instance_name: Seq<char>, stem: Seq<char>) -> Seq<char> {
    "<Solution>\n  <MetaData>\n    <InstanceName>"@ + instance_name + "</InstanceName>\n    <SolutionName>"@ + stem
        + "_bjornarl_0_99999999_today.xml</SolutionName>\n    <ObjectiveValue infeasibility=\"0\" objective=\"99999999\" />\n  </MetaData>\n  <Games>\n"@
}

/// The solution document of a schedule.
pub open spec fn solution_text(
    instance_name: Seq<char>,
    stem: Seq<char>,
    g: Seq<Vec<Vec<bool>>>,
    slots: Seq<SlotId>,
    teams: Seq<TeamId>,
) -> Seq<char> {
    solution_head(instance_name, stem) + games_text(g, slots, teams, slots.len() as int) + "  </Games>\n</Solution>\n"@
}

/// The schedule `is_matched` as a solution document: the names, then one
/// line for each game, slot by slot and host by host. `instance_name` is
/// the name of the instance's file and `stem` that name without its
/// ending.
#[verifier::rlimit(40)]
pub fn format_schedule_xml(
    instance_name: &str,
    stem: &str,
    slot_ids: &Vec<SlotId>,
    team_ids: &Vec<TeamId>,
    is_matched: &Vec<Vec<Vec<bool>>>,
) -> (out: String)
    requires
        grid_shaped(is_matched@, slot_ids@.len() as int, team_ids@.len() as int),
    ensures
        out@ == solution_text(instance_name@, stem@, is_matched@, slot_ids@, team_ids@),
{
    let mut out: String = String::new();
    out.append("<Solution>\n  <MetaData>\n    <InstanceName>");
    out.append(instance_name);
    out.append("</InstanceName>\n    <SolutionName>");
    out.append(stem);
    out.append(
        "_bjornarl_0_99999999_today.xml</SolutionName>\n    <ObjectiveValue infeasibility=\"0\" objective=\"99999999\" />\n  </MetaData>\n  <Games>\n",
    );
    let ghost head = solution_head(instance_name@, stem@);
    assert(out@ =~= head + games_text(is_matched@, slot_ids@, team_ids@, 0));
    let mut s: usize = 0;
    while s < slot_ids.len()
        invariant
            grid_shaped(is_matched@, slot_ids@.len() as int, team_ids@.len() as int),
            s <= slot_ids.len(),
            out@ == head + games_text(is_matched@, slot_ids@, team_ids@, s as int),
        decreases slot_ids.len() - s,
    {
        let pairs: Vec<(TeamId, TeamId)> = games_of_slot(is_matched, team_ids, s);
        let slot: SlotId = slot_ids[s];
        let ghost before = out@;
        let mut k: usize = 0;
        assert(out@ =~= before + game_lines(pairs@, slot, 0));
        while k < pairs.len()
            invariant
                k <= pairs.len(),
                out@ == before + game_lines(pairs@, slot, k as int),
            decreases pairs.len() - k,
        {
            let ghost line_start = out@;
            out.append("    <ScheduledMatch home=\"");
            append_decimal(&mut out, pairs[k].0);
            out.append("\" away=\"");
            append_decimal(&mut out, pairs[k].1);
            out.append("\" slot=\"");
            append_decimal(&mut out, slot);
            out.append("\" />\n");
            assert(out@ =~= line_start + game_line(pairs@[k as int].0, pairs@[k as int].1, slot));
            assert(out@ =~= before + game_lines(pairs@, slot, k + 1));
            k += 1;
        }
        assert(out@ =~= head + games_text(is_matched@, slot_ids@, team_ids@, s + 1));
        s += 1;
    }
    out.append("  </Games>\n</Solution>\n");
    out
}

/// The heads of the columns of the slots before `k`.
pub open spec fn table_head(slots: Seq<SlotId>, k: int) -> Seq<char>
    decreases k,
{
    if k <= 0 {
        Seq::empty()
    } else {
        table_head(slots, k - 1) + " "@ + centered("s"@ + decimal_text(slots[k - 1] as int), 5) + " "@
    }
}

/// The cell of a game.
pub open spec fn table_cell(pair: (TeamId, TeamId)) -> Seq<char> {
    " "@ + right_aligned(decimal_text(pair.0 as int), 2) + ","@ + left_aligned(decimal_text(pair.1 as int), 2) + " "@
}

/// The cells of row `row` in the columns before `k`.
pub open spec fn table_row(columns: Seq<Seq<(TeamId, TeamId)>>, row: int, k: int) -> Seq<char>
    decreases k,
{
    if k <= 0 {
        Seq::empty()
    } else {
        table_row(columns, row, k - 1) + table_cell(columns[k - 1][row])
    }
}

/// The rows before `k`, each on a line.
pub open spec fn table_rows(columns: Seq<Seq<(TeamId, TeamId)>>, k: int) -> Seq<char>
    decreases k,
{
    if k <= 0 {
        Seq::empty()
    } else {
        table_rows(columns, k - 1) + table_row(columns, k - 1, columns.len() as int) + "\n"@
    }
}

/// The games of each slot.
pub open spec fn columns_of(g: Seq<Vec<Vec<bool>>>, teams: Seq<TeamId>, slots: int) -> Seq<Seq<(TeamId, TeamId)>> {
    Seq::new(slots as nat, |s: int| pairs_of_slot(g, teams, s, teams.len() as int))
}

/// The schedule has a table: there is a slot, and every slot has as many
/// games as the first.
pub open spec fn has_table(columns: Seq<Seq<(TeamId, TeamId)>>) -> bool {
    columns.len() > 0 && forall|s: int| 0 <= s < columns.len() ==> (#[trigger] columns[s]).len() == columns[0].len()
}

/// The table of a schedule: a line of column heads, then the rows.
pub open spec fn table_text(columns: Seq<Seq<(TeamId, TeamId)>>, slots: Seq<SlotId>) -> Seq<char> {
    table_head(slots, slots.len() as int) + "\n"@ + table_rows(columns, columns[0].len() as int)
}

/// The content of the columns.
pub open spec fn columns_view(columns: Seq<Vec<(TeamId, TeamId)>>) -> Seq<Seq<(TeamId, TeamId)>> {
    Seq::new(columns.len(), |i: int| columns[i]@)
}

/// The schedule `is_matched` as a table with a column for each slot and
/// in it the games of the slot, host by host; `None` where there is no
/// slot or the slots do not have the same number of games.
#[verifier::rlimit(40)]
pub fn format_schedule(slot_ids: &Vec<SlotId>, team_ids: &Vec<TeamId>, is_matched: &Vec<Vec<Vec<bool>>>) -> (r: Option<
    String,
>)
    requires
        grid_shaped(is_matched@, slot_ids@.len() as int, team_ids@.len() as int),
    ensures
        r is Some == has_table(columns_of(is_matched@, team_ids@, slot_ids@.len() as int)),
        r matches Some(out) ==> out@ == table_text(
            columns_of(is_matched@, team_ids@, slot_ids@.len() as int),
            slot_ids@,
        ),
{
    let slots: usize = slot_ids.len();
    let ghost goal = columns_of(is_matched@, team_ids@, slots as int);
    let mut out: String = String::new();
    let mut columns: Vec<Vec<(TeamId, TeamId)>> = Vec::new();
    let mut s: usize = 0;
    assert(out@ =~= table_head(slot_ids@, 0));
    while s < slots
        invariant
            grid_shaped(is_matched@, slots as int, team_ids@.len() as int),
            slots == slot_ids@.len(),
            s <= slots,
            out@ == table_head(slot_ids@, s as int),
            columns@.len() == s,
            forall|s1: int|
                0 <= s1 < s ==> (#[trigger] columns@[s1])@ == pairs_of_slot(
                    is_matched@,
                    team_ids@,
                    s1,
                    team_ids@.len() as int,
                ),
        decreases slots - s,
    {
        let mut name: String = String::new();
        name.append("s");
        append_decimal(&mut name, slot_ids[s]);
        assert(name@ =~= "s"@ + decimal_text(slot_ids@[s as int] as int));
        out.append(" ");
        append_centered(&mut out, name.as_str(), 5);
        out.append(" ");
        assert(out@ =~= table_head(slot_ids@, s + 1));
        columns.push(games_of_slot(is_matched, team_ids, s));
        s += 1;
    }
    out.append("\n");
    let ghost cols = columns_view(columns@);
    assert(cols =~= goal);
    if slots == 0 {
        return None;
    }
    let rows: usize = columns[0].len();
    let mut c: usize = 0;
    while c < slots
        invariant
            slots == columns@.len(),
            cols == columns_view(columns@),
            cols == columns_of(is_matched@, team_ids@, slot_ids@.len() as int),
            slots > 0,
            rows == cols[0].len(),
            c <= slots,
            forall|s1: int| 0 <= s1 < c ==> (#[trigger] cols[s1]).len() == rows,
        decreases slots - c,
    {
        assert(cols[c as int] == columns@[c as int]@);
        if columns[c].len() != rows {
            return None;
        }
        c += 1;
    }
    let ghost head = out@;
    let mut row: usize = 0;
    assert(out@ =~= head + table_rows(cols, 0));
    while row < rows
        invariant
            slots == columns@.len(),
            cols == columns_view(columns@),
            has_table(cols),
            rows == cols[0].len(),
            row <= rows,
            out@ == head + table_rows(cols, row as int),
        decreases rows - row,
    {
        let ghost before = out@;
        let mut c: usize = 0;
        assert(out@ =~= before + table_row(cols, row as int, 0));
        while c < slots
            invariant
                slots == columns@.len(),
                cols == columns_view(columns@),
                has_table(cols),
                rows == cols[0].len(),
                row < rows,
                c <= slots,
                out@ == before + table_row(cols, row as int, c as int),
            decreases slots - c,
        {
            assert(cols[c as int] == columns@[c as int]@);
            assert(cols[c as int].len() == rows);
            let pair: (TeamId, TeamId) = columns[c][row];
            let ghost cell_start = out@;
            out.append(" ");
            let first: String = decimal(pair.0);
            append_right(&mut out, first.as_str(), 2);
            out.append(",");
            let second: String = decimal(pair.1);
            append_left(&mut out, second.as_str(), 2);
            out.append(" ");
            assert(out@ =~= cell_start + table_cell(cols[c as int][row as int]));
            assert(out@ =~= before + table_row(cols, row as int, c + 1));
            c += 1;
        }
        out.append("\n");
        assert(out@ =~= head + table_rows(cols, row + 1));
        row += 1;
    }
    Some(out)
}

} // verus!
