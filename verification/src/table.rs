//! The variables of a tournament: one per game and slot, one per team and
//! slot for the venue, and one per pair of teams for the half of the season.

use vstd::prelude::*;
use crate::lit::{Bool, SlotId, TeamId};
use crate::formula::{Formula, Role};

verus! {

/// The term `b` is the positive literal of a variable numbered `base` or
/// above whose role is `role`.
pub open spec fn labelled(roles: Seq<Role>, base: int, b: Bool, role: Role) -> bool {
    match b {
        Bool::Lit { var, negated } => !negated && base <= var < roles.len() && roles[var as int] == role,
        Bool::Const(_) => false,
    }
}

/// `a` is an initial part of `b`.
pub open spec fn is_prefix(a: Seq<Role>, b: Seq<Role>) -> bool {
    a.len() <= b.len() && forall|k: int| 0 <= k < a.len() ==> a[k] == b[k]
}

pub open spec fn match_role(s: int, i: int, j: int) -> Role {
    Role::Match { slot: s as usize, home: i as usize, away: j as usize }
}

pub open spec fn home_role(s: int, i: int) -> Role {
    Role::Home { slot: s as usize, team: i as usize }
}

pub open spec fn first_half_role(i: int, j: int) -> Role {
    Role::FirstHalf { first: i as usize, second: j as usize }
}

/// The roles of the games that team `i` hosts in slot `s` against the teams
/// before `k`.
pub open spec fn match_row_roles(s: int, i: int, k: int) -> Seq<Role>
    decreases k,
{
    if k <= 0 {
        Seq::empty()
    } else if k - 1 == i {
        match_row_roles(s, i, k - 1)
    } else {
        match_row_roles(s, i, k - 1).push(match_role(s, i, k - 1))
    }
}

/// The roles of the games of slot `s` hosted by the teams before `k`, of `n`.
pub open spec fn match_roles(s: int, n: int, k: int) -> Seq<Role>
    decreases k,
{
    if k <= 0 {
        Seq::empty()
    } else {
        match_roles(s, n, k - 1) + match_row_roles(s, k - 1, n)
    }
}

/// The venue roles of the teams before `k` in slot `s`.
pub open spec fn home_roles(s: int, k: int) -> Seq<Role>
    decreases k,
{
    if k <= 0 {
        Seq::empty()
    } else {
        home_roles(s, k - 1).push(home_role(s, k - 1))
    }
}

/// The roles of the slots before `k`, for `n` teams: in each slot the
/// games, then the venues.
pub open spec fn slots_roles(n: int, k: int) -> Seq<Role>
    decreases k,
{
    if k <= 0 {
        Seq::empty()
    } else {
        slots_roles(n, k - 1) + match_roles(k - 1, n, n) + home_roles(k - 1, n)
    }
}

/// The roles for the pairs of team `i` with the teams before `k` whose
/// identifier is greater than its own.
pub open spec fn first_half_row_roles(ids: Seq<TeamId>, i: int, k: int) -> Seq<Role>
    decreases k,
{
    if k <= 0 {
        Seq::empty()
    } else if ids[i] < ids[k - 1] {
        first_half_row_roles(ids, i, k - 1).push(first_half_role(i, k - 1))
    } else {
        first_half_row_roles(ids, i, k - 1)
    }
}

pub open spec fn first_half_roles(ids: Seq<TeamId>, k: int) -> Seq<Role>
    decreases k,
{
    if k <= 0 {
        Seq::empty()
    } else {
        first_half_roles(ids, k - 1) + first_half_row_roles(ids, k - 1, ids.len() as int)
    }
}

/// The roles of all variables of a tournament, in the order of creation.
pub open spec fn table_roles(ids: Seq<TeamId>, slots: int, phased: bool) -> Seq<Role> {
    slots_roles(ids.len() as int, slots) + if phased {
        first_half_roles(ids, ids.len() as int)
    } else {
        Seq::empty()
    }
}

/// In the row of team `i` in slot `s`, each entry but its own is labelled
/// as the game against that team, and its own is the constant false.
pub open spec fn row_labelled(roles: Seq<Role>, base: int, row: Seq<Bool>, s: int, i: int) -> bool {
    forall|j: int|
        #![trigger row[j]]
        0 <= j < row.len() ==> if j == i {
            row[j] == Bool::Const(false)
        } else {
            labelled(roles, base, row[j], match_role(s, i, j))
        }
}

pub open spec fn slot_labelled(roles: Seq<Role>, base: int, ms: Seq<Vec<Bool>>, n: int, s: int) -> bool {
    forall|i: int|
        #![trigger ms[i]]
        0 <= i < ms.len() ==> ms[i]@.len() == n && row_labelled(roles, base, ms[i]@, s, i)
}

pub open spec fn homes_labelled(roles: Seq<Role>, base: int, hs: Seq<Bool>, s: int) -> bool {
    forall|i: int| #![trigger hs[i]] 0 <= i < hs.len() ==> labelled(roles, base, hs[i], home_role(s, i))
}

/// In the row of team `i`, the entry of each team with a greater identifier
/// is labelled as the pair's variable when `phased`; every other entry is
/// the constant false.
pub open spec fn half_row_labelled(
    roles: Seq<Role>,
    base: int,
    row: Seq<Bool>,
    ids: Seq<TeamId>,
    i: int,
    phased: bool,
) -> bool {
    forall|j: int|
        #![trigger row[j]]
        0 <= j < row.len() ==> if phased && ids[i] < ids[j] {
            labelled(roles, base, row[j], first_half_role(i, j))
        } else {
            row[j] == Bool::Const(false)
        }
}

pub open spec fn halves_labelled(
    roles: Seq<Role>,
    base: int,
    fs: Seq<Vec<Bool>>,
    ids: Seq<TeamId>,
    phased: bool,
) -> bool {
    forall|i: int|
        #![trigger fs[i]]
        0 <= i < fs.len() ==> fs[i]@.len() == ids.len() && half_row_labelled(roles, base, fs[i]@, ids, i, phased)
}

proof fn lemma_labelled_extends(r1: Seq<Role>, r2: Seq<Role>, b1: int, b2: int, b: Bool, role: Role)
    requires
        labelled(r1, b1, b, role),
        is_prefix(r1, r2),
        b2 <= b1,
    ensures
        labelled(r2, b2, b, role),
{
}

proof fn lemma_row_labelled_extends(
    r1: Seq<Role>,
    r2: Seq<Role>,
    b1: int,
    b2: int,
    row: Seq<Bool>,
    s: int,
    i: int,
)
    requires
        row_labelled(r1, b1, row, s, i),
        is_prefix(r1, r2),
        b2 <= b1,
    ensures
        row_labelled(r2, b2, row, s, i),
{
    assert forall|j: int| #![trigger row[j]] 0 <= j < row.len() implies if j == i {
        row[j] == Bool::Const(false)
    } else {
        labelled(r2, b2, row[j], match_role(s, i, j))
    } by {
        if j != i {
            lemma_labelled_extends(r1, r2, b1, b2, row[j], match_role(s, i, j));
        }
    }
}

proof fn lemma_slot_labelled_extends(
    r1: Seq<Role>,
    r2: Seq<Role>,
    b1: int,
    b2: int,
    ms: Seq<Vec<Bool>>,
    n: int,
    s: int,
)
    requires
        slot_labelled(r1, b1, ms, n, s),
        is_prefix(r1, r2),
        b2 <= b1,
    ensures
        slot_labelled(r2, b2, ms, n, s),
{
    assert forall|i: int| #![trigger ms[i]] 0 <= i < ms.len() implies ms[i]@.len() == n && row_labelled(
        r2,
        b2,
        ms[i]@,
        s,
        i,
    ) by {
        lemma_row_labelled_extends(r1, r2, b1, b2, ms[i]@, s, i);
    }
}

proof fn lemma_homes_labelled_extends(r1: Seq<Role>, r2: Seq<Role>, b1: int, b2: int, hs: Seq<Bool>, s: int)
    requires
        homes_labelled(r1, b1, hs, s),
        is_prefix(r1, r2),
        b2 <= b1,
    ensures
        homes_labelled(r2, b2, hs, s),
{
    assert forall|i: int| #![trigger hs[i]] 0 <= i < hs.len() implies labelled(r2, b2, hs[i], home_role(s, i)) by {
        lemma_labelled_extends(r1, r2, b1, b2, hs[i], home_role(s, i));
    }
}

proof fn lemma_half_row_labelled_extends(
    r1: Seq<Role>,
    r2: Seq<Role>,
    b1: int,
    b2: int,
    row: Seq<Bool>,
    ids: Seq<TeamId>,
    i: int,
    phased: bool,
)
    requires
        half_row_labelled(r1, b1, row, ids, i, phased),
        is_prefix(r1, r2),
        b2 <= b1,
    ensures
        half_row_labelled(r2, b2, row, ids, i, phased),
{
    assert forall|j: int| #![trigger row[j]] 0 <= j < row.len() implies if phased && ids[i] < ids[j] {
        labelled(r2, b2, row[j], first_half_role(i, j))
    } else {
        row[j] == Bool::Const(false)
    } by {
        if phased && ids[i] < ids[j] {
            lemma_labelled_extends(r1, r2, b1, b2, row[j], first_half_role(i, j));
        }
    }
}

proof fn lemma_halves_labelled_extends(
    r1: Seq<Role>,
    r2: Seq<Role>,
    b1: int,
    b2: int,
    fs: Seq<Vec<Bool>>,
    ids: Seq<TeamId>,
    phased: bool,
)
    requires
        halves_labelled(r1, b1, fs, ids, phased),
        is_prefix(r1, r2),
        b2 <= b1,
    ensures
        halves_labelled(r2, b2, fs, ids, phased),
{
    assert forall|i: int| #![trigger fs[i]] 0 <= i < fs.len() implies fs[i]@.len() == ids.len()
        && half_row_labelled(r2, b2, fs[i]@, ids, i, phased) by {
        lemma_half_row_labelled_extends(r1, r2, b1, b2, fs[i]@, ids, i, phased);
    }
}

/// Terms that are labelled with different roles are different variables:
/// so the entries of a table are, as each is labelled with its own place.
pub proof fn lemma_labelled_distinct(roles: Seq<Role>, base: int, a: Bool, role_a: Role, b: Bool, role_b: Role)
    requires
        labelled(roles, base, a, role_a),
        labelled(roles, base, b, role_b),
        role_a != role_b,
    ensures
        a != b,
        a != b.negation(),
{
}

proof fn lemma_prefix_concat(a: Seq<Role>, x: Seq<Role>)
    ensures
        is_prefix(a, a + x),
{
}

fn new_match_row(f: &mut Formula, s: usize, i: usize, n: usize) -> (row: Vec<Bool>)
    ensures
        row@.len() == n,
        final(f).roles@ == old(f).roles@ + match_row_roles(s as int, i as int, n as int),
        final(f).constraints == old(f).constraints,
        final(f).networks == old(f).networks,
        row_labelled(final(f).roles@, old(f).roles@.len() as int, row@, s as int, i as int),
{
    let mut row: Vec<Bool> = Vec::new();
    let mut j: usize = 0;
    assert(f.roles@ =~= old(f).roles@ + match_row_roles(s as int, i as int, 0));
    while j < n
        invariant
            j <= n,
            row@.len() == j,
            f.roles@ == old(f).roles@ + match_row_roles(s as int, i as int, j as int),
            f.constraints == old(f).constraints,
            f.networks == old(f).networks,
            row_labelled(f.roles@, old(f).roles@.len() as int, row@, s as int, i as int),
        decreases n - j,
    {
        if j == i {
            row.push(Bool::Const(false));
        } else {
            let ghost before = f.roles@;
            let ghost row_before = row@;
            let v: Bool = f.new_var(Role::Match { slot: s, home: i, away: j });
            row.push(v);
            proof {
                assert(f.roles@ =~= old(f).roles@ + match_row_roles(s as int, i as int, j + 1));
                assert(is_prefix(before, f.roles@));
                lemma_row_labelled_extends(
                    before,
                    f.roles@,
                    old(f).roles@.len() as int,
                    old(f).roles@.len() as int,
                    row_before,
                    s as int,
                    i as int,
                );
                assert(labelled(f.roles@, old(f).roles@.len() as int, v, match_role(s as int, i as int, j as int)));
            }
        }
        j += 1;
    }
    row
}

fn new_match_vars(f: &mut Formula, s: usize, n: usize) -> (ms: Vec<Vec<Bool>>)
    ensures
        ms@.len() == n,
        final(f).roles@ == old(f).roles@ + match_roles(s as int, n as int, n as int),
        final(f).constraints == old(f).constraints,
        final(f).networks == old(f).networks,
        slot_labelled(final(f).roles@, old(f).roles@.len() as int, ms@, n as int, s as int),
{
    let mut ms: Vec<Vec<Bool>> = Vec::new();
    let mut i: usize = 0;
    assert(f.roles@ =~= old(f).roles@ + match_roles(s as int, n as int, 0));
    while i < n
        invariant
            i <= n,
            ms@.len() == i,
            f.roles@ == old(f).roles@ + match_roles(s as int, n as int, i as int),
            f.constraints == old(f).constraints,
            f.networks == old(f).networks,
            slot_labelled(f.roles@, old(f).roles@.len() as int, ms@, n as int, s as int),
        decreases n - i,
    {
        let ghost before = f.roles@;
        let ghost ms_before = ms@;
        let row: Vec<Bool> = new_match_row(f, s, i, n);
        ms.push(row);
        proof {
            assert(f.roles@ =~= old(f).roles@ + match_roles(s as int, n as int, i + 1));
            lemma_prefix_concat(before, match_row_roles(s as int, i as int, n as int));
            lemma_slot_labelled_extends(
                before,
                f.roles@,
                old(f).roles@.len() as int,
                old(f).roles@.len() as int,
                ms_before,
                n as int,
                s as int,
            );
            lemma_row_labelled_extends(
                f.roles@,
                f.roles@,
                before.len() as int,
                old(f).roles@.len() as int,
                row@,
                s as int,
                i as int,
            );
        }
        i += 1;
    }
    ms
}

fn new_home_vars(f: &mut Formula, s: usize, n: usize) -> (hs: Vec<Bool>)
    ensures
        hs@.len() == n,
        final(f).roles@ == old(f).roles@ + home_roles(s as int, n as int),
        final(f).constraints == old(f).constraints,
        final(f).networks == old(f).networks,
        homes_labelled(final(f).roles@, old(f).roles@.len() as int, hs@, s as int),
{
    let mut hs: Vec<Bool> = Vec::new();
    let mut i: usize = 0;
    assert(f.roles@ =~= old(f).roles@ + home_roles(s as int, 0));
    while i < n
        invariant
            i <= n,
            hs@.len() == i,
            f.roles@ == old(f).roles@ + home_roles(s as int, i as int),
            f.constraints == old(f).constraints,
            f.networks == old(f).networks,
            homes_labelled(f.roles@, old(f).roles@.len() as int, hs@, s as int),
        decreases n - i,
    {
        let ghost before = f.roles@;
        let ghost hs_before = hs@;
        let v: Bool = f.new_var(Role::Home { slot: s, team: i });
        hs.push(v);
        proof {
            assert(f.roles@ =~= old(f).roles@ + home_roles(s as int, i + 1));
            assert(is_prefix(before, f.roles@));
            lemma_homes_labelled_extends(
                before,
                f.roles@,
                old(f).roles@.len() as int,
                old(f).roles@.len() as int,
                hs_before,
                s as int,
            );
            assert(labelled(f.roles@, old(f).roles@.len() as int, v, home_role(s as int, i as int)));
        }
        i += 1;
    }
    hs
}

fn new_first_half_row(f: &mut Formula, team_ids: &Vec<TeamId>, i: usize, phased: bool) -> (row: Vec<Bool>)
    requires
        i < team_ids@.len(),
    ensures
        row@.len() == team_ids@.len(),
        final(f).roles@ == old(f).roles@ + if phased {
            first_half_row_roles(team_ids@, i as int, team_ids@.len() as int)
        } else {
            Seq::empty()
        },
        final(f).constraints == old(f).constraints,
        final(f).networks == old(f).networks,
        half_row_labelled(final(f).roles@, old(f).roles@.len() as int, row@, team_ids@, i as int, phased),
{
    let n: usize = team_ids.len();
    let mut row: Vec<Bool> = Vec::new();
    let mut j: usize = 0;
    assert(f.roles@ =~= old(f).roles@ + Seq::<Role>::empty());
    assert(f.roles@ =~= old(f).roles@ + first_half_row_roles(team_ids@, i as int, 0));
    while j < n
        invariant
            j <= n,
            n == team_ids@.len(),
            i < n,
            row@.len() == j,
            f.roles@ == old(f).roles@ + if phased {
                first_half_row_roles(team_ids@, i as int, j as int)
            } else {
                Seq::empty()
            },
            f.constraints == old(f).constraints,
            f.networks == old(f).networks,
            half_row_labelled(f.roles@, old(f).roles@.len() as int, row@, team_ids@, i as int, phased),
        decreases n - j,
    {
        if phased && team_ids[i] < team_ids[j] {
            let ghost before = f.roles@;
            let ghost row_before = row@;
            let v: Bool = f.new_var(Role::FirstHalf { first: i, second: j });
            row.push(v);
            proof {
                assert(f.roles@ =~= old(f).roles@ + first_half_row_roles(team_ids@, i as int, j + 1));
                assert(is_prefix(before, f.roles@));
                lemma_half_row_labelled_extends(
                    before,
                    f.roles@,
                    old(f).roles@.len() as int,
                    old(f).roles@.len() as int,
                    row_before,
                    team_ids@,
                    i as int,
                    phased,
                );
                assert(labelled(f.roles@, old(f).roles@.len() as int, v, first_half_role(i as int, j as int)));
            }
        } else {
            row.push(Bool::Const(false));
        }
        j += 1;
    }
    row
}

fn new_first_half_vars(f: &mut Formula, team_ids: &Vec<TeamId>, phased: bool) -> (fs: Vec<Vec<Bool>>)
    ensures
        fs@.len() == team_ids@.len(),
        final(f).roles@ == old(f).roles@ + if phased {
            first_half_roles(team_ids@, team_ids@.len() as int)
        } else {
            Seq::empty()
        },
        final(f).constraints == old(f).constraints,
        final(f).networks == old(f).networks,
        halves_labelled(final(f).roles@, old(f).roles@.len() as int, fs@, team_ids@, phased),
{
    let n: usize = team_ids.len();
    let mut fs: Vec<Vec<Bool>> = Vec::new();
    let mut i: usize = 0;
    assert(f.roles@ =~= old(f).roles@ + Seq::<Role>::empty());
    assert(f.roles@ =~= old(f).roles@ + first_half_roles(team_ids@, 0));
    while i < n
        invariant
            i <= n,
            n == team_ids@.len(),
            fs@.len() == i,
            f.roles@ == old(f).roles@ + if phased {
                first_half_roles(team_ids@, i as int)
            } else {
                Seq::empty()
            },
            f.constraints == old(f).constraints,
            f.networks == old(f).networks,
            halves_labelled(f.roles@, old(f).roles@.len() as int, fs@, team_ids@, phased),
        decreases n - i,
    {
        let ghost before = f.roles@;
        let ghost fs_before = fs@;
        let row: Vec<Bool> = new_first_half_row(f, team_ids, i, phased);
        fs.push(row);
        proof {
            if phased {
                assert(f.roles@ =~= old(f).roles@ + first_half_roles(team_ids@, i + 1));
            } else {
                assert(f.roles@ =~= old(f).roles@ + Seq::<Role>::empty());
            }
            assert(is_prefix(before, f.roles@));
            lemma_halves_labelled_extends(
                before,
                f.roles@,
                old(f).roles@.len() as int,
                old(f).roles@.len() as int,
                fs_before,
                team_ids@,
                phased,
            );
            lemma_half_row_labelled_extends(
                f.roles@,
                f.roles@,
                before.len() as int,
                old(f).roles@.len() as int,
                row@,
                team_ids@,
                i as int,
                phased,
            );
        }
        i += 1;
    }
    fs
}

/// Every slot matrix of `all` is labelled, the slot being its position.
pub open spec fn slots_labelled(roles: Seq<Role>, base: int, all: Seq<Vec<Vec<Bool>>>, n: int) -> bool {
    forall|s: int|
        #![trigger all[s]]
        0 <= s < all.len() ==> all[s]@.len() == n && slot_labelled(roles, base, all[s]@, n, s)
}

pub open spec fn all_homes_labelled(roles: Seq<Role>, base: int, homes: Seq<Vec<Bool>>, n: int) -> bool {
    forall|s: int|
        #![trigger homes[s]]
        0 <= s < homes.len() ==> homes[s]@.len() == n && homes_labelled(roles, base, homes[s]@, s)
}

proof fn lemma_slots_labelled_extends(
    r1: Seq<Role>,
    r2: Seq<Role>,
    b1: int,
    b2: int,
    all: Seq<Vec<Vec<Bool>>>,
    n: int,
)
    requires
        slots_labelled(r1, b1, all, n),
        is_prefix(r1, r2),
        b2 <= b1,
    ensures
        slots_labelled(r2, b2, all, n),
{
    assert forall|s: int| #![trigger all[s]] 0 <= s < all.len() implies all[s]@.len() == n && slot_labelled(
        r2,
        b2,
        all[s]@,
        n,
        s,
    ) by {
        lemma_slot_labelled_extends(r1, r2, b1, b2, all[s]@, n, s);
    }
}

proof fn lemma_all_homes_labelled_extends(
    r1: Seq<Role>,
    r2: Seq<Role>,
    b1: int,
    b2: int,
    homes: Seq<Vec<Bool>>,
    n: int,
)
    requires
        all_homes_labelled(r1, b1, homes, n),
        is_prefix(r1, r2),
        b2 <= b1,
    ensures
        all_homes_labelled(r2, b2, homes, n),
{
    assert forall|s: int| #![trigger homes[s]] 0 <= s < homes.len() implies homes[s]@.len() == n
        && homes_labelled(r2, b2, homes[s]@, s) by {
        lemma_homes_labelled_extends(r1, r2, b1, b2, homes[s]@, s);
    }
}

/// The variables of a tournament. Teams and slots are addressed by their
/// position in `team_ids` and `slot_ids`.
#[derive(Debug)]
pub struct VarTable {
    pub slot_ids: Vec<SlotId>,
    pub team_ids: Vec<TeamId>,
    /// `matched[s][i][j]`: team `i` hosts team `j` in slot `s`.
    pub matched: Vec<Vec<Vec<Bool>>>,
    /// `home[s][i]`: team `i` plays at home in slot `s`.
    pub home: Vec<Vec<Bool>>,
    /// `first_half[i][j]`: team `i` hosts team `j` in the first half.
    pub first_half: Vec<Vec<Bool>>,
}

impl VarTable {
    pub open spec fn teams(&self) -> int {
        self.team_ids@.len() as int
    }

    pub open spec fn slots(&self) -> int {
        self.slot_ids@.len() as int
    }

    pub open spec fn m(&self, s: int, i: int, j: int) -> Bool {
        self.matched@[s]@[i]@[j]
    }

    pub open spec fn h(&self, s: int, i: int) -> Bool {
        self.home@[s]@[i]
    }

    pub open spec fn fh(&self, i: int, j: int) -> Bool {
        self.first_half@[i]@[j]
    }

    pub open spec fn matched_shaped(&self) -> bool {
        forall|s: int, i: int|
            #![trigger self.matched@[s]@[i]]
            0 <= s < self.slots() && 0 <= i < self.teams() ==> self.matched@[s]@[i]@.len() == self.teams()
    }

    /// Every part of the table has the size of the league.
    pub open spec fn wf(&self) -> bool {
        &&& self.matched@.len() == self.slots()
        &&& self.home@.len() == self.slots()
        &&& self.first_half@.len() == self.teams()
        &&& forall|s: int| #![trigger self.matched@[s]] 0 <= s < self.slots() ==> self.matched@[s]@.len() == self.teams()
        &&& self.matched_shaped()
        &&& forall|s: int| #![trigger self.home@[s]] 0 <= s < self.slots() ==> self.home@[s]@.len() == self.teams()
        &&& forall|i: int|
            #![trigger self.first_half@[i]]
            0 <= i < self.teams() ==> self.first_half@[i]@.len() == self.teams()
    }

    /// Every entry of the table is the positive literal of a variable
    /// numbered `base` or above whose role names the entry; the entries that
    /// stand for nothing are the constant false.
    pub open spec fn labelled_in(&self, roles: Seq<Role>, base: int, phased: bool) -> bool {
        &&& slots_labelled(roles, base, self.matched@, self.teams())
        &&& all_homes_labelled(roles, base, self.home@, self.teams())
        &&& halves_labelled(roles, base, self.first_half@, self.team_ids@, phased)
    }
}

/// A copy of `ids`.
pub fn copy_ids(ids: &Vec<i64>) -> (r: Vec<i64>)
    ensures
        r@ == ids@,
{
    let mut r: Vec<i64> = Vec::new();
    let mut i: usize = 0;
    while i < ids.len()
        invariant
            i <= ids.len(),
            r@ == ids@.take(i as int),
        decreases ids.len() - i,
    {
        r.push(ids[i]);
        assert(r@ =~= ids@.take(i + 1));
        i += 1;
    }
    assert(ids@.take(ids.len() as int) =~= ids@);
    r
}

/// Creates the variables of a tournament of the teams `team_ids` over the
/// slots `slot_ids`: slot by slot one variable for each ordered pair of
/// teams and then one for each team, and last, if `phased`, one for each
/// pair of teams, held by the team with the smaller identifier.
#[verifier::rlimit(40)]
pub fn new_var_table(f: &mut Formula, slot_ids: &Vec<SlotId>, team_ids: &Vec<TeamId>, phased: bool) -> (t:
    VarTable)
    ensures
        t.slot_ids@ == slot_ids@,
        t.team_ids@ == team_ids@,
        t.wf(),
        t.labelled_in(final(f).roles@, old(f).roles@.len() as int, phased),
        final(f).roles@ == old(f).roles@ + table_roles(team_ids@, slot_ids@.len() as int, phased),
        final(f).constraints == old(f).constraints,
        final(f).networks == old(f).networks,
{
    let n: usize = team_ids.len();
    let slots: usize = slot_ids.len();
    let mut matched: Vec<Vec<Vec<Bool>>> = Vec::new();
    let mut home: Vec<Vec<Bool>> = Vec::new();
    let mut s: usize = 0;
    assert(f.roles@ =~= old(f).roles@ + slots_roles(n as int, 0));
    while s < slots
        invariant
            s <= slots,
            matched@.len() == s,
            home@.len() == s,
            f.roles@ == old(f).roles@ + slots_roles(n as int, s as int),
            f.constraints == old(f).constraints,
            f.networks == old(f).networks,
            slots_labelled(f.roles@, old(f).roles@.len() as int, matched@, n as int),
            all_homes_labelled(f.roles@, old(f).roles@.len() as int, home@, n as int),
        decreases slots - s,
    {
        let ghost r0 = f.roles@;
        let ghost matched_before = matched@;
        let ghost home_before = home@;
        let ms: Vec<Vec<Bool>> = new_match_vars(f, s, n);
        let ghost r1 = f.roles@;
        let hs: Vec<Bool> = new_home_vars(f, s, n);
        proof {
            let base: int = old(f).roles@.len() as int;
            assert(f.roles@ =~= old(f).roles@ + slots_roles(n as int, s + 1));
            lemma_prefix_concat(r0, match_roles(s as int, n as int, n as int));
            lemma_prefix_concat(r1, home_roles(s as int, n as int));
            assert(is_prefix(r0, f.roles@));
            lemma_slots_labelled_extends(r0, f.roles@, base, base, matched_before, n as int);
            lemma_all_homes_labelled_extends(r0, f.roles@, base, base, home_before, n as int);
            lemma_slot_labelled_extends(r1, f.roles@, r0.len() as int, base, ms@, n as int, s as int);
            lemma_homes_labelled_extends(f.roles@, f.roles@, r1.len() as int, base, hs@, s as int);
        }
        matched.push(ms);
        home.push(hs);
        s += 1;
    }
    let ghost r2 = f.roles@;
    let first_half: Vec<Vec<Bool>> = new_first_half_vars(f, team_ids, phased);
    proof {
        let base: int = old(f).roles@.len() as int;
        assert(f.roles@ =~= old(f).roles@ + table_roles(team_ids@, slot_ids@.len() as int, phased));
        assert(is_prefix(r2, f.roles@));
        lemma_slots_labelled_extends(r2, f.roles@, base, base, matched@, n as int);
        lemma_all_homes_labelled_extends(r2, f.roles@, base, base, home@, n as int);
        lemma_halves_labelled_extends(f.roles@, f.roles@, r2.len() as int, base, first_half@, team_ids@, phased);
    }
    let t = VarTable { slot_ids: copy_ids(slot_ids), team_ids: copy_ids(team_ids), matched, home, first_half };
    proof {
        assert forall|s: int, i: int|
            #![trigger t.matched@[s]@[i]]
            0 <= s < t.slots() && 0 <= i < t.teams() implies t.matched@[s]@[i]@.len() == t.teams() by {
            assert(slot_labelled(f.roles@, old(f).roles@.len() as int, t.matched@[s]@, n as int, s));
        }
    }
    t
}

/// The first position of `id` in `ids`.
pub fn position(ids: &Vec<i64>, id: i64) -> (r: Option<usize>)
    ensures
        match r {
            Some(k) => k < ids@.len() && ids@.index_of_first(id) == Some(k as int),
            None => ids@.index_of_first(id) == None::<int>,
        },
{
    let mut i: usize = 0;
    while i < ids.len()
        invariant
            i <= ids.len(),
            forall|j: int| 0 <= j < i ==> ids@[j] != id,
        decreases ids.len() - i,
    {
        if ids[i] == id {
            proof {
                assert(ids@.contains(id));
                ids@.index_of_first_ensures(id);
            }
            return Some(i);
        }
        i += 1;
    }
    proof {
        ids@.index_of_first_ensures(id);
    }
    None
}

impl VarTable {
    /// The position of the slot `slot`, if the league has it.
    pub open spec fn slot_pos(&self, slot: SlotId) -> Option<int> {
        self.slot_ids@.index_of_first(slot)
    }

    /// The position of the team `team`, if the league has it.
    pub open spec fn team_pos(&self, team: TeamId) -> Option<int> {
        self.team_ids@.index_of_first(team)
    }

    /// The venue variable of `team` in `slot`, if the league has both.
    pub open spec fn home_at(&self, slot: SlotId, team: TeamId) -> Option<Bool> {
        match (self.slot_pos(slot), self.team_pos(team)) {
            (Some(s), Some(i)) => Some(self.h(s, i)),
            _ => None,
        }
    }

    /// The variable of the game of `host` against `guest` in `slot`, if the
    /// league has the slot and the two teams and they are two.
    pub open spec fn match_at(&self, slot: SlotId, host: TeamId, guest: TeamId) -> Option<Bool> {
        match (self.slot_pos(slot), self.team_pos(host), self.team_pos(guest)) {
            (Some(s), Some(i), Some(j)) => if i != j {
                Some(self.m(s, i, j))
            } else {
                None
            },
            _ => None,
        }
    }

    /// The venue variable of `team` in `slot`, if the league has both.
    pub fn home_var(&self, slot: SlotId, team: TeamId) -> (r: Option<Bool>)
        requires
            self.wf(),
        ensures
            r == self.home_at(slot, team),
    {
        match position(&self.slot_ids, slot) {
            Some(s) => match position(&self.team_ids, team) {
                Some(i) => Some(self.home[s][i]),
                None => None,
            },
            None => None,
        }
    }

    /// The variable of the game of `host` against `guest` in `slot`.
    pub fn matched_var(&self, slot: SlotId, host: TeamId, guest: TeamId) -> (r: Option<Bool>)
        requires
            self.wf(),
        ensures
            r == self.match_at(slot, host, guest),
    {
        match position(&self.slot_ids, slot) {
            Some(s) => match position(&self.team_ids, host) {
                Some(i) => match position(&self.team_ids, guest) {
                    Some(j) => if i != j {
                        Some(self.matched[s][i][j])
                    } else {
                        None
                    },
                    None => None,
                },
                None => None,
            },
            None => None,
        }
    }
}

} // verus!
