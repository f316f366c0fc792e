//! Who is running from a directory, and who holds something inside it.
//!
//! Before an uninstall removes a directory, the processes whose executable lies inside it are the
//! ones that would stop it half-way. The daemon asking is spared, with everything it started: its
//! own shutdown stops those before anything is removed.

use vstd::prelude::*;

use crate::location::{self, Location, PartView, Parts};
use crate::text;
use crate::tombstone::views;

verus! {

broadcast use {vstd::laws_cmp::group_laws_cmp, vstd::std_specs::btree::group_btree_axioms};

/// One process in the way.
#[derive(Debug)]
pub struct Occupant {
    /// Its pid, for a person to find it by.
    pub pid: u32,
    /// Its name, as the process table spells it.
    pub name: String,
    /// The executable, which is what put it on this list.
    pub executable: Location,
}

impl View for Occupant {
    type V = (u32, Seq<char>, Parts);

    open spec fn view(&self) -> (u32, Seq<char>, Parts) {
        (self.pid, self.name@, self.executable@)
    }
}

/// A process holding a [`HeldItem`].
#[derive(Debug)]
pub struct Holder {
    /// Its pid.
    pub pid: u32,
    /// Its name, as the process table spells it.
    pub name: String,
}

impl View for Holder {
    type V = (u32, Seq<char>);

    open spec fn view(&self) -> (u32, Seq<char>) {
        (self.pid, self.name@)
    }
}

/// Something another process holds inside a directory an uninstall removes.
#[derive(Debug)]
pub struct HeldItem {
    /// The file or directory, under the caller's own spelling of the directory it lies in.
    pub path: Location,
    /// Whether it can be renamed and deleted while held: every holder shares delete.
    pub movable: bool,
    /// Who holds it, in pid order.
    pub holders: Vec<Holder>,
}

/// One row of a process table, as it was read.
#[derive(Debug)]
pub struct ProcessRow {
    /// Its pid.
    pub pid: u32,
    /// The pid of the process that started it, when the table says.
    pub parent: Option<u32>,
    /// Whether the row is a thread the table lists as a process.
    pub thread: bool,
    /// Its name, as the table spells it.
    pub name: String,
    /// Its executable, when the table says.
    pub executable: Option<Location>,
    /// The same executable, spelled the one way two spellings of it compare equal.
    pub comparable: Option<Location>,
}

/// A [`ProcessRow`] as the contracts see it.
pub struct ProcessFacts {
    pub pid: u32,
    pub parent: Option<u32>,
    pub thread: bool,
    pub name: Seq<char>,
    pub executable: Option<Parts>,
    pub comparable: Option<Parts>,
}

/// An optional path's components.
pub open spec fn option_view(o: Option<Location>) -> Option<Parts> {
    match o {
        Some(l) => Some(l@),
        None => None,
    }
}

impl View for ProcessRow {
    type V = ProcessFacts;

    open spec fn view(&self) -> ProcessFacts {
        ProcessFacts {
            pid: self.pid,
            parent: self.parent,
            thread: self.thread,
            name: self.name@,
            executable: option_view(self.executable),
            comparable: option_view(self.comparable),
        }
    }
}

/// Is `current` `ancestor`, or started by it, within `steps` steps up the parent table?
///
/// A step stops at a process the table gives no parent, or gives itself as its own parent.
pub open spec fn reaches(current: u32, ancestor: u32, parents: Map<u32, u32>, steps: nat) -> bool
    decreases steps,
{
    if steps == 0 {
        false
    } else if current == ancestor {
        true
    } else if parents.contains_key(current) && parents[current] != current {
        reaches(parents[current], ancestor, parents, (steps - 1) as nat)
    } else {
        false
    }
}

/// Is `pid` `ancestor`, or started by it at any depth?
///
/// Bounded by one step more than the table has entries, because a parent table is a snapshot of a
/// moving system, and a pid the system handed round can make it a loop.
pub fn descends_from(pid: u32, ancestor: u32, parents: &std::collections::BTreeMap<u32, u32>) -> (r:
    bool)
    ensures
        r == reaches(pid, ancestor, parents@, (parents@.len() + 1) as nat),
{
    let n = parents.len();
    let ghost m = parents@;
    let mut current = pid;
    let mut i: usize = 0;
    loop
        invariant
            n == m.len(),
            m == parents@,
            i <= n,
            reaches(pid, ancestor, m, (n + 1) as nat) == reaches(current, ancestor, m, (n + 1 - i) as nat),
        decreases n - i,
    {
        if current == ancestor {
            return true;
        }
        let ghost before = current;
        match parents.get(&current) {
            Some(parent) => {
                if *parent == current {
                    return false;
                }
                current = *parent;
            },
            None => {
                return false;
            },
        }
        assert(m.contains_key(before) && m[before] == current && current != before);
        assert(reaches(before, ancestor, m, (n + 1 - i) as nat) == reaches(
            current,
            ancestor,
            m,
            (n - i) as nat,
        ));
        if i == n {
            return false;
        }
        i = i + 1;
    }
}

proof fn lemma_reaches_in_larger_table(x: u32, a: u32, small: Map<u32, u32>, m: Map<u32, u32>, s: nat)
    requires
        reaches(x, a, small, s),
        forall|k: u32| #[trigger] small.contains_key(k) ==> m.contains_key(k) && m[k] == small[k],
    ensures
        reaches(x, a, m, s),
    decreases s,
{
    if s > 0 && x != a {
        lemma_reaches_in_larger_table(small[x], a, small, m, (s - 1) as nat);
    }
}

/// A walk that reaches `a` either never steps up from `x`, or reaches `a` again, sooner, from
/// where `x` steps to.
proof fn lemma_walk_avoids(y: u32, a: u32, x: u32, m: Map<u32, u32>, s: nat)
    requires
        reaches(y, a, m, s),
        x != a,
    ensures
        reaches(y, a, m.remove(x), s) || (m.contains_key(x) && exists|t: nat| t < s && #[trigger] reaches(m[x], a, m, t)),
    decreases s,
{
    if y != a {
        let next = m[y];
        if y == x {
            assert(reaches(m[x], a, m, (s - 1) as nat));
        } else {
            lemma_walk_avoids(next, a, x, m, (s - 1) as nat);
            if reaches(next, a, m.remove(x), (s - 1) as nat) {
                assert(m.remove(x).contains_key(y) && m.remove(x)[y] == next);
            } else {
                let t = choose|t: nat| t < s - 1 && #[trigger] reaches(m[x], a, m, t);
                assert(t < s && reaches(m[x], a, m, t));
            }
        }
    }
}

proof fn lemma_walk_without(c: u32, a: u32, x: u32, m: Map<u32, u32>, t: nat)
    requires
        m.contains_key(x),
        m[x] == c,
        x != a,
        reaches(c, a, m, t),
    ensures
        exists|u: nat| #[trigger] reaches(c, a, m.remove(x), u),
    decreases t,
{
    lemma_walk_avoids(c, a, x, m, t);
    if !reaches(c, a, m.remove(x), t) {
        let t2 = choose|t2: nat| t2 < t && #[trigger] reaches(m[x], a, m, t2);
        lemma_walk_without(c, a, x, m, t2);
    }
}

/// However far a walk up the parent table goes, whatever it finds the bounded walk finds too: one
/// step more than the table has entries is enough, since a walk that found its ancestor no sooner
/// would have passed some process twice.
pub proof fn the_bounded_walk_finds_every_ancestor(pid: u32, ancestor: u32, parents: Map<u32, u32>, steps: nat)
    requires
        parents.dom().finite(),
        reaches(pid, ancestor, parents, steps),
    ensures
        reaches(pid, ancestor, parents, (parents.len() + 1) as nat),
    decreases parents.len(),
{
    if pid != ancestor {
        let c = parents[pid];
        let rest = parents.remove(pid);
        lemma_walk_without(c, ancestor, pid, parents, (steps - 1) as nat);
        let u = choose|u: nat| #[trigger] reaches(c, ancestor, rest, u);
        assert(rest.dom() =~= parents.dom().remove(pid));
        assert(rest.len() == parents.len() - 1);
        the_bounded_walk_finds_every_ancestor(c, ancestor, rest, u);
        lemma_reaches_in_larger_table(c, ancestor, rest, parents, (rest.len() + 1) as nat);
        assert(reaches(c, ancestor, parents, parents.len() as nat));
    }
}

/// A process descends from itself, and from the process the table gives as its parent.
pub proof fn a_process_descends_from_itself_and_its_parent(
    pid: u32,
    child: u32,
    parents: Map<u32, u32>,
)
    requires
        parents.dom().finite(),
    ensures
        reaches(pid, pid, parents, (parents.len() + 1) as nat),
        parents.contains_key(child) && parents[child] == pid ==> reaches(
            child,
            pid,
            parents,
            (parents.len() + 1) as nat,
        ),
{
    if parents.contains_key(child) && parents[child] == pid {
        assert(parents.dom().remove(child).len() == parents.dom().len() - 1);
        assert(parents.len() >= 1);
        if child != pid {
            assert(reaches(pid, pid, parents, parents.len() as nat));
        }
    }
}

/// The parent table of `rows`: each row's pid, mapped to its parent where it has one, a later row
/// for the same pid taking the place of an earlier one.
pub open spec fn parent_table(rows: Seq<ProcessFacts>) -> Map<u32, u32>
    decreases rows.len(),
{
    if rows.len() == 0 {
        Map::empty()
    } else {
        let before = parent_table(rows.drop_last());
        match rows.last().parent {
            Some(p) => before.insert(rows.last().pid, p),
            None => before,
        }
    }
}

/// The parent table of a process table.
pub fn parents_of(rows: &[ProcessRow]) -> (r: std::collections::BTreeMap<u32, u32>)
    ensures
        r@ == parent_table(views(rows@)),
{
    let ghost v = views(rows@);
    let mut r: std::collections::BTreeMap<u32, u32> = std::collections::BTreeMap::new();
    let mut i: usize = 0;
    while i < rows.len()
        invariant
            v == views(rows@),
            i <= rows@.len(),
            r@ == parent_table(v.take(i as int)),
        decreases rows@.len() - i,
    {
        assert(v.take(i + 1).drop_last() =~= v.take(i as int));
        match rows[i].parent {
            Some(p) => {
                r.insert(rows[i].pid, p);
            },
            None => {},
        }
        i = i + 1;
    }
    assert(v.take(rows@.len() as int) =~= v);
    r
}

/// Does `at` lie under one of `roots`?
pub open spec fn under_any(at: Parts, roots: Seq<Parts>) -> bool {
    exists|k: int| 0 <= k < roots.len() && (#[trigger] roots[k]).is_prefix_of(at)
}

/// Is `row` a process in the way: not a thread, its executable known and under one of `roots`,
/// and neither `spare` nor started by it?
pub open spec fn in_the_way(
    row: ProcessFacts,
    roots: Seq<Parts>,
    spare: Option<u32>,
    parents: Map<u32, u32>,
) -> bool {
    &&& !row.thread
    &&& row.executable is Some
    &&& row.comparable is Some
    &&& under_any(row.comparable->0, roots)
    &&& !(spare matches Some(s) && reaches(row.pid, s, parents, (parents.len() + 1) as nat))
}

/// The [`Occupant`] a row in the way is.
pub open spec fn occupant_of(row: ProcessFacts) -> (u32, Seq<char>, Parts) {
    (row.pid, row.name, row.executable->0)
}

/// The process asking is never in its own way, nor is a process it started: whatever the
/// table and the directories, a row whose pid is the spared one, or whose parent is, is not
/// among those in the way.
pub proof fn the_spared_process_and_its_children_are_never_in_the_way(
    row: ProcessFacts,
    roots: Seq<Parts>,
    spare: u32,
    parents: Map<u32, u32>,
)
    requires
        parents.dom().finite(),
    ensures
        row.pid == spare ==> !in_the_way(row, roots, Some(spare), parents),
        parents.contains_key(row.pid) && parents[row.pid] == spare ==> !in_the_way(
            row,
            roots,
            Some(spare),
            parents,
        ),
{
    a_process_descends_from_itself_and_its_parent(spare, row.pid, parents);
}

/// The walk up the parent table stops where the table does: a process that is not the ancestor,
/// and that the table gives no parent or itself as its parent, descends from nothing else; and a
/// process descends from whatever its parent descends from.
pub proof fn the_walk_stops_where_the_table_does(pid: u32, ancestor: u32, parents: Map<u32, u32>, steps: nat)
    requires
        parents.dom().finite(),
    ensures
        pid != ancestor && (!parents.contains_key(pid) || parents[pid] == pid) ==> !reaches(
            pid,
            ancestor,
            parents,
            steps,
        ),
        pid != ancestor && parents.contains_key(pid) && parents[pid] != pid && reaches(
            parents[pid],
            ancestor,
            parents,
            steps,
        ) ==> reaches(pid, ancestor, parents, (parents.len() + 1) as nat),
{
    if pid != ancestor && parents.contains_key(pid) && parents[pid] != pid && reaches(
        parents[pid],
        ancestor,
        parents,
        steps,
    ) {
        assert(reaches(pid, ancestor, parents, steps + 1));
        the_bounded_walk_finds_every_ancestor(pid, ancestor, parents, steps + 1);
    }
}

/// Does the table list each pid once, as a table read at one moment does?
pub open spec fn distinct_pids(rows: Seq<ProcessFacts>) -> bool {
    forall|i: int, j: int| 0 <= i < j < rows.len() ==> (#[trigger] rows[i]).pid != (#[trigger] rows[j]).pid
}

/// Are the occupants in pid order?
pub open spec fn by_pid(s: Seq<(u32, Seq<char>, Parts)>) -> bool {
    forall|i: int, j: int| 0 <= i < j < s.len() ==> (#[trigger] s[i]).0 <= (#[trigger] s[j]).0
}

fn under_any_exec(at: &Location, roots: &[Location]) -> (r: bool)
    ensures
        r == under_any(at@, views(roots@)),
{
    let mut k: usize = 0;
    while k < roots.len()
        invariant
            k <= roots@.len(),
            forall|j: int| 0 <= j < k ==> !(#[trigger] views(roots@)[j]).is_prefix_of(at@),
        decreases roots@.len() - k,
    {
        if at.starts_with(&roots[k]) {
            assert(views(roots@)[k as int] == roots@[k as int]@);
            return true;
        }
        k = k + 1;
    }
    false
}

/// The processes in a process table whose executable lies inside one of `roots`, except `spare`
/// and everything descended from it, in pid order. Nothing, when there are no roots.
///
/// `rows` is the table as it was read; `roots` are the directories, each spelled as the table's
/// executables are spelled for comparing.
/// A table that lists each pid once, as one read at one moment does, gives no pid twice.
pub fn occupants_among(rows: &[ProcessRow], roots: &[Location], spare: Option<u32>) -> (r: Vec<
    Occupant,
>)
    ensures
        roots@.len() == 0 ==> r@.len() == 0,
        roots@.len() > 0 ==> views(r@).to_multiset() == views(rows@).filter(
            |row: ProcessFacts|
                in_the_way(row, views(roots@), spare, parent_table(views(rows@))),
        ).map_values(|row: ProcessFacts| occupant_of(row)).to_multiset(),
        by_pid(views(r@)),
        distinct_pids(views(rows@)) ==> forall|a: int, b: int|
            0 <= a < b < r@.len() ==> (#[trigger] views(r@)[a]).0 < (#[trigger] views(r@)[b]).0,
        forall|i: int| 0 <= i < r@.len() ==> Some((#[trigger] views(r@)[i]).0) != spare,
{
    broadcast use vstd::seq_lib::group_to_multiset_ensures;

    if roots.len() == 0 {
        return Vec::new();
    }
    let parents = parents_of(rows);
    let ghost v = views(rows@);
    let ghost rv = views(roots@);
    let ghost keep = |row: ProcessFacts| in_the_way(row, rv, spare, parent_table(v));
    let ghost chosen = |row: ProcessFacts| occupant_of(row);
    let mut r: Vec<Occupant> = Vec::new();
    let mut i: usize = 0;
    while i < rows.len()
        invariant
            v == views(rows@),
            rv == views(roots@),
            parents@ == parent_table(v),
            keep == (|row: ProcessFacts| in_the_way(row, rv, spare, parent_table(v))),
            chosen == (|row: ProcessFacts| occupant_of(row)),
            i <= rows@.len(),
            views(r@).to_multiset() == v.take(i as int).filter(keep).map_values(chosen).to_multiset(),
            by_pid(views(r@)),
            forall|k: int| 0 <= k < r@.len() ==> exists|j: int| 0 <= j < i && (#[trigger] v[j]).pid == (#[trigger] views(r@)[k]).0,
            distinct_pids(v) ==> forall|a: int, b: int|
                0 <= a < b < r@.len() ==> (#[trigger] views(r@)[a]).0 < (#[trigger] views(r@)[b]).0,
            forall|k: int| 0 <= k < r@.len() ==> Some((#[trigger] views(r@)[k]).0) != spare,
        decreases rows@.len() - i,
    {
        let row = &rows[i];
        assert(row@ == v[i as int]);
        proof {
            text::lemma_filter_step(v, keep, i as int);
        }
        let ghost before = v.take(i as int).filter(keep);
        let mut wanted = false;
        if !row.thread && row.executable.is_some() {
            match &row.comparable {
                Some(at) => {
                    if under_any_exec(at, roots) {
                        wanted = match spare {
                            Some(s) => !descends_from(row.pid, s, &parents),
                            None => true,
                        };
                    }
                },
                None => {},
            }
        }
        assert(wanted == keep(v[i as int]));
        proof {
            if wanted {
                if let Some(sp) = spare {
                    if row.pid == sp {
                        assert(reaches(sp, sp, parent_table(v), (parent_table(v).len() + 1) as nat));
                    }
                }
            }
        }
        if wanted {
            let executable = match &row.executable {
                Some(e) => e.copy(),
                None => Location::empty(),
            };
            let found = Occupant { pid: row.pid, name: row.name.clone(), executable };
            assert(found@ == chosen(v[i as int]));
            let ghost old_views = views(r@);
            let mut p: usize = r.len();
            while p > 0 && r[p - 1].pid > found.pid
                invariant
                    p <= r@.len(),
                    old_views == views(r@),
                    forall|k: int| p <= k < r@.len() ==> (#[trigger] r@[k]).pid > found.pid,
                decreases p,
            {
                p = p - 1;
            }
            r.insert(p, found);
            proof {
                let nv = views(r@);
                assert(nv =~= old_views.insert(p as int, found@));
                vstd::seq_lib::to_multiset_insert(old_views, p as int, found@);
                assert(v.take(i + 1).filter(keep) =~= before.push(v[i as int]));
                assert(before.push(v[i as int]).map_values(chosen) =~= before.map_values(chosen).push(
                    found@,
                ));
                vstd::seq_lib::to_multiset_build(before.map_values(chosen), found@);
                assert forall|a: int, b: int| 0 <= a < b < nv.len() implies (#[trigger] nv[a]).0
                    <= (#[trigger] nv[b]).0 by {
                    if a < p && b == p {
                        if p > 0 {
                            assert(old_views[a].0 <= old_views[p - 1].0);
                        }
                    } else if a < p && b > p {
                        assert(nv[a] == old_views[a] && nv[b] == old_views[b - 1]);
                    } else if b < p {
                        assert(nv[a] == old_views[a] && nv[b] == old_views[b]);
                    } else if a == p {
                        assert(nv[b] == old_views[b - 1]);
                        assert(r@[b]@ == nv[b]);
                    } else {
                        assert(nv[a] == old_views[a - 1] && nv[b] == old_views[b - 1]);
                    }
                }
                assert forall|k: int| 0 <= k < nv.len() implies exists|j: int| 0 <= j < i + 1 && (#[trigger] v[j]).pid == (#[trigger] nv[k]).0 by {
                    if k < p {
                        assert(nv[k] == old_views[k]);
                        let j = choose|j: int| 0 <= j < i && (#[trigger] v[j]).pid == old_views[k].0;
                        assert(v[j].pid == nv[k].0);
                    } else if k == p {
                        assert(v[i as int].pid == nv[k].0);
                    } else {
                        assert(nv[k] == old_views[k - 1]);
                        let j = choose|j: int| 0 <= j < i && (#[trigger] v[j]).pid == old_views[k - 1].0;
                        assert(v[j].pid == nv[k].0);
                    }
                }
                if distinct_pids(v) {
                    assert forall|k: int| 0 <= k < old_views.len() implies (#[trigger] old_views[k]).0 != found.pid by {
                        let j = choose|j: int| 0 <= j < i && (#[trigger] v[j]).pid == old_views[k].0;
                        assert(v[j].pid != v[i as int].pid);
                    }
                    assert forall|a: int, b: int| 0 <= a < b < nv.len() implies (#[trigger] nv[a]).0
                        < (#[trigger] nv[b]).0 by {
                        if a < p && b == p {
                            if p > 0 {
                                assert(old_views[a].0 <= old_views[p - 1].0);
                                assert(r@[p as int - 1]@ == old_views[p - 1]);
                            }
                            assert(old_views[a].0 != found.pid);
                        } else if a < p && b > p {
                            assert(nv[a] == old_views[a] && nv[b] == old_views[b - 1]);
                        } else if b < p {
                            assert(nv[a] == old_views[a] && nv[b] == old_views[b]);
                        } else if a == p {
                            assert(nv[b] == old_views[b - 1]);
                            assert(r@[b]@ == nv[b]);
                        } else {
                            assert(nv[a] == old_views[a - 1] && nv[b] == old_views[b - 1]);
                        }
                    }
                }
            }
        } else {
            assert(v.take(i + 1).filter(keep) =~= before);
        }
        i = i + 1;
    }
    assert(v.take(rows@.len() as int) =~= v);
    r
}


/// Is `s` strictly increasing?
pub open spec fn increasing(s: Seq<u32>) -> bool {
    forall|i: int, j: int| 0 <= i < j < s.len() ==> (#[trigger] s[i]) < (#[trigger] s[j])
}

/// Two increasing sequences holding the same values are the same.
pub proof fn lemma_increasing_unique(a: Seq<u32>, b: Seq<u32>)
    requires
        increasing(a),
        increasing(b),
        forall|p: u32| a.contains(p) <==> b.contains(p),
    ensures
        a == b,
    decreases a.len(),
{
    if a.len() == 0 {
        if b.len() > 0 {
            assert(b.contains(b[0]));
        }
        assert(a =~= b);
    } else {
        assert(a.contains(a[0]));
        assert(b.len() > 0);
        assert(b.contains(b[0]));
        let ka = choose|k: int| 0 <= k < a.len() && a[k] == b[0];
        let kb = choose|k: int| 0 <= k < b.len() && b[k] == a[0];
        if ka > 0 {
            assert(a[0] < a[ka]);
        }
        if kb > 0 {
            assert(b[0] < b[kb]);
        }
        assert(a[0] == b[0]);
        let a1 = a.drop_first();
        let b1 = b.drop_first();
        assert forall|p: u32| a1.contains(p) <==> b1.contains(p) by {
            if a1.contains(p) {
                let k = choose|k: int| 0 <= k < a1.len() && a1[k] == p;
                assert(a[k + 1] == p);
                assert(a[0] < a[k + 1]);
                assert(a.contains(p));
                assert(b.contains(p));
                let j = choose|j: int| 0 <= j < b.len() && b[j] == p;
                assert(j != 0);
                assert(b1[j - 1] == p);
            }
            if b1.contains(p) {
                let k = choose|k: int| 0 <= k < b1.len() && b1[k] == p;
                assert(b[k + 1] == p);
                assert(b[0] < b[k + 1]);
                assert(b.contains(p));
                assert(a.contains(p));
                let j = choose|j: int| 0 <= j < a.len() && a[j] == p;
                assert(j != 0);
                assert(a1[j - 1] == p);
            }
        }
        lemma_increasing_unique(a1, b1);
        assert(a =~= seq![a[0]] + a1);
        assert(b =~= seq![b[0]] + b1);
    }
}

/// Is `p` one of `v`?
pub fn holds_pid(v: &Vec<u32>, p: u32) -> (r: bool)
    ensures
        r == v@.contains(p),
{
    let mut k: usize = 0;
    while k < v.len()
        invariant
            k <= v@.len(),
            forall|m: int| 0 <= m < k ==> v@[m] != p,
        decreases v@.len() - k,
    {
        if v[k] == p {
            assert(v@[k as int] == p);
            return true;
        }
        k = k + 1;
    }
    false
}

/// `p` put into the increasing `v` where it belongs.
pub fn insert_in_order(v: &mut Vec<u32>, p: u32)
    requires
        increasing(old(v)@),
        !old(v)@.contains(p),
    ensures
        increasing(final(v)@),
        forall|x: u32| final(v)@.contains(x) <==> (old(v)@.contains(x) || x == p),
{
    let ghost s = v@;
    let mut k: usize = 0;
    while k < v.len() && v[k] < p
        invariant
            v@ == s,
            k <= s.len(),
            forall|m: int| 0 <= m < k ==> s[m] < p,
        decreases s.len() - k,
    {
        k = k + 1;
    }
    proof {
        if k < s.len() {
            assert(s[k as int] != p);
        }
    }
    v.insert(k, p);
    let ghost t = v@;
    assert(t =~= s.take(k as int) + seq![p] + s.skip(k as int));
    assert forall|i: int, j: int| 0 <= i < j < t.len() implies (#[trigger] t[i]) < (#[trigger] t[j]) by {
        if j < k {
            assert(t[i] == s[i] && t[j] == s[j]);
        } else if j == k {
            assert(t[i] == s[i]);
        } else if i < k {
            assert(t[i] == s[i] && t[j] == s[j - 1]);
            if k < s.len() {
                assert(s[k as int] >= p);
                if j - 1 > k {
                    assert(s[k as int] < s[j - 1]);
                }
            }
        } else if i == k {
            assert(t[j] == s[j - 1]);
            assert(s[k as int] >= p);
            if j - 1 > k {
                assert(s[k as int] < s[j - 1]);
            }
        } else {
            assert(t[i] == s[i - 1] && t[j] == s[j - 1]);
        }
    }
    assert forall|x: u32| t.contains(x) <==> (s.contains(x) || x == p) by {
        if t.contains(x) {
            let m = choose|m: int| 0 <= m < t.len() && t[m] == x;
            if m < k {
                assert(s[m] == x);
            } else if m > k {
                assert(s[m - 1] == x);
            }
        }
        if s.contains(x) {
            let m = choose|m: int| 0 <= m < s.len() && s[m] == x;
            if m < k {
                assert(t[m] == x);
            } else {
                assert(t[m + 1] == x);
            }
        }
        if x == p {
            assert(t[k as int] == p);
        }
    }
}



/// One of the directories an uninstall removes: as the caller spells it, and spelled the one way
/// two spellings of it compare equal.
#[derive(Debug)]
pub struct Armed {
    pub path: Location,
    pub comparable: Location,
}

impl View for Armed {
    type V = (Parts, Parts);

    open spec fn view(&self) -> (Parts, Parts) {
        (self.path@, self.comparable@)
    }
}

/// A handle the system's table lists as open on something on disk.
#[derive(Debug)]
pub struct OpenHandle {
    /// The process that has it open.
    pub pid: u32,
    /// What it has open, as the table spells it.
    pub path: Location,
}

impl View for OpenHandle {
    type V = (u32, Parts);

    open spec fn view(&self) -> (u32, Parts) {
        (self.pid, self.path@)
    }
}

/// A place inside the directories, and every process the table lists as holding it, in the
/// table's order.
#[derive(Debug)]
pub struct HeldPath {
    pub path: Location,
    pub pids: Vec<u32>,
}

impl View for HeldPath {
    type V = (Parts, Seq<u32>);

    open spec fn view(&self) -> (Parts, Seq<u32>) {
        (self.path@, self.pids@)
    }
}

/// Does `at` lie strictly inside `root`? One of the directories itself is never held: renaming an
/// open directory is allowed.
pub open spec fn strictly_inside(at: Parts, root: Parts) -> bool {
    root.is_prefix_of(at) && at != root
}

/// The first of the first `n` directories `at` lies strictly inside, compared as spelled for
/// comparing.
pub open spec fn armed_index(at: Parts, armed: Seq<(Parts, Parts)>, n: nat) -> Option<int>
    decreases n,
{
    if n == 0 {
        None
    } else {
        match armed_index(at, armed, (n - 1) as nat) {
            Some(k) => Some(k),
            None => if strictly_inside(at, armed[n - 1].1) {
                Some(n - 1)
            } else {
                None
            },
        }
    }
}

/// What lies after the first `n` components of `p`.
pub open spec fn after(p: Parts, n: nat) -> Parts {
    if n <= p.len() {
        p.skip(n as int)
    } else {
        Seq::empty()
    }
}

/// Where an open handle is, spelled under the caller's own spelling of the directory it lies in;
/// nothing when it lies in none of them. Which directory is decided on the handle's path in lower
/// case, against each directory as spelled for comparing.
pub open spec fn place_of(open: (u32, Parts), armed: Seq<(Parts, Parts)>) -> Option<Parts> {
    match armed_index(location::folded(open.1), armed, armed.len()) {
        Some(k) => Some(armed[k].0 + after(open.1, armed[k].1.len())),
        None => None,
    }
}

/// Does `key` lie strictly under the caller's own spelling of one of the directories?
pub open spec fn under_a_directory(key: Parts, armed: Seq<(Parts, Parts)>) -> bool {
    exists|k: int|
        0 <= k < armed.len() && (#[trigger] armed[k]).0.is_prefix_of(key) && armed[k].0.len() < key.len()
}

proof fn lemma_armed_index_inside(at: Parts, armed: Seq<(Parts, Parts)>, n: nat)
    requires
        n <= armed.len(),
    ensures
        armed_index(at, armed, n) matches Some(k) ==> 0 <= k < n && strictly_inside(at, armed[k].1),
    decreases n,
{
    if n > 0 {
        lemma_armed_index_inside(at, armed, (n - 1) as nat);
    }
}

/// A place a handle is at lies strictly under the directory it was found in.
proof fn lemma_place_under(open: (u32, Parts), armed: Seq<(Parts, Parts)>)
    ensures
        place_of(open, armed) matches Some(key) ==> under_a_directory(key, armed),
{
    let at = location::folded(open.1);
    lemma_armed_index_inside(at, armed, armed.len());
    if let Some(k) = armed_index(at, armed, armed.len()) {
        let root = armed[k].1;
        assert(root.len() < at.len()) by {
            if root.len() >= at.len() {
                assert(root.len() == at.len());
                assert(at =~= root);
            }
        }
        let key = armed[k].0 + after(open.1, root.len());
        assert(after(open.1, root.len()).len() > 0);
        assert(key.subrange(0, armed[k].0.len() as int) =~= armed[k].0);
        assert(armed[k].0.is_prefix_of(key));
    }
}

/// Is an open handle at `key`?
pub open spec fn at_place(armed: Seq<(Parts, Parts)>, key: Parts) -> spec_fn((u32, Parts)) -> bool {
    |o: (u32, Parts)| place_of(o, armed) == Some(key)
}

/// The pid of an open handle.
pub open spec fn pid_of() -> spec_fn((u32, Parts)) -> u32 {
    |o: (u32, Parts)| o.0
}

/// The processes holding `key`, in the table's order.
pub open spec fn pids_at(opens: Seq<(u32, Parts)>, armed: Seq<(Parts, Parts)>, key: Parts) -> Seq<u32> {
    opens.filter(at_place(armed, key)).map_values(pid_of())
}

/// The places of `opens` grouped: in path order, each with the processes holding it, and every
/// place some handle is at, once.
pub open spec fn grouped(
    groups: Seq<(Parts, Seq<u32>)>,
    opens: Seq<(u32, Parts)>,
    armed: Seq<(Parts, Parts)>,
) -> bool {
    &&& forall|a: int, b: int|
        0 <= a < b < groups.len() ==> location::path_precedes(#[trigger] groups[a].0, #[trigger] groups[b].0)
    &&& forall|a: int| 0 <= a < groups.len() ==> (#[trigger] groups[a]).1 == pids_at(opens, armed, groups[a].0)
    &&& forall|key: Parts|
        #![trigger keyed(groups, key)]
        #![trigger placed(opens, armed, key)]
        keyed(groups, key) <==> placed(opens, armed, key)
}

/// Is there a group at `key`?
pub open spec fn keyed(groups: Seq<(Parts, Seq<u32>)>, key: Parts) -> bool {
    exists|a: int| 0 <= a < groups.len() && (#[trigger] groups[a]).0 == key
}

/// Is some handle at `key`?
pub open spec fn placed(opens: Seq<(u32, Parts)>, armed: Seq<(Parts, Parts)>, key: Parts) -> bool {
    exists|j: int| 0 <= j < opens.len() && place_of(#[trigger] opens[j], armed) == Some(key)
}

fn armed_index_exec(at: &Location, armed: &[Armed]) -> (r: Option<usize>)
    ensures
        match r {
            Some(k) => armed_index(at@, views(armed@), armed@.len() as nat) == Some(k as int) && k
                < armed@.len(),
            None => armed_index(at@, views(armed@), armed@.len() as nat) is None,
        },
{
    let ghost av = views(armed@);
    let mut k: usize = 0;
    while k < armed.len()
        invariant
            av == views(armed@),
            k <= armed@.len(),
            armed_index(at@, av, k as nat) is None,
        decreases armed@.len() - k,
    {
        assert(av[k as int] == armed@[k as int]@);
        if at.starts_with(&armed[k].comparable) && !at.same(&armed[k].comparable) {
            proof {
                lemma_armed_index_stays(at@, av, k as nat, armed@.len() as nat);
            }
            return Some(k);
        }
        k = k + 1;
    }
    None
}

proof fn lemma_armed_index_stays(at: Parts, armed: Seq<(Parts, Parts)>, k: nat, n: nat)
    requires
        k < n <= armed.len(),
        armed_index(at, armed, (k + 1) as nat) == Some(k as int),
    ensures
        armed_index(at, armed, n) == Some(k as int),
    decreases n - k,
{
    if n > k + 1 {
        lemma_armed_index_stays(at, armed, k, (n - 1) as nat);
    }
}

fn place_exec(open: &OpenHandle, armed: &[Armed]) -> (r: Option<Location>)
    ensures
        match r {
            Some(p) => place_of(open@, views(armed@)) == Some(p@),
            None => place_of(open@, views(armed@)) is None,
        },
{
    let folded = open.path.fold();
    match armed_index_exec(&folded, armed) {
        None => None,
        Some(k) => {
            let a = &armed[k];
            assert(views(armed@)[k as int] == a@);
            let mut p = a.path.copy();
            let n = a.comparable.depth();
            let len = open.path.depth();
            let ghost base = p@;
            if n <= len {
                let mut i: usize = n;
                while i < len
                    invariant
                        base == a.path@,
                        n == a.comparable@.len(),
                        len == open.path@.len(),
                        open.path@.len() == open.path.parts@.len(),
                        n <= i <= len,
                        p@ == base + open.path@.subrange(n as int, i as int),
                    decreases len - i,
                {
                    p.push(open.path.parts[i].copy());
                    assert(p@ =~= base + open.path@.subrange(n as int, i + 1));
                    i = i + 1;
                }
                assert(open.path@.subrange(n as int, len as int) =~= open.path@.skip(n as int));
            } else {
                assert(p@ =~= base + Seq::<PartView>::empty());
            }
            Some(p)
        },
    }
}

proof fn lemma_pids_step(opens: Seq<(u32, Parts)>, armed: Seq<(Parts, Parts)>, key: Parts, i: int)
    requires
        0 <= i < opens.len(),
    ensures
        pids_at(opens.take(i + 1), armed, key) == pids_at(opens.take(i), armed, key) + (if place_of(
            opens[i],
            armed,
        ) == Some(key) {
            seq![opens[i].0]
        } else {
            Seq::<u32>::empty()
        }),
{
    let keep = at_place(armed, key);
    let f = pid_of();
    text::lemma_filter_step(opens, keep, i);
    let a = opens.take(i).filter(keep);
    let b = if keep(opens[i]) {
        seq![opens[i]]
    } else {
        Seq::<(u32, Parts)>::empty()
    };
    assert((a + b).map_values(f) =~= a.map_values(f) + b.map_values(f));
    if keep(opens[i]) {
        assert(b.map_values(f) =~= seq![opens[i].0]);
    } else {
        assert(b.map_values(f) =~= Seq::<u32>::empty());
    }
}

/// Every place inside the directories that the handle table lists as held, each spelled under
/// the caller's own spelling of the directory it lies in, in path order, with the processes
/// holding it in the table's order. A handle on one of the directories itself, or outside them
/// all, is left out.
pub fn held_paths(opens: &Vec<OpenHandle>, armed: &[Armed]) -> (r: Vec<HeldPath>)
    ensures
        grouped(views(r@), views(opens@), views(armed@)),
        forall|a: int|
            0 <= a < r@.len() ==> under_a_directory(#[trigger] views(r@)[a].0, views(armed@)),
{
    let ghost ov = views(opens@);
    let ghost av = views(armed@);
    let mut groups: Vec<HeldPath> = Vec::new();
    let mut i: usize = 0;
    while i < opens.len()
        invariant
            ov == views(opens@),
            av == views(armed@),
            i <= opens@.len(),
            grouped(views(groups@), ov.take(i as int), av),
        decreases opens@.len() - i,
    {
        let open = &opens[i];
        assert(ov[i as int] == open@);
        let ghost before = views(groups@);
        let ghost taken = ov.take(i as int);
        let ghost next = ov.take(i + 1);
        assert forall|j: int| 0 <= j < i implies next[j] == taken[j] by {}
        assert(next[i as int] == open@);
        match place_exec(open, armed) {
            None => {
                proof {
                    assert forall|a: int| 0 <= a < before.len() implies (#[trigger] before[a]).1
                        == pids_at(next, av, before[a].0) by {
                        lemma_pids_step(ov, av, before[a].0, i as int);
                    }
                    assert forall|key: Parts| keyed(before, key) <==> placed(next, av, key) by {
                        if exists|j: int| 0 <= j < next.len() && place_of(#[trigger] next[j], av) == Some(key) {
                            let j = choose|j: int| 0 <= j < next.len() && place_of(#[trigger] next[j], av) == Some(key);
                            assert(j < i);
                            assert(place_of(taken[j], av) == Some(key));
                        }
                        if exists|j: int| 0 <= j < taken.len() && place_of(#[trigger] taken[j], av) == Some(key) {
                            let j = choose|j: int| 0 <= j < taken.len() && place_of(#[trigger] taken[j], av) == Some(key);
                            assert(place_of(next[j], av) == Some(key));
                        }
                    }
                }
            },
            Some(key) => {
                assert(next.take(i as int) =~= taken);
                add_pid(&mut groups, key, open.pid, Ghost(taken), Ghost(next), Ghost(av), Ghost(i as int));
            },
        }
        i = i + 1;
    }
    assert(ov.take(opens@.len() as int) =~= ov);
    proof {
        let gv = views(groups@);
        assert forall|a: int| 0 <= a < groups@.len() implies under_a_directory(#[trigger] views(groups@)[a].0, av) by {
            assert(keyed(gv, gv[a].0));
            assert(placed(ov, av, gv[a].0));
            let j = choose|j: int| 0 <= j < ov.len() && place_of(#[trigger] ov[j], av) == Some(gv[a].0);
            lemma_place_under(ov[j], av);
        }
    }
    groups
}

fn copy_pids(v: &Vec<u32>) -> (r: Vec<u32>)
    ensures
        r@ == v@,
{
    let mut r: Vec<u32> = Vec::new();
    let mut i: usize = 0;
    while i < v.len()
        invariant
            i <= v@.len(),
            r@ == v@.take(i as int),
        decreases v@.len() - i,
    {
        r.push(v[i]);
        i = i + 1;
        assert(r@ =~= v@.take(i as int));
    }
    assert(v@.take(v@.len() as int) =~= v@);
    r
}

fn add_pid(
    groups: &mut Vec<HeldPath>,
    key: Location,
    pid: u32,
    Ghost(taken): Ghost<Seq<(u32, Parts)>>,
    Ghost(next): Ghost<Seq<(u32, Parts)>>,
    Ghost(av): Ghost<Seq<(Parts, Parts)>>,
    Ghost(i): Ghost<int>,
)
    requires
        grouped(views(old(groups)@), taken, av),
        i == taken.len(),
        next.len() == i + 1,
        forall|j: int| 0 <= j < i ==> next[j] == taken[j],
        taken == next.take(i),
        next[i].0 == pid,
        place_of(next[i], av) == Some(key@),
    ensures
        grouped(views(final(groups)@), next, av),
{
    let ghost before = views(groups@);
    proof {
        assert(next.take(i) == taken);
    }
    let mut k: usize = 0;
    while k < groups.len() && groups[k].path.precedes(&key)
        invariant
            views(groups@) == before,
            k <= before.len(),
            forall|a: int| 0 <= a < k ==> location::path_precedes(before[a].0, key@),
        decreases before.len() - k,
    {
        assert(before[k as int] == groups@[k as int]@);
        k = k + 1;
    }
    let found = k < groups.len() && groups[k].path.same(&key);
    proof {
        assert forall|a: int| 0 <= a < before.len() && before[a].0 == key@ implies a == k && found by {
            if a < k {
                location::lemma_path_irreflexive(key@);
            } else if a > k {
                assert(k < groups@.len());
                assert(before[k as int] == groups@[k as int]@);
                if !found {
                    location::lemma_path_total(before[k as int].0, key@);
                    location::lemma_path_transitive(key@, before[k as int].0, before[a].0);
                    location::lemma_path_irreflexive(key@);
                } else {
                    location::lemma_path_irreflexive(key@);
                }
            } else {
                assert(before[k as int] == groups@[k as int]@);
            }
        }
    }
    if found {
        let ghost old_pids = groups@[k as int].pids@;
        assert(before[k as int] == groups@[k as int]@);
        let mut pids = copy_pids(&groups[k].pids);
        pids.push(pid);
        let g = HeldPath { path: key, pids };
        groups.set(k, g);
        proof {
            let after_g = views(groups@);
            assert(after_g =~= before.update(k as int, (key@, old_pids.push(pid))));
            assert forall|a: int| 0 <= a < after_g.len() implies (#[trigger] after_g[a]).1
                == pids_at(next, av, after_g[a].0) by {
                lemma_pids_step(next, av, after_g[a].0, i);
                assert(next.take(i + 1) =~= next);
            }
            assert forall|key2: Parts| keyed(after_g, key2) <==> placed(next, av, key2) by {
                if keyed(after_g, key2) {
                    let a = choose|a: int| 0 <= a < after_g.len() && (#[trigger] after_g[a]).0 == key2;
                    assert(before[a].0 == key2);
                    assert(keyed(before, key2));
                    assert(placed(taken, av, key2));
                    let j = choose|j: int| 0 <= j < taken.len() && place_of(#[trigger] taken[j], av) == Some(key2);
                    assert(place_of(next[j], av) == Some(key2));
                }
                if placed(next, av, key2) {
                    let j = choose|j: int| 0 <= j < next.len() && place_of(#[trigger] next[j], av) == Some(key2);
                    if j < i {
                        assert(place_of(taken[j], av) == Some(key2));
                        assert(placed(taken, av, key2));
                        assert(keyed(before, key2));
                        let a = choose|a: int| 0 <= a < before.len() && (#[trigger] before[a]).0 == key2;
                        assert(after_g[a].0 == key2);
                    } else {
                        assert(after_g[k as int].0 == key2);
                    }
                }
            }
        }
    } else {
        let ghost kk = k as int;
        let ghost raw = groups@;
        let g = HeldPath { path: key, pids: vec![pid] };
        let ghost gv = g@;
        groups.insert(k, g);
        proof {
            let after_g = views(groups@);
            raw.insert_ensures(kk, groups@[kk]);
            before.insert_ensures(kk, gv);
            assert(gv == (key@, seq![pid]));
            assert(after_g =~= before.insert(kk, gv));
            assert forall|a: int| 0 <= a < before.len() implies before[a].0 != key@ by {}
            assert(!placed(taken, av, key@)) by {
                if placed(taken, av, key@) {
                    assert(keyed(before, key@));
                }
            }
            assert(pids_at(taken, av, key@) =~= Seq::<u32>::empty()) by {
                let f = taken.filter(at_place(av, key@));
                if f.len() > 0 {
                    assert(f.contains(f[0]));
                    taken.lemma_filter_pred(at_place(av, key@), 0);
                    taken.lemma_filter_contains_rev(at_place(av, key@), f[0]);
                    let j = choose|j: int| 0 <= j < taken.len() && taken[j] == f[0];
                    assert(place_of(taken[j], av) == Some(key@));
                }
            }
            lemma_pids_step(next, av, key@, i);
            assert(next.take(i + 1) =~= next);
            assert forall|a: int, b: int|
                0 <= a < b < after_g.len() implies location::path_precedes(#[trigger] after_g[a].0, #[trigger] after_g[b].0) by {
                if b < kk {
                } else if b == kk {
                    assert(after_g[a] == before[a]);
                } else if a < kk {
                    assert(after_g[a] == before[a]);
                    assert(after_g[b] == before[b - 1]);
                    if b - 1 > a {
                    }
                } else if a == kk {
                    assert(after_g[b] == before[b - 1]);
                    assert(kk < before.len());
                    location::lemma_path_total(before[kk].0, key@);
                    if b - 1 > kk {
                        location::lemma_path_transitive(key@, before[kk].0, before[b - 1].0);
                    }
                } else {
                    assert(after_g[a] == before[a - 1]);
                    assert(after_g[b] == before[b - 1]);
                }
            }
            assert forall|a: int| 0 <= a < after_g.len() implies (#[trigger] after_g[a]).1
                == pids_at(next, av, after_g[a].0) by {
                if a != kk {
                    let b = if a < kk { a } else { a - 1 };
                    assert(after_g[a] == before[b]);
                    lemma_pids_step(next, av, before[b].0, i);
                }
            }
            assert forall|key2: Parts| keyed(after_g, key2) <==> placed(next, av, key2) by {
                if keyed(after_g, key2) {
                    let a = choose|a: int| 0 <= a < after_g.len() && (#[trigger] after_g[a]).0 == key2;
                    if a == kk {
                        assert(place_of(next[i], av) == Some(key2));
                    } else {
                        let b = if a < kk { a } else { a - 1 };
                        assert(before[b].0 == key2);
                        assert(keyed(before, key2));
                        assert(placed(taken, av, key2));
                        let j = choose|j: int| 0 <= j < taken.len() && place_of(#[trigger] taken[j], av) == Some(key2);
                        assert(place_of(next[j], av) == Some(key2));
                    }
                }
                if placed(next, av, key2) {
                    let j = choose|j: int| 0 <= j < next.len() && place_of(#[trigger] next[j], av) == Some(key2);
                    if j < i {
                        assert(place_of(taken[j], av) == Some(key2));
                        assert(placed(taken, av, key2));
                        assert(keyed(before, key2));
                        let a = choose|a: int| 0 <= a < before.len() && (#[trigger] before[a]).0 == key2;
                        if a < kk {
                            assert(after_g[a].0 == key2);
                        } else {
                            assert(after_g[a + 1].0 == key2);
                        }
                    } else {
                        assert(after_g[kk].0 == key2);
                    }
                }
            }
        }
    }
}


/// A [`HeldItem`] as the contracts see it: where, whether it can be moved, and who holds it.
pub type ItemView = (Parts, bool, Seq<(u32, Seq<char>)>);

impl View for HeldItem {
    type V = ItemView;

    open spec fn view(&self) -> ItemView {
        (self.path@, self.movable, views(self.holders@))
    }
}

/// Is `pid` the spared process, or started by it?
pub open spec fn spared(pid: u32, spare: Option<u32>, parents: Map<u32, u32>) -> bool {
    spare matches Some(s) && reaches(pid, s, parents, (parents.len() + 1) as nat)
}

/// The pids of `pids` that are not spared, each once, in increasing order.
pub open spec fn kept_pids(pids: Seq<u32>, spare: Option<u32>, parents: Map<u32, u32>) -> Seq<u32> {
    choose|s: Seq<u32>|
        increasing(s) && forall|p: u32| s.contains(p) <==> (pids.contains(p) && !spared(p, spare, parents))
}

/// The first of the first `n` rows of the table whose pid is `pid`.
pub open spec fn first_row(rows: Seq<ProcessFacts>, pid: u32, n: nat) -> Option<int>
    decreases n,
{
    if n == 0 {
        None
    } else {
        match first_row(rows, pid, (n - 1) as nat) {
            Some(k) => Some(k),
            None => if rows[n - 1].pid == pid {
                Some(n - 1)
            } else {
                None
            },
        }
    }
}

/// What a holder is called: its name in the process table, or `pid N` when the table has gone
/// without it.
pub open spec fn name_in(rows: Seq<ProcessFacts>, pid: u32) -> Seq<char> {
    match first_row(rows, pid, rows.len()) {
        Some(k) => rows[k].name,
        None => "pid "@ + text::decimal(pid as nat),
    }
}

/// The probe's answer for the group at `i`: whether it can be moved, or nothing when it has gone.
pub open spec fn verdict_at(verdicts: Seq<Option<bool>>, i: int) -> Option<bool> {
    if 0 <= i < verdicts.len() {
        verdicts[i]
    } else {
        None
    }
}

/// The item a group makes: none when everybody holding it is spared or it has gone.
pub open spec fn item_of(
    group: (Parts, Seq<u32>),
    verdict: Option<bool>,
    rows: Seq<ProcessFacts>,
    spare: Option<u32>,
) -> Option<ItemView> {
    let kept = kept_pids(group.1, spare, parent_table(rows));
    if kept.len() == 0 {
        None
    } else {
        match verdict {
            Some(movable) => Some(
                (group.0, movable, kept.map_values(|p: u32| (p, name_in(rows, p)))),
            ),
            None => None,
        }
    }
}

/// The items the groups make, in the groups' order.
pub open spec fn items_of(
    groups: Seq<(Parts, Seq<u32>)>,
    verdicts: Seq<Option<bool>>,
    rows: Seq<ProcessFacts>,
    spare: Option<u32>,
) -> Seq<ItemView>
    decreases groups.len(),
{
    if groups.len() == 0 {
        Seq::empty()
    } else {
        items_of(groups.drop_last(), verdicts, rows, spare) + match item_of(
            groups.last(),
            verdict_at(verdicts, groups.len() - 1),
            rows,
            spare,
        ) {
            Some(item) => seq![item],
            None => Seq::empty(),
        }
    }
}

proof fn lemma_items_are_places(
    groups: Seq<(Parts, Seq<u32>)>,
    verdicts: Seq<Option<bool>>,
    rows: Seq<ProcessFacts>,
    spare: Option<u32>,
)
    ensures
        forall|i: int|
            0 <= i < items_of(groups, verdicts, rows, spare).len() ==> exists|k: int|
                0 <= k < groups.len() && (#[trigger] groups[k]).0 == (#[trigger] items_of(groups, verdicts, rows, spare)[i]).0,
    decreases groups.len(),
{
    if groups.len() > 0 {
        let g = groups.drop_last();
        lemma_items_are_places(g, verdicts, rows, spare);
        let before = items_of(g, verdicts, rows, spare);
        let all = items_of(groups, verdicts, rows, spare);
        assert forall|i: int| 0 <= i < all.len() implies exists|k: int|
            0 <= k < groups.len() && (#[trigger] groups[k]).0 == (#[trigger] all[i]).0 by {
            if i < before.len() {
                assert(all[i] == before[i]);
                let k = choose|k: int| 0 <= k < g.len() && (#[trigger] g[k]).0 == before[i].0;
                assert(groups[k] == g[k]);
            } else {
                assert(groups[groups.len() - 1] == groups.last());
            }
        }
    }
}

/// The places some process holds in a directory an uninstall removes, ordered by path, give their
/// items in the same order: each path at most once, in path order.
pub proof fn held_items_keep_the_order_of_their_places(
    groups: Seq<(Parts, Seq<u32>)>,
    verdicts: Seq<Option<bool>>,
    rows: Seq<ProcessFacts>,
    spare: Option<u32>,
)
    requires
        forall|a: int, b: int|
            0 <= a < b < groups.len() ==> location::path_precedes(#[trigger] groups[a].0, #[trigger] groups[b].0),
    ensures
        forall|a: int, b: int|
            0 <= a < b < items_of(groups, verdicts, rows, spare).len() ==> location::path_precedes(
                #[trigger] items_of(groups, verdicts, rows, spare)[a].0,
                #[trigger] items_of(groups, verdicts, rows, spare)[b].0,
            ),
    decreases groups.len(),
{
    if groups.len() > 0 {
        let g = groups.drop_last();
        held_items_keep_the_order_of_their_places(g, verdicts, rows, spare);
        lemma_items_are_places(g, verdicts, rows, spare);
        let before = items_of(g, verdicts, rows, spare);
        let all = items_of(groups, verdicts, rows, spare);
        assert forall|a: int, b: int| 0 <= a < b < all.len() implies location::path_precedes(
            #[trigger] all[a].0,
            #[trigger] all[b].0,
        ) by {
            if b < before.len() {
                assert(all[a] == before[a] && all[b] == before[b]);
            } else {
                assert(all[a] == before[a]);
                let k = choose|k: int| 0 <= k < g.len() && (#[trigger] g[k]).0 == before[a].0;
                assert(groups[k] == g[k]);
                assert(all[b].0 == groups.last().0);
                assert(groups[groups.len() - 1] == groups.last());
            }
        }
    }
}

proof fn lemma_first_row_stays(rows: Seq<ProcessFacts>, pid: u32, k: nat, n: nat)
    requires
        k < n <= rows.len(),
        first_row(rows, pid, (k + 1) as nat) == Some(k as int),
    ensures
        first_row(rows, pid, n) == Some(k as int),
    decreases n - k,
{
    if n > k + 1 {
        lemma_first_row_stays(rows, pid, k, (n - 1) as nat);
    }
}

fn name_exec(rows: &[ProcessRow], pid: u32) -> (r: String)
    ensures
        r@ == name_in(views(rows@), pid),
{
    let ghost v = views(rows@);
    let mut k: usize = 0;
    while k < rows.len()
        invariant
            v == views(rows@),
            k <= rows@.len(),
            first_row(v, pid, k as nat) is None,
        decreases rows@.len() - k,
    {
        assert(v[k as int] == rows@[k as int]@);
        if rows[k].pid == pid {
            proof {
                lemma_first_row_stays(v, pid, k as nat, v.len());
            }
            return rows[k].name.clone();
        }
        k = k + 1;
    }
    let mut r = text::copy("pid ");
    let digits = text::decimal_text(pid as u64);
    r.append(digits.as_str());
    r
}

fn kept_exec(
    pids: &Vec<u32>,
    spare: Option<u32>,
    parents: &std::collections::BTreeMap<u32, u32>,
) -> (r: Vec<u32>)
    ensures
        r@ == kept_pids(pids@, spare, parents@),
        increasing(r@),
        forall|p: u32| #[trigger] r@.contains(p) <==> (pids@.contains(p) && !spared(p, spare, parents@)),
{
    let ghost m = parents@;
    let mut r: Vec<u32> = Vec::new();
    let mut i: usize = 0;
    while i < pids.len()
        invariant
            m == parents@,
            i <= pids@.len(),
            increasing(r@),
            forall|p: u32| #[trigger] r@.contains(p) <==> (pids@.take(i as int).contains(p) && !spared(p, spare, m)),
        decreases pids@.len() - i,
    {
        let p = pids[i];
        let ghost old_r = r@;
        let away = match spare {
            Some(s) => descends_from(p, s, parents),
            None => false,
        };
        if !away && !holds_pid(&r, p) {
            insert_in_order(&mut r, p);
        }
        proof {
            assert(pids@.take(i + 1) =~= pids@.take(i as int).push(p));
            assert forall|x: u32| #[trigger] r@.contains(x) <==> (pids@.take(i + 1).contains(x) && !spared(x, spare, m)) by {
                if pids@.take(i + 1).contains(x) && x != p {
                    let j = choose|j: int| 0 <= j < i + 1 && #[trigger] pids@.take(i + 1)[j] == x;
                    assert(pids@.take(i as int)[j] == x);
                }
                if pids@.take(i as int).contains(x) {
                    let j = choose|j: int| 0 <= j < i && #[trigger] pids@.take(i as int)[j] == x;
                    assert(pids@.take(i + 1)[j] == x);
                }
                if x == p {
                    assert(pids@.take(i + 1)[i as int] == x);
                }
                assert(old_r.contains(x) <==> (pids@.take(i as int).contains(x) && !spared(x, spare, m)));
            }
        }
        i = i + 1;
    }
    proof {
        assert(pids@.take(pids@.len() as int) =~= pids@);
        let chosen = kept_pids(pids@, spare, m);
        assert(increasing(r@) && forall|p: u32| r@.contains(p) <==> (pids@.contains(p) && !spared(p, spare, m)));
        lemma_increasing_unique(r@, chosen);
    }
    r
}

/// An item's holders: somebody, each once, in pid order, none of them the spared process or
/// started by it.
pub open spec fn holders_kept(item: ItemView, spare: Option<u32>, parents: Map<u32, u32>) -> bool {
    &&& item.2.len() > 0
    &&& forall|a: int, b: int| 0 <= a < b < item.2.len() ==> (#[trigger] item.2[a]).0 < (#[trigger] item.2[b]).0
    &&& forall|a: int| 0 <= a < item.2.len() ==> !spared((#[trigger] item.2[a]).0, spare, parents)
}

/// What each place the table lists as held makes, in the places' order: the processes holding
/// it that are not `spare` or started by it, each once and in pid order, named as the process
/// table names them, or `pid N` when it has none; whether it can be moved, as `movable` says for
/// the place at the same position. A place nobody left holds, or that `movable` says has gone, is
/// left out.
pub fn held_under(
    held: Vec<HeldPath>,
    movable: &Vec<Option<bool>>,
    rows: &[ProcessRow],
    spare: Option<u32>,
) -> (r: Vec<HeldItem>)
    ensures
        views(r@) == items_of(views(held@), movable@, views(rows@), spare),
        forall|j: int|
            0 <= j < r@.len() ==> holders_kept(#[trigger] views(r@)[j], spare, parent_table(views(rows@))),
{
    let parents = parents_of(rows);
    let ghost gv = views(held@);
    let ghost v = views(rows@);
    let ghost namer = |p: u32| (p, name_in(v, p));
    let mut r: Vec<HeldItem> = Vec::new();
    let mut i: usize = 0;
    let n = held.len();
    let mut rest = held;
    while rest.len() > 0
        invariant
            gv.len() == n,
            i <= n,
            rest@.len() == n - i,
            forall|j: int| 0 <= j < rest@.len() ==> (#[trigger] rest@[j])@ == gv[i + j],
            v == views(rows@),
            parents@ == parent_table(v),
            namer == (|p: u32| (p, name_in(v, p))),
            views(r@) == items_of(gv.take(i as int), movable@, v, spare),
            forall|j: int| 0 <= j < r@.len() ==> holders_kept(#[trigger] views(r@)[j], spare, parent_table(v)),
        decreases rest@.len(),
    {
        let ghost prev = rest@;
        let g = rest.remove(0);
        assert(g@ == gv[i as int]);
        proof {
            prev.remove_ensures(0);
        }
        assert forall|j: int| 0 <= j < rest@.len() implies (#[trigger] rest@[j])@ == gv[(i + 1) + j] by {
            assert(rest@[j] == prev[j + 1]);
        }
        let ghost before = views(r@);
        proof {
            assert(gv.take(i + 1).drop_last() =~= gv.take(i as int));
            assert(gv.take(i + 1).last() == g@);
        }
        let kept = kept_exec(&g.pids, spare, &parents);
        let verdict: Option<bool> = if i < movable.len() { movable[i] } else { None };
        if kept.len() > 0 {
            match verdict {
                Some(m) => {
                    let mut holders: Vec<Holder> = Vec::new();
                    let mut k: usize = 0;
                    while k < kept.len()
                        invariant
                            k <= kept@.len(),
                            v == views(rows@),
                            namer == (|p: u32| (p, name_in(v, p))),
                            views(holders@) == kept@.take(k as int).map_values(namer),
                        decreases kept@.len() - k,
                    {
                        let p = kept[k];
                        let name = name_exec(rows, p);
                        let ghost hb = views(holders@);
                        holders.push(Holder { pid: p, name });
                        assert(views(holders@) =~= hb.push(namer(p)));
                        assert(kept@.take(k + 1) =~= kept@.take(k as int).push(p));
                        assert(kept@.take(k + 1).map_values(namer) =~= kept@.take(k as int).map_values(namer).push(namer(p)));
                        k = k + 1;
                    }
                    assert(kept@.take(kept@.len() as int) =~= kept@);
                    let item = HeldItem { path: g.path, movable: m, holders };
                    proof {
                        let hv = item@.2;
                        assert(hv == kept@.map_values(namer));
                        assert forall|a: int| 0 <= a < hv.len() implies (#[trigger] hv[a]).0 == kept@[a] by {}
                        assert forall|a: int| 0 <= a < hv.len() implies !spared((#[trigger] hv[a]).0, spare, parent_table(v)) by {
                            assert(kept@.contains(kept@[a]));
                        }
                        assert forall|a: int, b: int| 0 <= a < b < hv.len() implies (#[trigger] hv[a]).0 < (#[trigger] hv[b]).0 by {
                            assert(kept@[a] < kept@[b]);
                        }
                    }
                    r.push(item);
                    assert(views(r@) =~= before.push(item@));
                },
                None => {},
            }
        }
        proof {
            assert(views(r@) =~= items_of(gv.take(i + 1), movable@, v, spare));
        }
        i = i + 1;
    }
    assert(gv.take(n as int) =~= gv);
    r
}

} // verus!
