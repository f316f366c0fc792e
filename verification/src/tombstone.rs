//! A directory is renamed before it is deleted.
//!
//! Deleting a directory tree is not one operation, and a removal that meets a held file half way
//! leaves half a database behind. A rename is one operation, so every directory is renamed to a
//! *tombstone* first — all of them or none — and only then deleted. A tombstone is ours by its
//! name, `<name>.removing-<pid>`, so one that could not be deleted is found and removed by the next
//! uninstall.
//!
//! The renames, the put-backs and the deletes are driven by [`Sweep`]: given what happened to the
//! last thing it asked for, it says what to do next, and it never asks for a delete once a rename
//! has been refused.

use vstd::prelude::*;

use crate::location::{self, Location, Part, PartKind, Parts, PartView};
use crate::text;

verus! {

/// What sits between a directory's own name and the pid in its tombstone's.
pub const MARK: &'static str = ".removing-";

/// [`MARK`], as the contracts see it.
pub open spec fn mark() -> Seq<char> {
    seq!['.', 'r', 'e', 'm', 'o', 'v', 'i', 'n', 'g', '-']
}

/// The mark, spelled out.
pub fn mark_text() -> (r: String)
    ensures
        r@ == mark(),
{
    proof {
        reveal_strlit(".removing-");
    }
    text::copy(MARK)
}

/// The name of `p`, or nothing when it has none.
pub open spec fn name_or_empty(p: Parts) -> Seq<char> {
    match location::file_name(p) {
        Some(name) => name,
        None => Seq::empty(),
    }
}

/// Where `p` is set aside while it is deleted: beside it, its name followed by the mark and `pid`.
pub open spec fn tombstone_of(p: Parts, pid: u32) -> Parts {
    location::with_file_name(p, name_or_empty(p) + mark() + text::decimal(pid as nat))
}

/// Where `inner`, inside `outer`, is set aside on its own: beside `outer`, named after `outer`'s
/// tombstone, numbered by `order` and ending in `inner`'s own name.
pub open spec fn lifted_tombstone_of(inner: Parts, outer: Parts, pid: u32, order: nat) -> Parts {
    location::with_suffix(
        tombstone_of(outer, pid),
        seq!['-'] + text::decimal(order) + seq!['-'] + name_or_empty(inner),
    )
}

/// Is `p` already somebody's tombstone: does its name hold the mark?
pub open spec fn is_tombstone_spec(p: Parts) -> bool {
    match location::file_name(p) {
        Some(name) => text::holds(name, mark()),
        None => false,
    }
}

fn name_or_empty_exec(path: &Location) -> (r: String)
    ensures
        r@ == name_or_empty(path@),
{
    match path.file_name() {
        Some(name) => name,
        None => String::new(),
    }
}

/// Where `path` is set aside while it is being deleted.
pub fn tombstone_for(path: &Location, pid: u32) -> (r: Location)
    ensures
        r@ == tombstone_of(path@, pid),
{
    let mut name = name_or_empty_exec(path);
    let mark = mark_text();
    name.append(mark.as_str());
    let digits = text::decimal_text(pid as u64);
    name.append(digits.as_str());
    path.with_file_name(name.as_str())
}

/// Where `inner`, inside `outer`, is set aside on its own: beside `outer`, named after it and
/// numbered by `order`, so two lifted items with one name cannot collide and a search for
/// `outer`'s tombstones finds every one.
pub fn lifted_tombstone_for(inner: &Location, outer: &Location, pid: u32, order: usize) -> (r:
    Location)
    ensures
        r@ == lifted_tombstone_of(inner@, outer@, pid, order as nat),
{
    let tombstone = tombstone_for(outer, pid);
    let mut suffix = String::new();
    text::push_char(&mut suffix, '-');
    let digits = text::decimal_text(order as u64);
    suffix.append(digits.as_str());
    text::push_char(&mut suffix, '-');
    let name = name_or_empty_exec(inner);
    suffix.append(name.as_str());
    assert(suffix@ =~= seq!['-'] + text::decimal(order as nat) + seq!['-'] + name_or_empty(inner@));
    tombstone.with_suffix(suffix.as_str())
}

/// Is `path` already somebody's tombstone?
pub fn is_tombstone(path: &Location) -> (r: bool)
    ensures
        r == is_tombstone_spec(path@),
{
    match path.file_name() {
        Some(name) => {
            let mark = mark_text();
            text::contains(name.as_str(), mark.as_str())
        },
        None => false,
    }
}


/// A tombstone is known for one by its name, and so is one an item lifted out was set aside at.
pub proof fn a_tombstone_is_known_by_its_name(p: Parts, inner: Parts, pid: u32, order: nat)
    ensures
        is_tombstone_spec(tombstone_of(p, pid)),
        is_tombstone_spec(lifted_tombstone_of(inner, p, pid, order)),
{
    let name = name_or_empty(p);
    let full = name + mark() + text::decimal(pid as nat);
    let t = tombstone_of(p, pid);
    assert(t.last() == (PartKind::Normal, full));
    assert(location::file_name(t) == Some(full));
    assert(full.subrange(name.len() as int, (name.len() + mark().len()) as int) =~= mark());
    assert(text::occurs_at(full, mark(), name.len() as int));
    let suffix = seq!['-'] + text::decimal(order) + seq!['-'] + name_or_empty(inner);
    let l = lifted_tombstone_of(inner, p, pid, order);
    assert(l.last() == (PartKind::Normal, full + suffix));
    assert((full + suffix).subrange(name.len() as int, (name.len() + mark().len()) as int) =~= mark());
    assert(text::occurs_at(full + suffix, mark(), name.len() as int));
}

/// A directory is set aside beside itself — the same parent, the same depth — under its own name
/// followed by `.removing-` and the remover's pid, so two processes never choose one tombstone and
/// an earlier run's tombstones are found by that name.
pub proof fn a_tombstone_lies_beside_its_directory(p: Parts, pid: u32)
    requires
        location::file_name(p) is Some,
    ensures
        mark() == ".removing-"@,
        tombstone_of(p, pid).len() == p.len(),
        tombstone_of(p, pid).drop_last() == p.drop_last(),
        location::file_name(tombstone_of(p, pid)) == Some(
            location::file_name(p)->0 + ".removing-"@ + text::decimal(pid as nat),
        ),
        forall|other: u32| tombstone_of(p, pid) == #[trigger] tombstone_of(p, other) ==> pid == other,
{
    reveal_strlit(".removing-");
    assert(mark() =~= ".removing-"@);
    let t = tombstone_of(p, pid);
    assert(t.drop_last() =~= p.drop_last());
    assert forall|other: u32| tombstone_of(p, pid) == #[trigger] tombstone_of(p, other) implies pid == other by {
        let n = location::file_name(p)->0 + mark();
        let a = n + text::decimal(pid as nat);
        let b = n + text::decimal(other as nat);
        assert(tombstone_of(p, pid).last().1 == a);
        assert(tombstone_of(p, other).last().1 == b);
        assert(a.len() == b.len());
        assert(a.subrange(n.len() as int, a.len() as int) =~= text::decimal(pid as nat));
        assert(b.subrange(n.len() as int, b.len() as int) =~= text::decimal(other as nat));
        text::lemma_decimal_injective(pid as nat, other as nat);
    }
}

/// Two items lifted out of one directory at two places in the order are set aside at two
/// different tombstones, whatever their names: the order is written in digits between two dashes.
pub proof fn lifted_tombstones_do_not_collide(
    inner: Parts,
    other: Parts,
    outer: Parts,
    pid: u32,
    a: nat,
    b: nat,
)
    requires
        a != b,
    ensures
        lifted_tombstone_of(inner, outer, pid, a) != lifted_tombstone_of(other, outer, pid, b),
{
    let t = tombstone_of(outer, pid);
    let base = t.last().1;
    let x = base + (seq!['-'] + text::decimal(a) + seq!['-'] + name_or_empty(inner));
    let y = base + (seq!['-'] + text::decimal(b) + seq!['-'] + name_or_empty(other));
    if lifted_tombstone_of(inner, outer, pid, a) == lifted_tombstone_of(other, outer, pid, b) {
        let l1 = lifted_tombstone_of(inner, outer, pid, a);
        let l2 = lifted_tombstone_of(other, outer, pid, b);
        assert(l1.last() == l2.last());
        assert(l1.last().1 == x);
        assert(l2.last().1 == y);
        assert(x == y);
        let da = text::decimal(a);
        let db = text::decimal(b);
        text::lemma_decimal_digits(a);
        text::lemma_decimal_digits(b);
        let off: int = base.len() as int + 1;
        assert forall|k: int| 0 <= k < da.len() implies x[off + k] == da[k] by {}
        assert forall|k: int| 0 <= k < db.len() implies y[off + k] == db[k] by {}
        assert(x[off + da.len() as int] == '-');
        assert(y[off + db.len() as int] == '-');
        if da.len() < db.len() {
            assert(y[off + da.len() as int] == db[da.len() as int]);
            assert(false);
        } else if db.len() < da.len() {
            assert(x[off + db.len() as int] == da[db.len() as int]);
            assert(false);
        } else {
            assert(da =~= db) by {
                assert forall|k: int| 0 <= k < da.len() implies da[k] == db[k] by {
                    assert(x[off + k] == y[off + k]);
                }
            }
            text::lemma_decimal_injective(a, b);
        }
    }
}

} // verus!

verus! {

/// A tombstone that is still there after the delete.
#[derive(Debug)]
pub struct Leftover {
    /// The tombstone.
    pub path: Location,
    /// Why it stayed, as the system said it.
    pub error: String,
}

/// The directory whose rename was refused. Every directory is back where it was.
#[derive(Debug)]
pub struct Refused {
    /// The directory that could not be renamed.
    pub path: Location,
    /// What the system said.
    pub error: String,
    /// What inside it another program holds open, when something could be found: the system
    /// names only the directory, and the file is what tells a person which program to close.
    pub held: Option<Held>,
    /// How long the rename was tried before this gave up, in milliseconds.
    pub tried_for: u64,
}

/// Something inside a refused directory that another program holds open.
#[derive(Debug)]
pub struct Held {
    /// The file or directory.
    pub path: Location,
    /// The programs holding it, as `name (pid)`, when the system could say; a held directory
    /// comes back with none.
    pub by: Vec<String>,
}

/// How long a refused rename is tried again before everything is put back, in milliseconds.
pub const PATIENCE: u64 = 10000;

/// How long the first try waits before anything is looked for, in milliseconds.
pub const QUICK: u64 = 2000;

} // verus!

verus! {

/// The views of a sequence of values.
pub open spec fn views<T: View>(s: Seq<T>) -> Seq<T::V> {
    s.map_values(|x: T| x@)
}

/// One rename: `from`, set aside at `to`.
#[derive(Debug)]
pub struct Move {
    pub from: Location,
    pub to: Location,
}

impl View for Move {
    type V = (Parts, Parts);

    open spec fn view(&self) -> (Parts, Parts) {
        (self.from@, self.to@)
    }
}

impl Move {
    /// An equal copy.
    pub fn copy(&self) -> (r: Move)
        ensures
            r@ == self@,
    {
        Move { from: self.from.copy(), to: self.to.copy() }
    }
}

/// The paths in `s` that are `d` components deep, in the order they come in.
pub open spec fn at_depth(s: Seq<Parts>, d: nat) -> Seq<Parts> {
    s.filter(|p: Parts| p.len() == d)
}

/// The paths in `s` from depth `hi` down to depth `lo`: the deepest first, and those of one depth
/// in the order they come in.
pub open spec fn deepest_first_from(s: Seq<Parts>, hi: nat, lo: nat) -> Seq<Parts>
    decreases hi + 1 - lo,
{
    if hi < lo {
        Seq::empty()
    } else {
        deepest_first_from(s, hi, lo + 1) + at_depth(s, lo)
    }
}

/// How deep the deepest path in `s` is.
pub open spec fn max_depth(s: Seq<Parts>) -> nat
    decreases s.len(),
{
    if s.len() == 0 {
        0
    } else {
        let rest = max_depth(s.drop_last());
        if s.last().len() > rest { s.last().len() } else { rest }
    }
}

/// `s` ordered deepest first, those of one depth in the order they come in.
pub open spec fn deepest_first(s: Seq<Parts>) -> Seq<Parts> {
    deepest_first_from(s, max_depth(s), 0)
}

/// `s` with every run of equal neighbours cut down to one.
pub open spec fn without_repeats(s: Seq<Parts>) -> Seq<Parts>
    decreases s.len(),
{
    if s.len() == 0 {
        s
    } else {
        let rest = without_repeats(s.drop_last());
        if s.len() >= 2 && s[s.len() - 2] == s.last() {
            rest
        } else {
            rest.push(s.last())
        }
    }
}

/// Is `inner` inside `outer` and not `outer` itself?
pub open spec fn strictly_under(inner: Parts, outer: Parts) -> bool {
    outer.is_prefix_of(inner) && inner != outer
}

/// The first of the first `n` of `paths` that `inner` lies strictly under.
pub open spec fn first_outer(paths: Seq<Parts>, inner: Parts, n: nat) -> Option<int>
    decreases n,
{
    if n == 0 {
        None
    } else {
        match first_outer(paths, inner, (n - 1) as nat) {
            Some(k) => Some(k),
            None => if strictly_under(inner, paths[n - 1]) {
                Some(n - 1)
            } else {
                None
            },
        }
    }
}

/// The moves that lift the first `n` of `ordered` out on their own: each goes beside the first of
/// `paths` it lies strictly under, numbered by its place in `ordered`; one under none of them stays.
pub open spec fn lifts(ordered: Seq<Parts>, paths: Seq<Parts>, pid: u32, n: nat) -> Seq<
    (Parts, Parts),
>
    decreases n,
{
    if n == 0 {
        Seq::empty()
    } else {
        let before = lifts(ordered, paths, pid, (n - 1) as nat);
        let inner = ordered[n - 1];
        match first_outer(paths, inner, paths.len()) {
            Some(k) => before.push((inner, lifted_tombstone_of(inner, paths[k], pid, (n - 1) as nat))),
            None => before,
        }
    }
}

/// Every rename a removal makes, in the order it makes them: what is lifted out on its own first,
/// deepest first, then each of `paths` to its tombstone.
pub open spec fn planned_moves(paths: Seq<Parts>, lifted: Seq<Parts>, pid: u32) -> Seq<
    (Parts, Parts),
> {
    let ordered = without_repeats(deepest_first(lifted));
    lifts(ordered, paths, pid, ordered.len()) + paths.map_values(|p: Parts| (p, tombstone_of(p, pid)))
}

proof fn lemma_at_depth_step(s: Seq<Parts>, d: nat, j: int)
    requires
        0 <= j < s.len(),
    ensures
        at_depth(s.take(j + 1), d) == at_depth(s.take(j), d) + (if s[j].len() == d {
            seq![s[j]]
        } else {
            Seq::empty()
        }),
{
    reveal(Seq::filter);
    assert(s.take(j + 1).drop_last() =~= s.take(j));
    let p = |q: Parts| q.len() == d;
    assert(s.take(j + 1).filter(p) == at_depth(s.take(j + 1), d));
    if s[j].len() == d {
        assert(at_depth(s.take(j + 1), d) =~= at_depth(s.take(j), d) + seq![s[j]]);
    } else {
        assert(at_depth(s.take(j + 1), d) =~= at_depth(s.take(j), d) + Seq::<Parts>::empty());
    }
}

/// Are no two of `s` equally deep?
pub open spec fn depths_distinct(s: Seq<Parts>) -> bool {
    forall|i: int, j: int| 0 <= i < j < s.len() ==> (#[trigger] s[i]).len() != (#[trigger] s[j]).len()
}

proof fn lemma_at_depth_one(s: Seq<Parts>, d: nat, n: nat)
    requires
        depths_distinct(s),
        n <= s.len(),
    ensures
        forall|i: int| 0 <= i < n && (#[trigger] s[i]).len() == d ==> at_depth(s.take(n as int), d) == seq![s[i]],
        (forall|i: int| 0 <= i < n ==> (#[trigger] s[i]).len() != d) ==> at_depth(s.take(n as int), d)
            == Seq::<Parts>::empty(),
    decreases n,
{
    if n == 0 {
        assert(at_depth(s.take(0), d) =~= Seq::<Parts>::empty()) by {
            reveal(Seq::filter);
        }
    } else {
        lemma_at_depth_one(s, d, (n - 1) as nat);
        lemma_at_depth_step(s, d, n - 1);
        if s[n - 1].len() == d {
            assert forall|i: int| 0 <= i < n - 1 implies (#[trigger] s[i]).len() != d by {}
            assert(at_depth(s.take(n as int), d) =~= seq![s[n - 1]]);
        }
    }
}

proof fn lemma_at_depth_of(s: Seq<Parts>, d: nat)
    requires
        depths_distinct(s),
    ensures
        forall|i: int| 0 <= i < s.len() && (#[trigger] s[i]).len() == d ==> at_depth(s, d) == seq![s[i]],
        (forall|i: int| 0 <= i < s.len() ==> (#[trigger] s[i]).len() != d) ==> at_depth(s, d)
            == Seq::<Parts>::empty(),
{
    lemma_at_depth_one(s, d, s.len());
    assert(s.take(s.len() as int) =~= s);
}

proof fn lemma_max_depth(s: Seq<Parts>)
    ensures
        forall|i: int| 0 <= i < s.len() ==> (#[trigger] s[i]).len() <= max_depth(s),
        s.len() > 0 ==> exists|i: int| 0 <= i < s.len() && (#[trigger] s[i]).len() == max_depth(s),
    decreases s.len(),
{
    if s.len() > 0 {
        let t = s.drop_last();
        lemma_max_depth(t);
        assert forall|i: int| 0 <= i < s.len() implies (#[trigger] s[i]).len() <= max_depth(s) by {
            if i < t.len() {
                assert(s[i] == t[i]);
            }
        }
        if s.last().len() <= max_depth(t) && t.len() > 0 {
            let i = choose|i: int| 0 <= i < t.len() && (#[trigger] t[i]).len() == max_depth(t);
            assert(s[i] == t[i]);
        } else {
            assert(s[s.len() - 1] == s.last());
        }
    }
}

proof fn lemma_deepest_first_from_same(a: Seq<Parts>, b: Seq<Parts>, hi: nat, lo: nat)
    requires
        forall|d: nat| at_depth(a, d) == at_depth(b, d),
    ensures
        deepest_first_from(a, hi, lo) == deepest_first_from(b, hi, lo),
    decreases hi + 1 - lo,
{
    if hi >= lo {
        lemma_deepest_first_from_same(a, b, hi, lo + 1);
        assert(at_depth(a, lo) == at_depth(b, lo));
    }
}

/// Which order the items to lift come in does not change the plan, when no two are equally
/// deep: they leave deepest first either way, so the same renames are asked for in the same order.
pub proof fn the_order_of_lifted_items_does_not_change_the_plan(
    paths: Seq<Parts>,
    lifted: Seq<Parts>,
    reordered: Seq<Parts>,
    pid: u32,
)
    requires
        depths_distinct(lifted),
        depths_distinct(reordered),
        forall|x: Parts| lifted.contains(x) <==> reordered.contains(x),
    ensures
        planned_moves(paths, reordered, pid) == planned_moves(paths, lifted, pid),
{
    assert forall|d: nat| at_depth(lifted, d) == at_depth(reordered, d) by {
        lemma_at_depth_of(lifted, d);
        lemma_at_depth_of(reordered, d);
        if exists|i: int| 0 <= i < lifted.len() && (#[trigger] lifted[i]).len() == d {
            let i = choose|i: int| 0 <= i < lifted.len() && (#[trigger] lifted[i]).len() == d;
            assert(lifted.contains(lifted[i]));
            let j = choose|j: int| 0 <= j < reordered.len() && reordered[j] == lifted[i];
            assert(reordered[j].len() == d);
        } else if exists|j: int| 0 <= j < reordered.len() && (#[trigger] reordered[j]).len() == d {
            let j = choose|j: int| 0 <= j < reordered.len() && (#[trigger] reordered[j]).len() == d;
            assert(reordered.contains(reordered[j]));
            let i = choose|i: int| 0 <= i < lifted.len() && lifted[i] == reordered[j];
            assert(lifted[i].len() == d);
        }
    }
    lemma_max_depth(lifted);
    lemma_max_depth(reordered);
    if lifted.len() > 0 {
        let i = choose|i: int| 0 <= i < lifted.len() && (#[trigger] lifted[i]).len() == max_depth(lifted);
        assert(lifted.contains(lifted[i]));
        let j = choose|j: int| 0 <= j < reordered.len() && reordered[j] == lifted[i];
        assert(reordered[j].len() <= max_depth(reordered));
    }
    if reordered.len() > 0 {
        let j = choose|j: int| 0 <= j < reordered.len() && (#[trigger] reordered[j]).len() == max_depth(reordered);
        assert(reordered.contains(reordered[j]));
        let i = choose|i: int| 0 <= i < lifted.len() && lifted[i] == reordered[j];
        assert(lifted[i].len() <= max_depth(lifted));
    }
    if lifted.len() == 0 && reordered.len() > 0 {
        assert(reordered.contains(reordered[0]));
    }
    if reordered.len() == 0 && lifted.len() > 0 {
        assert(lifted.contains(lifted[0]));
    }
    assert(max_depth(lifted) == max_depth(reordered));
    lemma_deepest_first_from_same(lifted, reordered, max_depth(lifted), 0);
}

proof fn lemma_first_outer_stays(paths: Seq<Parts>, inner: Parts, i: nat, n: nat)
    requires
        i < n <= paths.len(),
        first_outer(paths, inner, (i + 1) as nat) == Some(i as int),
    ensures
        first_outer(paths, inner, n) == Some(i as int),
    decreases n - i,
{
    if n > i + 1 {
        lemma_first_outer_stays(paths, inner, i, (n - 1) as nat);
    }
}

fn max_depth_exec(s: &[Location]) -> (r: usize)
    ensures
        r == max_depth(views(s@)),
{
    let mut r: usize = 0;
    let mut i: usize = 0;
    while i < s.len()
        invariant
            i <= s@.len(),
            r == max_depth(views(s@).take(i as int)),
        decreases s@.len() - i,
    {
        assert(views(s@).take(i + 1).drop_last() =~= views(s@).take(i as int));
        let d = s[i].depth();
        if d > r {
            r = d;
        }
        i = i + 1;
    }
    assert(views(s@).take(s@.len() as int) =~= views(s@));
    r
}

fn deepest_first_exec(s: &[Location]) -> (r: Vec<Location>)
    ensures
        views(r@) == deepest_first(views(s@)),
{
    let ghost v = views(s@);
    let top = max_depth_exec(s);
    let mut r: Vec<Location> = Vec::new();
    let mut d: usize = top;
    loop
        invariant_except_break
            views(r@) == deepest_first_from(v, top as nat, (d + 1) as nat),
        invariant
            v == views(s@),
            d <= top,
            top == max_depth(v),
        ensures
            views(r@) == deepest_first_from(v, top as nat, 0),
        decreases d,
    {
        let mut j: usize = 0;
        while j < s.len()
            invariant
                v == views(s@),
                j <= s@.len(),
                d <= top,
                views(r@) == deepest_first_from(v, top as nat, (d + 1) as nat) + at_depth(
                    v.take(j as int),
                    d as nat,
                ),
            decreases s@.len() - j,
        {
            proof {
                lemma_at_depth_step(v, d as nat, j as int);
            }
            if s[j].depth() == d {
                let c = s[j].copy();
                let ghost before = views(r@);
                r.push(c);
                assert(views(r@) =~= before.push(c@));
                assert(c@ == v[j as int]);
                assert(views(r@) =~= deepest_first_from(v, top as nat, (d + 1) as nat) + at_depth(
                    v.take(j + 1),
                    d as nat,
                ));
            } else {
                assert(views(r@) =~= deepest_first_from(v, top as nat, (d + 1) as nat) + at_depth(
                    v.take(j + 1),
                    d as nat,
                ));
            }
            j = j + 1;
        }
        assert(v.take(s@.len() as int) =~= v);
        assert(views(r@) == deepest_first_from(v, top as nat, d as nat));
        if d == 0 {
            break;
        }
        d = d - 1;
    }
    r
}

fn without_repeats_exec(s: Vec<Location>) -> (r: Vec<Location>)
    ensures
        views(r@) == without_repeats(views(s@)),
{
    let ghost v = views(s@);
    let mut r: Vec<Location> = Vec::new();
    let mut i: usize = 0;
    while i < s.len()
        invariant
            v == views(s@),
            i <= s@.len(),
            views(r@) == without_repeats(v.take(i as int)),
        decreases s@.len() - i,
    {
        let ghost before = v.take(i as int);
        let ghost after = v.take(i + 1);
        assert(after.drop_last() =~= before);
        if i > 0 && s[i].same(&s[i - 1]) {
            assert(after[after.len() - 2] == after.last());
        } else {
            r.push(s[i].copy());
            assert(views(r@) =~= without_repeats(before).push(after.last()));
        }
        i = i + 1;
    }
    assert(v.take(s@.len() as int) =~= v);
    r
}

fn first_outer_exec(paths: &[Location], inner: &Location) -> (r: Option<usize>)
    ensures
        match r {
            Some(k) => k < paths@.len() && first_outer(views(paths@), inner@, paths@.len() as nat)
                == Some(k as int),
            None => first_outer(views(paths@), inner@, paths@.len() as nat) is None,
        },
{
    let ghost v = views(paths@);
    let mut i: usize = 0;
    while i < paths.len()
        invariant
            v == views(paths@),
            i <= paths@.len(),
            first_outer(v, inner@, i as nat) is None,
        decreases paths@.len() - i,
    {
        if inner.starts_with(&paths[i]) && !inner.same(&paths[i]) {
            proof {
                lemma_first_outer_stays(v, inner@, i as nat, paths@.len() as nat);
            }
            return Some(i);
        }
        i = i + 1;
    }
    None
}

/// Every rename removing `paths` makes, in order: each of `lifted` that lies strictly inside one of
/// `paths` goes out on its own first, deepest first, to a tombstone beside the first of `paths` it
/// lies in; then each of `paths` goes to its own tombstone.
pub fn planned_moves_for(paths: &[Location], lifted: &[Location], pid: u32) -> (r: Vec<Move>)
    ensures
        views(r@) == planned_moves(views(paths@), views(lifted@), pid),
{
    let ghost pv = views(paths@);
    let ordered = without_repeats_exec(deepest_first_exec(lifted));
    let ghost ov = views(ordered@);
    let mut r: Vec<Move> = Vec::new();
    let mut order: usize = 0;
    while order < ordered.len()
        invariant
            pv == views(paths@),
            ov == views(ordered@),
            order <= ordered@.len(),
            views(r@) == lifts(ov, pv, pid, order as nat),
        decreases ordered@.len() - order,
    {
        match first_outer_exec(paths, &ordered[order]) {
            Some(k) => {
                let to = lifted_tombstone_for(&ordered[order], &paths[k], pid, order);
                r.push(Move { from: ordered[order].copy(), to });
                assert(views(r@) =~= lifts(ov, pv, pid, (order + 1) as nat));
            },
            None => {
                assert(views(r@) =~= lifts(ov, pv, pid, (order + 1) as nat));
            },
        }
        order = order + 1;
    }
    let ghost lifted_part = views(r@);
    let mut i: usize = 0;
    while i < paths.len()
        invariant
            pv == views(paths@),
            i <= paths@.len(),
            views(r@) == lifted_part + pv.take(i as int).map_values(
                |p: Parts| (p, tombstone_of(p, pid)),
            ),
        decreases paths@.len() - i,
    {
        let to = tombstone_for(&paths[i], pid);
        let m = Move { from: paths[i].copy(), to };
        let ghost before = views(r@);
        r.push(m);
        assert(views(r@) =~= before.push(m@));
        assert(m@ == (pv[i as int], tombstone_of(pv[i as int], pid)));
        i = i + 1;
        assert(views(r@) =~= lifted_part + pv.take(i as int).map_values(
            |p: Parts| (p, tombstone_of(p, pid)),
        ));
    }
    assert(pv.take(paths@.len() as int) =~= pv);
    r
}

} // verus!

verus! {

/// Where a [`Sweep`] is.
#[derive(Clone, Copy, Debug, PartialEq, Eq, Structural)]
pub enum Stage {
    /// Asking whether the next planned move's path is there.
    Looking,
    /// Asking for the next planned move's rename.
    Renaming,
    /// A rename was refused: putting back the rename at this place in what was moved.
    PuttingBack(usize),
    /// Every move is through: deleting what is at this place in what was moved.
    Deleting(usize),
    /// Nothing more to do; `true` when a rename was refused and everything was put back.
    Over(bool),
}

/// What happened to what a [`Sweep`] last asked for.
#[derive(Clone, Copy, Debug, PartialEq, Eq, Structural)]
pub enum SweepEvent {
    /// The path it asked about is there.
    There,
    /// The path it asked about is not.
    NotThere,
    /// The rename went through.
    Renamed,
    /// The rename was refused, and kept being refused for as long as it was tried.
    Refused,
    /// The put-back was done.
    PutBack,
    /// The delete was tried, whatever came of it.
    Deleted,
}

/// What a [`Sweep`] asks for, as the contracts see it.
pub enum Act {
    Look(Parts),
    Rename(Parts, Parts),
    PutBack(Parts, Parts),
    Delete(Parts),
    Finished(bool),
}

/// What a [`Sweep`] asks for next.
#[derive(Debug)]
pub enum SweepAction {
    /// Is `Location` there, without following a link at its end?
    Look(Location),
    /// Rename `from` to `to`, trying again for a while if the system refuses.
    Rename { from: Location, to: Location },
    /// Rename `from` back to `to`, whatever comes of it.
    PutBack { from: Location, to: Location },
    /// Delete `Location`, a file or a directory tree, and keep what refuses as a leftover.
    Delete(Location),
    /// Done: every directory is gone, or — when `refused` — every one is back where it was.
    Finished { refused: bool },
}

impl View for SweepAction {
    type V = Act;

    open spec fn view(&self) -> Act {
        match self {
            SweepAction::Look(p) => Act::Look(p@),
            SweepAction::Rename { from, to } => Act::Rename(from@, to@),
            SweepAction::PutBack { from, to } => Act::PutBack(from@, to@),
            SweepAction::Delete(p) => Act::Delete(p@),
            SweepAction::Finished { refused } => Act::Finished(*refused),
        }
    }
}

/// A [`Sweep`] as the contracts see it.
pub struct SweepView {
    pub moves: Seq<(Parts, Parts)>,
    pub next: nat,
    pub moved: Seq<(Parts, Parts)>,
    pub stage: Stage,
}

/// Renames every planned move, all of them or none, and then deletes what was renamed.
///
/// A move whose path is not there is skipped, and one whose path already is a tombstone is kept as
/// it is and deleted with the others. A refused rename puts every rename before it back, the latest
/// first, and nothing is deleted.
#[derive(Debug)]
pub struct Sweep {
    moves: Vec<Move>,
    next: usize,
    moved: Vec<Move>,
    stage: Stage,
}

impl View for Sweep {
    type V = SweepView;

    closed spec fn view(&self) -> SweepView {
        SweepView {
            moves: views(self.moves@),
            next: self.next as nat,
            moved: views(self.moved@),
            stage: self.stage,
        }
    }
}

/// The latest of the first `k` moved that was a rename, and not a tombstone kept as it was.
pub open spec fn last_to_put_back(moved: Seq<(Parts, Parts)>, k: nat) -> Option<nat>
    decreases k,
{
    if k == 0 {
        None
    } else if moved[k - 1].0 != moved[k - 1].1 {
        Some((k - 1) as nat)
    } else {
        last_to_put_back(moved, (k - 1) as nat)
    }
}

/// The renames among the first `k` moved, latest first, each as the move that undoes it.
pub open spec fn put_backs(moved: Seq<(Parts, Parts)>, k: nat) -> Seq<(Parts, Parts)>
    decreases k,
{
    if k == 0 {
        Seq::empty()
    } else if moved[k - 1].0 != moved[k - 1].1 {
        seq![(moved[k - 1].1, moved[k - 1].0)] + put_backs(moved, (k - 1) as nat)
    } else {
        put_backs(moved, (k - 1) as nat)
    }
}

/// Is the sweep putting back, or done putting back, after a refused rename?
pub open spec fn refusing(s: SweepView) -> bool {
    s.stage matches Stage::PuttingBack(_) || s.stage == Stage::Over(true)
}

/// The put-backs still to come.
pub open spec fn pending_put_backs(s: SweepView) -> Seq<(Parts, Parts)> {
    match s.stage {
        Stage::PuttingBack(j) => put_backs(s.moved, (j + 1) as nat),
        _ => Seq::empty(),
    }
}

/// The sweep deleting from place `k` of what was moved on.
pub open spec fn deleting_from(s: SweepView, k: nat) -> SweepView {
    SweepView {
        stage: if k < s.moved.len() { Stage::Deleting(k as usize) } else { Stage::Over(false) },
        ..s
    }
}

/// The sweep putting back from below place `k` of what was moved.
pub open spec fn putting_back_from(s: SweepView, k: nat) -> SweepView {
    SweepView {
        stage: match last_to_put_back(s.moved, k) {
            Some(j) => Stage::PuttingBack(j as usize),
            None => Stage::Over(true),
        },
        ..s
    }
}

/// The sweep going on to its next planned move, or to the deletes when there is none.
pub open spec fn advance(s: SweepView) -> SweepView {
    if s.next < s.moves.len() {
        SweepView { stage: Stage::Looking, ..s }
    } else {
        deleting_from(s, 0)
    }
}

/// A sweep over `moves` that has not begun.
pub open spec fn start(moves: Seq<(Parts, Parts)>) -> SweepView {
    advance(SweepView { moves, next: 0, moved: Seq::empty(), stage: Stage::Looking })
}

/// The sweep after `e` happened to what it asked for. An event that does not answer what it asked
/// for changes nothing.
pub open spec fn after(s: SweepView, e: SweepEvent) -> SweepView {
    match s.stage {
        Stage::Looking => match e {
            SweepEvent::NotThere => advance(SweepView { next: s.next + 1, ..s }),
            SweepEvent::There => if is_tombstone_spec(s.moves[s.next as int].0) {
                advance(
                    SweepView {
                        next: s.next + 1,
                        moved: s.moved.push((s.moves[s.next as int].0, s.moves[s.next as int].0)),
                        ..s
                    },
                )
            } else {
                SweepView { stage: Stage::Renaming, ..s }
            },
            _ => s,
        },
        Stage::Renaming => match e {
            SweepEvent::Renamed => advance(
                SweepView { next: s.next + 1, moved: s.moved.push(s.moves[s.next as int]), ..s },
            ),
            SweepEvent::Refused => putting_back_from(s, s.moved.len()),
            _ => s,
        },
        Stage::PuttingBack(j) => match e {
            SweepEvent::PutBack => putting_back_from(s, j as nat),
            _ => s,
        },
        Stage::Deleting(k) => match e {
            SweepEvent::Deleted => deleting_from(s, (k + 1) as nat),
            _ => s,
        },
        Stage::Over(_) => s,
    }
}

/// What the sweep asks for where it is.
pub open spec fn action_of(s: SweepView) -> Act {
    match s.stage {
        Stage::Looking => Act::Look(s.moves[s.next as int].0),
        Stage::Renaming => Act::Rename(s.moves[s.next as int].0, s.moves[s.next as int].1),
        Stage::PuttingBack(j) => Act::PutBack(s.moved[j as int].1, s.moved[j as int].0),
        Stage::Deleting(k) => Act::Delete(s.moved[k as int].1),
        Stage::Over(refused) => Act::Finished(refused),
    }
}

/// A sweep some series of events can reach.
pub open spec fn sound(s: SweepView) -> bool {
    &&& s.moves.len() <= usize::MAX
    &&& s.next <= s.moves.len()
    &&& s.moved.len() <= s.next
    &&& (s.stage == Stage::Looking || s.stage == Stage::Renaming) ==> s.next < s.moves.len()
    &&& (s.stage matches Stage::PuttingBack(j) ==> j < s.moved.len() && s.moved[j as int].0
        != s.moved[j as int].1)
    &&& (s.stage matches Stage::Deleting(k) ==> k < s.moved.len() && s.next == s.moves.len())
    &&& (s.stage == Stage::Over(false) ==> s.next == s.moves.len())
}

proof fn lemma_last_to_put_back(moved: Seq<(Parts, Parts)>, k: nat)
    requires
        k <= moved.len(),
    ensures
        match last_to_put_back(moved, k) {
            Some(j) => j < k && moved[j as int].0 != moved[j as int].1 && put_backs(moved, k)
                == seq![(moved[j as int].1, moved[j as int].0)] + put_backs(moved, j),
            None => put_backs(moved, k) == Seq::<(Parts, Parts)>::empty(),
        },
    decreases k,
{
    if k > 0 && moved[k - 1].0 == moved[k - 1].1 {
        lemma_last_to_put_back(moved, (k - 1) as nat);
    }
}

/// A refused rename starts putting back every rename made before it, the latest first — and from
/// then on the sweep only puts back, and never deletes.
pub proof fn a_refused_rename_puts_back_every_rename_before_it(s: SweepView)
    requires
        sound(s),
        s.stage == Stage::Renaming,
    ensures
        refusing(after(s, SweepEvent::Refused)),
        sound(after(s, SweepEvent::Refused)),
        pending_put_backs(after(s, SweepEvent::Refused)) == put_backs(s.moved, s.moved.len()),
{
    lemma_last_to_put_back(s.moved, s.moved.len());
    let t = after(s, SweepEvent::Refused);
    if let Some(j) = last_to_put_back(s.moved, s.moved.len()) {
        lemma_last_to_put_back(s.moved, (j + 1) as nat);
        assert(last_to_put_back(s.moved, (j + 1) as nat) == Some(j));
    }
}

/// Once a rename has been refused, whatever happens next, the sweep is still undoing it: it asks
/// for the next put-back or says it is finished with the refusal, and never asks for a delete. A
/// put-back done takes the first of those still to come off the list.
pub proof fn a_refusal_is_never_followed_by_a_delete(s: SweepView, e: SweepEvent)
    requires
        sound(s),
        refusing(s),
    ensures
        refusing(after(s, e)),
        sound(after(s, e)),
        !(action_of(after(s, e)) is Delete),
        s.stage matches Stage::PuttingBack(_) ==> action_of(s) == Act::PutBack(
            pending_put_backs(s)[0].0,
            pending_put_backs(s)[0].1,
        ),
        (s.stage matches Stage::PuttingBack(_) && e == SweepEvent::PutBack) ==> pending_put_backs(
            after(s, e),
        ) == pending_put_backs(s).drop_first(),
{
    if let Stage::PuttingBack(j) = s.stage {
        lemma_last_to_put_back(s.moved, (j + 1) as nat);
        lemma_last_to_put_back(s.moved, j as nat);
        if e == SweepEvent::PutBack {
            if let Some(i) = last_to_put_back(s.moved, j as nat) {
                lemma_last_to_put_back(s.moved, (i + 1) as nat);
            }
            assert(pending_put_backs(s) =~= seq![(s.moved[j as int].1, s.moved[j as int].0)]
                + put_backs(s.moved, j as nat));
            assert(pending_put_backs(after(s, e)) =~= put_backs(s.moved, j as nat));
        }
    }
}

/// A delete is asked for only once every planned move is through and none was refused, and the
/// deletes go through what was moved in order, one place at a time.
pub proof fn deletes_come_after_every_move(s: SweepView, e: SweepEvent)
    requires
        sound(s),
    ensures
        sound(after(s, e)),
        action_of(s) is Delete ==> s.next == s.moves.len() && !refusing(s),
        s.stage matches Stage::Deleting(k) ==> action_of(s) == Act::Delete(s.moved[k as int].1),
        s.stage matches Stage::Deleting(k) ==> (e == SweepEvent::Deleted ==> (if k + 1
            < s.moved.len() {
            after(s, e).stage == Stage::Deleting((k + 1) as usize)
        } else {
            after(s, e).stage == Stage::Over(false)
        })),
{
    match s.stage {
        Stage::Renaming => {
            if e == SweepEvent::Refused {
                lemma_last_to_put_back(s.moved, s.moved.len());
            }
        },
        Stage::PuttingBack(j) => {
            lemma_last_to_put_back(s.moved, j as nat);
        },
        _ => {},
    }
}

} // verus!

verus! {

impl Sweep {
    /// Is this sweep one some series of events can reach?
    pub closed spec fn well_formed(&self) -> bool {
        &&& sound(self@)
        &&& self.moves@.len() == self@.moves.len()
        &&& self.moved@.len() == self@.moved.len()
    }

    proof fn lemma_views(&self)
        ensures
            self@.moves.len() == self.moves@.len(),
            self@.moved.len() == self.moved@.len(),
            forall|i: int| 0 <= i < self.moves@.len() ==> #[trigger] self@.moves[i] == self.moves@[i]@,
            forall|i: int| 0 <= i < self.moved@.len() ==> #[trigger] self@.moved[i] == self.moved@[i]@,
    {
    }

    fn go_on(&mut self)
        requires
            old(self).next <= old(self).moves@.len(),
            old(self).moved@.len() <= old(self).next,
        ensures
            final(self)@ == advance(old(self)@),
            final(self).moves@ == old(self).moves@,
            final(self).moved@ == old(self).moved@,
    {
        proof {
            old(self).lemma_views();
        }
        if self.next < self.moves.len() {
            self.stage = Stage::Looking;
        } else if 0 < self.moved.len() {
            self.stage = Stage::Deleting(0);
        } else {
            self.stage = Stage::Over(false);
        }
    }

    fn put_back_from(&mut self, k: usize)
        requires
            k <= old(self).moved@.len(),
        ensures
            final(self)@ == putting_back_from(old(self)@, k as nat),
            final(self).moves@ == old(self).moves@,
            final(self).moved@ == old(self).moved@,
            final(self).next == old(self).next,
    {
        proof {
            self.lemma_views();
        }
        let mut i: usize = k;
        while i > 0
            invariant
                i <= k <= self.moved@.len(),
                last_to_put_back(self@.moved, k as nat) == last_to_put_back(self@.moved, i as nat),
                self.moves@ == old(self).moves@,
                self.moved@ == old(self).moved@,
                self.next == old(self).next,
                self@.moved.len() == self.moved@.len(),
                forall|j: int| 0 <= j < self.moved@.len() ==> #[trigger] self@.moved[j]
                    == self.moved@[j]@,
            decreases i,
        {
            if !self.moved[i - 1].from.same(&self.moved[i - 1].to) {
                self.stage = Stage::PuttingBack(i - 1);
                return;
            }
            i = i - 1;
        }
        self.stage = Stage::Over(true);
    }

    /// A sweep through `moves`, in order.
    pub fn new(moves: Vec<Move>) -> (r: Sweep)
        ensures
            r@ == start(views(moves@)),
            r.well_formed(),
    {
        let n = moves.len();
        let mut r = Sweep { moves, next: 0, moved: Vec::new(), stage: Stage::Looking };
        proof {
            assert(views(r.moved@) =~= Seq::<(Parts, Parts)>::empty());
        }
        r.go_on();
        r
    }

    /// Has it finished?
    pub fn is_over(&self) -> (r: bool)
        ensures
            r == (self@.stage is Over),
    {
        match self.stage {
            Stage::Over(_) => true,
            _ => false,
        }
    }

    /// What it asks for now.
    pub fn action(&self) -> (r: SweepAction)
        requires
            self.well_formed(),
        ensures
            r@ == action_of(self@),
    {
        proof {
            self.lemma_views();
        }
        match self.stage {
            Stage::Looking => SweepAction::Look(self.moves[self.next].from.copy()),
            Stage::Renaming => SweepAction::Rename {
                from: self.moves[self.next].from.copy(),
                to: self.moves[self.next].to.copy(),
            },
            Stage::PuttingBack(j) => SweepAction::PutBack {
                from: self.moved[j].to.copy(),
                to: self.moved[j].from.copy(),
            },
            Stage::Deleting(k) => SweepAction::Delete(self.moved[k].to.copy()),
            Stage::Over(refused) => SweepAction::Finished { refused },
        }
    }

    /// Take in what happened to what it asked for, and say what it asks for next.
    pub fn step(&mut self, event: SweepEvent) -> (r: SweepAction)
        requires
            old(self).well_formed(),
        ensures
            final(self).well_formed(),
            final(self)@ == after(old(self)@, event),
            r@ == action_of(final(self)@),
    {
        proof {
            self.lemma_views();
        }
        let ghost s = self@;
        match self.stage {
            Stage::Looking => {
                match event {
                    SweepEvent::NotThere => {
                        self.next = self.next + 1;
                        self.go_on();
                    },
                    SweepEvent::There => {
                        if is_tombstone(&self.moves[self.next].from) {
                            let kept = Move {
                                from: self.moves[self.next].from.copy(),
                                to: self.moves[self.next].from.copy(),
                            };
                            self.moved.push(kept);
                            self.next = self.next + 1;
                            proof {
                                assert(views(self.moved@) =~= s.moved.push(
                                    (s.moves[s.next as int].0, s.moves[s.next as int].0),
                                ));
                            }
                            self.go_on();
                        } else {
                            self.stage = Stage::Renaming;
                        }
                    },
                    _ => {},
                }
            },
            Stage::Renaming => {
                match event {
                    SweepEvent::Renamed => {
                        let done = self.moves[self.next].copy();
                        self.moved.push(done);
                        self.next = self.next + 1;
                        proof {
                            assert(views(self.moved@) =~= s.moved.push(s.moves[s.next as int]));
                        }
                        self.go_on();
                    },
                    SweepEvent::Refused => {
                        let k = self.moved.len();
                        self.put_back_from(k);
                    },
                    _ => {},
                }
            },
            Stage::PuttingBack(j) => {
                if event == SweepEvent::PutBack {
                    self.put_back_from(j);
                }
            },
            Stage::Deleting(k) => {
                if event == SweepEvent::Deleted {
                    if k + 1 < self.moved.len() {
                        self.stage = Stage::Deleting(k + 1);
                    } else {
                        self.stage = Stage::Over(false);
                    }
                }
            },
            Stage::Over(_) => {},
        }
        proof {
            deletes_come_after_every_move(s, event);
            lemma_last_to_put_back(s.moved, s.moved.len());
            if let Stage::PuttingBack(j) = s.stage {
                lemma_last_to_put_back(s.moved, j as nat);
            }
        }
        self.action()
    }
}

} // verus!

verus! {

/// What the name of one of `p`'s tombstones begins with: `p`'s own name and the mark. None when
/// `p` has no name, and so no tombstone anybody could find.
pub open spec fn tombstone_prefix(p: Parts) -> Option<Seq<char>> {
    match location::file_name(p) {
        Some(name) => Some(name + mark()),
        None => None,
    }
}

/// The names of the last components of `s`.
pub open spec fn last_names(s: Seq<Parts>) -> Seq<Seq<char>> {
    s.map_values(|p: Parts| p.last().1)
}

/// Every tombstone an earlier run left beside `path`, in name order, out of the `names` of
/// everything in the directory that holds `path`.
pub fn tombstones_among(path: &Location, names: &Vec<String>) -> (r: Vec<Location>)
    ensures
        match tombstone_prefix(path@) {
            None => r@.len() == 0,
            Some(prefix) => {
                &&& forall|i: int| 0 <= i < r@.len() ==> (#[trigger] r@[i])@.len() == path@.len()
                    && r@[i]@.drop_last() == path@.drop_last() && r@[i]@.last().0
                    == PartKind::Normal
                &&& last_names(views(r@)).to_multiset() == names@.map_values(|s: String| s@).filter(
                    |t: Seq<char>| prefix.is_prefix_of(t),
                ).to_multiset()
                &&& text::in_order(last_names(views(r@)))
            },
        },
        forall|i: int|
            0 <= i < r@.len() ==> (location::file_name(path@) matches Some(n) && (n
                + ".removing-"@).is_prefix_of((#[trigger] r@[i])@.last().1)),
{
    let name = match path.file_name() {
        Some(name) => name,
        None => return Vec::new(),
    };
    let mark = mark_text();
    let prefix = text::concat(name.as_str(), mark.as_str());
    let found = text::sort_texts(text::keep_starting_with(names, prefix.as_str()));
    let mut parent = path.copy();
    parent.parts.pop();
    assert(parent@ =~= path@.drop_last());
    let mut r: Vec<Location> = Vec::new();
    let mut i: usize = 0;
    while i < found.len()
        invariant
            i <= found@.len(),
            parent@ == path@.drop_last(),
            path@.len() > 0,
            r@.len() == i,
            forall|k: int| 0 <= k < r@.len() ==> (#[trigger] r@[k])@.len() == path@.len()
                && r@[k]@.drop_last() == path@.drop_last() && r@[k]@.last() == (
                PartKind::Normal,
                found@[k]@,
            ),
        decreases found@.len() - i,
    {
        let mut p = parent.copy();
        p.push(Part::name(found[i].as_str()));
        assert(p@.drop_last() =~= parent@);
        r.push(p);
        i = i + 1;
    }
    assert(last_names(views(r@)) =~= found@.map_values(|s: String| s@));
    proof {
        broadcast use vstd::seq_lib::to_multiset_contains;
        broadcast use vstd::seq::Seq::lemma_filter_pred;

        reveal_strlit(".removing-");
        assert(self::mark() =~= ".removing-"@);
        let fv = found@.map_values(|s: String| s@);
        let all = names@.map_values(|s: String| s@);
        let kept = all.filter(|t: Seq<char>| prefix@.is_prefix_of(t));
        assert forall|i: int| 0 <= i < r@.len() implies (location::file_name(path@) matches Some(n)
            && (n + ".removing-"@).is_prefix_of((#[trigger] r@[i])@.last().1)) by {
            let x = fv[i];
            assert(fv.contains(x));
            assert(fv.to_multiset().count(x) > 0);
            assert(kept.contains(x));
            let j = choose|j: int| 0 <= j < kept.len() && kept[j] == x;
            assert(prefix@.is_prefix_of(kept[j]));
            assert(r@[i]@.last().1 == x);
        }
    }
    r
}

/// A tombstone is found only under the path's own name followed by the mark: what a tombstone's
/// name begins with is `p`'s name and `.removing-`, so a neighbour that merely shares the name,
/// such as a backup, is never taken for one.
pub proof fn a_tombstone_is_named_after_its_path_and_the_mark(p: Parts)
    ensures
        location::file_name(p) is Some <==> tombstone_prefix(p) is Some,
        location::file_name(p) matches Some(n) ==> tombstone_prefix(p) == Some(n + ".removing-"@),
        forall|t: Seq<char>|
            tombstone_prefix(p) is Some && tombstone_prefix(p)->0.is_prefix_of(t) ==> #[trigger] is_tombstone_spec(
                location::with_file_name(p, t),
            ),
{
    reveal_strlit(".removing-");
    assert(mark() =~= ".removing-"@);
    assert forall|t: Seq<char>|
        tombstone_prefix(p) is Some && tombstone_prefix(p)->0.is_prefix_of(t) implies #[trigger] is_tombstone_spec(
        location::with_file_name(p, t),
    ) by {
        if tombstone_prefix(p) is Some {
            let n = location::file_name(p)->0;
            let q = location::with_file_name(p, t);
            assert(location::file_name(q) == Some(t));
            let pre = n + mark();
            assert(tombstone_prefix(p) == Some(pre));
            assert(pre.is_prefix_of(t));
            assert forall|j: int| 0 <= j < mark().len() implies t[n.len() + j] == mark()[j] by {
                assert(t[n.len() + j] == pre[n.len() + j]);
            }
            assert(t.subrange(n.len() as int, (n.len() + mark().len()) as int) =~= mark());
            assert(text::occurs_at(t, mark(), n.len() as int));
        }
    }
}

/// The name of the note the daemon `pid` leaves the reason its removal did not finish in.
pub open spec fn note_name_of(pid: u32) -> Seq<char> {
    "mixengined-"@ + text::decimal(pid as nat) + ".uninstall"@
}

/// Each daemon's note has a name of its own: two pids give one name only when they are one pid.
pub proof fn one_note_name_per_daemon(a: u32, b: u32)
    ensures
        note_name_of(a) == note_name_of(b) <==> a == b,
{
    if note_name_of(a) == note_name_of(b) {
        let p = "mixengined-"@;
        let s = ".uninstall"@;
        let da = text::decimal(a as nat);
        let db = text::decimal(b as nat);
        let x = note_name_of(a);
        let y = note_name_of(b);
        assert(x.len() == p.len() + da.len() + s.len());
        assert(y.len() == p.len() + db.len() + s.len());
        assert(x.subrange(p.len() as int, (p.len() + da.len()) as int) =~= da);
        assert(y.subrange(p.len() as int, (p.len() + db.len()) as int) =~= db);
        text::lemma_decimal_injective(a as nat, b as nat);
    }
}

/// The name of the note the daemon `pid` leaves the reason its removal did not finish in, found
/// by the pid a client already holds to wait for that process.
pub fn note_name(pid: u32) -> (r: String)
    ensures
        r@ == note_name_of(pid),
{
    let mut r = text::copy("mixengined-");
    let digits = text::decimal_text(pid as u64);
    r.append(digits.as_str());
    r.append(".uninstall");
    r
}


/// How many entries the search for what holds a refused directory looks at, at most: it runs once,
/// on a failure, over a home that can hold a great many files.
pub const LOOKED_AT_MOST: usize = 50000;

/// What to do with an entry the search for what holds a refused directory has just looked at.
#[derive(Clone, Copy, Debug, PartialEq, Eq, Structural)]
pub enum Look {
    /// A directory: look inside it too.
    Descend,
    /// Nothing to do with it.
    Pass,
    /// A held file: name it, with who holds it, and stop.
    Name,
    /// Enough has been looked at: look at nothing more in this directory.
    GiveUp,
}

/// A search through a refused directory for what another program holds open inside it.
///
/// A held file is named in preference to a directory, since a watched directory does not stop a
/// rename and a held file always does; so a directory is named only when no file was found, and
/// it is the first held one met, the refused directory itself first of all.
#[derive(Debug)]
pub struct HeldSearch {
    held_directory: Option<Location>,
    looked: usize,
}

impl View for HeldSearch {
    type V = (Option<Parts>, nat);

    closed spec fn view(&self) -> (Option<Parts>, nat) {
        (
            match &self.held_directory {
                Some(d) => Some(d@),
                None => None,
            },
            self.looked as nat,
        )
    }
}

impl HeldSearch {
    /// A search through `directory`, held itself or not.
    pub fn new(directory: &Location, held: bool) -> (r: HeldSearch)
        ensures
            r@ == (if held { Some(directory@) } else { None::<Parts> }, 0nat),
    {
        HeldSearch { held_directory: if held { Some(directory.copy()) } else { None }, looked: 0 }
    }

    /// Take in one entry: where it is, whether it is a directory, and whether another program
    /// holds it.
    pub fn look(&mut self, entry: &Location, is_directory: bool, held: bool) -> (r: Look)
        ensures
            final(self)@.1 == if old(self)@.1 > LOOKED_AT_MOST { old(self)@.1 } else { old(self)@.1
                + 1 },
            final(self)@.1 > LOOKED_AT_MOST ==> r == Look::GiveUp && final(self)@.0 == old(self)@.0,
            final(self)@.1 <= LOOKED_AT_MOST ==> {
                &&& r == if is_directory {
                    Look::Descend
                } else if held {
                    Look::Name
                } else {
                    Look::Pass
                }
                &&& final(self)@.0 == if is_directory && held && old(self)@.0 is None {
                    Some(entry@)
                } else {
                    old(self)@.0
                }
            },
    {
        if self.looked <= LOOKED_AT_MOST {
            self.looked = self.looked + 1;
        }
        if self.looked > LOOKED_AT_MOST {
            return Look::GiveUp;
        }
        if is_directory {
            if held && self.held_directory.is_none() {
                self.held_directory = Some(entry.copy());
            }
            Look::Descend
        } else if held {
            Look::Name
        } else {
            Look::Pass
        }
    }

    /// The held directory to name, when no held file was found.
    pub fn finish(self) -> (r: Option<Location>)
        ensures
            match r {
                Some(d) => self@.0 == Some(d@),
                None => self@.0 is None,
            },
    {
        self.held_directory
    }
}


/// How long to wait between two tries of a rename the system refused.
pub const RETRY_EVERY: u64 = 100;

/// Why the system would not rename something.
#[derive(Clone, Copy, Debug, PartialEq, Eq, Structural)]
pub enum RenameError {
    /// Access was denied, as it is to a directory somebody is in.
    PermissionDenied,
    /// Somebody else has it open without sharing it.
    SharingViolation,
    /// Anything else, which waiting does not change.
    Other,
}

/// Is a refused rename tried again? Only a refusal waiting can change — access denied, or a
/// sharing violation — and only while one more wait still fits in `patience`; all in
/// milliseconds, `waited` being how long it has been tried for.
pub fn rename_again(error: RenameError, waited: u64, patience: u64) -> (r: bool)
    ensures
        r == ((error == RenameError::PermissionDenied || error == RenameError::SharingViolation)
            && waited + RETRY_EVERY <= patience),
{
    let refused = match error {
        RenameError::PermissionDenied => true,
        RenameError::SharingViolation => true,
        RenameError::Other => false,
    };
    refused && patience >= RETRY_EVERY && waited <= patience - RETRY_EVERY
}

/// What removing the directories an uninstall armed does next.
#[derive(Clone, Copy, Debug, PartialEq, Eq, Structural)]
pub enum ArmedStep {
    /// Try the removal, with this much patience for each rename, lifting out first only what was
    /// asked for, or also every held item that can be moved.
    Try { patience: u64, lift_movable: bool },
    /// Stop, and say what is left.
    Done,
}

/// What removing the armed directories does after `tries` tries, the last refused or not: a
/// quick first try; on a refusal, one more, with whatever held can be moved lifted out first and
/// the full patience; then it is done.
pub fn armed_step(tries: u8, last_refused: bool) -> (r: ArmedStep)
    ensures
        tries == 0 ==> r == (ArmedStep::Try { patience: QUICK, lift_movable: false }),
        tries == 1 && last_refused ==> r == (ArmedStep::Try { patience: PATIENCE, lift_movable: true }),
        (tries == 1 && !last_refused) || tries >= 2 ==> r == ArmedStep::Done,
{
    if tries == 0 {
        ArmedStep::Try { patience: QUICK, lift_movable: false }
    } else if tries == 1 && last_refused {
        ArmedStep::Try { patience: PATIENCE, lift_movable: true }
    } else {
        ArmedStep::Done
    }
}

} // verus!
