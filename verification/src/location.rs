//! Where something is on disk, as the sequence of components a path is made of.
//!
//! Two spellings of one path name the same place exactly when their components are equal, which is
//! how paths are compared throughout: one lies inside another when the other's components begin it,
//! and its depth is how many it has.

use vstd::prelude::*;

use crate::text;

verus! {

/// What a component of a path is.
#[derive(Clone, Copy, Debug, PartialEq, Eq, Structural)]
pub enum PartKind {
    /// A drive or share a path starts from, such as `C:`.
    Prefix,
    /// The root directory.
    Root,
    /// `.`
    Current,
    /// `..`
    Parent,
    /// A name.
    Normal,
}

/// One component of a path: what it is, and how it is spelled.
#[derive(Debug)]
pub struct Part {
    pub kind: PartKind,
    pub text: String,
}

/// A component as the contracts see it.
pub type PartView = (PartKind, Seq<char>);

impl View for Part {
    type V = PartView;

    open spec fn view(&self) -> PartView {
        (self.kind, self.text@)
    }
}

impl Part {
    /// A component of `kind`, spelled `text`.
    pub fn new(kind: PartKind, text: &str) -> (r: Part)
        ensures
            r@ == (kind, text@),
    {
        Part { kind, text: text::copy(text) }
    }

    /// A name.
    pub fn name(text: &str) -> (r: Part)
        ensures
            r@ == (PartKind::Normal, text@),
    {
        Part::new(PartKind::Normal, text)
    }

    /// An equal copy.
    pub fn copy(&self) -> (r: Part)
        ensures
            r@ == self@,
    {
        Part { kind: self.kind, text: self.text.clone() }
    }

    /// Are the two the same component?
    pub fn same(&self, other: &Part) -> (r: bool)
        ensures
            r == (self@ == other@),
    {
        self.kind == other.kind && self.text == other.text
    }
}

/// A path, as its components.
#[derive(Debug)]
pub struct Location {
    pub parts: Vec<Part>,
}

/// The components of a path, as the contracts see them.
pub type Parts = Seq<PartView>;

impl View for Location {
    type V = Parts;

    open spec fn view(&self) -> Parts {
        self.parts@.map_values(|p: Part| p@)
    }
}

/// A component spelled in lower case, for comparing where the file system ignores case.
pub open spec fn folded_part(c: PartView) -> PartView {
    (c.0, text::lowercased(c.1))
}

/// Every component of `p` spelled in lower case: as many components, of the same kinds.
pub open spec fn folded(p: Parts) -> Parts {
    Seq::new(p.len(), |i: int| folded_part(p[i]))
}

/// The last component's name, when the last component is a name.
pub open spec fn file_name(p: Parts) -> Option<Seq<char>> {
    if p.len() > 0 && p.last().0 == PartKind::Normal {
        Some(p.last().1)
    } else {
        None
    }
}

/// `p` with its name replaced by `name`, or with `name` added where it has none.
pub open spec fn with_file_name(p: Parts, name: Seq<char>) -> Parts {
    let base = if file_name(p) is Some { p.drop_last() } else { p };
    base.push((PartKind::Normal, name))
}

/// `p` with `suffix` written onto the end of its last component.
pub open spec fn with_suffix(p: Parts, suffix: Seq<char>) -> Parts
    recommends
        p.len() > 0,
{
    p.update(p.len() - 1, (p.last().0, p.last().1 + suffix))
}

/// Does a separator go between a component of kind `before` and one of kind `next`?
pub open spec fn separated(before: PartKind, next: PartKind) -> bool {
    before != PartKind::Prefix && before != PartKind::Root && next != PartKind::Root
}

/// `p` written out, `separator` between two components that need one.
pub open spec fn display(p: Parts, separator: char) -> Seq<char>
    decreases p.len(),
{
    if p.len() == 0 {
        Seq::empty()
    } else if p.len() == 1 {
        p[0].1
    } else {
        let front = p.drop_last();
        if separated(front.last().0, p.last().0) {
            display(front, separator).push(separator) + p.last().1
        } else {
            display(front, separator) + p.last().1
        }
    }
}

impl Location {
    /// The empty path.
    pub fn empty() -> (r: Location)
        ensures
            r@ == Seq::<PartView>::empty(),
    {
        Location { parts: Vec::new() }
    }

    /// `self` with one more component.
    pub fn push(&mut self, part: Part)
        ensures
            final(self)@ == old(self)@.push(part@),
    {
        self.parts.push(part);
        assert(self@ =~= old(self)@.push(part@));
    }

    /// An equal copy.
    pub fn copy(&self) -> (r: Location)
        ensures
            r@ == self@,
    {
        let mut r = Location::empty();
        let mut i: usize = 0;
        while i < self.parts.len()
            invariant
                i <= self@.len(),
                self@.len() == self.parts@.len(),
                r@ == self@.take(i as int),
            decreases self.parts@.len() - i,
        {
            r.push(self.parts[i].copy());
            i = i + 1;
            assert(r@ =~= self@.take(i as int));
        }
        assert(r@ =~= self@);
        r
    }

    /// The same components, each spelled in lower case.
    pub fn fold(&self) -> (r: Location)
        ensures
            r@ == folded(self@),
    {
        let mut r = Location::empty();
        let mut i: usize = 0;
        while i < self.parts.len()
            invariant
                i <= self@.len(),
                self@.len() == self.parts@.len(),
                r@ == folded(self@).take(i as int),
            decreases self.parts@.len() - i,
        {
            let part = &self.parts[i];
            assert(self@[i as int] == part@);
            r.push(Part { kind: part.kind, text: text::lowercase(part.text.as_str()) });
            i = i + 1;
            assert(r@ =~= folded(self@).take(i as int));
        }
        assert(r@ =~= folded(self@));
        r
    }

    /// How many components.
    pub fn depth(&self) -> (r: usize)
        ensures
            r == self@.len(),
    {
        self.parts.len()
    }

    /// Do the two name the same place?
    pub fn same(&self, other: &Location) -> (r: bool)
        ensures
            r == (self@ == other@),
    {
        if self.parts.len() != other.parts.len() {
            assert(self@.len() != other@.len());
            return false;
        }
        let r = self.starts_with(other);
        assert(r ==> self@ =~= other@);
        r
    }

    /// Does `self` lie at or under `base`, component by component?
    pub fn starts_with(&self, base: &Location) -> (r: bool)
        ensures
            r == base@.is_prefix_of(self@),
    {
        if base.parts.len() > self.parts.len() {
            return false;
        }
        let mut i: usize = 0;
        while i < base.parts.len()
            invariant
                base@.len() <= self@.len(),
                self@.len() == self.parts@.len(),
                base@.len() == base.parts@.len(),
                i <= base@.len(),
                forall|k: int| 0 <= k < i ==> self@[k] == base@[k],
            decreases base.parts@.len() - i,
        {
            if !self.parts[i].same(&base.parts[i]) {
                assert(self@[i as int] != base@[i as int]);
                return false;
            }
            i = i + 1;
        }
        true
    }

    /// The last component's name, when it is a name.
    pub fn file_name(&self) -> (r: Option<String>)
        ensures
            match r {
                Some(name) => file_name(self@) == Some(name@),
                None => file_name(self@) is None,
            },
    {
        let n = self.parts.len();
        if n > 0 && self.parts[n - 1].kind == PartKind::Normal {
            Some(self.parts[n - 1].text.clone())
        } else {
            None
        }
    }

    /// `self` with its name replaced by `name`, or with `name` added where it has none.
    pub fn with_file_name(&self, name: &str) -> (r: Location)
        ensures
            r@ == with_file_name(self@, name@),
    {
        let mut r = self.copy();
        if self.file_name().is_some() {
            r.parts.pop();
            assert(r@ =~= self@.drop_last());
        }
        r.push(Part::name(name));
        r
    }

    /// `self` with `suffix` written onto the end of its last component.
    pub fn with_suffix(&self, suffix: &str) -> (r: Location)
        requires
            self@.len() > 0,
        ensures
            r@ == with_suffix(self@, suffix@),
    {
        let mut r = self.copy();
        let last = r.parts.pop().unwrap();
        let text = text::concat(last.text.as_str(), suffix);
        r.push(Part { kind: last.kind, text });
        assert(r@ =~= with_suffix(self@, suffix@));
        r
    }

    /// `self` with `rest` added after it.
    pub fn join(&self, rest: &[Part]) -> (r: Location)
        ensures
            r@ == self@ + rest@.map_values(|p: Part| p@),
    {
        let mut r = self.copy();
        let mut i: usize = 0;
        while i < rest.len()
            invariant
                i <= rest@.len(),
                r@ == self@ + rest@.map_values(|p: Part| p@).take(i as int),
            decreases rest@.len() - i,
        {
            r.push(rest[i].copy());
            i = i + 1;
            assert(r@ =~= self@ + rest@.map_values(|p: Part| p@).take(i as int));
        }
        assert(rest@.map_values(|p: Part| p@).take(rest@.len() as int) =~= rest@.map_values(|p: Part| p@));
        r
    }

    /// `self` written out with `separator` between components that need one.
    pub fn display(&self, separator: char) -> (r: String)
        ensures
            r@ == display(self@, separator),
    {
        let mut r = String::new();
        let mut i: usize = 0;
        while i < self.parts.len()
            invariant
                i <= self@.len(),
                self@.len() == self.parts@.len(),
                r@ == display(self@.take(i as int), separator),
            decreases self.parts@.len() - i,
        {
            let ghost before = self@.take(i as int);
            let ghost after = self@.take(i + 1);
            assert(after.drop_last() =~= before);
            if i > 0 && self.parts[i - 1].kind != PartKind::Prefix
                && self.parts[i - 1].kind != PartKind::Root
                && self.parts[i].kind != PartKind::Root
            {
                text::push_char(&mut r, separator);
            }
            r.append(self.parts[i].text.as_str());
            i = i + 1;
            assert(r@ =~= display(after, separator));
        }
        assert(self@.take(self@.len() as int) =~= self@);
        r
    }
}


/// Where a kind of component stands when paths are put in order: a prefix, the root, `.`, `..`,
/// then names.
pub open spec fn kind_rank(k: PartKind) -> int {
    match k {
        PartKind::Prefix => 0,
        PartKind::Root => 1,
        PartKind::Current => 2,
        PartKind::Parent => 3,
        PartKind::Normal => 4,
    }
}

/// Does component `x` come before component `y`: by kind, then by spelling?
pub open spec fn part_precedes(x: PartView, y: PartView) -> bool {
    kind_rank(x.0) < kind_rank(y.0) || (x.0 == y.0 && text::precedes(x.1, y.1))
}

/// Does path `a` come before path `b`, component by component, a path before what extends it?
pub open spec fn path_precedes(a: Parts, b: Parts) -> bool
    decreases a.len(),
{
    if a.len() == 0 {
        b.len() > 0
    } else if b.len() == 0 {
        false
    } else if a[0] != b[0] {
        part_precedes(a[0], b[0])
    } else {
        path_precedes(a.drop_first(), b.drop_first())
    }
}

proof fn lemma_part_order(x: PartView, y: PartView, z: PartView)
    ensures
        !part_precedes(x, x),
        part_precedes(x, y) && part_precedes(y, z) ==> part_precedes(x, z),
        x != y ==> part_precedes(x, y) || part_precedes(y, x),
{
    text::lemma_precedes_irreflexive(x.1);
    if part_precedes(x, y) && part_precedes(y, z) && x.0 == y.0 && y.0 == z.0 {
        text::lemma_precedes_transitive(x.1, y.1, z.1);
    }
    if x != y && x.0 == y.0 {
        text::lemma_precedes_total(x.1, y.1);
    }
}

/// Nothing comes before itself.
pub proof fn lemma_path_irreflexive(a: Parts)
    ensures
        !path_precedes(a, a),
    decreases a.len(),
{
    if a.len() > 0 {
        lemma_path_irreflexive(a.drop_first());
    }
}

/// Coming before is transitive.
pub proof fn lemma_path_transitive(a: Parts, b: Parts, c: Parts)
    requires
        path_precedes(a, b),
        path_precedes(b, c),
    ensures
        path_precedes(a, c),
    decreases a.len(),
{
    if a.len() > 0 && b.len() > 0 && c.len() > 0 {
        lemma_part_order(a[0], b[0], c[0]);
        if a[0] == b[0] && b[0] == c[0] {
            lemma_path_transitive(a.drop_first(), b.drop_first(), c.drop_first());
        }
    }
}

/// Of two different paths, one comes before the other.
pub proof fn lemma_path_total(a: Parts, b: Parts)
    requires
        a != b,
    ensures
        path_precedes(a, b) || path_precedes(b, a),
    decreases a.len(),
{
    if a.len() > 0 && b.len() > 0 {
        if a[0] == b[0] {
            if a.drop_first() == b.drop_first() {
                assert(a =~= seq![a[0]] + a.drop_first());
                assert(b =~= seq![b[0]] + b.drop_first());
            }
            lemma_path_total(a.drop_first(), b.drop_first());
        } else {
            lemma_part_order(a[0], b[0], b[0]);
        }
    } else if a.len() == 0 && b.len() == 0 {
        assert(a =~= b);
    }
}

proof fn lemma_path_skip(a: Parts, b: Parts, i: int)
    requires
        0 <= i <= a.len(),
        i <= b.len(),
        forall|k: int| 0 <= k < i ==> a[k] == b[k],
    ensures
        path_precedes(a, b) == path_precedes(a.skip(i), b.skip(i)),
    decreases i,
{
    if i > 0 {
        lemma_path_skip(a.drop_first(), b.drop_first(), i - 1);
        assert(a.drop_first().skip(i - 1) =~= a.skip(i));
        assert(b.drop_first().skip(i - 1) =~= b.skip(i));
    } else {
        assert(a.skip(0) =~= a);
        assert(b.skip(0) =~= b);
    }
}

fn rank(k: PartKind) -> (r: u8)
    ensures
        r == kind_rank(k),
{
    match k {
        PartKind::Prefix => 0,
        PartKind::Root => 1,
        PartKind::Current => 2,
        PartKind::Parent => 3,
        PartKind::Normal => 4,
    }
}

impl Location {
    /// Does `self` come before `other`, component by component?
    pub fn precedes(&self, other: &Location) -> (r: bool)
        ensures
            r == path_precedes(self@, other@),
    {
        let mut i: usize = 0;
        while i < self.parts.len() && i < other.parts.len()
            invariant
                self@.len() == self.parts@.len(),
                other@.len() == other.parts@.len(),
                i <= self@.len(),
                i <= other@.len(),
                forall|k: int| 0 <= k < i ==> self@[k] == other@[k],
            decreases self.parts@.len() - i,
        {
            let x = &self.parts[i];
            let y = &other.parts[i];
            if !x.same(y) {
                proof {
                    lemma_path_skip(self@, other@, i as int);
                    assert(self@.skip(i as int)[0] == x@);
                    assert(other@.skip(i as int)[0] == y@);
                }
                let (a, b) = (rank(x.kind), rank(y.kind));
                if a != b {
                    return a < b;
                }
                proof {
                    assert(x.kind == y.kind) by {
                        match x.kind {
                            PartKind::Prefix => {},
                            PartKind::Root => {},
                            PartKind::Current => {},
                            PartKind::Parent => {},
                            PartKind::Normal => {},
                        }
                    }
                }
                return text::text_precedes(x.text.as_str(), y.text.as_str());
            }
            i = i + 1;
        }
        proof {
            lemma_path_skip(self@, other@, i as int);
        }
        i < other.parts.len()
    }
}

} // verus!
