//! Text: the handful of string operations the rest of the library is written in.

use vstd::prelude::*;

verus! {

/// The character for a decimal digit, `0` to `9`.
pub open spec fn digit_char(d: nat) -> char {
    if d == 0 { '0' }
    else if d == 1 { '1' }
    else if d == 2 { '2' }
    else if d == 3 { '3' }
    else if d == 4 { '4' }
    else if d == 5 { '5' }
    else if d == 6 { '6' }
    else if d == 7 { '7' }
    else if d == 8 { '8' }
    else { '9' }
}

/// `n` written in decimal, with no sign and no leading zero.
pub open spec fn decimal(n: nat) -> Seq<char>
    decreases n,
{
    if n < 10 {
        seq![digit_char(n)]
    } else {
        decimal(n / 10).push(digit_char(n % 10))
    }
}

/// Appends `c` to `s` — `String::push`.
#[verifier::external_body]
pub fn push_char(s: &mut String, c: char)
    ensures
        final(s)@ == old(s)@.push(c),
{
    s.push(c);
}

fn digit_of(d: u64) -> (r: char)
    requires
        d < 10,
    ensures
        r == digit_char(d as nat),
{
    if d == 0 { '0' }
    else if d == 1 { '1' }
    else if d == 2 { '2' }
    else if d == 3 { '3' }
    else if d == 4 { '4' }
    else if d == 5 { '5' }
    else if d == 6 { '6' }
    else if d == 7 { '7' }
    else if d == 8 { '8' }
    else { '9' }
}

/// `n` in decimal, as `u64::to_string` writes it: no sign, no padding, no leading zero.
pub fn decimal_text(n: u64) -> (r: String)
    ensures
        r@ == decimal(n as nat),
    decreases n,
{
    if n < 10 {
        let mut r = String::new();
        push_char(&mut r, digit_of(n));
        assert(r@ =~= seq![digit_char(n as nat)]);
        r
    } else {
        let mut r = decimal_text(n / 10);
        push_char(&mut r, digit_of(n % 10));
        r
    }
}

/// A copy of `s`.
pub fn copy(s: &str) -> (r: String)
    ensures
        r@ == s@,
{
    s.to_owned()
}

/// `a` followed by `b`.
pub fn concat(a: &str, b: &str) -> (r: String)
    ensures
        r@ == a@ + b@,
{
    let mut r = a.to_owned();
    r.append(b);
    r
}

/// The characters of `s`, one by one.
pub fn chars_of(s: &str) -> (r: Vec<char>)
    ensures
        r@ == s@,
{
    let n = s.unicode_len();
    let mut r: Vec<char> = Vec::new();
    let mut i: usize = 0;
    while i < n
        invariant
            n == s@.len(),
            i <= n,
            r@ == s@.take(i as int),
        decreases n - i,
    {
        let c = s.get_char(i);
        r.push(c);
        i = i + 1;
        assert(r@ =~= s@.take(i as int));
    }
    assert(r@ =~= s@);
    r
}

/// Does `hay` hold `needle` starting at `at`?
pub open spec fn occurs_at(hay: Seq<char>, needle: Seq<char>, at: int) -> bool {
    0 <= at && at + needle.len() <= hay.len() && hay.subrange(at, at + needle.len()) == needle
}

/// Does `hay` hold `needle` anywhere?
pub open spec fn holds(hay: Seq<char>, needle: Seq<char>) -> bool {
    exists|at: int| occurs_at(hay, needle, at)
}

fn occurs_at_exec(hay: &Vec<char>, needle: &Vec<char>, at: usize) -> (r: bool)
    requires
        at + needle@.len() <= hay@.len(),
    ensures
        r == occurs_at(hay@, needle@, at as int),
{
    let hl = hay.len();
    let mut j: usize = 0;
    while j < needle.len()
        invariant
            hl == hay@.len(),
            at + needle@.len() <= hay@.len(),
            j <= needle@.len(),
            forall|k: int| 0 <= k < j ==> hay@[at + k] == needle@[k],
        decreases needle@.len() - j,
    {
        if hay[at + j] != needle[j] {
            assert(hay@.subrange(at as int, at + needle@.len())[j as int] != needle@[j as int]);
            return false;
        }
        j = j + 1;
    }
    assert(hay@.subrange(at as int, at + needle@.len()) =~= needle@);
    true
}

/// Does `s` begin with `prefix`?
pub fn starts_with(s: &str, prefix: &str) -> (r: bool)
    ensures
        r == prefix@.is_prefix_of(s@),
{
    let hay = chars_of(s);
    let needle = chars_of(prefix);
    if needle.len() > hay.len() {
        return false;
    }
    let r = occurs_at_exec(&hay, &needle, 0);
    assert(r == occurs_at(s@, prefix@, 0));
    assert(prefix@.is_prefix_of(s@) ==> s@.subrange(0, prefix@.len() as int) =~= prefix@);
    r
}

/// Are `a` and `b` the same text?
pub fn same(a: &str, b: &str) -> (r: bool)
    ensures
        r == (a@ == b@),
{
    if a.unicode_len() != b.unicode_len() {
        return false;
    }
    let r = starts_with(a, b);
    assert(r ==> a@ =~= b@) by {
        if r {
            assert(a@.subrange(0, b@.len() as int) =~= a@);
        }
    }
    r
}

/// Does `s` end with `suffix`?
pub fn ends_with(s: &str, suffix: &str) -> (r: bool)
    ensures
        r == suffix@.is_suffix_of(s@),
{
    let hay = chars_of(s);
    let needle = chars_of(suffix);
    if needle.len() > hay.len() {
        return false;
    }
    let at = hay.len() - needle.len();
    let r = occurs_at_exec(&hay, &needle, at);
    assert(suffix@.is_suffix_of(s@) ==> s@.subrange(at as int, s@.len() as int) =~= suffix@);
    r
}

/// Does `s` hold `needle` anywhere?
pub fn contains(s: &str, needle: &str) -> (r: bool)
    ensures
        r == holds(s@, needle@),
{
    let hay = chars_of(s);
    let pin = chars_of(needle);
    if pin.len() > hay.len() {
        return false;
    }
    let last = hay.len() - pin.len();
    let mut at: usize = 0;
    let hl = hay.len();
    loop
        invariant
            hl == hay@.len(),
            last + pin@.len() == hay@.len(),
            hay@ == s@,
            pin@ == needle@,
            at <= last,
            forall|k: int| 0 <= k < at ==> !occurs_at(s@, needle@, k),
        ensures
            forall|k: int| 0 <= k <= last ==> !occurs_at(s@, needle@, k),
        decreases last - at,
    {
        if occurs_at_exec(&hay, &pin, at) {
            return true;
        }
        if at == last {
            break;
        }
        at = at + 1;
    }
    assert forall|k: int| !occurs_at(s@, needle@, k) by {
        if 0 <= k && k + needle@.len() <= s@.len() {
            assert(k <= last);
        }
    }
    false
}

} // verus!

verus! {

/// Does `a` come before `b`, comparing character by character and a prefix before what extends it?
pub open spec fn precedes(a: Seq<char>, b: Seq<char>) -> bool
    decreases a.len(),
{
    if a.len() == 0 {
        b.len() > 0
    } else if b.len() == 0 {
        false
    } else if a[0] != b[0] {
        a[0] < b[0]
    } else {
        precedes(a.drop_first(), b.drop_first())
    }
}

/// Is every text in `s` at or after the ones before it?
pub open spec fn in_order(s: Seq<Seq<char>>) -> bool {
    forall|i: int, j: int| 0 <= i < j < s.len() ==> !precedes(#[trigger] s[j], #[trigger] s[i])
}

proof fn lemma_precedes_skip(a: Seq<char>, b: Seq<char>, i: int)
    requires
        0 <= i <= a.len(),
        i <= b.len(),
        forall|k: int| 0 <= k < i ==> a[k] == b[k],
    ensures
        precedes(a, b) == precedes(a.skip(i), b.skip(i)),
    decreases i,
{
    if i > 0 {
        lemma_precedes_skip(a.drop_first(), b.drop_first(), i - 1);
        assert(a.drop_first().skip(i - 1) =~= a.skip(i));
        assert(b.drop_first().skip(i - 1) =~= b.skip(i));
    } else {
        assert(a.skip(0) =~= a);
        assert(b.skip(0) =~= b);
    }
}

/// Coming before is transitive.
pub proof fn lemma_precedes_transitive(a: Seq<char>, b: Seq<char>, c: Seq<char>)
    requires
        precedes(a, b),
        precedes(b, c),
    ensures
        precedes(a, c),
    decreases a.len(),
{
    if a.len() > 0 && b.len() > 0 && c.len() > 0 && a[0] == b[0] && b[0] == c[0] {
        lemma_precedes_transitive(a.drop_first(), b.drop_first(), c.drop_first());
    }
}

/// Nothing comes before itself.
pub proof fn lemma_precedes_irreflexive(a: Seq<char>)
    ensures
        !precedes(a, a),
    decreases a.len(),
{
    if a.len() > 0 {
        lemma_precedes_irreflexive(a.drop_first());
    }
}

/// Of two different texts, one comes before the other.
pub proof fn lemma_precedes_total(a: Seq<char>, b: Seq<char>)
    requires
        a != b,
    ensures
        precedes(a, b) || precedes(b, a),
    decreases a.len(),
{
    if a.len() > 0 && b.len() > 0 && a[0] == b[0] {
        if a.drop_first() == b.drop_first() {
            assert(a =~= seq![a[0]] + a.drop_first());
            assert(b =~= seq![b[0]] + b.drop_first());
        }
        lemma_precedes_total(a.drop_first(), b.drop_first());
    } else if a.len() == 0 && b.len() == 0 {
        assert(a =~= b);
    } else if a.len() > 0 && b.len() > 0 {
        assert(a[0] != b[0]);
        
    }
}

/// Does `a` come before `b`?
pub fn text_precedes(a: &str, b: &str) -> (r: bool)
    ensures
        r == precedes(a@, b@),
{
    let x = chars_of(a);
    let y = chars_of(b);
    let mut i: usize = 0;
    while i < x.len() && i < y.len()
        invariant
            x@ == a@,
            y@ == b@,
            i <= x@.len(),
            i <= y@.len(),
            forall|k: int| 0 <= k < i ==> x@[k] == y@[k],
        decreases x@.len() - i,
    {
        if x[i] != y[i] {
            proof {
                lemma_precedes_skip(a@, b@, i as int);
                assert(a@.skip(i as int)[0] == x@[i as int]);
                assert(b@.skip(i as int)[0] == y@[i as int]);
            }
            return x[i] < y[i];
        }
        i = i + 1;
    }
    proof {
        lemma_precedes_skip(a@, b@, i as int);
    }
    i < y.len()
}

/// `v`, put in order.
pub fn sort_texts(v: Vec<String>) -> (r: Vec<String>)
    ensures
        r@.map_values(|s: String| s@).to_multiset() == v@.map_values(|s: String| s@).to_multiset(),
        in_order(r@.map_values(|s: String| s@)),
{
    broadcast use vstd::seq_lib::group_to_multiset_ensures;

    let ghost input = v@.map_values(|s: String| s@);
    let mut r: Vec<String> = Vec::new();
    let mut i: usize = 0;
    while i < v.len()
        invariant
            input == v@.map_values(|s: String| s@),
            i <= v@.len(),
            r@.map_values(|s: String| s@).to_multiset() == input.take(i as int).to_multiset(),
            in_order(r@.map_values(|s: String| s@)),
        decreases v@.len() - i,
    {
        let x = v[i].clone();
        let ghost rv = r@.map_values(|s: String| s@);
        let mut p: usize = 0;
        while p < r.len() && !text_precedes(x.as_str(), r[p].as_str())
            invariant
                rv == r@.map_values(|s: String| s@),
                p <= r@.len(),
                forall|k: int| 0 <= k < p ==> !precedes(x@, #[trigger] rv[k]),
            decreases r@.len() - p,
        {
            p = p + 1;
        }
        r.insert(p, x);
        proof {
            let nv = r@.map_values(|s: String| s@);
            assert(nv =~= rv.insert(p as int, x@));
            assert(input.take(i + 1) =~= input.take(i as int).push(input[i as int]));
            assert(x@ == input[i as int]);
            vstd::seq_lib::to_multiset_insert(rv, p as int, x@);
            vstd::seq_lib::to_multiset_build(input.take(i as int), input[i as int]);
            assert forall|a: int, b: int| 0 <= a < b < nv.len() implies !precedes(
                #[trigger] nv[b],
                #[trigger] nv[a],
            ) by {
                if a < p && b == p {
                } else if a == p && b > p {
                    if precedes(nv[b], x@) {
                        assert(precedes(x@, rv[p as int]));
                        lemma_precedes_transitive(nv[b], x@, rv[p as int]);
                        assert(nv[b] == rv[b - 1]);
                        if b - 1 > p {
                            assert(!precedes(rv[b - 1], rv[p as int]));
                        } else {
                            lemma_precedes_irreflexive(rv[p as int]);
                        }
                    }
                } else if a < p && b > p {
                    assert(nv[a] == rv[a] && nv[b] == rv[b - 1]);
                } else if b < p {
                    assert(nv[a] == rv[a] && nv[b] == rv[b]);
                } else {
                    assert(nv[a] == rv[a - 1] && nv[b] == rv[b - 1]);
                }
            }
        }
        i = i + 1;
    }
    assert(input.take(v@.len() as int) =~= input);
    r
}

} // verus!

verus! {

/// Keeping what `p` holds of the first `j + 1` of `s` is keeping it of the first `j`, then of the
/// next one.
pub proof fn lemma_filter_step<A>(s: Seq<A>, p: spec_fn(A) -> bool, j: int)
    requires
        0 <= j < s.len(),
    ensures
        s.take(j + 1).filter(p) == s.take(j).filter(p) + (if p(s[j]) {
            seq![s[j]]
        } else {
            Seq::<A>::empty()
        }),
{
    reveal(Seq::filter);
    assert(s.take(j + 1).drop_last() =~= s.take(j));
    if p(s[j]) {
        assert(s.take(j + 1).filter(p) =~= s.take(j).filter(p) + seq![s[j]]);
    } else {
        assert(s.take(j + 1).filter(p) =~= s.take(j).filter(p) + Seq::<A>::empty());
    }
}

/// The texts of `v` that begin with `prefix`, in the order they come in.
pub fn keep_starting_with(v: &Vec<String>, prefix: &str) -> (r: Vec<String>)
    ensures
        r@.map_values(|s: String| s@) == v@.map_values(|s: String| s@).filter(
            |t: Seq<char>| prefix@.is_prefix_of(t),
        ),
{
    let ghost all = v@.map_values(|s: String| s@);
    let ghost keep = |t: Seq<char>| prefix@.is_prefix_of(t);
    let mut r: Vec<String> = Vec::new();
    let mut i: usize = 0;
    while i < v.len()
        invariant
            all == v@.map_values(|s: String| s@),
            keep == (|t: Seq<char>| prefix@.is_prefix_of(t)),
            i <= v@.len(),
            r@.map_values(|s: String| s@) == all.take(i as int).filter(keep),
        decreases v@.len() - i,
    {
        proof {
            lemma_filter_step(all, keep, i as int);
        }
        let ghost before = r@.map_values(|s: String| s@);
        if starts_with(v[i].as_str(), prefix) {
            r.push(v[i].clone());
            assert(r@.map_values(|s: String| s@) =~= before.push(all[i as int]));
        }
        assert(r@.map_values(|s: String| s@) =~= all.take(i + 1).filter(keep));
        i = i + 1;
    }
    assert(all.take(v@.len() as int) =~= all);
    r
}

} // verus!

verus! {

/// `items` one after another, `separator` between each two.
pub open spec fn joined(items: Seq<Seq<char>>, separator: Seq<char>) -> Seq<char>
    decreases items.len(),
{
    if items.len() == 0 {
        Seq::empty()
    } else if items.len() == 1 {
        items[0]
    } else {
        joined(items.drop_last(), separator) + separator + items.last()
    }
}

/// `items` one after another, `separator` between each two.
pub fn join(items: &Vec<String>, separator: &str) -> (r: String)
    ensures
        r@ == joined(items@.map_values(|s: String| s@), separator@),
{
    let ghost v = items@.map_values(|s: String| s@);
    let mut r = String::new();
    let mut i: usize = 0;
    while i < items.len()
        invariant
            v == items@.map_values(|s: String| s@),
            i <= items@.len(),
            r@ == joined(v.take(i as int), separator@),
        decreases items@.len() - i,
    {
        assert(v.take(i + 1).drop_last() =~= v.take(i as int));
        if i > 0 {
            r.append(separator);
        }
        r.append(items[i].as_str());
        i = i + 1;
        assert(r@ =~= joined(v.take(i as int), separator@));
    }
    assert(v.take(items@.len() as int) =~= v);
    r
}

/// What `str::to_lowercase` makes of a text: each character's lower case by Unicode's tables.
pub uninterp spec fn lowercased(s: Seq<char>) -> Seq<char>;

/// `s` in lower case — `str::to_lowercase`, whose result depends on the text alone.
#[verifier::external_body]
pub(crate) fn lowercase(s: &str) -> (r: String)
    ensures
        r@ == lowercased(s@),
{
    s.to_lowercase()
}

/// Does `s` hold a line break?
pub open spec fn breaks(s: Seq<char>) -> bool
    decreases s.len(),
{
    if s.len() == 0 {
        false
    } else {
        s[0] == '\n' || breaks(s.drop_first())
    }
}

/// Holding a line break is holding `'\n'`.
pub proof fn lemma_breaks(s: Seq<char>)
    ensures
        breaks(s) <==> s.contains('\n'),
    decreases s.len(),
{
    if s.len() > 0 {
        lemma_breaks(s.drop_first());
        if s.drop_first().contains('\n') {
            let k = choose|k: int| 0 <= k < s.drop_first().len() && s.drop_first()[k] == '\n';
            assert(s[k + 1] == '\n');
        }
        if s.contains('\n') && s[0] != '\n' {
            let k = choose|k: int| 0 <= k < s.len() && s[k] == '\n';
            assert(s.drop_first()[k - 1] == '\n');
        }
    }
}

/// Two texts without a line break make one without.
pub proof fn lemma_one_line_add(a: Seq<char>, b: Seq<char>)
    requires
        !a.contains('\n'),
        !b.contains('\n'),
    ensures
        !(a + b).contains('\n'),
{
    if (a + b).contains('\n') {
        let k = choose|k: int| 0 <= k < (a + b).len() && (a + b)[k] == '\n';
        if k < a.len() {
            assert(a[k] == '\n');
        } else {
            assert(b[k - a.len()] == '\n');
        }
    }
}


/// Where `c` first is among the first `n` characters of `s`.
pub open spec fn first_at(s: Seq<char>, c: char, n: nat) -> Option<int>
    decreases n,
{
    if n == 0 {
        None
    } else {
        match first_at(s, c, (n - 1) as nat) {
            Some(k) => Some(k),
            None => if s[n - 1] == c {
                Some(n - 1)
            } else {
                None
            },
        }
    }
}

/// `s` split at the first `c`: what is before it and what is after it.
pub open spec fn split_at_first(s: Seq<char>, c: char) -> Option<(Seq<char>, Seq<char>)> {
    match first_at(s, c, s.len()) {
        Some(k) => Some((s.take(k), s.skip(k + 1))),
        None => None,
    }
}

proof fn lemma_first_at_stays(s: Seq<char>, c: char, k: nat, n: nat)
    requires
        k < n <= s.len(),
        first_at(s, c, (k + 1) as nat) == Some(k as int),
    ensures
        first_at(s, c, n) == Some(k as int),
    decreases n - k,
{
    if n > k + 1 {
        lemma_first_at_stays(s, c, k, (n - 1) as nat);
    }
}

/// `s` split at the first `c` — `str::split_once` with a character.
pub fn split_once(s: &str, c: char) -> (r: Option<(String, String)>)
    ensures
        match r {
            Some((before, after)) => split_at_first(s@, c) == Some((before@, after@)),
            None => split_at_first(s@, c) is None,
        },
{
    let chars = chars_of(s);
    let mut k: usize = 0;
    while k < chars.len()
        invariant
            chars@ == s@,
            k <= chars@.len(),
            first_at(s@, c, k as nat) is None,
        decreases chars@.len() - k,
    {
        if chars[k] == c {
            proof {
                lemma_first_at_stays(s@, c, k as nat, s@.len());
            }
            let mut before = String::new();
            let mut i: usize = 0;
            while i < k
                invariant
                    chars@ == s@,
                    i <= k < chars@.len(),
                    before@ == s@.take(i as int),
                decreases k - i,
            {
                push_char(&mut before, chars[i]);
                i = i + 1;
                assert(before@ =~= s@.take(i as int));
            }
            let mut after = String::new();
            let mut j: usize = k + 1;
            while j < chars.len()
                invariant
                    chars@ == s@,
                    k + 1 <= j <= chars@.len(),
                    after@ == s@.subrange(k + 1, j as int),
                decreases chars@.len() - j,
            {
                push_char(&mut after, chars[j]);
                j = j + 1;
                assert(after@ =~= s@.subrange(k + 1, j as int));
            }
            assert(after@ =~= s@.skip(k + 1));
            return Some((before, after));
        }
        k = k + 1;
    }
    None
}

/// The number the digits `d` write.
pub open spec fn value_of(d: Seq<char>) -> nat
    decreases d.len(),
{
    if d.len() == 0 {
        0
    } else {
        value_of(d.drop_last()) * 10 + ((d.last() as int) - ('0' as int)) as nat
    }
}

/// Every character of a number written in decimal is a digit.
pub proof fn lemma_decimal_digits(n: nat)
    ensures
        forall|k: int| 0 <= k < decimal(n).len() ==> '0' <= #[trigger] decimal(n)[k] <= '9',
        decimal(n).len() > 0,
    decreases n,
{
    if n >= 10 {
        lemma_decimal_digits(n / 10);
    }
}

/// A number written in decimal reads back as itself.
pub proof fn lemma_decimal_value(n: nat)
    ensures
        value_of(decimal(n)) == n,
    decreases n,
{
    if n >= 10 {
        lemma_decimal_value(n / 10);
        let d = decimal(n);
        assert(d.drop_last() =~= decimal(n / 10));
        assert(d.last() == digit_char(n % 10));
        assert((digit_char(n % 10) as int) - ('0' as int) == n % 10);
        assert((n / 10) * 10 + n % 10 == n) by (nonlinear_arith);
        assert(value_of(d) == value_of(d.drop_last()) * 10 + ((d.last() as int) - ('0' as int)) as nat);
    } else {
        let d = decimal(n);
        assert(d.drop_last() =~= Seq::<char>::empty());
        assert(value_of(d.drop_last()) == 0);
        assert((digit_char(n) as int) - ('0' as int) == n);
        assert(value_of(d) == value_of(d.drop_last()) * 10 + ((d.last() as int) - ('0' as int)) as nat);
    }
}

/// Two numbers written the same way in decimal are the same number.
pub proof fn lemma_decimal_injective(a: nat, b: nat)
    requires
        decimal(a) == decimal(b),
    ensures
        a == b,
{
    lemma_decimal_value(a);
    lemma_decimal_value(b);
}

} // verus!
