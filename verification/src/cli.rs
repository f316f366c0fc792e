//! What `mix` decides on its own, before and after it asks the daemon anything: how a length of
//! time is read, how text is spelled for a reader that only knows ASCII, what a question says and
//! what an answer, or the lack of one, means.

use vstd::prelude::*;

use crate::inventory::{Removal, Residue, ResidueId, Row, Outcome, UninstallQuery};
use crate::location::{self, Location, Part, PartKind, Parts};
use crate::text;
use crate::tombstone::{self, views};

verus! {

/// How a character is spelled in plain text: the dashes, the curly quotes and the ellipsis `mix`
/// and the daemon write, in ASCII, and every other character as it is.
pub open spec fn ascii_of(c: char) -> Seq<char> {
    if c == '\u{2014}' || c == '\u{2013}' || c == '\u{2012}' || c == '\u{2212}' {
        seq!['-']
    } else if c == '\u{2018}' || c == '\u{2019}' {
        seq!['\'']
    } else if c == '\u{201C}' || c == '\u{201D}' {
        seq!['"']
    } else if c == '\u{2026}' {
        seq!['.', '.', '.']
    } else {
        seq![c]
    }
}

/// `s` spelled in plain text, character by character.
pub open spec fn plain_of(s: Seq<char>) -> Seq<char>
    decreases s.len(),
{
    if s.len() == 0 {
        Seq::empty()
    } else {
        plain_of(s.drop_last()) + ascii_of(s.last())
    }
}

/// Is `c` one of the typographic characters plain text spells otherwise?
pub open spec fn typographic(c: char) -> bool {
    c == '\u{2014}' || c == '\u{2013}' || c == '\u{2012}' || c == '\u{2212}' || c == '\u{2018}'
        || c == '\u{2019}' || c == '\u{201C}' || c == '\u{201D}' || c == '\u{2026}'
}

proof fn lemma_plain_step(s: Seq<char>, i: int)
    requires
        0 <= i < s.len(),
    ensures
        plain_of(s.take(i + 1)) == plain_of(s.take(i)) + ascii_of(s[i]),
{
    assert(s.take(i + 1).drop_last() =~= s.take(i));
}

/// `text` with the typographic characters `mix` and the daemon write — dashes, curly quotes, the
/// ellipsis — spelled in ASCII, and everything else, a person's name in a path included, as it
/// was. Nothing typographic is left.
pub fn plain_text(text: &str) -> (r: String)
    ensures
        r@ == plain_of(text@),
        forall|k: int| 0 <= k < r@.len() ==> !typographic(#[trigger] r@[k]),
            // only when nothing typographic was there to begin with does the text come back as it was
        (forall|k: int| 0 <= k < text@.len() ==> !typographic(#[trigger] text@[k])) ==> r@
            == text@,
{
    let chars = text::chars_of(text);
    let mut plain = String::new();
    let mut i: usize = 0;
    while i < chars.len()
        invariant
            chars@ == text@,
            i <= chars@.len(),
            plain@ == plain_of(text@.take(i as int)),
            forall|k: int| 0 <= k < plain@.len() ==> !typographic(#[trigger] plain@[k]),
            (forall|k: int| 0 <= k < i ==> !typographic(#[trigger] text@[k])) ==> plain@
                == text@.take(i as int),
        decreases chars@.len() - i,
    {
        proof {
            lemma_plain_step(text@, i as int);
        }
        let c = chars[i];
        let ghost before = plain@;
        if c == '\u{2014}' || c == '\u{2013}' || c == '\u{2012}' || c == '\u{2212}' {
            text::push_char(&mut plain, '-');
        } else if c == '\u{2018}' || c == '\u{2019}' {
            text::push_char(&mut plain, '\'');
        } else if c == '\u{201C}' || c == '\u{201D}' {
            text::push_char(&mut plain, '"');
        } else if c == '\u{2026}' {
            text::push_char(&mut plain, '.');
            text::push_char(&mut plain, '.');
            text::push_char(&mut plain, '.');
        } else {
            text::push_char(&mut plain, c);
        }
        assert(plain@ =~= before + ascii_of(c));
        proof {
            if forall|k: int| 0 <= k < i + 1 ==> !typographic(#[trigger] text@[k]) {
                assert(!typographic(text@[i as int]));
                assert(forall|k: int| 0 <= k < i ==> !typographic(#[trigger] text@[k]));
                assert(text@.take(i + 1) =~= text@.take(i as int).push(c));
            }
        }
        i = i + 1;
    }
    assert(text@.take(chars@.len() as int) =~= text@);
    plain
}

/// Plain text holds nothing typographic, and text with nothing typographic in it is already
/// plain: spelling it in plain text twice is spelling it once.
pub proof fn plain_text_is_plain(s: Seq<char>)
    ensures
        forall|k: int| 0 <= k < plain_of(s).len() ==> !typographic(#[trigger] plain_of(s)[k]),
        (forall|k: int| 0 <= k < s.len() ==> !typographic(#[trigger] s[k])) ==> plain_of(s) == s,
        plain_of(plain_of(s)) == plain_of(s),
    decreases s.len(),
{
    if s.len() > 0 {
        plain_text_is_plain(s.drop_last());
        let front = plain_of(s.drop_last());
        let tail = ascii_of(s.last());
        assert forall|k: int| 0 <= k < plain_of(s).len() implies !typographic(#[trigger] plain_of(s)[k]) by {
            if k >= front.len() {
                assert(plain_of(s)[k] == tail[k - front.len()]);
            }
        }
        if forall|k: int| 0 <= k < s.len() ==> !typographic(#[trigger] s[k]) {
            assert forall|k: int| 0 <= k < s.drop_last().len() implies !typographic(#[trigger] s.drop_last()[k]) by {
                assert(s.drop_last()[k] == s[k]);
            }
            assert(!typographic(s[s.len() - 1]));
            assert(s =~= s.drop_last().push(s.last()));
        }
    }
    let p = plain_of(s);
    assert forall|k: int| 0 <= k < p.len() implies !typographic(#[trigger] p[k]) by {}
    lemma_plain_of_plain(p);
}

proof fn lemma_plain_of_plain(s: Seq<char>)
    requires
        forall|k: int| 0 <= k < s.len() ==> !typographic(#[trigger] s[k]),
    ensures
        plain_of(s) == s,
    decreases s.len(),
{
    if s.len() > 0 {
        assert forall|k: int| 0 <= k < s.drop_last().len() implies !typographic(#[trigger] s.drop_last()[k]) by {
            assert(s.drop_last()[k] == s[k]);
        }
        lemma_plain_of_plain(s.drop_last());
        assert(!typographic(s[s.len() - 1]));
        assert(s =~= s.drop_last().push(s.last()));
    }
}

/// Is `c` a decimal digit?
pub open spec fn digit(c: char) -> bool {
    '0' <= c && c <= '9'
}

/// How many characters `s` begins with that are digits.
pub open spec fn digits_len(s: Seq<char>) -> nat
    decreases s.len(),
{
    if s.len() == 0 || !digit(s[0]) {
        0
    } else {
        1 + digits_len(s.drop_first())
    }
}

/// What a unit after a number multiplies it by: nothing or `s` for seconds, `m`, `h` and `d`.
pub open spec fn unit_factor(u: Seq<char>) -> Option<nat> {
    if u.len() == 0 || u == seq!['s'] {
        Some(1)
    } else if u == seq!['m'] {
        Some(60)
    } else if u == seq!['h'] {
        Some(3600)
    } else if u == seq!['d'] {
        Some(86400)
    } else {
        None
    }
}

/// The seconds `text` says, when it says a positive length of time that fits in 64 bits.
pub open spec fn seconds_of(text: Seq<char>) -> Option<nat> {
    let n = digits_len(text);
    let d = text.take(n as int);
    let u = text.skip(n as int);
    if n == 0 || text::value_of(d) > u64::MAX {
        None
    } else {
        match unit_factor(u) {
            Some(f) => if text::value_of(d) * f == 0 || text::value_of(d) * f > u64::MAX {
                None
            } else {
                Some(text::value_of(d) * f)
            },
            None => None,
        }
    }
}

/// What `--for` says of what it cannot read.
pub open spec fn for_refusal(text: Seq<char>) -> Seq<char> {
    "`"@ + text + "` is not a length of time — try `30s`, `90m`, `2h` or `1d`"@
}

proof fn lemma_digits_len_bound(s: Seq<char>)
    ensures
        digits_len(s) <= s.len(),
        forall|k: int| 0 <= k < digits_len(s) ==> digit(#[trigger] s[k]),
        digits_len(s) < s.len() ==> !digit(s[digits_len(s) as int]),
    decreases s.len(),
{
    if s.len() > 0 && digit(s[0]) {
        lemma_digits_len_bound(s.drop_first());
        assert forall|k: int| 0 <= k < digits_len(s) implies digit(#[trigger] s[k]) by {
            if k > 0 {
                assert(s[k] == s.drop_first()[k - 1]);
            }
        }
    }
}

proof fn lemma_digits_len_exact(s: Seq<char>, n: nat)
    requires
        n <= s.len(),
        forall|k: int| 0 <= k < n ==> digit(#[trigger] s[k]),
        n < s.len() ==> !digit(s[n as int]),
    ensures
        digits_len(s) == n,
    decreases n,
{
    if n > 0 {
        assert forall|k: int| 0 <= k < n - 1 implies digit(#[trigger] s.drop_first()[k]) by {
            assert(s.drop_first()[k] == s[k + 1]);
        }
        lemma_digits_len_exact(s.drop_first(), (n - 1) as nat);
    }
}

/// `2h` as a number of seconds, for `--for`: digits, then nothing or `s`, `m`, `h` or `d`.
///
/// Anything that is not a positive length of time is refused with the sentence a person reads:
/// no digits, another unit, zero, or a length too large to hold.
pub fn for_seconds(text: &str) -> (r: Result<u64, String>)
    ensures
        match r {
            Ok(seconds) => seconds_of(text@) == Some(seconds as nat) && seconds > 0,
            Err(message) => seconds_of(text@) is None && message@ == for_refusal(text@),
        },
{
    let chars = text::chars_of(text);
    let mut n: usize = 0;
    let mut value: u64 = 0;
    let mut overflow = false;
    while n < chars.len() && '0' <= chars[n] && chars[n] <= '9'
        invariant
            chars@ == text@,
            n <= chars@.len(),
            forall|k: int| 0 <= k < n ==> digit(#[trigger] text@[k]),
            !overflow ==> value == text::value_of(text@.take(n as int)),
            overflow ==> text::value_of(text@.take(n as int)) > u64::MAX,
        decreases chars@.len() - n,
    {
        let d = chars[n];
        let ghost prefix = text@.take(n as int);
        assert(text@.take(n + 1).drop_last() =~= prefix);
        assert(text@.take(n + 1).last() == d);
        let step = (d as u32 - '0' as u32) as u64;
        if !overflow {
            match value.checked_mul(10) {
                Some(tens) => match tens.checked_add(step) {
                    Some(v) => {
                        value = v;
                    },
                    None => {
                        overflow = true;
                    },
                },
                None => {
                    overflow = true;
                },
            }
        } else {
            assert(text::value_of(text@.take(n + 1)) >= text::value_of(prefix) * 10) by (nonlinear_arith)
                requires
                    text::value_of(text@.take(n + 1)) == text::value_of(prefix) * 10 + ((d as int) - ('0' as int)) as nat,
            ;
            assert(text::value_of(prefix) * 10 >= text::value_of(prefix)) by (nonlinear_arith);
        }
        n = n + 1;
    }
    proof {
        lemma_digits_len_exact(text@, n as nat);
    }
    let refusal = {
        let mut m = text::copy("`");
        m.append(text);
        m.append("` is not a length of time — try `30s`, `90m`, `2h` or `1d`");
        m
    };
    if n == 0 || overflow {
        return Err(refusal);
    }
    let rest = chars.len() - n;
    let factor: u64 = if rest == 0 {
        1
    } else if rest == 1 && chars[n] == 's' {
        1
    } else if rest == 1 && chars[n] == 'm' {
        60
    } else if rest == 1 && chars[n] == 'h' {
        3600
    } else if rest == 1 && chars[n] == 'd' {
        86400
    } else {
        0
    };
    let ghost u = text@.skip(n as int);
    proof {
        if rest == 1 {
            assert(u =~= seq![chars@[n as int]]);
        }
    }
    if factor == 0 {
        proof {
            if rest == 1 {
                assert(u != seq!['s'] && u != seq!['m'] && u != seq!['h'] && u != seq!['d']) by {
                    if u == seq!['s'] { assert(u[0] == 's'); }
                    if u == seq!['m'] { assert(u[0] == 'm'); }
                    if u == seq!['h'] { assert(u[0] == 'h'); }
                    if u == seq!['d'] { assert(u[0] == 'd'); }
                }
            } else {
                assert(u.len() > 1);
                assert(u != seq!['s'] && u != seq!['m'] && u != seq!['h'] && u != seq!['d']);
            }
        }
        return Err(refusal);
    }
    proof {
        if rest == 0 {
            assert(u.len() == 0);
        } else {
            assert(rest == 1);
            let c = chars@[n as int];
            assert(u =~= seq![c]);
            assert(u[0] == c);
            if u == seq!['s'] { assert(seq!['s'][0] == 's'); }
            if u == seq!['m'] { assert(seq!['m'][0] == 'm'); }
            if u == seq!['h'] { assert(seq!['h'][0] == 'h'); }
            if c == 's' {
                assert(u =~= seq!['s']);
            } else if c == 'm' {
                assert(u =~= seq!['m']);
            } else if c == 'h' {
                assert(u =~= seq!['h']);
            } else {
                assert(c == 'd');
                assert(u =~= seq!['d']);
            }
        }
        assert(unit_factor(u) == Some(factor as nat));
        assert(value == text::value_of(text@.take(digits_len(text@) as int)));
    }
    match value.checked_mul(factor) {
        Some(seconds) => {
            if seconds == 0 {
                Err(refusal)
            } else {
                Ok(seconds)
            }
        },
        None => Err(refusal),
    }
}


/// What kind of failure a refusal is.
#[derive(Clone, Copy, Debug, PartialEq, Eq, Structural)]
pub enum ErrorCode {
    InvalidArgument,
    PreconditionFailed,
    Io,
    Internal,
}

/// A refusal, as `mix` prints it: what kind, the sentence, and what to do about it.
#[derive(Debug)]
pub struct WireError {
    pub code: ErrorCode,
    pub message: String,
    pub hint: Option<String>,
}

/// What nothing answering a question is refused with.
pub open spec fn unanswered_message() -> Seq<char> {
    "nothing answered the question, so nothing was asked of the operating system either"@
}

/// The hint that goes with it.
pub open spec fn unanswered_hint() -> Seq<char> {
    "pass `--yes` to answer in advance"@
}

/// Is `e` the refusal for a question nothing answered?
pub open spec fn is_unanswered(e: &WireError) -> bool {
    e.code == ErrorCode::InvalidArgument && e.message@ == unanswered_message() && (e.hint matches Some(h)
        && h@ == unanswered_hint())
}

/// The refusal for a question nothing answered, naming the flag that answers in advance.
pub fn unanswered() -> (r: WireError)
    ensures
        is_unanswered(&r),
{
    WireError {
        code: ErrorCode::InvalidArgument,
        message: text::copy(
            "nothing answered the question, so nothing was asked of the operating system either",
        ),
        hint: Some(text::copy("pass `--yes` to answer in advance")),
    }
}

/// Is `e` the refusal for a version question nothing could answer?
pub open spec fn is_unanswerable_question(e: &WireError) -> bool {
    e.code == ErrorCode::InvalidArgument && e.message@
        == "this blueprint asks for a version this machine does not have, and nothing answered the question"@
        && (e.hint matches Some(h) && h@
        == "`--install-missing` installs what it asks for; `--use-installed` takes what is here"@)
}

/// The refusal for a version question nothing could answer.
pub fn unanswerable_question() -> (r: WireError)
    ensures
        is_unanswerable_question(&r),
        r.code == ErrorCode::InvalidArgument,
        r.message@ == "this blueprint asks for a version this machine does not have, and nothing answered the question"@,
        r.hint matches Some(h) && h@
            == "`--install-missing` installs what it asks for; `--use-installed` takes what is here"@,
{
    WireError {
        code: ErrorCode::InvalidArgument,
        message: text::copy(
            "this blueprint asks for a version this machine does not have, and nothing answered the question",
        ),
        hint: Some(
            text::copy(
                "`--install-missing` installs what it asks for; `--use-installed` takes what is here",
            ),
        ),
    }
}

/// What `--since` says when it cannot read what was typed.
pub fn since_refusal(value: &str) -> (r: WireError)
    ensures
        r.code == ErrorCode::InvalidArgument,
        r.message@ == "`--since "@ + value@ + "` is not a length of time"@,
        r.hint matches Some(h) && h@
            == "write it as a number and one of s, m, h, d — for example `--since 2h`"@,
{
    let mut message = text::copy("`--since ");
    message.append(value);
    message.append("` is not a length of time");
    WireError {
        code: ErrorCode::InvalidArgument,
        message,
        hint: Some(text::copy("write it as a number and one of s, m, h, d — for example `--since 2h`")),
    }
}

/// What a unit after a `--since` count is worth, in milliseconds.
pub open spec fn since_factor(u: Seq<char>) -> Option<int> {
    if u == seq!['s'] {
        Some(1000)
    } else if u == seq!['m'] {
        Some(60000)
    } else if u == seq!['h'] {
        Some(3600000)
    } else if u == seq!['d'] {
        Some(86400000)
    } else {
        None
    }
}

/// `x * y`, held at the bounds of `i64` rather than wrapped.
pub open spec fn saturating_mul_i64(x: int, y: int) -> int {
    if x * y > i64::MAX {
        i64::MAX as int
    } else if x * y < i64::MIN {
        i64::MIN as int
    } else {
        x * y
    }
}

/// How far back `--since` reaches, in milliseconds, when it can be read: digits that fit in an
/// `i64`, then one of `s`, `m`, `h`, `d`; held at the largest span rather than wrapped.
pub open spec fn since_span_of(value: Seq<char>) -> Option<int> {
    let n = digits_len(value);
    let d = value.take(n as int);
    let u = value.skip(n as int);
    if n == value.len() || n == 0 || text::value_of(d) > i64::MAX {
        None
    } else {
        match since_factor(u) {
            Some(f) => Some(saturating_mul_i64(text::value_of(d) as int, f)),
            None => None,
        }
    }
}

proof fn lemma_count_then_unit(d: Seq<char>, u: char)
    requires
        d.len() > 0,
        forall|k: int| 0 <= k < d.len() ==> digit(#[trigger] d[k]),
        !digit(u),
    ensures
        digits_len(d.push(u)) == d.len(),
        d.push(u).take(d.len() as int) == d,
        d.push(u).skip(d.len() as int) == seq![u],
        digits_len(d) == d.len(),
        d.take(d.len() as int) == d,
        d.skip(d.len() as int) == Seq::<char>::empty(),
{
    let t = d.push(u);
    assert forall|k: int| 0 <= k < d.len() implies digit(#[trigger] t[k]) by {
        assert(t[k] == d[k]);
    }
    lemma_digits_len_exact(t, d.len());
    lemma_digits_len_exact(d, d.len());
    assert(t.take(d.len() as int) =~= d);
    assert(t.skip(d.len() as int) =~= seq![u]);
    assert(d.take(d.len() as int) =~= d);
    assert(d.skip(d.len() as int) =~= Seq::<char>::empty());
}

proof fn lemma_unit_letters()
    ensures
        seq!['m'] != seq!['s'],
        seq!['h'] != seq!['s'],
        seq!['h'] != seq!['m'],
        seq!['d'] != seq!['s'],
        seq!['d'] != seq!['m'],
        seq!['d'] != seq!['h'],
{
    assert(seq!['m'][0] != seq!['s'][0]);
    assert(seq!['h'][0] != seq!['s'][0]);
    assert(seq!['h'][0] != seq!['m'][0]);
    assert(seq!['d'][0] != seq!['s'][0]);
    assert(seq!['d'][0] != seq!['m'][0]);
    assert(seq!['d'][0] != seq!['h'][0]);
}

/// A count followed by a unit reaches back that many seconds, minutes, hours or days, in
/// milliseconds — 1 000, 60 000, 3 600 000 and 86 400 000 of them — held at the largest span
/// rather than wrapped; a count with no unit is no length of time. So a minute reaches back sixty
/// times as far as a second, an hour sixty minutes, and a day twenty-four hours.
pub proof fn a_unit_multiplies_the_count_it_follows(d: Seq<char>)
    requires
        d.len() > 0,
        forall|k: int| 0 <= k < d.len() ==> digit(#[trigger] d[k]),
        text::value_of(d) <= i64::MAX,
    ensures
        since_span_of(d) is None,
        since_span_of(d.push('s')) == Some(
            if text::value_of(d) * 1000 > i64::MAX { i64::MAX as int } else { (text::value_of(d) * 1000) as int },
        ),
        since_span_of(d.push('m')) == Some(
            if text::value_of(d) * 60000 > i64::MAX { i64::MAX as int } else { (text::value_of(d) * 60000) as int },
        ),
        since_span_of(d.push('h')) == Some(
            if text::value_of(d) * 3600000 > i64::MAX { i64::MAX as int } else { (text::value_of(d) * 3600000) as int },
        ),
        since_span_of(d.push('d')) == Some(
            if text::value_of(d) * 86400000 > i64::MAX { i64::MAX as int } else { (text::value_of(d) * 86400000) as int },
        ),
        text::value_of(d) * 60000 <= i64::MAX ==> since_span_of(d.push('m'))->0 == 60 * since_span_of(
            d.push('s'),
        )->0,
        text::value_of(d) * 3600000 <= i64::MAX ==> since_span_of(d.push('h'))->0 == 60 * since_span_of(
            d.push('m'),
        )->0,
        text::value_of(d) * 86400000 <= i64::MAX ==> since_span_of(d.push('d'))->0 == 24 * since_span_of(
            d.push('h'),
        )->0,
{
    lemma_unit_letters();
    lemma_count_then_unit(d, 's');
    lemma_count_then_unit(d, 'm');
    lemma_count_then_unit(d, 'h');
    lemma_count_then_unit(d, 'd');
    let v = text::value_of(d) as int;
    assert(v * 1000 <= v * 60000) by (nonlinear_arith)
        requires v >= 0;
    assert(v * 60000 <= v * 3600000) by (nonlinear_arith)
        requires v >= 0;
    assert(v * 3600000 <= v * 86400000) by (nonlinear_arith)
        requires v >= 0;
    assert(v * 60000 == 60 * (v * 1000)) by (nonlinear_arith);
    assert(v * 3600000 == 60 * (v * 60000)) by (nonlinear_arith);
    assert(v * 86400000 == 24 * (v * 3600000)) by (nonlinear_arith);
}

/// Likewise for `--for`, in seconds: a count alone or followed by `s` is that many seconds, `m`
/// sixty times as many, `h` 3 600 and `d` 86 400 times; zero, or more than 64 bits hold, is no
/// length at all.
pub proof fn a_unit_multiplies_the_seconds_it_follows(d: Seq<char>)
    requires
        d.len() > 0,
        forall|k: int| 0 <= k < d.len() ==> digit(#[trigger] d[k]),
    ensures
        seconds_of(d) == if 0 < text::value_of(d) <= u64::MAX { Some(text::value_of(d)) } else { None },
        seconds_of(d.push('s')) == seconds_of(d),
        seconds_of(d.push('m')) == if 0 < text::value_of(d) * 60 <= u64::MAX {
            Some(text::value_of(d) * 60)
        } else {
            None
        },
        seconds_of(d.push('h')) == if 0 < text::value_of(d) * 3600 <= u64::MAX {
            Some(text::value_of(d) * 3600)
        } else {
            None
        },
        seconds_of(d.push('d')) == if 0 < text::value_of(d) * 86400 <= u64::MAX {
            Some(text::value_of(d) * 86400)
        } else {
            None
        },
{
    lemma_unit_letters();
    lemma_count_then_unit(d, 's');
    lemma_count_then_unit(d, 'm');
    lemma_count_then_unit(d, 'h');
    lemma_count_then_unit(d, 'd');
    let v = text::value_of(d) as int;
    assert(v <= v * 60) by (nonlinear_arith)
        requires v >= 0;
    assert(v <= v * 3600) by (nonlinear_arith)
        requires v >= 0;
    assert(v <= v * 86400) by (nonlinear_arith)
        requires v >= 0;
    assert(v > 0 ==> v * 60 > 0 && v * 3600 > 0 && v * 86400 > 0) by (nonlinear_arith)
        requires v >= 0;
    assert(v == 0 ==> v * 60 == 0 && v * 3600 == 0 && v * 86400 == 0) by (nonlinear_arith);
    assert(v * 1 == v);
    assert(unit_factor(Seq::<char>::empty()) == Some(1nat));
    assert(d.skip(digits_len(d) as int) == Seq::<char>::empty());
}

/// How far back `--since 2h` reaches, in milliseconds.
pub fn since_span(value: &str) -> (r: Result<i64, WireError>)
    ensures
        match r {
            Ok(span) => since_span_of(value@) == Some(span as int),
            Err(e) => since_span_of(value@) is None && e.code == ErrorCode::InvalidArgument
                && e.message@ == "`--since "@ + value@ + "` is not a length of time"@,
        },
{
    let chars = text::chars_of(value);
    let mut n: usize = 0;
    let mut count: i64 = 0;
    let mut overflow = false;
    while n < chars.len() && '0' <= chars[n] && chars[n] <= '9'
        invariant
            chars@ == value@,
            n <= chars@.len(),
            forall|k: int| 0 <= k < n ==> digit(#[trigger] value@[k]),
            !overflow ==> count == text::value_of(value@.take(n as int)),
            overflow ==> text::value_of(value@.take(n as int)) > i64::MAX,
            count >= 0,
        decreases chars@.len() - n,
    {
        let d = chars[n];
        let ghost prefix = value@.take(n as int);
        assert(value@.take(n + 1).drop_last() =~= prefix);
        assert(value@.take(n + 1).last() == d);
        let step = (d as u32 - '0' as u32) as i64;
        if !overflow {
            match count.checked_mul(10) {
                Some(tens) => match tens.checked_add(step) {
                    Some(v) => {
                        count = v;
                    },
                    None => {
                        overflow = true;
                    },
                },
                None => {
                    overflow = true;
                },
            }
        } else {
            assert(text::value_of(value@.take(n + 1)) >= text::value_of(prefix) * 10) by (nonlinear_arith)
                requires
                    text::value_of(value@.take(n + 1)) == text::value_of(prefix) * 10 + ((d as int) - ('0' as int)) as nat,
            ;
            assert(text::value_of(prefix) * 10 >= text::value_of(prefix)) by (nonlinear_arith);
        }
        n = n + 1;
    }
    proof {
        lemma_digits_len_exact(value@, n as nat);
    }
    if n == chars.len() || n == 0 || overflow {
        return Err(since_refusal(value));
    }
    let ghost u = value@.skip(n as int);
    let millis: i64 = if chars.len() - n != 1 {
        0
    } else if chars[n] == 's' {
        1000
    } else if chars[n] == 'm' {
        60000
    } else if chars[n] == 'h' {
        3600000
    } else if chars[n] == 'd' {
        86400000
    } else {
        0
    };
    proof {
        if chars.len() - n == 1 {
            assert(u =~= seq![chars@[n as int]]);
        }
    }
    if millis == 0 {
        proof {
            if chars.len() - n == 1 {
                assert(u != seq!['s'] && u != seq!['m'] && u != seq!['h'] && u != seq!['d']) by {
                    if u == seq!['s'] { assert(u[0] == 's'); }
                    if u == seq!['m'] { assert(u[0] == 'm'); }
                    if u == seq!['h'] { assert(u[0] == 'h'); }
                    if u == seq!['d'] { assert(u[0] == 'd'); }
                }
            } else {
                assert(u.len() > 1);
                assert(u != seq!['s'] && u != seq!['m'] && u != seq!['h'] && u != seq!['d']);
            }
        }
        return Err(since_refusal(value));
    }
    proof {
        let c = chars@[n as int];
        assert(u =~= seq![c]);
        assert(u[0] == c);
        if u == seq!['s'] { assert(seq!['s'][0] == 's'); }
        if u == seq!['m'] { assert(seq!['m'][0] == 'm'); }
        if u == seq!['h'] { assert(seq!['h'][0] == 'h'); }
        if c == 's' {
            assert(u =~= seq!['s']);
        } else if c == 'm' {
            assert(u =~= seq!['m']);
        } else if c == 'h' {
            assert(u =~= seq!['h']);
        } else {
            assert(u =~= seq!['d']);
        }
        assert(since_factor(u) == Some(millis as int));
        assert(count == text::value_of(value@.take(digits_len(value@) as int)));
    }
    if count > i64::MAX / millis {
        assert(count * millis > i64::MAX) by (nonlinear_arith)
            requires
                count > i64::MAX / millis,
                millis > 0,
        ;
        Ok(i64::MAX)
    } else {
        assert(0 <= count * millis <= i64::MAX) by (nonlinear_arith)
            requires
                0 <= count <= i64::MAX / millis,
                millis > 0,
        ;
        Ok(count * millis)
    }
}

/// The moment `--since` names: that far before `now`, both in milliseconds, held at the bounds of
/// `i64` rather than wrapped.
pub fn since_moment_at(now: i64, value: &str) -> (r: Result<i64, WireError>)
    ensures
        match r {
            Ok(moment) => since_span_of(value@) matches Some(span) && moment == (if now - span
                < i64::MIN {
                i64::MIN as int
            } else {
                now - span
            }),
            Err(e) => since_span_of(value@) is None && e.code == ErrorCode::InvalidArgument,
        },
{
    match since_span(value) {
        Ok(span) => {
            if now < i64::MIN + span {
                Ok(i64::MIN)
            } else {
                Ok(now - span)
            }
        },
        Err(e) => Err(e),
    }
}

/// What somebody answered to *there is a newer MixEngine*.
#[derive(Clone, Copy, Debug, PartialEq, Eq, Structural)]
pub enum Choice {
    /// Install it now.
    Install,
    /// Never offer this version again.
    Skip,
    /// Ask again in a few days.
    Later,
}

/// What the daemon is told of an update that is not installed now.
#[derive(Clone, Copy, Debug, PartialEq, Eq, Structural)]
pub enum UpdateDecision {
    Skip,
    Later,
}

impl Choice {
    /// What the daemon is told, or nothing for the answer that decides nothing because it
    /// installs.
    pub fn decision(self) -> (r: Option<UpdateDecision>)
        ensures
            r == match self {
                Choice::Install => None,
                Choice::Skip => Some(UpdateDecision::Skip),
                Choice::Later => Some(UpdateDecision::Later),
            },
    {
        match self {
            Choice::Install => None,
            Choice::Skip => Some(UpdateDecision::Skip),
            Choice::Later => Some(UpdateDecision::Later),
        }
    }
}

/// The question about a newer MixEngine.
pub fn update_question(version: &str) -> (r: String)
    ensures
        r@ == "\ninstall MixEngine "@ + version@ + "? [i]nstall / [s]kip / [l]ater: "@,
{
    let mut r = text::copy("\ninstall MixEngine ");
    r.append(version);
    r.append("? [i]nstall / [s]kip / [l]ater: ");
    r
}

/// The answer to the question about a newer MixEngine. Under `--json` nobody is asked, and a
/// question nothing answered is refused rather than defaulted into replacing the binaries;
/// `answer` is what was read when somebody was asked.
pub fn chosen_update(json: bool, answer: Option<Choice>) -> (r: Result<Choice, WireError>)
    ensures
        match r {
            Ok(choice) => !json && answer == Some(choice),
            Err(e) => (json || answer is None) && is_update_unanswered(&e),
        },
{
    if json {
        return Err(update_unanswered());
    }
    match answer {
        Some(choice) => Ok(choice),
        None => Err(update_unanswered()),
    }
}

/// Is `e` the refusal for an update question nobody could answer: a failed precondition, in the
/// words of any unanswered question, naming `--yes`?
pub open spec fn is_update_unanswered(e: &WireError) -> bool {
    e.code == ErrorCode::PreconditionFailed && e.message@ == unanswered_message() && (e.hint matches Some(h)
        && h@ == unanswered_hint())
}

/// The refusal for an update question nobody could answer. It is a precondition that failed —
/// somebody at a keyboard, or `--yes` — rather than a bad argument, and it names the flag that
/// answers in advance, so a script is told what to do instead of being defaulted into replacing
/// its own binaries.
pub fn update_unanswered() -> (r: WireError)
    ensures
        is_update_unanswered(&r),
{
    WireError {
        code: ErrorCode::PreconditionFailed,
        message: text::copy(
            "nothing answered the question, so nothing was asked of the operating system either",
        ),
        hint: Some(text::copy("pass `--yes` to answer in advance")),
    }
}

/// What the signature that came with a blueprint said.
#[derive(Clone, Copy, Debug, PartialEq, Eq, Structural)]
pub enum SignatureCheck {
    Verified,
    Rejected,
    Missing,
}

/// What the question before running a blueprint's command says is known about who made it.
pub open spec fn vouching_text(untrusted: bool, signature: Option<SignatureCheck>) -> Seq<char> {
    if !untrusted {
        "This blueprint is signed."@
    } else if signature == Some(SignatureCheck::Rejected) {
        "A signature came with this blueprint and it is not the gallery's."@
    } else {
        "Nothing vouches for this blueprint."@
    }
}

/// What is known about who made a blueprint: signed, signed by somebody other than the gallery,
/// or vouched for by nothing. It changes what is said and nothing about what is allowed.
pub fn vouching(untrusted: bool, signature: Option<SignatureCheck>) -> (r: String)
    ensures
        r@ == vouching_text(untrusted, signature),
{
    if !untrusted {
        text::copy("This blueprint is signed.")
    } else {
        match signature {
            Some(SignatureCheck::Rejected) => text::copy(
                "A signature came with this blueprint and it is not the gallery's.",
            ),
            _ => text::copy("Nothing vouches for this blueprint."),
        }
    }
}

/// Has the process that began at `began` ended, given when the process with its pid now began,
/// if one is there? A pid the system handed to something else reads as ended.
pub fn has_ended(now: Option<u64>, began: u64) -> (r: bool)
    ensures
        r == (now != Some(began)),
{
    match now {
        Some(t) => t != began,
        None => true,
    }
}


/// What `mix uninstall` exits with when a process is in the way.
pub const BLOCKED: u8 = 3;

/// Did the daemon say an uninstall finished: nothing failed and nothing waits on a permission?
pub open spec fn finished(rows: Seq<Row>) -> bool {
    forall|k: int| 0 <= k < rows.len() ==> !(#[trigger] rows[k].outcome is Failed)
        && !(rows[k].outcome is Enqueued)
}

/// Did the daemon say this uninstall finished, which is what ends it?
pub fn finished_uninstall(items: &Vec<Residue>) -> (r: bool)
    ensures
        r == finished(views(items@)),
{
    let mut k: usize = 0;
    while k < items.len()
        invariant
            k <= items@.len(),
            forall|m: int| 0 <= m < k ==> !(#[trigger] views(items@)[m].outcome is Failed)
                && !(views(items@)[m].outcome is Enqueued),
        decreases items@.len() - k,
    {
        assert(views(items@)[k as int] == items@[k as int]@);
        match &items[k].outcome {
            Removal::Failed { .. } => {
                assert(views(items@)[k as int].outcome is Failed);
                return false;
            },
            Removal::Enqueued { .. } => {
                assert(views(items@)[k as int].outcome is Enqueued);
                return false;
            },
            _ => {},
        }
        k = k + 1;
    }
    true
}

/// Is a row a directory the plan removes, whose size is worth telling a person?
pub open spec fn going_directory(x: Row) -> bool {
    x.outcome is Planned && (x.id == ResidueId::Home || x.id == ResidueId::RelocatedDirectory
        || x.id == ResidueId::WindowData || x.id == ResidueId::WindowCache)
}

/// Where the directories a plan removes are: the home, the relocated directories and the
/// window's folders that are planned. Their size is what an uninstall reports while it waits.
pub fn going_locations(items: &Vec<Residue>) -> (r: Vec<String>)
    ensures
        r@.map_values(|s: String| s@) == views(items@).filter(|x: Row| going_directory(x)).map_values(
            |x: Row| x.location,
        ),
{
    let ghost all = views(items@);
    let ghost keep = |x: Row| going_directory(x);
    let mut r: Vec<String> = Vec::new();
    let mut i: usize = 0;
    while i < items.len()
        invariant
            all == views(items@),
            keep == (|x: Row| going_directory(x)),
            i <= items@.len(),
            r@.map_values(|s: String| s@) == all.take(i as int).filter(keep).map_values(
                |x: Row| x.location,
            ),
        decreases items@.len() - i,
    {
        proof {
            text::lemma_filter_step(all, keep, i as int);
        }
        let ghost before = all.take(i as int).filter(keep);
        let x = &items[i];
        assert(all[i as int] == x@);
        let planned = match &x.outcome {
            Removal::Planned { .. } => true,
            _ => false,
        };
        let directory = match x.id {
            ResidueId::Home => true,
            ResidueId::RelocatedDirectory => true,
            ResidueId::WindowData => true,
            ResidueId::WindowCache => true,
            _ => false,
        };
        if planned && directory {
            let ghost old_r = r@.map_values(|s: String| s@);
            r.push(x.location.clone());
            assert(r@.map_values(|s: String| s@) =~= old_r.push(x@.location));
            assert(all.take(i + 1).filter(keep) =~= before.push(all[i as int]));
            assert(r@.map_values(|s: String| s@) =~= all.take(i + 1).filter(keep).map_values(
                |x: Row| x.location,
            ));
        } else {
            assert(all.take(i + 1).filter(keep) =~= before);
        }
        i = i + 1;
    }
    assert(all.take(items@.len() as int) =~= all);
    r
}

/// Is a row a directory the home was configured to keep elsewhere, rather than a tombstone
/// beside one?
pub open spec fn moved_directory(x: Row) -> bool {
    x.id == ResidueId::RelocatedDirectory && !text::holds(x.location, tombstone::mark())
}

/// The listing an uninstaller reads of the directories moved out of a home: one line each, and
/// not the tombstones beside them, which are garbage and not a choice.
pub fn relocated_listing(items: &Vec<Residue>) -> (r: Vec<String>)
    ensures
        r@.map_values(|s: String| s@) == views(items@).filter(|x: Row| moved_directory(x)).map_values(
            |x: Row| x.location + "\n"@,
        ),
{
    let mark = tombstone::mark_text();
    let ghost all = views(items@);
    let ghost keep = |x: Row| moved_directory(x);
    let mut r: Vec<String> = Vec::new();
    let mut i: usize = 0;
    while i < items.len()
        invariant
            mark@ == tombstone::mark(),
            all == views(items@),
            keep == (|x: Row| moved_directory(x)),
            i <= items@.len(),
            r@.map_values(|s: String| s@) == all.take(i as int).filter(keep).map_values(
                |x: Row| x.location + "\n"@,
            ),
        decreases items@.len() - i,
    {
        proof {
            text::lemma_filter_step(all, keep, i as int);
        }
        let ghost before = all.take(i as int).filter(keep);
        let x = &items[i];
        assert(all[i as int] == x@);
        let relocated = match x.id {
            ResidueId::RelocatedDirectory => true,
            _ => false,
        };
        if relocated && !text::contains(x.location.as_str(), mark.as_str()) {
            let ghost old_r = r@.map_values(|s: String| s@);
            r.push(text::concat(x.location.as_str(), "\n"));
            assert(r@.map_values(|s: String| s@) =~= old_r.push(x@.location + "\n"@));
            assert(all.take(i + 1).filter(keep) =~= before.push(all[i as int]));
            assert(r@.map_values(|s: String| s@) =~= all.take(i + 1).filter(keep).map_values(
                |x: Row| x.location + "\n"@,
            ));
        } else {
            assert(all.take(i + 1).filter(keep) =~= before);
        }
        i = i + 1;
    }
    assert(all.take(items@.len() as int) =~= all);
    r
}

/// The listing an uninstaller's "close these first" page reads: one line per thing in the way,
/// what it is and where.
pub fn blocked_listing(items: &Vec<Residue>) -> (r: Vec<String>)
    ensures
        r@.map_values(|s: String| s@) == views(items@).filter(|x: Row| x.outcome is Blocked).map_values(
            |x: Row| x.what + ": "@ + x.location + "\n"@,
        ),
{
    let ghost all = views(items@);
    let ghost keep = |x: Row| x.outcome is Blocked;
    let mut r: Vec<String> = Vec::new();
    let mut i: usize = 0;
    while i < items.len()
        invariant
            all == views(items@),
            keep == (|x: Row| x.outcome is Blocked),
            i <= items@.len(),
            r@.map_values(|s: String| s@) == all.take(i as int).filter(keep).map_values(
                |x: Row| x.what + ": "@ + x.location + "\n"@,
            ),
        decreases items@.len() - i,
    {
        proof {
            text::lemma_filter_step(all, keep, i as int);
        }
        let ghost before = all.take(i as int).filter(keep);
        let x = &items[i];
        assert(all[i as int] == x@);
        let blocked = match &x.outcome {
            Removal::Blocked { .. } => true,
            _ => false,
        };
        if blocked {
            let ghost old_r = r@.map_values(|s: String| s@);
            let mut line = x.what.clone();
            line.append(": ");
            line.append(x.location.as_str());
            line.append("\n");
            r.push(line);
            assert(r@.map_values(|s: String| s@) =~= old_r.push(x@.what + ": "@ + x@.location + "\n"@));
            assert(all.take(i + 1).filter(keep) =~= before.push(all[i as int]));
            assert(r@.map_values(|s: String| s@) =~= all.take(i + 1).filter(keep).map_values(
                |x: Row| x.what + ": "@ + x.location + "\n"@,
            ));
        } else {
            assert(all.take(i + 1).filter(keep) =~= before);
        }
        i = i + 1;
    }
    assert(all.take(items@.len() as int) =~= all);
    r
}

/// What the question before an uninstall asks, from what is kept and whether the home has
/// directories moved out of it.
pub open spec fn uninstall_question_text(keep_home: bool, moved: bool, keep_relocated: bool) -> Seq<char> {
    if !moved {
        if keep_home {
            "undo everything MixEngine has done to this machine, and keep this home?"@
        } else {
            "remove MixEngine from this machine, including this home and every database in it?"@
        }
    } else if keep_home {
        if keep_relocated {
            "undo everything MixEngine has done to this machine, and keep this home and the directories moved out of it?"@
        } else {
            "undo everything MixEngine has done to this machine, keep this home, and remove the directories moved out of it?"@
        }
    } else if keep_relocated {
        "remove MixEngine from this machine, including this home and every database in it, but keep the directories moved out of it?"@
    } else {
        "remove MixEngine from this machine, including this home, the directories moved out of it, and every database in them?"@
    }
}

/// The question before an uninstall, as it is put: the relocated directories get a clause of
/// their own only when the plan has some.
pub fn uninstall_question(items: &Vec<Residue>, keep_home: bool, keep_relocated: bool) -> (r:
    String)
    ensures
        r@ == "\n"@ + uninstall_question_text(
            keep_home,
            exists|k: int| 0 <= k < items@.len() && moved_directory(#[trigger] views(items@)[k]),
            keep_relocated,
        ) + " [y/N] "@,
{
    let mark = tombstone::mark_text();
    let mut moved = false;
    let mut k: usize = 0;
    while k < items.len()
        invariant
            mark@ == tombstone::mark(),
            k <= items@.len(),
            moved == exists|m: int| 0 <= m < k && moved_directory(#[trigger] views(items@)[m]),
        decreases items@.len() - k,
    {
        let x = &items[k];
        assert(views(items@)[k as int] == x@);
        let relocated = match x.id {
            ResidueId::RelocatedDirectory => true,
            _ => false,
        };
        if relocated && !text::contains(x.location.as_str(), mark.as_str()) {
            moved = true;
            assert(moved_directory(views(items@)[k as int]));
        }
        k = k + 1;
    }
    let question = if !moved {
        if keep_home {
            "undo everything MixEngine has done to this machine, and keep this home?"
        } else {
            "remove MixEngine from this machine, including this home and every database in it?"
        }
    } else if keep_home {
        if keep_relocated {
            "undo everything MixEngine has done to this machine, and keep this home and the directories moved out of it?"
        } else {
            "undo everything MixEngine has done to this machine, keep this home, and remove the directories moved out of it?"
        }
    } else if keep_relocated {
        "remove MixEngine from this machine, including this home and every database in it, but keep the directories moved out of it?"
    } else {
        "remove MixEngine from this machine, including this home, the directories moved out of it, and every database in them?"
    };
    let mut r = text::copy("\n");
    r.append(question);
    r.append(" [y/N] ");
    r
}

/// Whether an uninstall was agreed to. Under `--json` nobody is asked, since answering for the
/// caller either way is worse than refusing; `answer` is what was read when somebody was asked,
/// and nothing when nothing could answer.
pub fn agreed_to_uninstall(json: bool, answer: Option<bool>) -> (r: Result<bool, WireError>)
    ensures
        match r {
            Ok(yes) => !json && answer == Some(yes),
            Err(e) => (json || answer is None) && is_unanswered(&e),
        },
{
    if json {
        return Err(unanswered());
    }
    match answer {
        Some(yes) => Ok(yes),
        None => Err(unanswered()),
    }
}

/// What a declined uninstall says, beside the question it answers.
pub fn declined_line(rows: usize) -> (r: String)
    ensures
        r@ == "nothing was removed; "@ + text::decimal(rows as nat) + " row(s) are still where they were"@,
{
    let mut r = text::copy("nothing was removed; ");
    let digits = text::decimal_text(rows as u64);
    r.append(digits.as_str());
    r.append(" row(s) are still where they were");
    r
}


/// Where a route sends what it is asked.
#[derive(Debug, PartialEq, Eq)]
pub enum RouteTarget {
    /// Forwarded to an address.
    Proxy { upstream: String },
    /// Run by a php-fpm pool, or by the one the project resolves to when none is named.
    PhpFpm { pool: Option<String> },
    /// Served from a directory.
    Static { root: String },
}

/// A [`RouteTarget`] as the contracts see it.
pub enum TargetView {
    Proxy(Seq<char>),
    PhpFpm(Option<Seq<char>>),
    Static(Seq<char>),
}

impl View for RouteTarget {
    type V = TargetView;

    open spec fn view(&self) -> TargetView {
        match self {
            RouteTarget::Proxy { upstream } => TargetView::Proxy(upstream@),
            RouteTarget::PhpFpm { pool } => TargetView::PhpFpm(
                match pool {
                    Some(p) => Some(p@),
                    None => None,
                },
            ),
            RouteTarget::Static { root } => TargetView::Static(root@),
        }
    }
}

/// One route of a site: a path, and where it sends what it is asked.
#[derive(Debug, PartialEq, Eq)]
pub struct SiteRoute {
    pub path: String,
    pub target: RouteTarget,
}

impl View for SiteRoute {
    type V = (Seq<char>, TargetView);

    open spec fn view(&self) -> (Seq<char>, TargetView) {
        (self.path@, self.target@)
    }
}

/// What the three route flags make, as the contracts see it.
pub enum RoutesView {
    /// Refused, with this sentence and this hint.
    Refused(Seq<char>, Seq<char>),
    /// Nothing was typed: the routes are left as they are.
    Unchanged,
    /// The whole list the site is to have.
    Routes(Seq<(Seq<char>, TargetView)>),
}

/// The first of `values` with no `=` in it.
pub open spec fn first_unsplit(values: Seq<Seq<char>>, n: nat) -> Option<int>
    decreases n,
{
    if n == 0 {
        None
    } else {
        match first_unsplit(values, (n - 1) as nat) {
            Some(k) => Some(k),
            None => if text::split_at_first(values[n - 1], '=') is None {
                Some(n - 1)
            } else {
                None
            },
        }
    }
}

/// Why the pool named in the php route at `i` is not a service, when it is not.
pub open spec fn refusal_at(refusals: Seq<Option<String>>, i: int) -> Option<Seq<char>> {
    if 0 <= i < refusals.len() {
        match refusals[i] {
            Some(r) => Some(r@),
            None => None,
        }
    } else {
        None
    }
}

/// The first php route that names a pool that is not a service.
pub open spec fn first_bad_pool(php: Seq<Seq<char>>, refusals: Seq<Option<String>>, n: nat) -> Option<int>
    decreases n,
{
    if n == 0 {
        None
    } else {
        match first_bad_pool(php, refusals, (n - 1) as nat) {
            Some(k) => Some(k),
            None => if text::split_at_first(php[n - 1], '=') is Some && refusal_at(refusals, n - 1)
                is Some {
                Some(n - 1)
            } else {
                None
            },
        }
    }
}

/// The route `--proxy` makes of a value with `=` in it.
pub open spec fn proxy_route(v: Seq<char>) -> (Seq<char>, TargetView) {
    let (path, upstream) = text::split_at_first(v, '=')->0;
    (path, TargetView::Proxy(upstream))
}

/// The route `--php` makes of a value: the pool after the first `=`, or none.
pub open spec fn php_route(v: Seq<char>) -> (Seq<char>, TargetView) {
    match text::split_at_first(v, '=') {
        Some((path, pool)) => (path, TargetView::PhpFpm(Some(pool))),
        None => (v, TargetView::PhpFpm(None)),
    }
}

/// The route `--files` makes of a value with `=` in it.
pub open spec fn files_route(v: Seq<char>) -> (Seq<char>, TargetView) {
    let (path, root) = text::split_at_first(v, '=')->0;
    (path, TargetView::Static(root))
}

/// What a value with no `=` is refused with.
pub open spec fn unsplit_message(value: Seq<char>, flag: Seq<char>) -> Seq<char> {
    value + " is not a "@ + flag + " route"@
}

/// The hint that goes with it.
pub open spec fn unsplit_hint(flag: Seq<char>, what: Seq<char>) -> Seq<char> {
    "<path>="@ + what + ", as in "@ + flag + " /api=…"@
}

/// What the three route flags make, in the order they were typed: every proxy, then every php
/// route, then every directory.
pub open spec fn site_routes_of(
    proxy: Seq<Seq<char>>,
    php: Seq<Seq<char>>,
    files: Seq<Seq<char>>,
    no_routes: bool,
    refusals: Seq<Option<String>>,
) -> RoutesView {
    if no_routes {
        if proxy.len() > 0 || php.len() > 0 || files.len() > 0 {
            RoutesView::Refused(
                "--no-routes and a route in the same command"@,
                "leave --no-routes off to declare routes; it is what empties the list"@,
            )
        } else {
            RoutesView::Routes(Seq::empty())
        }
    } else if proxy.len() == 0 && php.len() == 0 && files.len() == 0 {
        RoutesView::Unchanged
    } else {
        match first_unsplit(proxy, proxy.len()) {
            Some(i) => RoutesView::Refused(
                unsplit_message(proxy[i], "--proxy"@),
                unsplit_hint("--proxy"@, "an address"@),
            ),
            None => match first_bad_pool(php, refusals, php.len()) {
                Some(i) => RoutesView::Refused(
                    refusal_at(refusals, i)->0,
                    "a pool such as php-fpm@8.3.33, or no `=` at all to resolve one"@,
                ),
                None => match first_unsplit(files, files.len()) {
                    Some(i) => RoutesView::Refused(
                        unsplit_message(files[i], "--files"@),
                        unsplit_hint("--files"@, "a directory"@),
                    ),
                    None => RoutesView::Routes(
                        proxy.map_values(|v: Seq<char>| proxy_route(v)) + php.map_values(
                            |v: Seq<char>| php_route(v),
                        ) + files.map_values(|v: Seq<char>| files_route(v)),
                    ),
                },
            },
        }
    }
}

/// Does a result match what the three route flags make?
pub open spec fn routes_match(r: &Result<Option<Vec<SiteRoute>>, WireError>, want: RoutesView) -> bool {
    match want {
        RoutesView::Refused(message, hint) => r matches Err(e) && e.code == ErrorCode::InvalidArgument
            && e.message@ == message && (e.hint matches Some(h) && h@ == hint),
        RoutesView::Unchanged => r matches Ok(None),
        RoutesView::Routes(routes) => r matches Ok(Some(v)) && views(v@) == routes,
    }
}

proof fn lemma_first_unsplit_stays(values: Seq<Seq<char>>, k: nat, n: nat)
    requires
        k < n <= values.len(),
        first_unsplit(values, (k + 1) as nat) == Some(k as int),
    ensures
        first_unsplit(values, n) == Some(k as int),
    decreases n - k,
{
    if n > k + 1 {
        lemma_first_unsplit_stays(values, k, (n - 1) as nat);
    }
}

proof fn lemma_first_bad_pool_stays(php: Seq<Seq<char>>, refusals: Seq<Option<String>>, k: nat, n: nat)
    requires
        k < n <= php.len(),
        first_bad_pool(php, refusals, (k + 1) as nat) == Some(k as int),
    ensures
        first_bad_pool(php, refusals, n) == Some(k as int),
    decreases n - k,
{
    if n > k + 1 {
        lemma_first_bad_pool_stays(php, refusals, k, (n - 1) as nat);
    }
}

/// The texts of `v`.
pub open spec fn texts(v: Seq<String>) -> Seq<Seq<char>> {
    v.map_values(|s: String| s@)
}

/// Routes of one flag whose values all split: `make` the route of each, added to `routes`.
fn split_routes(values: &Vec<String>, kind: u8, routes: &mut Vec<SiteRoute>) -> (ok: Option<usize>)
    requires
        kind == 0 || kind == 2,
    ensures
        match ok {
            Some(i) => first_unsplit(texts(values@), values@.len() as nat) == Some(i as int) && i
                < values@.len(),
            None => first_unsplit(texts(values@), values@.len() as nat) is None && views(final(routes)@)
                == views(old(routes)@) + texts(values@).map_values(
                |v: Seq<char>|
                    if kind == 0 {
                        proxy_route(v)
                    } else {
                        files_route(v)
                    },
            ),
        },
{
    let ghost base = views(routes@);
    let ghost tv = texts(values@);
    let ghost make = |v: Seq<char>|
        if kind == 0 {
            proxy_route(v)
        } else {
            files_route(v)
        };
    let mut i: usize = 0;
    while i < values.len()
        invariant
            kind == 0 || kind == 2,
            tv == texts(values@),
            make == (|v: Seq<char>|
                if kind == 0 {
                    proxy_route(v)
                } else {
                    files_route(v)
                }),
            i <= values@.len(),
            first_unsplit(tv, i as nat) is None,
            views(routes@) == base + tv.take(i as int).map_values(make),
        decreases values@.len() - i,
    {
        assert(tv[i as int] == values@[i as int]@);
        match text::split_once(values[i].as_str(), '=') {
            None => {
                proof {
                    lemma_first_unsplit_stays(tv, i as nat, tv.len());
                }
                return Some(i);
            },
            Some((path, rest)) => {
                let target = if kind == 0 {
                    RouteTarget::Proxy { upstream: rest }
                } else {
                    RouteTarget::Static { root: rest }
                };
                let route = SiteRoute { path, target };
                let ghost before = views(routes@);
                routes.push(route);
                assert(views(routes@) =~= before.push(make(tv[i as int])));
                assert(tv.take(i + 1) =~= tv.take(i as int).push(tv[i as int]));
                assert(tv.take(i + 1).map_values(make) =~= tv.take(i as int).map_values(make).push(
                    make(tv[i as int]),
                ));
            },
        }
        i = i + 1;
    }
    assert(tv.take(values@.len() as int) =~= tv);
    None
}

fn refused_with(message: String, hint: &str) -> (r: WireError)
    ensures
        r.code == ErrorCode::InvalidArgument,
        r.message@ == message@,
        r.hint matches Some(h) && h@ == hint@,
{
    WireError { code: ErrorCode::InvalidArgument, message, hint: Some(text::copy(hint)) }
}

/// The three route flags as the one list a site is given: every `--proxy`, then every `--php`,
/// then every `--files`, each split at its first `=`. Nothing typed leaves the routes alone, and
/// `--no-routes` empties them, but not beside a route.
///
/// A `--proxy` or `--files` without `=` is refused, and so is a `--php` whose pool is not a
/// service: `pool_refusals` says, for the php route at each position, why the pool it names is
/// not one when it is not, in the service vocabulary's own words.
pub fn site_routes(
    proxy: &Vec<String>,
    php: &Vec<String>,
    files: &Vec<String>,
    no_routes: bool,
    pool_refusals: &Vec<Option<String>>,
) -> (r: Result<Option<Vec<SiteRoute>>, WireError>)
    ensures
        routes_match(
            &r,
            site_routes_of(texts(proxy@), texts(php@), texts(files@), no_routes, pool_refusals@),
        ),
{
    if no_routes {
        if proxy.len() > 0 || php.len() > 0 || files.len() > 0 {
            return Err(
                refused_with(
                    text::copy("--no-routes and a route in the same command"),
                    "leave --no-routes off to declare routes; it is what empties the list",
                ),
            );
        }
        let r: Vec<SiteRoute> = Vec::new();
        assert(views(r@) =~= Seq::<(Seq<char>, TargetView)>::empty());
        return Ok(Some(r));
    }
    if proxy.len() == 0 && php.len() == 0 && files.len() == 0 {
        return Ok(None);
    }
    let mut routes: Vec<SiteRoute> = Vec::new();
    match split_routes(proxy, 0, &mut routes) {
        Some(i) => {
            let mut message = proxy[i].clone();
            message.append(" is not a ");
            message.append("--proxy");
            message.append(" route");
            let mut hint = text::copy("<path>=");
            hint.append("an address");
            hint.append(", as in ");
            hint.append("--proxy");
            hint.append(" /api=…");
            assert(texts(proxy@)[i as int] == proxy@[i as int]@);
            return Err(refused_with(message, hint.as_str()));
        },
        None => {},
    }
    let ghost after_proxy = views(routes@);
    assert(after_proxy =~= texts(proxy@).map_values(|v: Seq<char>| proxy_route(v)));
    let ghost pv = texts(php@);
    let ghost make = |v: Seq<char>| php_route(v);
    let mut i: usize = 0;
    while i < php.len()
        invariant
            pv == texts(php@),
            make == (|v: Seq<char>| php_route(v)),
            !no_routes,
            first_unsplit(texts(proxy@), proxy@.len() as nat) is None,
            after_proxy == texts(proxy@).map_values(|v: Seq<char>| proxy_route(v)),
            i <= php@.len(),
            first_bad_pool(pv, pool_refusals@, i as nat) is None,
            views(routes@) == after_proxy + pv.take(i as int).map_values(make),
        decreases php@.len() - i,
    {
        assert(pv[i as int] == php@[i as int]@);
        let route = match text::split_once(php[i].as_str(), '=') {
            Some((path, pool)) => {
                if i < pool_refusals.len() {
                    match &pool_refusals[i] {
                        Some(because) => {
                            proof {
                                lemma_first_bad_pool_stays(pv, pool_refusals@, i as nat, pv.len());
                            }
                            return Err(
                                refused_with(
                                    because.clone(),
                                    "a pool such as php-fpm@8.3.33, or no `=` at all to resolve one",
                                ),
                            );
                        },
                        None => {},
                    }
                }
                SiteRoute { path, target: RouteTarget::PhpFpm { pool: Some(pool) } }
            },
            None => SiteRoute { path: php[i].clone(), target: RouteTarget::PhpFpm { pool: None } },
        };
        let ghost before = views(routes@);
        routes.push(route);
        assert(views(routes@) =~= before.push(make(pv[i as int])));
        assert(pv.take(i + 1) =~= pv.take(i as int).push(pv[i as int]));
        assert(pv.take(i + 1).map_values(make) =~= pv.take(i as int).map_values(make).push(
            make(pv[i as int]),
        ));
        i = i + 1;
    }
    assert(pv.take(php@.len() as int) =~= pv);
    let ghost after_php = views(routes@);
    match split_routes(files, 2, &mut routes) {
        Some(i) => {
            let mut message = files[i].clone();
            message.append(" is not a ");
            message.append("--files");
            message.append(" route");
            let mut hint = text::copy("<path>=");
            hint.append("a directory");
            hint.append(", as in ");
            hint.append("--files");
            hint.append(" /api=…");
            assert(texts(files@)[i as int] == files@[i as int]@);
            return Err(refused_with(message, hint.as_str()));
        },
        None => {},
    }
    assert(views(routes@) =~= texts(proxy@).map_values(|v: Seq<char>| proxy_route(v)) + pv.map_values(
        |v: Seq<char>| php_route(v),
    ) + texts(files@).map_values(|v: Seq<char>| files_route(v)));
    Ok(Some(routes))
}


/// The kind of site `--kind` names.
#[derive(Clone, Copy, Debug, PartialEq, Eq, Structural)]
pub enum SiteKindArg {
    PhpFpm,
    Static,
    ReverseProxy,
    NodeApp,
}

/// What a site is.
#[derive(Debug, PartialEq, Eq)]
pub enum SiteKind {
    /// Run by a php-fpm pool, or by the one the project resolves to.
    PhpFpm { pool: Option<String> },
    /// Files served as they are.
    Static,
    /// Forwarded to an address.
    ReverseProxy { upstream: String },
    /// A node process listening on a port.
    NodeApp { port: u16 },
}

/// The kind a site is given from `--kind` and the flags that go with it: a pool on its own says
/// php-fpm, and nothing named leaves the decision to the daemon. A reverse proxy needs
/// `--upstream` and a node app `--port`, and each is refused without.
pub fn site_kind(
    kind: Option<SiteKindArg>,
    upstream: Option<String>,
    port: Option<u16>,
    pool: Option<String>,
) -> (r: Result<Option<SiteKind>, WireError>)
    ensures
        match kind {
            None => match pool {
                Some(p) => r matches Ok(Some(SiteKind::PhpFpm { pool: Some(q) })) && q == p,
                None => r matches Ok(None),
            },
            Some(SiteKindArg::PhpFpm) => r matches Ok(Some(SiteKind::PhpFpm { pool: q })) && q == pool,
            Some(SiteKindArg::Static) => r matches Ok(Some(SiteKind::Static)),
            Some(SiteKindArg::ReverseProxy) => match upstream {
                Some(u) => r matches Ok(Some(SiteKind::ReverseProxy { upstream: v })) && v == u,
                None => r matches Err(e) && e.code == ErrorCode::InvalidArgument && e.message@
                    == "--upstream"@ + " "@ + "says where to forward to"@ && e.hint is None,
            },
            Some(SiteKindArg::NodeApp) => match port {
                Some(p) => r matches Ok(Some(SiteKind::NodeApp { port: q })) && q == p,
                None => r matches Err(e) && e.code == ErrorCode::InvalidArgument && e.message@
                    == "--port"@ + " "@ + "says where the node process listens"@ && e.hint is None,
            },
        },
{
    match kind {
        None => match pool {
            Some(p) => Ok(Some(SiteKind::PhpFpm { pool: Some(p) })),
            None => Ok(None),
        },
        Some(SiteKindArg::PhpFpm) => Ok(Some(SiteKind::PhpFpm { pool })),
        Some(SiteKindArg::Static) => Ok(Some(SiteKind::Static)),
        Some(SiteKindArg::ReverseProxy) => match upstream {
            Some(u) => Ok(Some(SiteKind::ReverseProxy { upstream: u })),
            None => {
                let mut message = text::copy("--upstream");
                message.append(" ");
                message.append("says where to forward to");
                Err(WireError { code: ErrorCode::InvalidArgument, message, hint: None })
            },
        },
        Some(SiteKindArg::NodeApp) => match port {
            Some(p) => Ok(Some(SiteKind::NodeApp { port: p })),
            None => {
                let mut message = text::copy("--port");
                message.append(" ");
                message.append("says where the node process listens");
                Err(WireError { code: ErrorCode::InvalidArgument, message, hint: None })
            },
        },
    }
}


/// What would mend something a machine lacks, as far as asking goes.
#[derive(Clone, Copy, Debug, PartialEq, Eq, Structural)]
pub enum RemedyKind {
    /// MixEngine can install it: the Visual C++ runtime.
    InstallVisualCpp,
    /// The distribution provides it, and it is the person's to install.
    InstallFromDistribution,
    /// No installer here mends it: the daemon refuses it in its own words.
    Elsewhere,
}

/// Is there something MixEngine could install, and nothing no installer mends?
pub open spec fn only_installable(remedies: Seq<RemedyKind>) -> bool {
    (exists|i: int| 0 <= i < remedies.len() && remedies[i] == RemedyKind::InstallVisualCpp)
        && forall|i: int| 0 <= i < remedies.len() ==> remedies[i] != RemedyKind::Elsewhere
}

fn only_installable_exec(remedies: &Vec<RemedyKind>) -> (r: bool)
    ensures
        r == only_installable(remedies@),
{
    let mut installable = false;
    let mut k: usize = 0;
    while k < remedies.len()
        invariant
            k <= remedies@.len(),
            installable == exists|i: int| 0 <= i < k && remedies@[i] == RemedyKind::InstallVisualCpp,
            forall|i: int| 0 <= i < k ==> remedies@[i] != RemedyKind::Elsewhere,
        decreases remedies@.len() - k,
    {
        match remedies[k] {
            RemedyKind::Elsewhere => {
                return false;
            },
            RemedyKind::InstallVisualCpp => {
                installable = true;
            },
            RemedyKind::InstallFromDistribution => {},
        }
        k = k + 1;
    }
    installable
}

/// Is somebody asked whether to install what the machine lacks first? Only about an installable
/// lack, only when nothing else is lacking, and only when `--yes` has not answered and there is a
/// keyboard to ask at.
pub fn prerequisites_asked(remedies: &Vec<RemedyKind>, yes: bool, json: bool) -> (r: bool)
    ensures
        r == (only_installable(remedies@) && !yes && !json),
{
    only_installable_exec(remedies) && !yes && !json
}

/// Whether to install what the machine lacks first: `Some(true)` to install it, `Some(false)` to
/// go on without, and nothing for a person who answered no. A lack no installer mends is the
/// daemon's to refuse, so it is not asked about; `answer` is what was read when somebody was
/// asked, and nothing when nothing could answer.
pub fn agreed_to_prerequisites(remedies: &Vec<RemedyKind>, yes: bool, json: bool, answer: Option<bool>) -> (r: Result<
    Option<bool>,
    WireError,
>)
    ensures
        !only_installable(remedies@) ==> r matches Ok(Some(false)),
        only_installable(remedies@) && yes ==> r matches Ok(Some(true)),
        only_installable(remedies@) && !yes && json ==> (r matches Err(e) && is_unanswered(&e)),
        only_installable(remedies@) && !yes && !json ==> match answer {
            Some(true) => r matches Ok(Some(true)),
            Some(false) => r matches Ok(None),
            None => (r matches Err(e) && is_unanswered(&e)),
        },
{
    if !only_installable_exec(remedies) {
        return Ok(Some(false));
    }
    if yes {
        return Ok(Some(true));
    }
    if json {
        return Err(unanswered());
    }
    match answer {
        Some(true) => Ok(Some(true)),
        Some(false) => Ok(None),
        None => Err(unanswered()),
    }
}

/// Is the list of what the distribution provides said before anything is decided? Whenever there
/// is one, except under `--json`, where the daemon's answer carries it.
pub fn advisories_said(remedies: &Vec<RemedyKind>, json: bool) -> (r: bool)
    ensures
        r == (!json && exists|i: int|
            0 <= i < remedies@.len() && remedies@[i] == RemedyKind::InstallFromDistribution),
{
    if json {
        return false;
    }
    let mut k: usize = 0;
    while k < remedies.len()
        invariant
            !json,
            k <= remedies@.len(),
            forall|i: int| 0 <= i < k ==> remedies@[i] != RemedyKind::InstallFromDistribution,
        decreases remedies@.len() - k,
    {
        if remedies[k] == RemedyKind::InstallFromDistribution {
            assert(remedies@[k as int] == RemedyKind::InstallFromDistribution);
            return true;
        }
        k = k + 1;
    }
    false
}

/// A kind of disk use a cleanup can reclaim.
#[derive(Clone, Copy, Debug, PartialEq, Eq, Structural)]
pub enum DiskCategory {
    Logs,
    Cache,
    Other,
}

/// One kind of disk use, and how many bytes a cleanup would reclaim of it.
#[derive(Clone, Copy, Debug)]
pub struct Usage {
    pub id: DiskCategory,
    /// What a cleanup reclaims; nothing when a cleanup does not reclaim this kind.
    pub reclaim: u64,
}

/// Does a cleanup that keeps what it was told to keep take anything?
pub open spec fn takes_something(usage: Seq<Usage>, keep_logs: bool, keep_cache: bool) -> bool {
    exists|i: int|
        0 <= i < usage.len() && usage[i].reclaim > 0 && ((usage[i].id == DiskCategory::Logs
            && !keep_logs) || (usage[i].id == DiskCategory::Cache && !keep_cache))
}

fn takes_something_exec(usage: &Vec<Usage>, keep_logs: bool, keep_cache: bool) -> (r: bool)
    ensures
        r == takes_something(usage@, keep_logs, keep_cache),
{
    let mut k: usize = 0;
    while k < usage.len()
        invariant
            k <= usage@.len(),
            forall|i: int|
                0 <= i < k ==> !(usage@[i].reclaim > 0 && ((usage@[i].id == DiskCategory::Logs
                    && !keep_logs) || (usage@[i].id == DiskCategory::Cache && !keep_cache))),
        decreases usage@.len() - k,
    {
        let u = usage[k];
        let asked = match u.id {
            DiskCategory::Logs => !keep_logs,
            DiskCategory::Cache => !keep_cache,
            DiskCategory::Other => false,
        };
        if asked && u.reclaim > 0 {
            return true;
        }
        k = k + 1;
    }
    false
}

/// Is somebody asked before a cleanup removes the logs and the cache it was not told to keep?
/// Not when it would take nothing, which is a yes, nor under `--json`, which is refused.
pub fn cleanup_asked(usage: &Vec<Usage>, keep_logs: bool, keep_cache: bool, json: bool) -> (r: bool)
    ensures
        r == (takes_something(usage@, keep_logs, keep_cache) && !json),
{
    takes_something_exec(usage, keep_logs, keep_cache) && !json
}

/// Whether a cleanup was agreed to. Nothing to take is a yes; under `--json` nobody is asked;
/// `answer` is what was read when somebody was asked, and nothing when nothing could answer.
pub fn agreed_to_cleanup(
    usage: &Vec<Usage>,
    keep_logs: bool,
    keep_cache: bool,
    json: bool,
    answer: Option<bool>,
) -> (r: Result<bool, WireError>)
    ensures
        !takes_something(usage@, keep_logs, keep_cache) ==> r matches Ok(true),
        takes_something(usage@, keep_logs, keep_cache) ==> match r {
            Ok(yes) => !json && answer == Some(yes),
            Err(e) => (json || answer is None) && is_unanswered(&e),
        },
{
    if !takes_something_exec(usage, keep_logs, keep_cache) {
        return Ok(true);
    }
    if json {
        return Err(unanswered());
    }
    match answer {
        Some(yes) => Ok(yes),
        None => Err(unanswered()),
    }
}

/// Whether to raise the prompt a plan is waiting for: never under `--json`, where there is
/// nobody to ask; `answer` is what was read when somebody was asked.
pub fn confirmed(json: bool, answer: Option<bool>) -> (r: Result<bool, WireError>)
    ensures
        match r {
            Ok(yes) => !json && answer == Some(yes),
            Err(e) => (json || answer is None) && is_unanswered(&e),
        },
{
    if json {
        return Err(unanswered());
    }
    match answer {
        Some(yes) => Ok(yes),
        None => Err(unanswered()),
    }
}

/// What the daemon said it was taking with it as it exits.
pub fn on_exit_locations(items: &Vec<Residue>) -> (r: Vec<String>)
    ensures
        r@.map_values(|s: String| s@) == views(items@).filter(|x: Row| x.outcome is OnExit).map_values(
            |x: Row| x.location,
        ),
{
    let ghost all = views(items@);
    let ghost keep = |x: Row| x.outcome is OnExit;
    let mut r: Vec<String> = Vec::new();
    let mut i: usize = 0;
    while i < items.len()
        invariant
            all == views(items@),
            keep == (|x: Row| x.outcome is OnExit),
            i <= items@.len(),
            r@.map_values(|s: String| s@) == all.take(i as int).filter(keep).map_values(
                |x: Row| x.location,
            ),
        decreases items@.len() - i,
    {
        proof {
            text::lemma_filter_step(all, keep, i as int);
        }
        let ghost before = all.take(i as int).filter(keep);
        let x = &items[i];
        assert(all[i as int] == x@);
        let going = match &x.outcome {
            Removal::OnExit { .. } => true,
            _ => false,
        };
        if going {
            let ghost old_r = r@.map_values(|s: String| s@);
            r.push(x.location.clone());
            assert(r@.map_values(|s: String| s@) =~= old_r.push(x@.location));
            assert(all.take(i + 1).filter(keep) =~= before.push(all[i as int]));
            assert(r@.map_values(|s: String| s@) =~= all.take(i + 1).filter(keep).map_values(
                |x: Row| x.location,
            ));
        } else {
            assert(all.take(i + 1).filter(keep) =~= before);
        }
        i = i + 1;
    }
    assert(all.take(items@.len() as int) =~= all);
    r
}

/// What is still there, as a person reads it: in order, and each once.
pub fn still_there(found: Vec<String>) -> (r: Vec<String>)
    ensures
        forall|i: int, j: int|
            0 <= i < j < r@.len() ==> text::precedes(#[trigger] r@[i]@, #[trigger] r@[j]@),
        forall|t: Seq<char>| texts(r@).contains(t) <==> texts(found@).contains(t),
{
    let sorted = text::sort_texts(found);
    let ghost sv = texts(sorted@);
    proof {
        broadcast use vstd::seq_lib::group_to_multiset_ensures;

        assert forall|t: Seq<char>| sv.contains(t) <==> texts(found@).contains(t) by {
            if sv.contains(t) {
                assert(sv.to_multiset().count(t) > 0);
                assert(texts(found@).to_multiset().count(t) > 0);
            }
            if texts(found@).contains(t) {
                assert(texts(found@).to_multiset().count(t) > 0);
                assert(sv.to_multiset().count(t) > 0);
            }
        }
    }
    let mut r: Vec<String> = Vec::new();
    let mut i: usize = 0;
    while i < sorted.len()
        invariant
            sv == texts(sorted@),
            text::in_order(sv),
            i <= sv.len(),
            forall|a: int, b: int| 0 <= a < b < r@.len() ==> text::precedes(#[trigger] r@[a]@, #[trigger] r@[b]@),
            forall|t: Seq<char>| texts(r@).contains(t) <==> sv.take(i as int).contains(t),
            r@.len() > 0 ==> i > 0 && r@[r@.len() - 1]@ == sv[i - 1],
        decreases sv.len() - i,
    {
        let t = &sorted[i];
        assert(sv[i as int] == t@);
        let ghost before = texts(r@);
        proof {
            assert(sv.take(i + 1) =~= sv.take(i as int).push(t@));
        }
        let n = r.len();
        let same = n > 0 && !text::text_precedes(r[n - 1].as_str(), t.as_str())
            && !text::text_precedes(t.as_str(), r[n - 1].as_str());
        if same {
            proof {
                if r@[n - 1]@ != t@ {
                    text::lemma_precedes_total(r@[n - 1]@, t@);
                }
                assert forall|x: Seq<char>| texts(r@).contains(x) <==> sv.take(i + 1).contains(x) by {
                    if x == t@ {
                        assert(texts(r@)[n - 1] == x);
                    }
                    if sv.take(i + 1).contains(x) && x != t@ {
                        let k = choose|k: int| 0 <= k < i + 1 && #[trigger] sv.take(i + 1)[k] == x;
                        assert(sv.take(i as int)[k] == x);
                    }
                    if sv.take(i as int).contains(x) {
                        let k = choose|k: int| 0 <= k < i && #[trigger] sv.take(i as int)[k] == x;
                        assert(sv.take(i + 1)[k] == x);
                    }
                }
            }
        } else {
            proof {
                if n > 0 {
                    assert(!text::precedes(sv[i as int], sv[i - 1]));
                    assert(r@[n - 1]@ == sv[i - 1]);
                    if r@[n - 1]@ == t@ {
                        text::lemma_precedes_irreflexive(t@);
                    } else {
                        text::lemma_precedes_total(r@[n - 1]@, t@);
                    }
                    assert(text::precedes(r@[n - 1]@, t@));
                }
            }
            let ghost old_r = r@;
            r.push(t.clone());
            proof {
                assert forall|a: int, b: int| 0 <= a < b < r@.len() implies text::precedes(#[trigger] r@[a]@, #[trigger] r@[b]@) by {
                    if b == n as int && a < n - 1 {
                        text::lemma_precedes_transitive(r@[a]@, old_r[n - 1]@, t@);
                    }
                }
                assert(texts(r@) =~= before.push(t@));
                assert forall|x: Seq<char>| texts(r@).contains(x) <==> sv.take(i + 1).contains(x) by {
                    if x == t@ {
                        assert(texts(r@)[n as int] == x);
                        assert(sv.take(i + 1)[i as int] == x);
                    }
                    if texts(r@).contains(x) && x != t@ {
                        let k = choose|k: int| 0 <= k < texts(r@).len() && #[trigger] texts(r@)[k] == x;
                        assert(before[k] == x);
                        assert(before.contains(x));
                        let m = choose|m: int| 0 <= m < i && #[trigger] sv.take(i as int)[m] == x;
                        assert(sv.take(i + 1)[m] == x);
                    }
                    if sv.take(i + 1).contains(x) && x != t@ {
                        let k = choose|k: int| 0 <= k < i + 1 && #[trigger] sv.take(i + 1)[k] == x;
                        assert(sv.take(i as int)[k] == x);
                        assert(sv.take(i as int).contains(x));
                        assert(before.contains(x));
                        let m = choose|m: int| 0 <= m < before.len() && #[trigger] before[m] == x;
                        assert(texts(r@)[m] == before[m]);
                    }
                }
            }
        }
        i = i + 1;
    }
    assert(sv.take(sv.len() as int) =~= sv);
    r
}

/// One line about something that is still on this machine.
pub fn left_line(what: &str) -> (r: String)
    ensures
        r@ == "still there: "@ + what@,
{
    text::concat("still there: ", what)
}


/// Agreement to run a blueprint's command.
#[derive(Debug, PartialEq, Eq)]
pub struct ScaffoldConsent {
    pub command: String,
    /// Whether nothing vouches for the blueprint it comes from.
    pub untrusted: bool,
}

/// The first command among a plan's steps: each step's command, when it is one that runs one.
pub open spec fn first_command(steps: Seq<Option<String>>, n: nat) -> Option<int>
    decreases n,
{
    if n == 0 {
        None
    } else {
        match first_command(steps, (n - 1) as nat) {
            Some(k) => Some(k),
            None => if steps[n - 1] is Some {
                Some(n - 1)
            } else {
                None
            },
        }
    }
}

/// The flag that agrees to running a command from a blueprint that is signed or not.
pub open spec fn scaffold_flag(untrusted: bool) -> Seq<char> {
    if untrusted {
        "--run-untrusted-scaffold"@
    } else {
        "--run-scaffold"@
    }
}

/// Why the flag given does not answer for a blueprint of this kind.
pub open spec fn scaffold_refusal(blueprint: Seq<char>, untrusted: bool) -> Seq<char> {
    if untrusted {
        "nothing vouches for "@ + blueprint + ", so `--run-scaffold` does not answer for it"@
    } else {
        blueprint + " is signed, so `--run-untrusted-scaffold` does not answer for it"@
    }
}

/// The flag that does answer for a blueprint of this kind, and what it does.
pub open spec fn scaffold_remedy(untrusted: bool) -> Seq<char> {
    if untrusted {
        "`--run-untrusted-scaffold` runs it anyway"@
    } else {
        "`--run-scaffold` runs it"@
    }
}

/// What is said of a command nothing here could ask about.
pub open spec fn unasked_text(command: Seq<char>, untrusted: bool) -> Seq<char> {
    "mix: `"@ + command + "` was not run — nothing here could be asked. `"@ + scaffold_flag(untrusted)
        + "` agrees to it."@
}

/// The question before running a blueprint's command, saying what is known of who made it.
pub open spec fn scaffold_question_text(
    command: Seq<char>,
    untrusted: bool,
    signature: Option<SignatureCheck>,
) -> Seq<char> {
    vouching_text(untrusted, signature) + " It wants to run, in the new project's directory:\n\n    "@
        + command + "\n\nRun it? [y/N] "@
}

/// What is said of a command nothing here could ask about.
pub fn unasked_line(command: &str, untrusted: bool) -> (r: String)
    ensures
        r@ == unasked_text(command@, untrusted),
{
    let mut r = text::copy("mix: `");
    r.append(command);
    r.append("` was not run — nothing here could be asked. `");
    if untrusted {
        r.append("--run-untrusted-scaffold");
    } else {
        r.append("--run-scaffold");
    }
    r.append("` agrees to it.");
    r
}

/// The question before running a blueprint's command.
pub fn scaffold_question(command: &str, untrusted: bool, signature: Option<SignatureCheck>) -> (r:
    String)
    ensures
        r@ == scaffold_question_text(command@, untrusted, signature),
{
    let mut r = vouching(untrusted, signature);
    r.append(" It wants to run, in the new project's directory:\n\n    ");
    r.append(command);
    r.append("\n\nRun it? [y/N] ");
    r
}

/// Is somebody asked whether to run the plan's command: there is one, neither flag answers for a
/// blueprint of its kind, and there is a keyboard to ask at?
pub open spec fn scaffold_asks(
    steps: Seq<Option<String>>,
    trusted: bool,
    run_scaffold: bool,
    run_untrusted_scaffold: bool,
    json: bool,
) -> bool {
    first_command(steps, steps.len()) is Some && !run_scaffold && !run_untrusted_scaffold && !json
}

fn first_command_exec(steps: &Vec<Option<String>>) -> (r: Option<usize>)
    ensures
        match r {
            Some(k) => first_command(steps@, steps@.len() as nat) == Some(k as int) && k
                < steps@.len() && steps@[k as int] is Some,
            None => first_command(steps@, steps@.len() as nat) is None,
        },
{
    let mut k: usize = 0;
    while k < steps.len()
        invariant
            k <= steps@.len(),
            first_command(steps@, k as nat) is None,
        decreases steps@.len() - k,
    {
        if steps[k].is_some() {
            proof {
                lemma_first_command_stays(steps@, k as nat, steps@.len() as nat);
            }
            return Some(k);
        }
        k = k + 1;
    }
    None
}

proof fn lemma_first_command_stays(steps: Seq<Option<String>>, k: nat, n: nat)
    requires
        k < n <= steps.len(),
        first_command(steps, (k + 1) as nat) == Some(k as int),
    ensures
        first_command(steps, n) == Some(k as int),
    decreases n - k,
{
    if n > k + 1 {
        lemma_first_command_stays(steps, k, (n - 1) as nat);
    }
}

/// Is somebody asked whether to run the plan's command?
pub fn scaffold_asked(
    steps: &Vec<Option<String>>,
    trusted: bool,
    run_scaffold: bool,
    run_untrusted_scaffold: bool,
    json: bool,
) -> (r: bool)
    ensures
        r == scaffold_asks(steps@, trusted, run_scaffold, run_untrusted_scaffold, json),
{
    first_command_exec(steps).is_some() && !run_scaffold && !run_untrusted_scaffold && !json
}

/// Whether to run the command a blueprint's plan carries, and what to say on the way.
///
/// No command, no consent. The flag for a blueprint of its kind agrees to it; the flag for the
/// other kind is refused, since it does not answer for this one. Otherwise somebody is asked:
/// declining, or nobody there to ask, leaves the command unrun and the rest of the plan applied,
/// the second with a line saying so. `answer` is what was read when somebody was asked, and
/// nothing when nothing could answer. Returns the consent, or the refusal, and the line to say.
pub fn agreed_to_scaffold(
    steps: &Vec<Option<String>>,
    trusted: bool,
    blueprint: &str,
    run_scaffold: bool,
    run_untrusted_scaffold: bool,
    json: bool,
    answer: Option<bool>,
) -> (r: (Result<Option<ScaffoldConsent>, WireError>, Option<String>))
    ensures
        match first_command(steps@, steps@.len() as nat) {
            None => r.0 matches Ok(None) && r.1 is None,
            Some(k) => {
                let command = steps@[k]->0@;
                let untrusted = !trusted;
                let given = if untrusted { run_untrusted_scaffold } else { run_scaffold };
                let wrong = if untrusted { run_scaffold } else { run_untrusted_scaffold };
                if given {
                    r.0 matches Ok(Some(c)) && c.command@ == command && c.untrusted == untrusted
                        && r.1 is None
                } else if wrong {
                    r.1 is None && (r.0 matches Err(e) && e.code == ErrorCode::InvalidArgument
                        && e.message@ == scaffold_refusal(blueprint@, untrusted) && (e.hint matches Some(h)
                        && h@ == scaffold_remedy(untrusted)))
                } else if json || answer is None {
                    r.0 matches Ok(None) && r.1 matches Some(line) && line@ == unasked_text(
                        command,
                        untrusted,
                    )
                } else if answer == Some(true) {
                    r.0 matches Ok(Some(c)) && c.command@ == command && c.untrusted == untrusted
                        && r.1 is None
                } else {
                    r.0 matches Ok(None) && r.1 is None
                }
            },
        },
{
    let k = match first_command_exec(steps) {
        Some(k) => k,
        None => return (Ok(None), None),
    };
    let command = match &steps[k] {
        Some(c) => c.clone(),
        None => return (Ok(None), None),
    };
    let untrusted = !trusted;
    let given = if untrusted { run_untrusted_scaffold } else { run_scaffold };
    if given {
        return (Ok(Some(ScaffoldConsent { command, untrusted })), None);
    }
    let wrong = if untrusted { run_scaffold } else { run_untrusted_scaffold };
    if wrong {
        let e = if untrusted {
            let mut message = text::copy("nothing vouches for ");
            message.append(blueprint);
            message.append(", so `--run-scaffold` does not answer for it");
            WireError {
                code: ErrorCode::InvalidArgument,
                message,
                hint: Some(text::copy("`--run-untrusted-scaffold` runs it anyway")),
            }
        } else {
            let mut message = text::copy(blueprint);
            message.append(" is signed, so `--run-untrusted-scaffold` does not answer for it");
            WireError {
                code: ErrorCode::InvalidArgument,
                message,
                hint: Some(text::copy("`--run-scaffold` runs it")),
            }
        };
        return (Err(e), None);
    }
    if json {
        let line = unasked_line(command.as_str(), untrusted);
        return (Ok(None), Some(line));
    }
    match answer {
        Some(true) => (Ok(Some(ScaffoldConsent { command, untrusted })), None),
        Some(false) => (Ok(None), None),
        None => {
            let line = unasked_line(command.as_str(), untrusted);
            (Ok(None), Some(line))
        },
    }
}


/// What the daemon said a service is for, where it said anything.
#[derive(Clone, Copy, Debug, PartialEq, Eq, Structural)]
pub enum ServiceRole {
    /// The web server every site in the home is reached through.
    FrontEnd,
    /// Anything else: a database, a cache, a pool.
    Other,
}

/// One row of the daemon's list of services, as far as the front end is concerned.
#[derive(Debug)]
pub struct ServiceRow {
    /// The service as it is written: `package@instance`.
    pub id: String,
    /// The package it runs.
    pub name: String,
    /// What the daemon said it is for; nothing from a daemon built before it said.
    pub role: Option<ServiceRole>,
}

/// Which service in a listing is the front end.
#[derive(Clone, Copy, Debug, PartialEq, Eq, Structural)]
pub enum Found {
    /// The row, by its place in the listing, whose role says so.
    On(usize),
    /// Every row answered, and none of them is one.
    Absent,
    /// No row answered at all: the daemon predates the question.
    Unanswered,
}

pub open spec fn is_front_end(row: ServiceRow) -> bool {
    row.role == Some(ServiceRole::FrontEnd)
}

/// Is the row at `i` the listing's front end: the first whose role says so?
pub open spec fn front_end_at(rows: Seq<ServiceRow>, i: int) -> bool {
    0 <= i < rows.len() && is_front_end(rows[i]) && forall|j: int|
        0 <= j < i ==> !is_front_end(#[trigger] rows[j])
}

/// The front end of a listing: the first row whose role says so; failing that, none when the
/// listing is empty or some row answered, and no answer when no row did.
pub open spec fn front_end_of(rows: Seq<ServiceRow>, found: Found) -> bool {
    match found {
        Found::On(i) => front_end_at(rows, i as int),
        Found::Absent => (forall|j: int| 0 <= j < rows.len() ==> !is_front_end(#[trigger] rows[j]))
            && (rows.len() == 0 || exists|j: int| 0 <= j < rows.len() && (#[trigger] rows[j]).role is Some),
        Found::Unanswered => rows.len() > 0 && forall|j: int|
            0 <= j < rows.len() ==> (#[trigger] rows[j]).role is None,
    }
}

/// Picks out the front end by what the daemon said each service is for.
pub fn the_front_end(rows: &Vec<ServiceRow>) -> (r: Found)
    ensures
        front_end_of(rows@, r),
{
    let mut i: usize = 0;
    let mut answered: bool = false;
    while i < rows.len()
        invariant
            i <= rows@.len(),
            forall|j: int| 0 <= j < i ==> !is_front_end(#[trigger] rows@[j]),
            answered <==> exists|j: int| 0 <= j < i && (#[trigger] rows@[j]).role is Some,
        decreases rows@.len() - i,
    {
        match rows[i].role {
            Some(ServiceRole::FrontEnd) => return Found::On(i),
            Some(ServiceRole::Other) => {
                answered = true;
            },
            None => {},
        }
        i = i + 1;
    }
    if rows.len() == 0 || answered {
        Found::Absent
    } else {
        Found::Unanswered
    }
}

/// Is the front end already the server asked for? Then switching to it is a yes nobody is asked.
pub open spec fn already_on(rows: Seq<ServiceRow>, server: Seq<char>) -> bool {
    exists|i: int| #[trigger] front_end_at(rows, i) && rows[i].name@ == server
}

/// A listing has one front end at most, and what picks it out agrees.
proof fn lemma_front_end_unique(rows: Seq<ServiceRow>, i: int, found: Found)
    requires
        front_end_at(rows, i),
        front_end_of(rows, found),
    ensures
        found matches Found::On(k) && k == i,
{
    match found {
        Found::On(k) => {
            if (k as int) < i {
                assert(!is_front_end(rows[k as int]));
            } else if i < (k as int) {
                assert(!is_front_end(rows[i]));
            }
        },
        Found::Absent => {
            assert(!is_front_end(rows[i]));
        },
        Found::Unanswered => {
            assert(rows[i].role is None);
        },
    }
}

fn already_on_exec(rows: &Vec<ServiceRow>, server: &str) -> (r: bool)
    ensures
        r == already_on(rows@, server@),
{
    let found = the_front_end(rows);
    match found {
        Found::On(i) => {
            let r = text::same(rows[i].name.as_str(), server);
            proof {
                if already_on(rows@, server@) {
                    let k = choose|k: int| #[trigger] front_end_at(rows@, k) && rows@[k].name@ == server@;
                    lemma_front_end_unique(rows@, k, found);
                }
                if r {
                    assert(front_end_at(rows@, i as int));
                }
            }
            r
        },
        _ => {
            proof {
                if already_on(rows@, server@) {
                    let k = choose|k: int| #[trigger] front_end_at(rows@, k) && rows@[k].name@ == server@;
                    lemma_front_end_unique(rows@, k, found);
                }
            }
            false
        },
    }
}

/// Is somebody asked before the front end is switched to `server`? Not when it is already the
/// front end, and not under `--json`, which is refused.
pub fn switch_asked(rows: &Vec<ServiceRow>, server: &str, json: bool) -> (r: bool)
    ensures
        r == (!already_on(rows@, server@) && !json),
{
    !already_on_exec(rows, server) && !json
}

/// What is said before the question: what stops and what starts, and the permission it may take.
pub open spec fn switch_notice_text(rows: Seq<ServiceRow>, server: Seq<char>) -> Seq<char> {
    let said = if exists|i: int| front_end_at(rows, i) {
        let i = choose|i: int| front_end_at(rows, i);
        rows[i].id@ + " is this home's front end.\nswitching to "@ + server
            + " stops it, renders every site for "@ + server
            + " and starts it — no site is reachable while that happens.\n"@
    } else {
        "this home has no front end; "@ + server + " becomes one, and is left stopped.\n"@
    };
    said + switch_permission_text()
}

pub open spec fn switch_permission_text() -> Seq<char> {
    "this machine may ask permission for it to answer on 80 and 443, and anything else MixEngine is already waiting for is asked for at the same time — `mix elevation status` lists that.\n"@
}

/// What is said before somebody is asked to switch the front end to `server`.
pub fn switch_notice(rows: &Vec<ServiceRow>, server: &str) -> (r: String)
    ensures
        r@ == switch_notice_text(rows@, server@),
{
    let found = the_front_end(rows);
    let mut r = match found {
        Found::On(i) => {
            let mut r = rows[i].id.clone();
            r.append(" is this home's front end.\nswitching to ");
            r.append(server);
            r.append(" stops it, renders every site for ");
            r.append(server);
            r.append(" and starts it — no site is reachable while that happens.\n");
            proof {
                assert(front_end_at(rows@, i as int));
                let k = choose|k: int| front_end_at(rows@, k);
                lemma_front_end_unique(rows@, k, found);
            }
            r
        },
        _ => {
            let mut r = text::copy("this home has no front end; ");
            r.append(server);
            r.append(" becomes one, and is left stopped.\n");
            proof {
                if exists|k: int| front_end_at(rows@, k) {
                    let k = choose|k: int| front_end_at(rows@, k);
                    lemma_front_end_unique(rows@, k, found);
                }
            }
            r
        },
    };
    r.append(
        "this machine may ask permission for it to answer on 80 and 443, and anything else MixEngine is already waiting for is asked for at the same time — `mix elevation status` lists that.\n",
    );
    r
}

/// The question itself.
pub fn switch_question(server: &str) -> (r: String)
    ensures
        r@ == "\nswitch to "@ + server@ + "? [y/N] "@,
{
    let mut r = text::copy("\nswitch to ");
    r.append(server);
    r.append("? [y/N] ");
    r
}

/// Whether to switch the front end to `server`. Asking for the server the home is already on is
/// a yes; under `--json` nobody is asked, and that is refused; `answer` is what was read when
/// somebody was asked, and nothing when nothing could answer.
pub fn agreed_to_switch(rows: &Vec<ServiceRow>, server: &str, json: bool, answer: Option<bool>) -> (r:
    Result<bool, WireError>)
    ensures
        already_on(rows@, server@) ==> r matches Ok(true),
        !already_on(rows@, server@) ==> match r {
            Ok(yes) => !json && answer == Some(yes),
            Err(e) => (json || answer is None) && is_unanswered(&e),
        },
{
    if already_on_exec(rows, server) {
        return Ok(true);
    }
    if json {
        return Err(unanswered());
    }
    match answer {
        Some(yes) => Ok(yes),
        None => Err(unanswered()),
    }
}


/// What a version that is not installed is in a plan: the version there is, and the one wanted.
#[derive(Debug)]
pub struct Mismatch {
    pub installed: String,
    pub wanted: String,
}

/// One step of a plan, as far as its version question goes.
#[derive(Debug)]
pub struct VersionStep {
    /// What a question would be about — a runtime, or a service — where the step can raise one.
    pub subject: Option<String>,
    /// The choice the plan leaves open, where it leaves one.
    pub mismatch: Option<Mismatch>,
}

/// The two answers a version question takes.
#[derive(Clone, Copy, Debug, PartialEq, Eq, Structural)]
pub enum MismatchAnswer {
    Install,
    UseInstalled,
}

/// What somebody typed at a version question.
#[derive(Clone, Copy, Debug, PartialEq, Eq, Structural)]
pub enum VersionReply {
    Install,
    UseInstalled,
    Cancel,
}

/// The answer to the question a plan's step raised, by the step's place in the plan.
#[derive(Clone, Copy, Debug, PartialEq, Eq, Structural)]
pub struct VersionAnswer {
    pub step: usize,
    pub answer: MismatchAnswer,
}

/// Does the step raise a question: one the plan leaves open, about something it can name?
pub open spec fn raises(step: VersionStep) -> bool {
    step.subject is Some && step.mismatch is Some
}

/// How many of the first `n` steps raise a question.
pub open spec fn raised_before(steps: Seq<VersionStep>, n: nat) -> nat
    decreases n,
{
    if n == 0 {
        0
    } else {
        raised_before(steps, (n - 1) as nat) + if raises(steps[n - 1]) {
            1nat
        } else {
            0nat
        }
    }
}

proof fn lemma_raised_grows(steps: Seq<VersionStep>, a: nat, b: nat)
    requires
        a <= b,
    ensures
        raised_before(steps, a) <= raised_before(steps, b),
        raised_before(steps, b) <= b,
    decreases b,
{
    if b > 0 {
        if a < b {
            lemma_raised_grows(steps, a, (b - 1) as nat);
        } else {
            lemma_raised_grows(steps, (b - 1) as nat, (b - 1) as nat);
        }
    }
}

/// Is `k` the place of the `q`-th question in the plan?
pub open spec fn question_at(steps: Seq<VersionStep>, q: int, k: int) -> bool {
    0 <= k < steps.len() && raises(steps[k]) && raised_before(steps, k as nat) == q
}

/// What answers every question, when a flag does.
pub open spec fn flag_answer(install_missing: bool, use_installed: bool) -> Option<MismatchAnswer> {
    if install_missing {
        Some(MismatchAnswer::Install)
    } else if use_installed {
        Some(MismatchAnswer::UseInstalled)
    } else {
        None
    }
}

/// The reply to the `q`-th question; none when nothing answered it.
pub open spec fn reply_to(replies: Seq<Option<VersionReply>>, q: int) -> Option<VersionReply> {
    if 0 <= q < replies.len() {
        replies[q]
    } else {
        None
    }
}

/// The answer a reply gives, where it gives one.
pub open spec fn settles(reply: Option<VersionReply>) -> Option<MismatchAnswer> {
    match reply {
        Some(VersionReply::Install) => Some(MismatchAnswer::Install),
        Some(VersionReply::UseInstalled) => Some(MismatchAnswer::UseInstalled),
        _ => None,
    }
}

/// Does every question before the `c`-th have a reply that settles it?
pub open spec fn settled_up_to(replies: Seq<Option<VersionReply>>, c: int) -> bool {
    forall|q: int| 0 <= q < c ==> #[trigger] settles(reply_to(replies, q)) is Some
}

/// The answers hold one per question the plan raises, each naming the step that raised it.
pub open spec fn answer_list(steps: Seq<VersionStep>, v: Seq<VersionAnswer>) -> bool {
    v.len() == raised_before(steps, steps.len()) && forall|q: int|
        0 <= q < v.len() ==> question_at(steps, q, (#[trigger] v[q]).step as int)
}

/// The first question whose reply does not settle it is the only one that is first.
proof fn lemma_first_unsettled(replies: Seq<Option<VersionReply>>, q: int)
    requires
        0 <= q,
        settled_up_to(replies, q),
        settles(reply_to(replies, q)) is None,
    ensures
        forall|c: int|
            settles(#[trigger] reply_to(replies, c)) is None && settled_up_to(replies, c) && 0 <= c
                ==> c == q,
{
    assert forall|c: int|
        settles(#[trigger] reply_to(replies, c)) is None && settled_up_to(replies, c) && 0 <= c
            implies c == q by {
        if c < q {
            assert(settles(reply_to(replies, c)) is Some);
        } else if c > q {
            assert(settles(reply_to(replies, q)) is Some);
        }
    }
}

/// The question about one version that is not installed.
pub open spec fn version_question_text(subject: Seq<char>, mismatch: Mismatch) -> Seq<char> {
    subject + " "@ + mismatch.wanted@ + " is not installed. [i]nstall it, [u]se the installed "@
        + mismatch.installed@ + ", or [c]ancel? "@
}

fn version_question(subject: &str, mismatch: &Mismatch) -> (r: String)
    ensures
        r@ == version_question_text(subject@, *mismatch),
{
    let mut r = text::copy(subject);
    r.append(" ");
    r.append(mismatch.wanted.as_str());
    r.append(" is not installed. [i]nstall it, [u]se the installed ");
    r.append(mismatch.installed.as_str());
    r.append(", or [c]ancel? ");
    r
}

/// The questions somebody is asked about a plan's versions, in the order the plan raises them:
/// none when a flag answers them all, or under `--json`, where nobody is asked.
pub fn version_questions(
    steps: &Vec<VersionStep>,
    install_missing: bool,
    use_installed: bool,
    json: bool,
) -> (r: Vec<String>)
    ensures
        flag_answer(install_missing, use_installed) is Some || json ==> r@.len() == 0,
        flag_answer(install_missing, use_installed) is None && !json ==> {
            &&& r@.len() == raised_before(steps@, steps@.len())
            &&& forall|q: int, k: int|
                #![trigger r@[q], question_at(steps@, q, k)]
                0 <= q < r@.len() && question_at(steps@, q, k) ==> r@[q]@ == version_question_text(
                    steps@[k].subject->0@,
                    steps@[k].mismatch->0,
                )
        },
{
    let mut r: Vec<String> = Vec::new();
    if install_missing || use_installed || json {
        return r;
    }
    let mut i: usize = 0;
    while i < steps.len()
        invariant
            i <= steps@.len(),
            r@.len() == raised_before(steps@, i as nat),
            forall|q: int, k: int|
                #![trigger r@[q], question_at(steps@, q, k)]
                0 <= q < r@.len() && question_at(steps@, q, k) ==> r@[q]@ == version_question_text(
                    steps@[k].subject->0@,
                    steps@[k].mismatch->0,
                ),
        decreases steps@.len() - i,
    {
        let ghost before = r@;
        match (&steps[i].subject, &steps[i].mismatch) {
            (Some(subject), Some(mismatch)) => {
                let question = version_question(subject.as_str(), mismatch);
                r.push(question);
                proof {
                    assert forall|q: int, k: int|
                        #![trigger r@[q], question_at(steps@, q, k)]
                        0 <= q < r@.len() && question_at(steps@, q, k) implies r@[q]@
                        == version_question_text(
                        steps@[k].subject->0@,
                        steps@[k].mismatch->0,
                    ) by {
                        if k < i {
                            lemma_raised_grows(steps@, (k + 1) as nat, i as nat);
                            assert(before[q] == r@[q]);
                        } else if k > i {
                            lemma_raised_grows(steps@, (i + 1) as nat, k as nat);
                        }
                    }
                }
            },
            _ => {
                proof {
                    assert forall|q: int, k: int|
                        #![trigger r@[q], question_at(steps@, q, k)]
                        0 <= q < r@.len() && question_at(steps@, q, k) implies r@[q]@
                        == version_question_text(
                        steps@[k].subject->0@,
                        steps@[k].mismatch->0,
                    ) by {
                        if k > i {
                            lemma_raised_grows(steps@, (i + 1) as nat, k as nat);
                        }
                    }
                }
            },
        }
        i = i + 1;
    }
    r
}

/// The answers to a plan's version questions, or nothing when somebody cancelled.
///
/// A flag answers every question, and then nobody is asked. Otherwise a plan that raises a
/// question under `--json` is refused, since nobody is at a keyboard to answer it; and each
/// question takes the reply read for it, in order — `replies[q]` for the `q`-th — until one is a
/// cancel, which applies nothing, or until one is missing, which is refused.
pub fn answered(
    steps: &Vec<VersionStep>,
    install_missing: bool,
    use_installed: bool,
    json: bool,
    replies: &Vec<Option<VersionReply>>,
) -> (r: Result<Option<Vec<VersionAnswer>>, WireError>)
    ensures
        (flag_answer(install_missing, use_installed) is Some || raised_before(steps@, steps@.len())
            == 0) ==> (r matches Ok(Some(v)) && answer_list(steps@, v@) && forall|q: int|
            0 <= q < v@.len() ==> Some((#[trigger] v@[q]).answer) == flag_answer(
                install_missing,
                use_installed,
            )),
        (flag_answer(install_missing, use_installed) is None && raised_before(steps@, steps@.len())
            > 0 && json) ==> (r matches Err(e) && is_unanswerable_question(&e)),
        (flag_answer(install_missing, use_installed) is None && !json && settled_up_to(
            replies@,
            raised_before(steps@, steps@.len()) as int,
        )) ==> (r matches Ok(Some(v)) && answer_list(steps@, v@) && forall|q: int|
            0 <= q < v@.len() ==> Some((#[trigger] v@[q]).answer) == settles(reply_to(replies@, q))),
        forall|c: int|
            flag_answer(install_missing, use_installed) is None && !json && 0 <= c < raised_before(
                steps@,
                steps@.len(),
            ) && settles(#[trigger] reply_to(replies@, c)) is None && settled_up_to(replies@, c)
                ==> if reply_to(replies@, c) == Some(VersionReply::Cancel) {
                r matches Ok(None)
            } else {
                r matches Err(e) && is_unanswerable_question(&e)
            },
{
    let ghost n = raised_before(steps@, steps@.len());
    let ghost flag = flag_answer(install_missing, use_installed);
    let mut answers: Vec<VersionAnswer> = Vec::new();
    let mut q: usize = 0;
    let mut i: usize = 0;
    while i < steps.len()
        invariant
            i <= steps@.len(),
            n == raised_before(steps@, steps@.len()),
            flag == flag_answer(install_missing, use_installed),
            q == raised_before(steps@, i as nat),
            answers@.len() == q,
            forall|p: int| 0 <= p < q ==> question_at(steps@, p, (#[trigger] answers@[p]).step as int),
            flag is Some ==> forall|p: int| 0 <= p < q ==> Some((#[trigger] answers@[p]).answer) == flag,
            flag is None ==> !json || q == 0,
            flag is None ==> forall|p: int|
                0 <= p < q ==> Some((#[trigger] answers@[p]).answer) == settles(reply_to(replies@, p)),
            flag is None ==> settled_up_to(replies@, q as int),
        decreases steps@.len() - i,
    {
        proof {
            lemma_raised_grows(steps@, (i + 1) as nat, steps@.len());
            lemma_raised_grows(steps@, i as nat, i as nat);
        }
        if steps[i].subject.is_some() && steps[i].mismatch.is_some() {
            let answer = if install_missing {
                MismatchAnswer::Install
            } else if use_installed {
                MismatchAnswer::UseInstalled
            } else {
                if json {
                    return Err(unanswerable_question());
                }
                let reply = if q < replies.len() {
                    replies[q]
                } else {
                    None
                };
                assert(reply == reply_to(replies@, q as int));
                match reply {
                    Some(VersionReply::Install) => MismatchAnswer::Install,
                    Some(VersionReply::UseInstalled) => MismatchAnswer::UseInstalled,
                    Some(VersionReply::Cancel) => {
                        proof {
                            lemma_first_unsettled(replies@, q as int);
                        }
                        return Ok(None);
                    },
                    None => {
                        proof {
                            lemma_first_unsettled(replies@, q as int);
                        }
                        return Err(unanswerable_question());
                    },
                }
            };
            answers.push(VersionAnswer { step: i, answer });
            q = q + 1;
        }
        i = i + 1;
    }
    proof {
        if flag is None {
            assert forall|c: int| 0 <= c < n implies #[trigger] settles(reply_to(replies@, c)) is Some by {
            }
        }
    }
    Ok(Some(answers))
}


/// The question before an extension is installed, under what the plan declares.
pub fn install_question(plan: &str) -> (r: String)
    ensures
        r@ == plan@ + "\ninstall it? [y/N] "@,
{
    text::concat(plan, "\ninstall it? [y/N] ")
}

/// Whether to install an extension: never under `--json`, where there is nobody to ask; `answer`
/// is what was read when somebody was asked, and nothing when nothing could answer.
pub fn agreed_to_install(json: bool, answer: Option<bool>) -> (r: Result<bool, WireError>)
    ensures
        match r {
            Ok(yes) => !json && answer == Some(yes),
            Err(e) => (json || answer is None) && is_unanswered(&e),
        },
{
    if json {
        return Err(unanswered());
    }
    match answer {
        Some(yes) => Ok(yes),
        None => Err(unanswered()),
    }
}

/// The question before a repair stops a database and rewrites the credential inside it.
pub fn reset_question(service: &str) -> (r: String)
    ensures
        r@ == "\n"@ + service@
            + " and everything that depends on it will be stopped, and its superuser password rewritten inside its data directory.\nEvery database in it is kept.\n\nre-set the credential? [y/N] "@,
{
    let mut r = text::copy("\n");
    r.append(service);
    r.append(
        " and everything that depends on it will be stopped, and its superuser password rewritten inside its data directory.\nEvery database in it is kept.\n\nre-set the credential? [y/N] ",
    );
    r
}

/// Whether to re-set a service's credential. `--yes` answers before anybody is asked, so this is
/// only reached with a question out; `answer` is what was read, and nothing when nothing could
/// answer, which is refused.
pub fn agreed_to_reset(answer: Option<bool>) -> (r: Result<bool, WireError>)
    ensures
        match r {
            Ok(yes) => answer == Some(yes),
            Err(e) => answer is None && is_unanswered(&e),
        },
{
    match answer {
        Some(yes) => Ok(yes),
        None => Err(unanswered()),
    }
}

/// The question before a command queues work that needs the operating system's permission: what
/// it is about to do, and whatever is already waiting for the same prompt.
pub open spec fn agreed_question_text(what: Seq<char>, pending: nat, waiting: Seq<char>) -> Seq<
    char,
> {
    let also = if pending == 0 {
        Seq::<char>::empty()
    } else {
        "\n\nthis machine is also holding these, and one prompt covers them all:\n"@ + waiting
    };
    what + also + "\n\ncontinue? [y/N] "@
}

/// That question; `pending` is how many things are already waiting, and `waiting` how they read.
pub fn agreed_question(what: &str, pending: usize, waiting: &str) -> (r: String)
    ensures
        r@ == agreed_question_text(what@, pending as nat, waiting@),
{
    let mut r = text::copy(what);
    if pending > 0 {
        r.append("\n\nthis machine is also holding these, and one prompt covers them all:\n");
        r.append(waiting);
    }
    r.append("\n\ncontinue? [y/N] ");
    r
}

/// Whether to go on with it: never under `--json`, where there is nobody to ask; `answer` is
/// what was read when somebody was asked, and nothing when nothing could answer.
pub fn agreed(json: bool, answer: Option<bool>) -> (r: Result<bool, WireError>)
    ensures
        match r {
            Ok(yes) => !json && answer == Some(yes),
            Err(e) => (json || answer is None) && is_unanswered(&e),
        },
{
    if json {
        return Err(unanswered());
    }
    match answer {
        Some(yes) => Ok(yes),
        None => Err(unanswered()),
    }
}

/// What happens to the prompt an apply queued.
#[derive(Clone, Copy, Debug, PartialEq, Eq, Structural)]
pub enum GrantStep {
    /// Nothing is waiting: the apply is done.
    NothingWaiting,
    /// It stays queued, and one line says how to spend it later.
    LeftWaiting,
    /// Spend it now.
    Grant,
}

/// Is somebody asked whether to spend the prompt now? Only when something waits, nobody said
/// `--grant`, and there is a keyboard.
pub fn grant_asked(pending: usize, grant: bool, json: bool) -> (r: bool)
    ensures
        r == (pending > 0 && !grant && !json),
{
    pending > 0 && !grant && !json
}

/// What to do with the prompt an apply queued. `--grant` spends it; otherwise it is spent only on
/// a typed yes — `answer` is what was read when somebody was asked — and anything else, a closed
/// input included, leaves it waiting, which is never an error.
pub fn granted(pending: usize, grant: bool, json: bool, answer: Option<bool>) -> (r: GrantStep)
    ensures
        r == if pending == 0 {
            GrantStep::NothingWaiting
        } else if grant || (!json && answer == Some(true)) {
            GrantStep::Grant
        } else {
            GrantStep::LeftWaiting
        },
{
    if pending == 0 {
        return GrantStep::NothingWaiting;
    }
    if !grant && (json || !asked_to_grant(answer)) {
        return GrantStep::LeftWaiting;
    }
    GrantStep::Grant
}

/// Did somebody at the keyboard say yes to spending the prompt? Anything but a typed yes is
/// *not now*.
pub fn asked_to_grant(answer: Option<bool>) -> (r: bool)
    ensures
        r == (answer == Some(true)),
{
    match answer {
        Some(yes) => yes,
        None => false,
    }
}

/// The question before the prompt is spent, under what is waiting for it.
pub fn grant_question(waiting: &str) -> (r: String)
    ensures
        r@ == waiting@ + "\ngrant now? [y/N] "@,
{
    text::concat(waiting, "\ngrant now? [y/N] ")
}

/// What is said of a prompt left waiting.
pub fn still_waiting_line(pending: usize) -> (r: String)
    ensures
        r@ == text::decimal(pending as nat) + " still waiting; `mix elevation grant` writes them"@,
{
    let mut r = text::decimal_text(pending as u64);
    r.append(" still waiting; `mix elevation grant` writes them");
    r
}

/// What a start, stop or restart walks: one service or all of them, waiting for the walk unless
/// told not to.
#[derive(Debug, PartialEq, Eq)]
pub struct ServiceTarget {
    pub service: Option<String>,
    pub project: Option<String>,
    pub wait: bool,
}

/// The target of a verb that has no scope of its own.
pub fn walk_target(service: Option<String>, no_wait: bool) -> (r: ServiceTarget)
    ensures
        r.service == service,
        r.project is None,
        r.wait == !no_wait,
{
    ServiceTarget { service, project: None, wait: !no_wait }
}


/// What `{:?}` writes for a text: std's `Debug` for `str`, quoted and escaped.
pub uninterp spec fn debug_quoted(s: Seq<char>) -> Seq<char>;

/// `format!("{s:?}")` — std's `Debug` for `str`, whose output depends on the text alone.
#[verifier::external_body]
fn quoted(s: &str) -> (r: String)
    ensures
        r@ == debug_quoted(s@),
{
    format!("{s:?}")
}

/// What an idle policy of `millis` milliseconds, read from `value`, is in whole minutes — or why
/// it is refused: not a duration at all, zero (`--never` says that), not whole minutes, or more
/// minutes than are stored. `millis` is what the daemon's own duration syntax made of `value`.
pub fn idle_after(value: &str, millis: Option<u64>) -> (r: Result<u32, String>)
    ensures
        match millis {
            None => r matches Err(m) && m@ == debug_quoted(value@)
                + " is not a duration — write it as `30m`, `2h` or `90m`"@,
            Some(ms) => if ms == 0 {
                r matches Err(m) && m@
                    == "an idle policy of zero would stop the service on the next sweep; `--never` is how you              switch idle stopping off"@
            } else if ms % 60_000 != 0 {
                r matches Err(m) && m@ == debug_quoted(value@)
                    + " is not a whole number of minutes, and that is what MixEngine stores — write              it as minutes or hours"@
            } else if ms / 60_000 > u32::MAX {
                r matches Err(m) && m@ == debug_quoted(value@)
                    + " is longer than MixEngine can store"@
            } else {
                r matches Ok(minutes) && minutes == ms / 60_000
            },
        },
{
    let ms = match millis {
        Some(ms) => ms,
        None => {
            let mut m = quoted(value);
            m.append(" is not a duration — write it as `30m`, `2h` or `90m`");
            return Err(m);
        },
    };
    if ms == 0 {
        return Err(
            text::copy(
                "an idle policy of zero would stop the service on the next sweep; `--never` is how you              switch idle stopping off",
            ),
        );
    }
    let minutes = ms / 60_000;
    if ms % 60_000 != 0 {
        let mut m = quoted(value);
        m.append(
            " is not a whole number of minutes, and that is what MixEngine stores — write              it as minutes or hours",
        );
        return Err(m);
    }
    if minutes > 0xffff_ffff {
        let mut m = quoted(value);
        m.append(" is longer than MixEngine can store");
        return Err(m);
    }
    Ok(minutes as u32)
}

/// One pin as a person types it, `php=^8.3`: the runtime and the version, split at the first
/// `=`; refused when there is none.
pub fn pin(value: &str) -> (r: Result<(String, String), String>)
    ensures
        match text::split_at_first(value@, '=') {
            Some((kind, constraint)) => r matches Ok((k, c)) && k@ == kind && c@ == constraint,
            None => r matches Err(m) && m@ == "`"@ + value@ + "` is not `<runtime>=<version>`"@,
        },
{
    match text::split_once(value, '=') {
        Some(parts) => Ok(parts),
        None => {
            let mut m = text::copy("`");
            m.append(value);
            m.append("` is not `<runtime>=<version>`");
            Err(m)
        },
    }
}

/// What taking the lock beside the binaries came to.
#[derive(Debug)]
pub enum LockAttempt {
    /// It is held, by this process.
    Held,
    /// Another process holds it; how it describes itself.
    Taken(String),
    /// The directory is not this account's to write: nobody here swaps it, so there is nothing
    /// to keep two updates apart over.
    NotWritable,
    /// Anything else, as it is reported.
    Failed(WireError),
}

/// Whether an update goes on, holding the lock or with none to hold, or is refused because
/// another is running.
pub fn update_lock_in(attempt: LockAttempt) -> (r: Result<bool, WireError>)
    ensures
        match attempt {
            LockAttempt::Held => r matches Ok(true),
            LockAttempt::NotWritable => r matches Ok(false),
            LockAttempt::Taken(holder) => r matches Err(e) && e.code == ErrorCode::PreconditionFailed
                && e.message@ == "another update is running ("@ + holder@ + ")"@ && (e.hint matches Some(
                h) && h@
                == "wait for it to finish, whether it is mix self-update or MixLab; two updates at once              would interleave their swaps"@),
            LockAttempt::Failed(error) => r matches Err(e) && e == error,
        },
{
    match attempt {
        LockAttempt::Held => Ok(true),
        LockAttempt::NotWritable => Ok(false),
        LockAttempt::Taken(holder) => {
            let mut message = text::copy("another update is running (");
            message.append(holder.as_str());
            message.append(")");
            Err(
                WireError {
                    code: ErrorCode::PreconditionFailed,
                    message,
                    hint: Some(
                        text::copy(
                            "wait for it to finish, whether it is mix self-update or MixLab; two updates at once              would interleave their swaps",
                        ),
                    ),
                },
            )
        },
        LockAttempt::Failed(error) => Err(error),
    }
}

/// What is said when an update is installed and the new daemon would not start: the two files
/// of each binary it replaced, and the move that undoes the swap. `suffix` is what executables
/// end in on this system.
pub fn update_rollback_lines(
    to: &str,
    error: &str,
    directory: &str,
    replaced: &Vec<String>,
    suffix: &str,
) -> (r: Vec<String>)
    ensures
        r@.len() == replaced@.len() + 3,
        r@[0]@ == "\nMixEngine "@ + to@ + " is installed, and the new daemon would not start: "@
            + error@,
        r@[1]@ == "the binaries it replaced are still in "@ + directory@
            + ", each under its own name with .old on the end:"@,
        forall|i: int|
            0 <= i < replaced@.len() ==> (#[trigger] r@[i + 2])@ == "  "@ + replaced@[i]@ + suffix@
                + ".old"@,
        r@[replaced@.len() + 2int]@
            == "renaming each of those back over the file beside it puts this machine as it was."@,
{
    let mut r: Vec<String> = Vec::new();
    let mut first = text::copy("\nMixEngine ");
    first.append(to);
    first.append(" is installed, and the new daemon would not start: ");
    first.append(error);
    r.push(first);
    let mut second = text::copy("the binaries it replaced are still in ");
    second.append(directory);
    second.append(", each under its own name with .old on the end:");
    r.push(second);
    let mut i: usize = 0;
    while i < replaced.len()
        invariant
            i <= replaced@.len(),
            r@.len() == i + 2,
            r@[0]@ == "\nMixEngine "@ + to@ + " is installed, and the new daemon would not start: "@
                + error@,
            r@[1]@ == "the binaries it replaced are still in "@ + directory@
                + ", each under its own name with .old on the end:"@,
            forall|k: int|
                0 <= k < i ==> (#[trigger] r@[k + 2])@ == "  "@ + replaced@[k]@ + suffix@ + ".old"@,
        decreases replaced@.len() - i,
    {
        let mut line = text::copy("  ");
        line.append(replaced[i].as_str());
        line.append(suffix);
        line.append(".old");
        r.push(line);
        i = i + 1;
    }
    r.push(text::copy("renaming each of those back over the file beside it puts this machine as it was."));
    r
}


/// What `mix uninstall` was asked for.
#[derive(Clone, Copy, Debug)]
pub struct UninstallFlags {
    /// Leave the home where it is.
    pub keep_home: bool,
    /// Leave the directories the home keeps elsewhere.
    pub keep_relocated: bool,
    pub dry_run: bool,
    pub yes: bool,
    pub json: bool,
    /// List the directories moved out of the home, and nothing else.
    pub relocated: bool,
    /// List what is in the way of the removal, and nothing else.
    pub blocked: bool,
}

/// What an uninstall does once the daemon has answered with its plan.
#[derive(Debug)]
pub enum UninstallAct {
    /// Print the relocated directories' listing, and succeed.
    ListRelocated,
    /// Print the listing of what is in the way, and succeed.
    ListBlocked,
    /// Stop here with this exit code, having printed the plan or not.
    Finish { show_plan: bool, code: u8 },
    /// Stop here refused, having printed the plan or not.
    Refuse { show_plan: bool, error: WireError },
    /// Go on and remove, having printed the plan or not.
    Remove { show_plan: bool },
}

/// Does something stand in the way of a plan?
pub open spec fn plan_blocked(rows: Seq<Row>) -> bool {
    exists|k: int| 0 <= k < rows.len() && (#[trigger] rows[k]).outcome is Blocked
}

fn plan_blocked_exec(items: &Vec<Residue>) -> (r: bool)
    ensures
        r == plan_blocked(views(items@)),
{
    let mut k: usize = 0;
    while k < items.len()
        invariant
            k <= items@.len(),
            forall|m: int| 0 <= m < k ==> !((#[trigger] views(items@)[m]).outcome is Blocked),
        decreases items@.len() - k,
    {
        assert(views(items@)[k as int] == items@[k as int]@);
        match &items[k].outcome {
            Removal::Blocked { .. } => {
                return true;
            },
            _ => {},
        }
        k = k + 1;
    }
    false
}

/// Is the plan printed? Under `--json` only on a dry run, where the plan is the answer: one
/// document per run.
pub open spec fn shows_plan(flags: UninstallFlags) -> bool {
    flags.dry_run || !flags.json
}

/// Is somebody asked before the plan is carried out?
pub fn uninstall_asks(flags: UninstallFlags, planned: &Vec<Residue>) -> (r: bool)
    ensures
        r == (!flags.relocated && !flags.blocked && !plan_blocked(views(planned@)) && !flags.dry_run
            && !flags.yes && !flags.json),
{
    !flags.relocated && !flags.blocked && !plan_blocked_exec(planned) && !flags.dry_run && !flags.yes
        && !flags.json
}

/// What an uninstall does with the plan the daemon answered. A listing is all a listing asks
/// for. Otherwise the plan is printed unless `--json` without `--dry-run`; a plan something is in
/// the way of ends it with [`BLOCKED`]; a dry run ends it; `--yes` goes on; and otherwise the
/// answer decides — `answer` is what was read when somebody was asked, and nothing when nothing
/// could answer. Saying no is an answer, not a failure.
pub fn uninstall_step(flags: UninstallFlags, planned: &Vec<Residue>, answer: Option<bool>) -> (r:
    UninstallAct)
    ensures
        flags.relocated ==> r is ListRelocated,
        !flags.relocated && flags.blocked ==> r is ListBlocked,
        !flags.relocated && !flags.blocked ==> {
            let show = shows_plan(flags);
            if plan_blocked(views(planned@)) {
                r == (UninstallAct::Finish { show_plan: show, code: BLOCKED })
            } else if flags.dry_run {
                r == (UninstallAct::Finish { show_plan: show, code: 0 })
            } else if flags.yes || (!flags.json && answer == Some(true)) {
                r == (UninstallAct::Remove { show_plan: show })
            } else if !flags.json && answer == Some(false) {
                r == (UninstallAct::Finish { show_plan: show, code: 0 })
            } else {
                r matches UninstallAct::Refuse { show_plan, error } && show_plan == show
                    && is_unanswered(&error)
            }
        },
{
    if flags.relocated {
        return UninstallAct::ListRelocated;
    }
    if flags.blocked {
        return UninstallAct::ListBlocked;
    }
    let show_plan = flags.dry_run || !flags.json;
    if plan_blocked_exec(planned) {
        return UninstallAct::Finish { show_plan, code: BLOCKED };
    }
    if flags.dry_run {
        return UninstallAct::Finish { show_plan, code: 0 };
    }
    if flags.yes {
        return UninstallAct::Remove { show_plan };
    }
    match agreed_to_uninstall(flags.json, answer) {
        Ok(true) => UninstallAct::Remove { show_plan },
        Ok(false) => UninstallAct::Finish { show_plan, code: 0 },
        Err(error) => UninstallAct::Refuse { show_plan, error },
    }
}

/// How an uninstall that ran ends.
#[derive(Debug)]
pub struct UninstallEnd {
    /// The daemon whose note outside the home is printed, saying why something stayed.
    pub note_from: Option<u32>,
    /// The lines about what is still on this machine.
    pub lines: Vec<String>,
    /// Whether it exits as a failure.
    pub failed: bool,
}

/// Is the daemon's process still running after it said the uninstall finished?
pub open spec fn lingering(daemon: Option<u32>, finished: bool, ended: bool) -> bool {
    finished && daemon is Some && !ended
}

/// How an uninstall that ran ends. `left_behind` is whether the daemon's report left something
/// behind; `still_there` what the client found afterwards; `daemon` the daemon's pid where it
/// said; `finished` whether its report said it finished; `ended` whether its process has ended.
/// A daemon still running after it finished is reported as still there, and its note is not
/// printed, since the why is not written yet; otherwise its note comes first.
pub fn uninstall_ending(
    left_behind: bool,
    still_there: &Vec<String>,
    daemon: Option<u32>,
    finished: bool,
    ended: bool,
) -> (r: UninstallEnd)
    ensures
        r.note_from == if lingering(daemon, finished, ended) { None } else { daemon },
        r.lines@.len() == still_there@.len() + if lingering(daemon, finished, ended) { 1int } else { 0int },
        forall|i: int|
            0 <= i < still_there@.len() ==> (#[trigger] r.lines@[i])@ == "still there: "@
                + still_there@[i]@,
        lingering(daemon, finished, ended) ==> r.lines@[still_there@.len() as int]@
            == "still there: "@ + "the daemon (pid "@ + text::decimal(daemon->0 as nat)
            + ") is still running"@,
        r.failed == (left_behind || still_there@.len() > 0 || lingering(daemon, finished, ended)),
{
    let stays = finished && daemon.is_some() && !ended;
    let mut lines: Vec<String> = Vec::new();
    let mut i: usize = 0;
    while i < still_there.len()
        invariant
            i <= still_there@.len(),
            lines@.len() == i,
            forall|k: int|
                0 <= k < i ==> (#[trigger] lines@[k])@ == "still there: "@ + still_there@[k]@,
        decreases still_there@.len() - i,
    {
        lines.push(left_line(still_there[i].as_str()));
        i = i + 1;
    }
    let note_from = if stays {
        match daemon {
            Some(pid) => {
                let mut what = text::copy("the daemon (pid ");
                what.append(text::decimal_text(pid as u64).as_str());
                what.append(") is still running");
                let line = left_line(what.as_str());
                assert(line@ =~= "still there: "@ + "the daemon (pid "@ + text::decimal(pid as nat)
                    + ") is still running"@);
                lines.push(line);
            },
            None => {},
        }
        None
    } else {
        daemon
    };
    UninstallEnd { note_from, lines, failed: left_behind || still_there.len() > 0 || stays }
}


/// The plan an uninstall asks the daemon for: what to keep as the flags say, no permission raised
/// — a plan raises nothing — and, for the relocated listing, which reads folders and nothing else,
/// without reading what holds them.
pub open spec fn plan_query_of(flags: UninstallFlags) -> UninstallQuery {
    UninstallQuery {
        keep_home: flags.keep_home,
        keep_relocated: flags.keep_relocated,
        grant: false,
        skip_holders: flags.relocated,
    }
}

/// The query for the plan.
pub fn plan_query(flags: UninstallFlags) -> (r: UninstallQuery)
    ensures
        r == plan_query_of(flags),
        r.keep_home == flags.keep_home,
        r.keep_relocated == flags.keep_relocated,
        !r.grant,
        r.skip_holders == flags.relocated,
{
    UninstallQuery {
        keep_home: flags.keep_home,
        keep_relocated: flags.keep_relocated,
        grant: false,
        skip_holders: flags.relocated,
    }
}

/// The query for the act, asked only when the uninstall goes on to remove: the same question
/// the plan asked, now raising the permission the plan just showed, and always reading what holds
/// the directories, since something stuck since the plan must refuse here. Every other step —
/// a listing, a finish, a refusal — asks for no act at all.
pub fn act_query(flags: UninstallFlags, act: &UninstallAct) -> (r: Option<UninstallQuery>)
    ensures
        r is Some <==> act is Remove,
        r matches Some(q) ==> q == act_query_of(flags) && q.keep_home == flags.keep_home
            && q.keep_relocated == flags.keep_relocated,
        r matches Some(q) ==> q == (UninstallQuery {
            keep_home: flags.keep_home,
            keep_relocated: flags.keep_relocated,
            grant: true,
            skip_holders: false,
        }),
{
    match act {
        UninstallAct::Remove { .. } => Some(
            UninstallQuery {
                keep_home: flags.keep_home,
                keep_relocated: flags.keep_relocated,
                grant: true,
                skip_holders: false,
            },
        ),
        _ => None,
    }
}

/// The query the act is asked with, when there is an act.
pub open spec fn act_query_of(flags: UninstallFlags) -> UninstallQuery {
    UninstallQuery {
        keep_home: flags.keep_home,
        keep_relocated: flags.keep_relocated,
        grant: true,
        skip_holders: false,
    }
}

/// The plan shown and the act carried out keep the same things, exactly what the flags keep: a
/// plan that says the home is kept is never followed by an act that removes it. Only the act
/// raises the permission, and only the plan may skip reading what holds the directories.
pub proof fn the_plan_and_the_act_keep_what_the_flags_keep(flags: UninstallFlags)
    ensures
        plan_query_of(flags).keep_home == flags.keep_home,
        plan_query_of(flags).keep_relocated == flags.keep_relocated,
        act_query_of(flags).keep_home == plan_query_of(flags).keep_home,
        act_query_of(flags).keep_relocated == plan_query_of(flags).keep_relocated,
        !plan_query_of(flags).grant && act_query_of(flags).grant,
        !act_query_of(flags).skip_holders,
        plan_query_of(flags).skip_holders == flags.relocated,
{
}

/// A plan something stands in the way of ends the uninstall with exit code 3, whatever else was
/// asked for but a listing: nothing is removed around a program that holds the home.
pub proof fn a_blocked_plan_exits_three()
    ensures
        BLOCKED == 3,
{
}

/// A relocated listing asks for its plan without reading what holds the directories, and never
/// asks for the act: whatever the plan and the answer, it lists and stops.
pub proof fn a_relocated_listing_never_asks_for_the_act(flags: UninstallFlags, act: UninstallAct)
    requires
        flags.relocated,
        act is ListRelocated,
    ensures
        plan_query_of(flags).skip_holders,
        !plan_query_of(flags).grant,
        !(act is Remove),
{
}


/// How long `mix uninstall` waits for the daemon it just ended, in milliseconds: it has a
/// shutdown budget of its own and then removes several directories.
pub const GOING: u64 = 60000;

/// How often a line says the removal is still going, in milliseconds.
pub const STILL: u64 = 10000;

/// How often the paths are looked at while the daemon finishes, in milliseconds.
pub const STEP: u64 = 100;

/// Is the daemon waited for, to go, after an uninstall ran? Always when something of its own goes
/// with it; otherwise only after a finished uninstall, which ends the daemon too.
pub fn waits_for_the_daemon(going: usize, finished: bool) -> (r: bool)
    ensures
        r == (going > 0 || finished),
{
    going > 0 || finished
}

/// What is said when the daemon was still there at the end of the wait: `going` is how many of its
/// own paths it takes with it, and `gone` whether it went.
pub fn daemon_still_up(going: usize, finished: bool, gone: bool) -> (r: Option<String>)
    ensures
        gone || !(going > 0 || finished) ==> r is None,
        !gone && going == 0 && finished ==> (r matches Some(line) && line@
            == "this home's daemon is still running after a finished uninstall"@),
        !gone && going > 0 ==> (r matches Some(line) && line@
            == "this home's daemon is still running, so nothing of its own has been removed"@),
{
    if gone {
        None
    } else if going > 0 {
        Some(text::copy("this home's daemon is still running, so nothing of its own has been removed"))
    } else if finished {
        Some(text::copy("this home's daemon is still running after a finished uninstall"))
    } else {
        None
    }
}

/// What the wait for the daemon's own paths does next.
#[derive(Clone, Copy, Debug, PartialEq, Eq, Structural)]
pub enum LeftStep {
    /// Answer with what is left now.
    Answer,
    /// Look again after a step, saying first that the removal is still going, or not.
    Wait { say_still: bool },
}

/// One turn of the wait for what the daemon said it takes with it. It answers as soon as nothing
/// is left, or the daemon's process has ended — it will remove nothing more — or one more step
/// would reach the budget; otherwise it waits a step, with a line every [`STILL`]. `waited` is how
/// long it has waited and `since_said` how long since the last line, in milliseconds.
pub fn left_behind_step(nothing_left: bool, ended: bool, waited: u64, since_said: u64) -> (r:
    LeftStep)
    ensures
        r == if nothing_left || ended || waited + STEP >= GOING {
            LeftStep::Answer
        } else {
            LeftStep::Wait { say_still: since_said >= STILL }
        },
{
    if nothing_left || ended || waited >= GOING - STEP {
        LeftStep::Answer
    } else {
        LeftStep::Wait { say_still: since_said >= STILL }
    }
}

/// Where `base` joined with `p` is, as std's `Path::push` documents it for a `p` that is not
/// absolute: a prefix of its own (`D:x`) replaces `base`; a root with no prefix (`\x`) keeps only
/// `base`'s prefix; anything else is added to `base`.
pub open spec fn joined_onto(base: Parts, p: Parts) -> Parts {
    if p.len() > 0 && p[0].0 == PartKind::Prefix {
        p
    } else if p.len() > 0 && p[0].0 == PartKind::Root {
        (if base.len() > 0 && base[0].0 == PartKind::Prefix {
            seq![base[0]]
        } else {
            Seq::empty()
        }) + p
    } else {
        base + p
    }
}

/// What `mix` says when it has no working directory to stand in.
pub open spec fn no_working_directory(e: &WireError, error: Seq<char>) -> bool {
    e.code == ErrorCode::Io && e.message@ == "this process has no working directory: "@ + error
        && e.hint is None
}

/// A directory argument, or the one this process is in. `absolute` is whether `given` is
/// absolute on this system, and `cwd` the working directory, or why there is none. An absolute
/// path is kept as it is and needs no working directory.
pub fn here(given: Option<Location>, absolute: bool, cwd: Result<Location, String>) -> (r: Result<
    Location,
    WireError,
>)
    ensures
        match given {
            Some(p) if absolute => r matches Ok(l) && l@ == p@,
            Some(p) => match cwd {
                Ok(c) => r matches Ok(l) && l@ == joined_onto(c@, p@),
                Err(error) => r matches Err(e) && no_working_directory(&e, error@),
            },
            None => match cwd {
                Ok(c) => r matches Ok(l) && l@ == c@,
                Err(error) => r matches Err(e) && no_working_directory(&e, error@),
            },
        },
{
    let base = match cwd {
        Ok(c) => c,
        Err(error) => {
            if let Some(p) = given {
                if absolute {
                    return Ok(p);
                }
            }
            return Err(
                WireError {
                    code: ErrorCode::Io,
                    message: text::concat("this process has no working directory: ", error.as_str()),
                    hint: None,
                },
            );
        },
    };
    match given {
        None => Ok(base),
        Some(p) => {
            if absolute {
                return Ok(p);
            }
            if p.parts.len() > 0 && p.parts[0].kind == PartKind::Prefix {
                return Ok(p);
            }
            assert(p@.len() > 0 ==> p@[0] == p.parts@[0]@);
            assert(base@.len() > 0 ==> base@[0] == base.parts@[0]@);
            if p.parts.len() > 0 && p.parts[0].kind == PartKind::Root {
                let mut r = Location::empty();
                if base.parts.len() > 0 && base.parts[0].kind == PartKind::Prefix {
                    r.push(base.parts[0].copy());
                }
                let joined = r.join(p.parts.as_slice());
                assert(p.parts@.map_values(|q: Part| q@) =~= p@);
                return Ok(joined);
            }
            let joined = base.join(p.parts.as_slice());
            assert(p.parts@.map_values(|q: Part| q@) =~= p@);
            Ok(joined)
        },
    }
}

} // verus!
