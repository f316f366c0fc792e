//! The line the daemon's log gets when the log itself could not be rotated.
//!
//! It is written into the file by hand, since the file is the only place it can be said from, so
//! it has to be shaped by hand the way the lines around it are: a text line in a text log, one
//! JSON object on one line in a JSON log, where a line of prose would be a parse error at exactly
//! the moment something is already wrong.

use vstd::prelude::*;

use crate::text;
use tracing_subscriber::fmt::time::FormatTime;

verus! {

/// What a rotation failure says. The daemon keeps logging either way, so the sentence is about
/// the file.
pub const NOTE_MESSAGE: &'static str = "log rotation failed; this file will keep growing";

/// The target a rotation failure carries, so it filters and greps like any other line from here.
pub const NOTE_TARGET: &'static str = "mixengined::logging";

/// How the daemon's log lines are shaped.
#[derive(Clone, Copy, Debug, PartialEq, Eq, Structural)]
pub enum LogFormat {
    Text,
    Json,
}

/// Does `s` hold no line break?
pub open spec fn one_line(s: Seq<char>) -> bool {
    !s.contains('\n')
}

/// A character the log's clock writes: a digit, or one of `+-:.TZ`.
pub open spec fn timestamp_char(c: char) -> bool {
    ('0' <= c && c <= '9') || c == '+' || c == '-' || c == ':' || c == '.' || c == 'T' || c == 'Z'
}

/// A time as the log's formatter writes it: digits and `+-:.T`, ending in `Z`.
pub open spec fn timestamp_text(t: Seq<char>) -> bool {
    t.len() > 0 && t.last() == 'Z' && forall|i: int| 0 <= i < t.len() ==> timestamp_char(#[trigger] t[i])
}

/// A time written that way holds no line break, nor anything JSON would escape.
pub proof fn lemma_timestamp_one_line(t: Seq<char>)
    requires
        timestamp_text(t),
    ensures
        one_line(t),
{
    if t.contains('\n') {
        let k = choose|k: int| 0 <= k < t.len() && t[k] == '\n';
        assert(timestamp_char(t[k]));
    }
}

/// The time now, as the log's formatter writes it — `tracing_subscriber`'s `SystemTime`, which
/// writes the year (four digits, or with a sign beyond them), then `-MM-DDTHH:MM:SS.ffffffZ`.
/// What time it is depends on the clock, so only that shape is said of it.
#[verifier::external_body]
fn now() -> (r: String)
    ensures
        timestamp_text(r@),
{
    let mut formatted = String::new();
    let _ = tracing_subscriber::fmt::time::SystemTime.format_time(
        &mut tracing_subscriber::fmt::format::Writer::new(&mut formatted),
    );
    formatted
}

proof fn lemma_note_words_one_line()
    ensures
        one_line(" ERROR "@),
        one_line(NOTE_TARGET@),
        one_line(": "@),
        one_line(NOTE_MESSAGE@),
        one_line(" error="@),
{
    reveal_strlit(" ERROR ");
    reveal_strlit("mixengined::logging");
    reveal_strlit(": ");
    reveal_strlit("log rotation failed; this file will keep growing");
    reveal_strlit(" error=");
    reveal_with_fuel(text::breaks, 50);
    assert(!text::breaks(" ERROR "@));
    assert(!text::breaks(NOTE_TARGET@));
    assert(!text::breaks(": "@));
    assert(!text::breaks(NOTE_MESSAGE@));
    assert(!text::breaks(" error="@));
    text::lemma_breaks(" ERROR "@);
    text::lemma_breaks(NOTE_TARGET@);
    text::lemma_breaks(": "@);
    text::lemma_breaks(NOTE_MESSAGE@);
    text::lemma_breaks(" error="@);
}

/// The text note, at `timestamp`: the shape the text formatter gives every other line.
pub open spec fn text_note_of(timestamp: Seq<char>, error: Seq<char>) -> Seq<char> {
    timestamp + " ERROR "@ + NOTE_TARGET@ + ": "@ + NOTE_MESSAGE@ + " error="@ + error + "\n"@
}

/// `<timestamp> ERROR <target>: <message> error=<error>`, ended by a line break.
pub fn text_note_at(timestamp: &str, error: &str) -> (r: String)
    ensures
        r@ == text_note_of(timestamp@, error@),
{
    let mut r = text::copy(timestamp);
    r.append(" ERROR ");
    r.append(NOTE_TARGET);
    r.append(": ");
    r.append(NOTE_MESSAGE);
    r.append(" error=");
    r.append(error);
    r.append("\n");
    r
}

/// The text note for a rotation that failed with `error`, at the time it is written: one line
/// whenever the error is.
pub fn text_note(error: &str) -> (r: String)
    ensures
        exists|timestamp: Seq<char>| timestamp_text(timestamp) && r@ == text_note_of(timestamp, error@),
        one_line(error@) ==> r@.last() == '\n' && one_line(r@.drop_last()),
{
    let timestamp = now();
    let r = text_note_at(timestamp.as_str(), error);
    proof {
        lemma_timestamp_one_line(timestamp@);
        reveal_strlit(" ERROR ");
        reveal_strlit("mixengined::logging");
        reveal_strlit(": ");
        reveal_strlit("log rotation failed; this file will keep growing");
        reveal_strlit(" error=");
        reveal_strlit("\n");
        lemma_note_words_one_line();
        if one_line(error@) {
            let body = timestamp@ + " ERROR "@ + NOTE_TARGET@ + ": "@ + NOTE_MESSAGE@ + " error="@
                + error@;
            assert(r@.drop_last() =~= body);
            text::lemma_one_line_add(timestamp@, " ERROR "@);
            text::lemma_one_line_add(timestamp@ + " ERROR "@, NOTE_TARGET@);
            text::lemma_one_line_add(timestamp@ + " ERROR "@ + NOTE_TARGET@, ": "@);
            text::lemma_one_line_add(timestamp@ + " ERROR "@ + NOTE_TARGET@ + ": "@, NOTE_MESSAGE@);
            text::lemma_one_line_add(
                timestamp@ + " ERROR "@ + NOTE_TARGET@ + ": "@ + NOTE_MESSAGE@,
                " error="@,
            );
            text::lemma_one_line_add(
                timestamp@ + " ERROR "@ + NOTE_TARGET@ + ": "@ + NOTE_MESSAGE@ + " error="@,
                error@,
            );
        }
    }
    r
}


/// A hexadecimal digit as `serde_json` writes one, in lower case.
pub open spec fn hex_char(d: nat) -> char {
    if d < 10 {
        text::digit_char(d)
    } else if d == 10 {
        'a'
    } else if d == 11 {
        'b'
    } else if d == 12 {
        'c'
    } else if d == 13 {
        'd'
    } else if d == 14 {
        'e'
    } else {
        'f'
    }
}

/// What `serde_json` writes for one character inside a string: the quote and the backslash
/// escaped by a backslash; a backspace, tab, line feed, form feed and carriage return by their
/// letters; every other control character below `0x20` as `\u00` and two lower-case hex digits;
/// anything else as it is.
pub open spec fn json_char(c: char) -> Seq<char> {
    let n = c as int;
    if c == '"' {
        seq!['\\', '"']
    } else if c == '\\' {
        seq!['\\', '\\']
    } else if n == 8 {
        seq!['\\', 'b']
    } else if n == 9 {
        seq!['\\', 't']
    } else if n == 10 {
        seq!['\\', 'n']
    } else if n == 12 {
        seq!['\\', 'f']
    } else if n == 13 {
        seq!['\\', 'r']
    } else if n < 32 {
        seq!['\\', 'u', '0', '0', hex_char((n / 16) as nat), hex_char((n % 16) as nat)]
    } else {
        seq![c]
    }
}

/// The characters of `s`, each as `serde_json` writes it inside a string.
pub open spec fn json_escaped(s: Seq<char>) -> Seq<char>
    decreases s.len(),
{
    if s.len() == 0 {
        Seq::empty()
    } else {
        json_escaped(s.drop_last()) + json_char(s.last())
    }
}

/// What `serde_json` writes for a string: a quote, the string escaped, and a quote.
pub open spec fn json_quoted(s: Seq<char>) -> Seq<char> {
    seq!['"'] + json_escaped(s) + seq!['"']
}

proof fn lemma_json_char_one_line(c: char)
    ensures
        one_line(json_char(c)),
{
    let j = json_char(c);
    if j.contains('\n') {
        let k = choose|k: int| 0 <= k < j.len() && j[k] == '\n';
        let n = c as int;
        if n < 32 && c != '"' && c != '\\' && n != 8 && n != 9 && n != 10 && n != 12 && n != 13 {
            assert(j[k] != '\n');
        } else if n == 10 {
            assert(j[k] != '\n');
        } else {
            assert(j[k] != '\n');
        }
    }
}

/// A string as `serde_json` writes it holds no line break: the line feed is escaped.
pub proof fn lemma_json_quoted_one_line(s: Seq<char>)
    ensures
        one_line(json_escaped(s)),
        one_line(json_quoted(s)),
    decreases s.len(),
{
    if s.len() > 0 {
        lemma_json_quoted_one_line(s.drop_last());
        lemma_json_char_one_line(s.last());
        text::lemma_one_line_add(json_escaped(s.drop_last()), json_char(s.last()));
    }
    assert(one_line(seq!['"'])) by {
        if seq!['"'].contains('\n') {
            let k = choose|k: int| 0 <= k < 1 && seq!['"'][k] == '\n';
        }
    }
    text::lemma_one_line_add(seq!['"'], json_escaped(s));
    text::lemma_one_line_add(seq!['"'] + json_escaped(s), seq!['"']);
}

/// `s` as a JSON string — `serde_json::to_string` on a `&str`, which writes it through
/// `format_escaped_str` with the `ESCAPE` table; serialising a string into memory does not fail.
#[verifier::external_body]
fn json_string(s: &str) -> (r: String)
    ensures
        r@ == json_quoted(s@),
{
    match serde_json::to_string(s) {
        Ok(quoted) => quoted,
        Err(_) => String::new(),
    }
}

/// The JSON note, from its values already quoted: one object with the keys the JSON formatter
/// writes, in the order it writes them, ended by a line break.
pub open spec fn json_note_of(
    timestamp: Seq<char>,
    level: Seq<char>,
    message: Seq<char>,
    error: Seq<char>,
    target: Seq<char>,
) -> Seq<char> {
    "{\"fields\":{\"error\":"@ + error + ",\"message\":"@ + message + "},\"level\":"@ + level
        + ",\"target\":"@ + target + ",\"timestamp\":"@ + timestamp + "}\n"@
}

/// The JSON note, from its values already quoted.
pub fn json_note_from(
    timestamp: &str,
    level: &str,
    message: &str,
    error: &str,
    target: &str,
) -> (r: String)
    ensures
        r@ == json_note_of(timestamp@, level@, message@, error@, target@),
{
    let mut r = text::copy("{\"fields\":{\"error\":");
    r.append(error);
    r.append(",\"message\":");
    r.append(message);
    r.append("},\"level\":");
    r.append(level);
    r.append(",\"target\":");
    r.append(target);
    r.append(",\"timestamp\":");
    r.append(timestamp);
    r.append("}\n");
    r
}

proof fn lemma_json_words_one_line()
    ensures
        one_line("{\"fields\":{\"error\":"@),
        one_line(",\"message\":"@),
        one_line("},\"level\":"@),
        one_line(",\"target\":"@),
        one_line(",\"timestamp\":"@),
        "}\n"@ == seq!['}', '\n'],
{
    reveal_strlit("{\"fields\":{\"error\":");
    reveal_strlit(",\"message\":");
    reveal_strlit("},\"level\":");
    reveal_strlit(",\"target\":");
    reveal_strlit(",\"timestamp\":");
    reveal_strlit("}\n");
    reveal_with_fuel(text::breaks, 25);
    assert(!text::breaks("{\"fields\":{\"error\":"@));
    assert(!text::breaks(",\"message\":"@));
    assert(!text::breaks("},\"level\":"@));
    assert(!text::breaks(",\"target\":"@));
    assert(!text::breaks(",\"timestamp\":"@));
    text::lemma_breaks("{\"fields\":{\"error\":"@);
    text::lemma_breaks(",\"message\":"@);
    text::lemma_breaks("},\"level\":"@);
    text::lemma_breaks(",\"target\":"@);
    text::lemma_breaks(",\"timestamp\":"@);
}

/// The JSON note for a rotation that failed with `error`, at `timestamp`: every value written
/// as `serde_json` writes a string.
pub fn json_note_at(timestamp: &str, error: &str) -> (r: String)
    ensures
        r@ == json_note_of(
            json_quoted(timestamp@),
            json_quoted("ERROR"@),
            json_quoted(NOTE_MESSAGE@),
            json_quoted(error@),
            json_quoted(NOTE_TARGET@),
        ),
        r@.last() == '\n',
        one_line(r@.drop_last()),
{
    let t = json_string(timestamp);
    let l = json_string("ERROR");
    let m = json_string(NOTE_MESSAGE);
    let e = json_string(error);
    let g = json_string(NOTE_TARGET);
    let r = json_note_from(t.as_str(), l.as_str(), m.as_str(), e.as_str(), g.as_str());
    proof {
        lemma_json_quoted_one_line(timestamp@);
        lemma_json_quoted_one_line("ERROR"@);
        lemma_json_quoted_one_line(NOTE_MESSAGE@);
        lemma_json_quoted_one_line(error@);
        lemma_json_quoted_one_line(NOTE_TARGET@);
        lemma_json_words_one_line();
        let a = "{\"fields\":{\"error\":"@ + e@;
        text::lemma_one_line_add("{\"fields\":{\"error\":"@, e@);
        let b = a + ",\"message\":"@;
        text::lemma_one_line_add(a, ",\"message\":"@);
        let c = b + m@;
        text::lemma_one_line_add(b, m@);
        let d = c + "},\"level\":"@;
        text::lemma_one_line_add(c, "},\"level\":"@);
        let f = d + l@;
        text::lemma_one_line_add(d, l@);
        let h = f + ",\"target\":"@;
        text::lemma_one_line_add(f, ",\"target\":"@);
        let i = h + g@;
        text::lemma_one_line_add(h, g@);
        let j = i + ",\"timestamp\":"@;
        text::lemma_one_line_add(i, ",\"timestamp\":"@);
        let k = j + t@;
        text::lemma_one_line_add(j, t@);
        let n = k + seq!['}'];
        assert(!seq!['}'].contains('\n')) by {
            if seq!['}'].contains('\n') {
                let z = choose|z: int| 0 <= z < 1 && seq!['}'][z] == '\n';
                assert(seq!['}'][z] == '}');
            }
        }
        text::lemma_one_line_add(k, seq!['}']);
        assert(r@ =~= n.push('\n'));
        assert(r@.drop_last() =~= n);
    }
    r
}

/// The JSON note for a rotation that failed with `error`, at the time it is written: always one
/// object on one line, whatever the error says, since the error is escaped.
pub fn json_note(error: &str) -> (r: String)
    ensures
        exists|timestamp: Seq<char>|
            timestamp_text(timestamp) && r@ == json_note_of(
                json_quoted(timestamp),
                json_quoted("ERROR"@),
                json_quoted(NOTE_MESSAGE@),
                json_quoted(error@),
                json_quoted(NOTE_TARGET@),
            ),
        r@.last() == '\n',
        one_line(r@.drop_last()),
{
    let timestamp = now();
    json_note_at(timestamp.as_str(), error)
}

/// The note in the shape `format` gives the lines around it.
pub fn note_for(format: LogFormat, error: &str) -> (r: String)
    ensures
        format == LogFormat::Text ==> exists|timestamp: Seq<char>|
            timestamp_text(timestamp) && r@ == text_note_of(timestamp, error@),
        format == LogFormat::Json ==> exists|timestamp: Seq<char>|
            timestamp_text(timestamp) && r@ == json_note_of(
                json_quoted(timestamp),
                json_quoted("ERROR"@),
                json_quoted(NOTE_MESSAGE@),
                json_quoted(error@),
                json_quoted(NOTE_TARGET@),
            ),
{
    match format {
        LogFormat::Text => text_note(error),
        LogFormat::Json => json_note(error),
    }
}

} // verus!
