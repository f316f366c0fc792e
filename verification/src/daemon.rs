//! What the daemon decides as it stops: how long a shutdown the operating system asked for may
//! spend on services, how long the clients still connected get, and what it says of an uninstall
//! whose directories it could not remove.
//!
//! Durations are in milliseconds.

use vstd::prelude::*;

use crate::location::{self, Location};
use crate::occupants::{HeldItem, Holder};
use crate::text;
use crate::tombstone::{Held, Leftover, Refused};
use crate::tombstone::views;

verus! {

/// How long a shutdown asked for over the socket waits for the connections still open.
pub const CLIENT_GRACE: u64 = 2000;

/// The same, for a shutdown the operating system asked for, which has no answer to write and
/// arrives with a clock running.
pub const SIGNAL_CLIENT_GRACE: u64 = 500;

/// What the reserve keeps back for closing the store and checkpointing its write-ahead log.
pub const CHECKPOINT_MARGIN: u64 = 1000;

/// What the reserve keeps back for nothing in particular: a task scheduled late, a log line that
/// blocks. The waits a spent budget still permits are paid out of it.
pub const SCHEDULING_SLACK: u64 = 1000;

/// What a shutdown keeps back from an operating system's ceiling for everything that happens
/// after the last service stops: the clients, the checkpoint, and slack left over on purpose.
pub const CEILING_RESERVE: u64 = SIGNAL_CLIENT_GRACE + CHECKPOINT_MARGIN + SCHEDULING_SLACK;

/// How long a shutdown asked to hurry still waits for the services it has just told to kill.
pub const KILL_GRACE: u64 = 500;

/// How far past its deadline a shutdown may still watch a process it has just killed.
pub const CONFIRMATION_REPRIEVE: u64 = 250;

/// What a shutdown the operating system asked for may spend on services, given the configured
/// budget and the ceiling the system states, if it states one.
pub open spec fn budget_of(configured: u64, ceiling: Option<u64>) -> u64 {
    match ceiling {
        Some(c) => {
            let room: u64 = if c >= CEILING_RESERVE { (c - CEILING_RESERVE) as u64 } else { 0 };
            if configured <= room { configured } else { room }
        },
        None => configured,
    }
}

/// What a shutdown the operating system asked for may spend on services.
///
/// Where the system states a ceiling this is the smaller of the configured budget and the ceiling
/// less [`CEILING_RESERVE`], saturating at nothing: a ceiling smaller than the reserve leaves the
/// services no time, which is the honest outcome. Where it states none the configured budget is
/// the whole answer.
///
/// So the budget is never more than what was configured; with a ceiling at least the reserve, it
/// leaves the reserve, and so the clients and the checkpoint with slack over, inside the ceiling,
/// and a second request to stop is paid for out of that slack.
pub fn signalled_budget(configured: u64, ceiling: Option<u64>) -> (r: u64)
    ensures
        r == budget_of(configured, ceiling),
        r <= configured,
        ceiling is None ==> r == configured,
        ceiling matches Some(c) ==> (c >= CEILING_RESERVE ==> r + CEILING_RESERVE <= c),
        ceiling matches Some(c) ==> (c >= CEILING_RESERVE ==> r + SIGNAL_CLIENT_GRACE
            + CHECKPOINT_MARGIN < c),
        ceiling matches Some(c) ==> (c >= CEILING_RESERVE ==> r + KILL_GRACE
            + CONFIRMATION_REPRIEVE + SIGNAL_CLIENT_GRACE + CHECKPOINT_MARGIN < c),
        ceiling matches Some(c) ==> (configured > 0 && configured + CEILING_RESERVE > c ==> r
            < configured),
{
    match ceiling {
        Some(c) => {
            let room = c.saturating_sub(CEILING_RESERVE);
            if configured <= room {
                configured
            } else {
                room
            }
        },
        None => configured,
    }
}

/// The reserve keeps back more than the two waits it is spent on, and what it has left over pays
/// for both waits a second request to stop adds.
pub proof fn the_reserve_keeps_slack_over()
    ensures
        SIGNAL_CLIENT_GRACE + CHECKPOINT_MARGIN < CEILING_RESERVE,
        KILL_GRACE + CONFIRMATION_REPRIEVE < SCHEDULING_SLACK,
        CEILING_RESERVE == SIGNAL_CLIENT_GRACE + CHECKPOINT_MARGIN + SCHEDULING_SLACK,
{
}

/// How long the connections still open get: less when the operating system started a clock.
pub fn client_grace(on_the_os_clock: bool) -> (r: u64)
    ensures
        r == if on_the_os_clock { SIGNAL_CLIENT_GRACE } else { CLIENT_GRACE },
        r <= CLIENT_GRACE,
{
    if on_the_os_clock {
        SIGNAL_CLIENT_GRACE
    } else {
        CLIENT_GRACE
    }
}

/// The items of `held` that can be moved, and those that cannot.
pub open spec fn movable_of(held: Seq<HeldItem>) -> Seq<HeldItem> {
    held.filter(|item: HeldItem| item.movable)
}

/// The items of `held` that cannot be moved.
pub open spec fn unmovable_of(held: Seq<HeldItem>) -> Seq<HeldItem> {
    held.filter(|item: HeldItem| !item.movable)
}

/// After a first refusal: everything another program holds that can be moved is lifted out on
/// its own as well, and what cannot be moved is kept, to be named if the renames are refused
/// again. Returns what to lift, then what is stuck.
pub fn lift_movable(lifted: Vec<Location>, held: Vec<HeldItem>) -> (r: (Vec<Location>, Vec<HeldItem>))
    ensures
        views(r.0@) == views(lifted@) + movable_of(held@).map_values(|item: HeldItem| item.path@),
        r.1@ == unmovable_of(held@),
{
    let ghost keep = |item: HeldItem| item.movable;
    let ghost drop = |item: HeldItem| !item.movable;
    let ghost base = views(lifted@);
    let ghost all = held@;
    let total = held.len();
    let mut out = lifted;
    let mut stuck: Vec<HeldItem> = Vec::new();
    let mut rest = held;
    let mut i: usize = 0;
    while rest.len() > 0
        invariant
            i <= all.len(),
            all.len() == total,
            keep == (|item: HeldItem| item.movable),
            drop == (|item: HeldItem| !item.movable),
            rest@ == all.skip(i as int),
            views(out@) == base + all.take(i as int).filter(keep).map_values(
                |item: HeldItem| item.path@,
            ),
            stuck@ == all.take(i as int).filter(drop),
        decreases rest@.len(),
    {
        proof {
            text::lemma_filter_step(all, keep, i as int);
            text::lemma_filter_step(all, drop, i as int);
        }
        let item = rest.remove(0);
        assert(item == all[i as int]);
        let ghost moved_before = all.take(i as int).filter(keep);
        let HeldItem { path, movable, holders } = item;
        if movable {
            let ghost before = views(out@);
            out.push(path);
            assert(views(out@) =~= before.push(all[i as int].path@));
            assert(all.take(i + 1).filter(keep) =~= moved_before.push(all[i as int]));
            assert(all.take(i + 1).filter(keep).map_values(|item: HeldItem| item.path@)
                =~= moved_before.map_values(|item: HeldItem| item.path@).push(all[i as int].path@));
            assert(all.take(i + 1).filter(drop) =~= all.take(i as int).filter(drop));
        } else {
            stuck.push(HeldItem { path, movable, holders });
            assert(all.take(i + 1).filter(keep) =~= moved_before);
            assert(all.take(i + 1).filter(drop) =~= all.take(i as int).filter(drop).push(all[i as int]));
        }
        assert(rest@ =~= all.skip(i + 1));
        i = i + 1;
    }
    assert(all.take(i as int) =~= all);
    (out, stuck)
}


/// The line for a tombstone that stayed after the delete.
pub open spec fn leftover_line_of(path: location::Parts, error: Seq<char>, separator: char) -> Seq<char> {
    "mixengined: "@ + location::display(path, separator) + " could not be removed ("@ + error
        + "). the next uninstall removes it"@
}

/// The line for a tombstone that stayed after the delete: the next uninstall removes it.
pub fn leftover_line(left: &Leftover, separator: char) -> (r: String)
    ensures
        r@ == leftover_line_of(left.path@, left.error@, separator),
{
    let mut r = text::copy("mixengined: ");
    let place = left.path.display(separator);
    r.append(place.as_str());
    r.append(" could not be removed (");
    r.append(left.error.as_str());
    r.append("). the next uninstall removes it");
    r
}

/// How long the renames were tried, as the line says it: in whole seconds.
pub open spec fn tried_text(tried_for: u64) -> Seq<char> {
    " (tried for "@ + text::decimal((tried_for / 1000) as nat) + " s)"@
}

fn tried_exec(tried_for: u64) -> (r: String)
    ensures
        r@ == tried_text(tried_for),
{
    let mut r = text::copy(" (tried for ");
    let digits = text::decimal_text(tried_for / 1000);
    r.append(digits.as_str());
    r.append(" s)");
    r
}

/// How a holder is named in a line: `name (pid)`.
pub open spec fn holder_text(h: (u32, Seq<char>)) -> Seq<char> {
    h.1 + " ("@ + text::decimal(h.0 as nat) + ")"@
}

/// The first of the first `n` items of `s` whose holders are known.
pub open spec fn first_named(s: Seq<HeldItem>, n: nat) -> Option<int>
    decreases n,
{
    if n == 0 {
        None
    } else {
        match first_named(s, (n - 1) as nat) {
            Some(k) => Some(k),
            None => if s[n - 1].holders@.len() > 0 {
                Some(n - 1)
            } else {
                None
            },
        }
    }
}

/// The one line for a refusal: what refused, and who, before where.
///
/// What the handle table found that cannot be moved comes first, since it names the program;
/// what was found inside the refused directory after the refusal is what is left when the table
/// could not see the holder; and with neither, the directory and what the system said.
pub open spec fn refusal_line_of(refused: &Refused, stuck: Seq<HeldItem>, separator: char) -> Seq<char> {
    let tried = tried_text(refused.tried_for);
    match first_named(stuck, stuck.len()) {
        Some(k) => "mixengined: nothing was removed, "@ + holders_named(stuck[k].holders@) + " holds "@ + location::display(stuck[k].path@, separator)
            + " open, so it cannot be moved or deleted"@ + tried
            + ". close it, then run the uninstall again"@,
        None => match refused.held {
            Some(held) => if held.by@.len() > 0 {
                "mixengined: nothing was removed, "@ + text::joined(
                    held.by@.map_values(|s: String| s@),
                    ", "@,
                ) + " holds "@ + location::display(held.path@, separator) + " open"@ + tried
                    + ". close it, then run the uninstall again"@
            } else {
                "mixengined: nothing was removed, another program has "@ + location::display(
                    held.path@,
                    separator,
                ) + " open, such as File Explorer or a terminal"@ + tried
                    + ". close it, then run the uninstall again"@
            },
            None => "mixengined: nothing was removed, "@ + location::display(refused.path@, separator)
                + " could not be moved aside: "@ + refused.error@ + tried
                + ". close any program using it, then run the uninstall again"@,
        },
    }
}

/// The holders of an item, as a line names them.
pub open spec fn holders_named(holders: Seq<Holder>) -> Seq<char> {
    text::joined(views(holders).map_values(|h: (u32, Seq<char>)| holder_text(h)), ", "@)
}

fn holders_text(holders: &Vec<Holder>) -> (r: String)
    ensures
        r@ == holders_named(holders@),
{
    let ghost f = |h: (u32, Seq<char>)| holder_text(h);
    let mut names: Vec<String> = Vec::new();
    let mut i: usize = 0;
    while i < holders.len()
        invariant
            i <= holders@.len(),
            f == (|h: (u32, Seq<char>)| holder_text(h)),
            names@.map_values(|s: String| s@) == views(holders@).take(i as int).map_values(f),
        decreases holders@.len() - i,
    {
        let h = &holders[i];
        let mut n = h.name.clone();
        n.append(" (");
        let digits = text::decimal_text(h.pid as u64);
        n.append(digits.as_str());
        n.append(")");
        let ghost before = names@.map_values(|s: String| s@);
        names.push(n);
        proof {
            let vs = views(holders@);
            assert(vs[i as int] == h@);
            assert(names@.map_values(|s: String| s@) =~= before.push(f(vs[i as int])));
            assert(vs.take(i + 1) =~= vs.take(i as int).push(vs[i as int]));
            assert(vs.take(i + 1).map_values(f) =~= vs.take(i as int).map_values(f).push(
                f(vs[i as int]),
            ));
        }
        i = i + 1;
    }
    assert(views(holders@).take(holders@.len() as int) =~= views(holders@));
    text::join(&names, ", ")
}

proof fn lemma_first_named_found(s: Seq<HeldItem>, n: nat, k: int)
    requires
        n <= s.len(),
        0 <= k < n,
        s[k].holders@.len() > 0,
    ensures
        first_named(s, n) is Some,
    decreases n,
{
    if k < n - 1 {
        lemma_first_named_found(s, (n - 1) as nat, k);
    }
}

proof fn lemma_first_named_stays(s: Seq<HeldItem>, k: nat, n: nat)
    requires
        k < n <= s.len(),
        first_named(s, (k + 1) as nat) == Some(k as int),
    ensures
        first_named(s, n) == Some(k as int),
    decreases n - k,
{
    if n > k + 1 {
        lemma_first_named_stays(s, k, (n - 1) as nat);
    }
}

/// The one line for a refusal.
pub fn refusal_line(refused: &Refused, stuck: &Vec<HeldItem>, separator: char) -> (r: String)
    ensures
        r@ == refusal_line_of(refused, stuck@, separator),
{
    let tried = tried_exec(refused.tried_for);
    let mut k: usize = 0;
    while k < stuck.len()
        invariant
            k <= stuck@.len(),
            tried@ == tried_text(refused.tried_for),
            first_named(stuck@, k as nat) is None,
        decreases stuck@.len() - k,
    {
        if stuck[k].holders.len() > 0 {
            proof {
                lemma_first_named_stays(stuck@, k as nat, stuck@.len());
            }
            let item = &stuck[k];
            let mut r = text::copy("mixengined: nothing was removed, ");
            let names = holders_text(&item.holders);
            r.append(names.as_str());
            r.append(" holds ");
            let place = item.path.display(separator);
            r.append(place.as_str());
            r.append(" open, so it cannot be moved or deleted");
            r.append(tried.as_str());
            r.append(". close it, then run the uninstall again");
            return r;
        }
        k = k + 1;
    }
    match &refused.held {
        Some(held) => {
            if held.by.len() > 0 {
                let mut r = text::copy("mixengined: nothing was removed, ");
                let names = text::join(&held.by, ", ");
                r.append(names.as_str());
                r.append(" holds ");
                let place = held.path.display(separator);
                r.append(place.as_str());
                r.append(" open");
                r.append(tried.as_str());
                r.append(". close it, then run the uninstall again");
                r
            } else {
                let mut r = text::copy("mixengined: nothing was removed, another program has ");
                let place = held.path.display(separator);
                r.append(place.as_str());
                r.append(" open, such as File Explorer or a terminal");
                r.append(tried.as_str());
                r.append(". close it, then run the uninstall again");
                r
            }
        },
        None => {
            let mut r = text::copy("mixengined: nothing was removed, ");
            let place = refused.path.display(separator);
            r.append(place.as_str());
            r.append(" could not be moved aside: ");
            r.append(refused.error.as_str());
            r.append(tried.as_str());
            r.append(". close any program using it, then run the uninstall again");
            r
        },
    }
}

/// What an uninstall's removal says: a line per tombstone that stayed, or the one line for a
/// refusal.
pub open spec fn armed_lines_of(
    outcome: &Result<Vec<Leftover>, Refused>,
    stuck: Seq<HeldItem>,
    separator: char,
) -> Seq<Seq<char>> {
    match outcome {
        Ok(left) => left@.map_values(|l: Leftover| leftover_line_of(l.path@, l.error@, separator)),
        Err(refused) => seq![refusal_line_of(refused, stuck, separator)],
    }
}

/// What an uninstall's removal says, given how the renames and deletes ended and what another
/// program holds that cannot be moved.
pub fn armed_lines(outcome: &Result<Vec<Leftover>, Refused>, stuck: &Vec<HeldItem>, separator: char) -> (r: Vec<String>)
    ensures
        r@.map_values(|s: String| s@) == armed_lines_of(outcome, stuck@, separator),
{
    match outcome {
        Ok(left) => {
            let ghost f = |l: Leftover| leftover_line_of(l.path@, l.error@, separator);
            let mut r: Vec<String> = Vec::new();
            let mut i: usize = 0;
            while i < left.len()
                invariant
                    i <= left@.len(),
                    f == (|l: Leftover| leftover_line_of(l.path@, l.error@, separator)),
                    r@.map_values(|s: String| s@) == left@.take(i as int).map_values(f),
                decreases left@.len() - i,
            {
                let line = leftover_line(&left[i], separator);
                let ghost before = r@.map_values(|s: String| s@);
                r.push(line);
                assert(r@.map_values(|s: String| s@) =~= before.push(f(left@[i as int])));
                assert(left@.take(i + 1) =~= left@.take(i as int).push(left@[i as int]));
                assert(left@.take(i + 1).map_values(f) =~= left@.take(i as int).map_values(f).push(
                    f(left@[i as int]),
                ));
                i = i + 1;
            }
            assert(left@.take(left@.len() as int) =~= left@);
            r
        },
        Err(refused) => {
            let line = refusal_line(refused, stuck, separator);
            let r = vec![line];
            assert(r@.map_values(|s: String| s@) =~= seq![refusal_line_of(refused, stuck@, separator)]);
            r
        },
    }
}

/// What is left for `mix` to read once the daemon has gone: the lines, each ended.
pub fn note_text(lines: &Vec<String>) -> (r: String)
    ensures
        r@ == text::joined(lines@.map_values(|s: String| s@), "\n"@) + "\n"@,
{
    let mut r = text::join(lines, "\n");
    r.append("\n");
    r
}

} // verus!
