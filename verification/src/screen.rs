//! The text of the screen's parts: the rows of each mode's list, the
//! previews above them, the timers strip and the key hints of the footer.
use vstd::prelude::*;
use crate::launcher::{clear_argument, history_cleared};
use crate::pratt::{calculation, owned};
use crate::settings::{mode_name, DisplayMode, Settings};
use crate::text::{ascii_lower, decimal_digits, eq_ignore_ascii_case, is_digit, parse_unsigned, push_all, signed_decimal, trim, u64_to_string, views};
use crate::timers::{clear_outcome, clock_text, secs_left, timer_request, timer_views, Timer, TimerView};

verus! {

/// `parts` joined with `sep` between them.
pub open spec fn joined(parts: Seq<Seq<char>>, sep: Seq<char>) -> Seq<char>
    decreases parts.len(),
{
    if parts.len() == 0 {
        Seq::empty()
    } else if parts.len() == 1 {
        parts[0]
    } else {
        joined(parts.drop_last(), sep) + sep + parts.last()
    }
}

/// Joins strings with a separator.
pub fn join(parts: &Vec<String>, sep: &str) -> (r: String)
    ensures
        r@ == joined(views(parts@), sep@),
{
    let mut out = String::new();
    let mut i: usize = 0;
    while i < parts.len()
        invariant
            i <= parts.len(),
            out@ == joined(views(parts@).take(i as int), sep@),
        decreases parts.len() - i,
    {
        let ghost before = views(parts@).take(i as int);
        assert(views(parts@).take(i + 1).drop_last() == before);
        assert(views(parts@).take(i + 1).last() == parts@[i as int]@);
        if i > 0 {
            push_all(&mut out, sep);
        }
        push_all(&mut out, parts[i].as_str());
        proof {
            if i == 0 {
                assert(before.len() == 0);
                assert(out@ == parts@[0]@);
            }
        }
        i += 1;
    }
    assert(views(parts@).take(parts.len() as int) == views(parts@));
    out
}

/// The number of a row counted from 1, a dot and a space.
pub open spec fn numbered(i: nat, text: Seq<char>) -> Seq<char> {
    decimal_digits(i + 1) + ". "@ + text
}

fn push_number(out: &mut String, i: usize)
    requires
        i < u64::MAX,
    ensures
        final(out)@ == old(out)@ + decimal_digits((i + 1) as nat) + ". "@,
{
    let d = u64_to_string((i as u64) + 1);
    push_all(out, d.as_str());
    push_all(out, ". ");
}

/// What a timer row shows in brackets: `done`, or the time left.
pub open spec fn timer_marker(t: TimerView, now: u64) -> Seq<char> {
    if t.finished {
        "done"@
    } else {
        clock_text(secs_left(t.end_unix, now))
    }
}

/// The rows of the timer list, newest first: `1. [05:00] coffee`.
pub open spec fn timer_row(ts: Seq<TimerView>, i: int, now: u64) -> Seq<char> {
    let t = ts[ts.len() - 1 - i];
    numbered(i as nat, "["@ + timer_marker(t, now) + "] "@ + t.label)
}

/// The rows of the timer list at the time `now`, newest first, each with
/// whether its timer is done (shown in the danger colour).
#[verifier::rlimit(40)]
pub fn timer_rows(list: &Vec<Timer>, now: u64) -> (r: Vec<(String, bool)>)
    ensures
        r@.len() == list@.len(),
        forall|i: int|
            0 <= i < r@.len() ==> (#[trigger] r@[i]).0@ == timer_row(timer_views(list@), i, now)
                && r@[i].1 == list@[list@.len() - 1 - i].finished,
{
    let mut rows: Vec<(String, bool)> = Vec::new();
    let n = list.len();
    let mut i: usize = 0;
    while i < n
        invariant
            n == list.len(),
            i <= n,
            rows@.len() == i,
            forall|j: int|
                0 <= j < i ==> (#[trigger] rows@[j]).0@ == timer_row(timer_views(list@), j, now)
                    && rows@[j].1 == list@[n - 1 - j].finished,
        decreases n - i,
    {
        let t = &list[n - 1 - i];
        let mut text = String::new();
        push_number(&mut text, i);
        push_all(&mut text, "[");
        if t.finished {
            push_all(&mut text, "done");
        } else {
            let left = crate::timers::format_remaining(t.remaining_at(now));
            push_all(&mut text, left.as_str());
        }
        push_all(&mut text, "] ");
        push_all(&mut text, t.label.as_str());
        proof {
            assert(timer_views(list@)[n - 1 - i] == list@[n - 1 - i]@);
            assert(text@ == timer_row(timer_views(list@), i as int, now));
        }
        rows.push((text, t.finished));
        i += 1;
    }
    rows
}

/// The rows of the calculation history, newest first: `1. 2 + 2 = 4`.
pub fn history_rows(history: &Vec<String>) -> (r: Vec<String>)
    ensures
        r@.len() == history@.len(),
        forall|i: int|
            0 <= i < r@.len() ==> (#[trigger] r@[i])@ == numbered(
                i as nat,
                history@[history@.len() - 1 - i]@,
            ),
{
    let mut rows: Vec<String> = Vec::new();
    let n = history.len();
    let mut i: usize = 0;
    while i < n
        invariant
            n == history.len(),
            i <= n,
            rows@.len() == i,
            forall|j: int|
                0 <= j < i ==> (#[trigger] rows@[j])@ == numbered(j as nat, history@[n - 1 - j]@),
        decreases n - i,
    {
        let mut text = String::new();
        push_number(&mut text, i);
        push_all(&mut text, history[n - 1 - i].as_str());
        rows.push(text);
        i += 1;
    }
    rows
}

/// `true` or `false`.
pub open spec fn flag_text(b: bool) -> Seq<char> {
    if b {
        "true"@
    } else {
        "false"@
    }
}

/// A settings row: its number, the name padded to 14 characters, the value.
pub open spec fn setting_row(i: nat, name: Seq<char>, value: Seq<char>) -> Seq<char> {
    let pad = if name.len() < 14 { (14 - name.len()) as nat } else { 0 };
    numbered(i, name + Seq::new(pad, |k: int| ' ') + " "@ + value)
}

fn setting_line(i: usize, name: &str, value: &str) -> (r: String)
    requires
        i < 4,
    ensures
        r@ == setting_row(i as nat, name@, value@),
{
    let mut text = String::new();
    push_number(&mut text, i);
    push_all(&mut text, name);
    let len = crate::text::chars_of(name).len();
    let pad: usize = if len < 14 { 14 - len } else { 0 };
    let ghost start = text@;
    let mut k: usize = 0;
    while k < pad
        invariant
            k <= pad,
            text@ == start + Seq::new(k as nat, |j: int| ' '),
        decreases pad - k,
    {
        text.push(' ');
        k += 1;
        assert(text@ == start + Seq::new(k as nat, |j: int| ' '));
    }
    push_all(&mut text, " ");
    push_all(&mut text, value);
    text
}

fn bool_str(b: bool) -> (r: &'static str)
    ensures
        r@ == flag_text(b),
{
    if b {
        "true"
    } else {
        "false"
    }
}

/// The four rows of the settings list.
#[verifier::rlimit(40)]
pub fn settings_rows(settings: &Settings) -> (r: Vec<String>)
    ensures
        views(r@) == seq![
            setting_row(0, "background"@, flag_text(settings.background)),
            setting_row(1, "footer(hints)"@, flag_text(settings.footer)),
            setting_row(2, "timers"@, flag_text(settings.timers)),
            setting_row(3, "display"@, mode_name(settings.display)),
        ],
{
    let mut rows: Vec<String> = Vec::new();
    rows.push(setting_line(0, "background", bool_str(settings.background)));
    rows.push(setting_line(1, "footer(hints)", bool_str(settings.footer)));
    rows.push(setting_line(2, "timers", bool_str(settings.timers)));
    rows.push(setting_line(3, "display", settings.display.as_str()));
    rows
}

/// The timers strip: each running timer's time left and label, joined by
/// ` · `; nothing when no timer runs.
pub open spec fn running(ts: Seq<TimerView>, now: u64) -> Seq<Seq<char>>
    decreases ts.len(),
{
    if ts.len() == 0 {
        Seq::empty()
    } else {
        let rest = running(ts.drop_last(), now);
        let t = ts.last();
        if t.finished {
            rest
        } else {
            rest.push(clock_text(secs_left(t.end_unix, now)) + " "@ + t.label)
        }
    }
}

#[verifier::rlimit(40)]
pub fn running_timers_text(list: &Vec<Timer>, now: u64) -> (r: Option<String>)
    ensures
        running(timer_views(list@), now).len() == 0 ==> r is None,
        running(timer_views(list@), now).len() > 0 ==> (r matches Some(s) && s@ == joined(
            running(timer_views(list@), now),
            " \u{b7} "@,
        )),
{
    let mut parts: Vec<String> = Vec::new();
    let mut i: usize = 0;
    while i < list.len()
        invariant
            i <= list.len(),
            views(parts@) == running(timer_views(list@).take(i as int), now),
        decreases list.len() - i,
    {
        let ghost pre = timer_views(list@).take(i as int);
        assert(timer_views(list@).take(i + 1).drop_last() == pre);
        assert(timer_views(list@).take(i + 1).last() == list@[i as int]@);
        if !list[i].finished {
            let mut text = crate::timers::format_remaining(list[i].remaining_at(now));
            push_all(&mut text, " ");
            push_all(&mut text, list[i].label.as_str());
            parts.push(text);
            assert(views(parts@) == views(parts@.drop_last()).push(parts@.last()@));
        }
        i += 1;
    }
    assert(timer_views(list@).take(list.len() as int) == timer_views(list@));
    if parts.len() == 0 {
        None
    } else {
        Some(join(&parts, " \u{b7} "))
    }
}

/// The line above the timer list: the request being typed, when it reads.
pub open spec fn timer_preview(cmd: Seq<char>) -> Option<Seq<char>> {
    if cmd.len() == 0 {
        None
    } else {
        match timer_request(cmd) {
            Some((secs, label)) => Some("  ["@ + clock_text(secs) + "] "@ + label),
            None => None,
        }
    }
}

pub fn timer_preview_text(cmd: &str) -> (r: Option<String>)
    ensures
        match timer_preview(cmd@) {
            Some(t) => r matches Some(s) && s@ == t,
            None => r is None,
        },
{
    if cmd.is_empty() {
        return None;
    }
    match crate::timers::parse_timer_input(cmd) {
        Some((secs, label)) => {
            let mut text = owned("  [");
            let clock = crate::timers::format_remaining(secs);
            push_all(&mut text, clock.as_str());
            push_all(&mut text, "] ");
            push_all(&mut text, label.as_str());
            Some(text)
        },
        None => None,
    }
}

/// The line above the calculation history.
pub enum MathPreview {
    /// What Enter would clear.
    Clearing { message: String },
    /// The value of the expression.
    Value { text: String },
    /// The expression does not evaluate (yet).
    Pending,
}

pub open spec fn clearing_message(rest: Seq<char>) -> Seq<char> {
    if rest.len() == 0 || eq_ignore_ascii_case(rest, "all"@) {
        "  enter to clear all history"@
    } else {
        "  enter to clear that entry"@
    }
}

/// The preview of a non-empty calculation.
pub fn math_preview(expression: &str) -> (r: MathPreview)
    ensures
        match clear_argument(expression@) {
            Some(rest) => r matches MathPreview::Clearing { message } && message@
                == clearing_message(rest),
            None => match calculation(expression@) {
                Ok(v) => r matches MathPreview::Value { text } && text@ == signed_decimal(v),
                Err(_) => r is Pending,
            },
        },
{
    let cleared = match crate::launcher::strip_prefix_word(expression, "clear") {
        Some(rest) => Some(rest),
        None => crate::launcher::strip_prefix_word(expression, "delete"),
    };
    match cleared {
        Some(rest) => {
            let v = crate::text::chars_of(rest.as_str());
            let all = v.len() == 0 || crate::text::chars_eq_ignore_ascii_case(&v, 0, v.len(), "all");
            assert(v@.subrange(0, v.len() as int) == rest@);
            let message = if all {
                owned("  enter to clear all history")
            } else {
                owned("  enter to clear that entry")
            };
            MathPreview::Clearing { message }
        },
        None => match crate::pratt::calculate(expression) {
            Ok(value) => {
                proof {
                    crate::pratt::lemma_calculation_in_range(expression@);
                }
                MathPreview::Value { text: crate::text::i64_to_string(value) }
            },
            Err(_) => MathPreview::Pending,
        },
    }
}

/// What part of the launcher is on screen.
#[derive(Debug, Clone, Copy, PartialEq, Eq, Structural)]
pub enum Screen {
    Search,
    Timers,
    Calc,
    Settings,
}

/// The footer's label and its key hints.
pub open spec fn footer_parts(screen: Screen) -> (Seq<char>, Seq<Seq<char>>) {
    match screen {
        Screen::Timers => ("timers"@, seq!["5m coffee"@, "clear [all|n|done]"@, "esc quit"@]),
        Screen::Calc => (
            "calc"@,
            seq![
                "\u{2191}\u{2193} recall"@,
                "enter calculate"@,
                "clear [all|n]"@,
                "esc quit"@,
            ],
        ),
        Screen::Settings => (
            "settings"@,
            seq!["1-3 true|false"@, "4 none|apps|recent"@, "esc quit"@],
        ),
        Screen::Search => (
            "search"@,
            seq![
                "\u{2191}\u{2193} select"@,
                "enter open"@,
                "\u{2192} options"@,
                "t: timers"@,
                "m: calc"@,
                "s: settings"@,
                "esc quit"@,
            ],
        ),
    }
}

/// The footer of a screen: its label and the hints joined by ` · `.
#[verifier::rlimit(40)]
pub fn footer(screen: Screen) -> (r: (String, String))
    ensures
        r.0@ == footer_parts(screen).0,
        r.1@ == joined(footer_parts(screen).1, " \u{b7} "@),
{
    let mut parts: Vec<String> = Vec::new();
    let label = match screen {
        Screen::Timers => {
            parts.push(owned("5m coffee"));
            parts.push(owned("clear [all|n|done]"));
            parts.push(owned("esc quit"));
            owned("timers")
        },
        Screen::Calc => {
            parts.push(owned("\u{2191}\u{2193} recall"));
            parts.push(owned("enter calculate"));
            parts.push(owned("clear [all|n]"));
            parts.push(owned("esc quit"));
            owned("calc")
        },
        Screen::Settings => {
            parts.push(owned("1-3 true|false"));
            parts.push(owned("4 none|apps|recent"));
            parts.push(owned("esc quit"));
            owned("settings")
        },
        Screen::Search => {
            parts.push(owned("\u{2191}\u{2193} select"));
            parts.push(owned("enter open"));
            parts.push(owned("\u{2192} options"));
            parts.push(owned("t: timers"));
            parts.push(owned("m: calc"));
            parts.push(owned("s: settings"));
            parts.push(owned("esc quit"));
            owned("search")
        },
    };
    assert(views(parts@) == footer_parts(screen).1);
    (label, join(&parts, " \u{b7} "))
}

/// The line shown in place of an empty list: no timers, no calculations,
/// or for the search a prompt to type when nothing is listed for an empty
/// query, else that nothing matches. The settings list is never empty.
pub open spec fn empty_list_message(screen: Screen, query: Seq<char>, display: DisplayMode) -> Option<
    Seq<char>,
> {
    match screen {
        Screen::Timers => Some("  no timers"@),
        Screen::Calc => Some("  no calculations yet"@),
        Screen::Settings => None,
        Screen::Search => Some(
            if trim(query).len() == 0 && display == DisplayMode::Empty {
                "  type to search"@
            } else {
                "  no matching apps"@
            },
        ),
    }
}

/// The line for an empty list on a screen (see `empty_list_message`).
pub fn empty_message(screen: Screen, query: &str, display: DisplayMode) -> (r: Option<String>)
    ensures
        match empty_list_message(screen, query@, display) {
            Some(m) => r matches Some(s) && s@ == m,
            None => r is None,
        },
{
    match screen {
        Screen::Timers => Some(owned("  no timers")),
        Screen::Calc => Some(owned("  no calculations yet")),
        Screen::Settings => None,
        Screen::Search => {
            let t = crate::text::trim_str(query);
            if t.as_str().is_empty() && display == DisplayMode::Empty {
                Some(owned("  type to search"))
            } else {
                Some(owned("  no matching apps"))
            }
        },
    }
}

/// A row number written out reads back as that number, and is neither
/// `all` nor `done`.
proof fn lemma_row_number(k: nat)
    requires
        1 <= k <= usize::MAX,
    ensures
        trim(decimal_digits(k)) == decimal_digits(k),
        parse_unsigned(decimal_digits(k), usize::MAX as nat) == Some(k),
        decimal_digits(k).len() > 0,
        !eq_ignore_ascii_case(decimal_digits(k), "all"@),
        !eq_ignore_ascii_case(decimal_digits(k), "done"@),
{
    let d = decimal_digits(k);
    crate::text::lemma_decimal_roundtrip(k);
    assert(is_digit(d[0]));
    assert(is_digit(d[d.len() - 1]));
    crate::text::lemma_trim_noop(d);
    reveal_strlit("all");
    reveal_strlit("done");
    if d.len() == 3 {
        assert(ascii_lower(d[0]) == d[0]);
        assert(ascii_lower("all"@[0]) == 'a');
    }
    if d.len() == 4 {
        assert(ascii_lower(d[0]) == d[0]);
        assert(ascii_lower("done"@[0]) == 'd');
    }
}

/// Law: row `k` of the history list shows the entry that `m: clear k`
/// removes: the `k`-th newest.
pub proof fn law_history_row_is_cleared_entry(h: Seq<Seq<char>>, k: nat)
    requires
        1 <= k <= h.len(),
        k <= usize::MAX,
    ensures
        history_cleared(h, trim(decimal_digits(k))) == h.remove(h.len() - k),
        numbered((k - 1) as nat, h[h.len() - 1 - (k - 1)]) == decimal_digits(k) + ". "@ + h[h.len() - k],
{
    lemma_row_number(k);
}

/// Law: row `k` of the timer list shows the timer that `t: clear k`
/// removes: the `k`-th newest, marked `done` or with its time left.
pub proof fn law_timer_row_is_cleared_timer(ts: Seq<TimerView>, k: nat, now: u64)
    requires
        1 <= k <= ts.len(),
        k <= usize::MAX,
    ensures
        clear_outcome(ts, decimal_digits(k)) == Some(ts.remove(ts.len() - k)),
        timer_row(ts, (k - 1) as int, now) == decimal_digits(k) + ". "@ + ("["@ + timer_marker(
            ts[ts.len() - k],
            now,
        ) + "] "@ + ts[ts.len() - k].label),
{
    lemma_row_number(k);
}

} // verus!
