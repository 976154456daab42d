//! Countdown timers: parsing what the user types, the line format the timers
//! are kept in, clearing and finishing timers, and formatting what is left.
use vstd::prelude::*;
use crate::text::{decimal_value, eq_ignore_ascii_case, chars_eq_ignore_ascii_case, is_ascii_digit, is_whitespace, is_ws, parse_digits_u64, parse_usize_range, trim, trim_range, chars_of, contains_any, contains_any_of, decimal_digits, find, find_in, is_digit, lemma_find_unique, lines, lines_of, parse_u64_range, parse_unsigned, push_all, split_once, string_of_range, strip_cr, u64_to_string, unsigned_digits, views};
use crate::pratt::{digit_run, owned};

verus! {

#[derive(Debug, Clone)]
pub struct Timer {
    pub label: String,
    pub end_unix: u64,
    pub finished: bool,
}

/// A timer as a value: its label's characters, its end and whether it is done.
pub struct TimerView {
    pub label: Seq<char>,
    pub end_unix: u64,
    pub finished: bool,
}

impl View for Timer {
    type V = TimerView;

    open spec fn view(&self) -> TimerView {
        TimerView { label: self.label@, end_unix: self.end_unix, finished: self.finished }
    }
}

pub open spec fn timer_views(list: Seq<Timer>) -> Seq<TimerView> {
    list.map_values(|t: Timer| t@)
}

/// Seconds from `now` until `end`, zero once it has passed.
pub open spec fn secs_left(end: u64, now: u64) -> nat {
    if now >= end {
        0
    } else {
        (end - now) as nat
    }
}

#[verifier::external_type_specification]
#[verifier::external_body]
pub struct ExSystemTime(std::time::SystemTime);

/// Trusted: `SystemTime::now`; a reading of the clock, of which nothing is
/// claimed.
#[verifier::external_body]
fn system_now() -> std::time::SystemTime {
    std::time::SystemTime::now()
}

/// Trusted: `SystemTime::duration_since(UNIX_EPOCH)`; `None` for a time
/// before the epoch. Nothing is claimed of the span.
#[verifier::external_body]
fn since_epoch(t: &std::time::SystemTime) -> Option<std::time::Duration> {
    t.duration_since(std::time::UNIX_EPOCH).ok()
}

/// Trusted: `Duration::as_secs`, the whole seconds of a span; the span is
/// opaque here, so nothing is claimed of the number.
#[verifier::external_body]
fn whole_secs(d: &std::time::Duration) -> u64 {
    d.as_secs()
}

/// The current UNIX time in whole seconds, zero before the epoch.
fn now_unix() -> u64 {
    match since_epoch(&system_now()) {
        Some(d) => whole_secs(&d),
        None => 0,
    }
}

impl Timer {
    /// Seconds left at the time `now`.
    pub fn remaining_at(&self, now: u64) -> (r: u64)
        ensures
            r == secs_left(self.end_unix, now),
    {
        if now >= self.end_unix {
            0
        } else {
            self.end_unix - now
        }
    }

    /// Seconds left now, in whole seconds: what `remaining_at` gives for
    /// the time read from the clock.
    pub fn remaining(&self) -> (r: u64)
        ensures
            exists|now: u64| r == secs_left(self.end_unix, now),
    {
        let now = now_unix();
        let r = self.remaining_at(now);
        assert(r == secs_left(self.end_unix, now));
        r
    }
}

// ---------------------------------------------------------------------------
// The stored line format: `<end>\t<label>`
// ---------------------------------------------------------------------------

/// A timer read from one stored line, finished when its end is not after `now`.
pub open spec fn parse_timer_line(l: Seq<char>, now: u64) -> Option<TimerView> {
    match split_once(l, '\t') {
        None => None,
        Some((end, label)) => match parse_unsigned(end, u64::MAX as nat) {
            None => None,
            Some(e) => Some(
                TimerView { label, end_unix: e as u64, finished: now >= e as u64 },
            ),
        },
    }
}

/// The timers read from stored lines; lines that do not parse are skipped.
pub open spec fn timers_from_lines(ls: Seq<Seq<char>>, now: u64) -> Seq<TimerView>
    decreases ls.len(),
{
    if ls.len() == 0 {
        Seq::empty()
    } else {
        let rest = timers_from_lines(ls.drop_first(), now);
        match parse_timer_line(ls[0], now) {
            Some(t) => seq![t] + rest,
            None => rest,
        }
    }
}

/// The timers stored in `contents`.
pub open spec fn parse_timers_spec(contents: Seq<char>, now: u64) -> Seq<TimerView> {
    timers_from_lines(lines(contents), now)
}

proof fn lemma_lines_step(all: Seq<Seq<char>>, i: int, now: u64)
    requires
        0 <= i < all.len(),
    ensures
        timers_from_lines(all.skip(i), now) == match parse_timer_line(all[i], now) {
            Some(t) => seq![t] + timers_from_lines(all.skip(i + 1), now),
            None => timers_from_lines(all.skip(i + 1), now),
        },
{
    assert(all.skip(i)[0] == all[i]);
    assert(all.skip(i).drop_first() == all.skip(i + 1));
}

proof fn lemma_push_reverse(v: Seq<Timer>, t: Timer)
    requires
        v.len() > 0,
        v.last() == t,
    ensures
        timer_views(v).reverse() == seq![t@] + timer_views(v.drop_last()).reverse(),
{
    assert(timer_views(v) == timer_views(v.drop_last()).push(t@));
    assert(timer_views(v).reverse() =~= seq![t@] + timer_views(v.drop_last()).reverse());
}

/// Reads the stored timers out of a file's contents.
#[verifier::rlimit(40)]
pub fn parse_timers(contents: &str, now: u64) -> (r: Vec<Timer>)
    ensures
        timer_views(r@) == parse_timers_spec(contents@, now),
{
    let ls = lines_of(contents);
    let mut out: Vec<Timer> = Vec::new();
    let mut i = ls.len();
    let ghost all = views(ls@);
    // built back to front: out holds the timers of the lines from i on
    let mut rev: Vec<Timer> = Vec::new();
    proof {
        assert(all.skip(all.len() as int) == Seq::<Seq<char>>::empty());
    }
    while i > 0
        invariant
            i <= ls.len(),
            all == views(ls@),
            all == lines(contents@),
            timer_views(rev@).reverse() == timers_from_lines(all.skip(i as int), now),
        decreases i,
    {
        i -= 1;
        let line = &ls[i];
        proof {
            lemma_lines_step(all, i as int, now);
        }
        assert(line@ == all[i as int]);
        let t = parse_line(line.as_str(), now);
        match t {
            Some(timer) => {
                rev.push(timer);
                proof {
                    lemma_push_reverse(rev@, timer);
                }
            },
            None => {},
        }
    }
    proof {
        assert(all.skip(0) == all);
    }
    let mut j = rev.len();
    while j > 0
        invariant
            j <= rev.len(),
            timer_views(out@) == timer_views(rev@).reverse().take(rev.len() - j),
        decreases j,
    {
        j -= 1;
        let t = rev[j].clone_timer();
        out.push(t);
        proof {
            let k = rev.len() - j;
            assert(timer_views(out@) == timer_views(out@.drop_last()).push(t@));
            assert(timer_views(rev@).reverse()[k - 1] == timer_views(rev@)[j as int]);
            assert(timer_views(rev@).reverse().take(k) == timer_views(rev@).reverse().take(
                k - 1,
            ).push(timer_views(rev@).reverse()[k - 1]));
        }
    }
    proof {
        assert(timer_views(rev@).reverse().take(rev.len() as int) == timer_views(rev@).reverse());
    }
    out
}

impl Timer {
    /// A copy of the timer.
    pub fn clone_timer(&self) -> (r: Timer)
        ensures
            r@ == self@,
    {
        Timer { label: owned(self.label.as_str()), end_unix: self.end_unix, finished: self.finished }
    }
}

/// Reads one stored line.
fn parse_line(line: &str, now: u64) -> (r: Option<Timer>)
    ensures
        match parse_timer_line(line@, now) {
            Some(t) => r matches Some(x) && x@ == t,
            None => r is None,
        },
{
    let v = chars_of(line);
    let k = find_in(&v, 0, v.len(), '\t');
    assert(v@.subrange(0, v@.len() as int) == v@);
    if k == v.len() {
        return None;
    }
    assert(v@.take(k as int) == v@.subrange(0, k as int));
    match parse_u64_range(&v, 0, k) {
        None => None,
        Some(end_unix) => {
            let label = string_of_range(&v, k + 1, v.len());
            assert(v@.skip(k + 1) == v@.subrange(k + 1, v.len() as int));
            Some(Timer { label, end_unix, finished: now >= end_unix })
        },
    }
}

/// The characters a stored label may not hold.
pub open spec fn label_breaks() -> Seq<char> {
    seq!['\t', '\r', '\n']
}

/// The stored line of a timer, with its newline.
pub open spec fn timer_line(t: TimerView) -> Seq<char> {
    decimal_digits(t.end_unix as nat) + seq!['\t'] + t.label + seq!['\n']
}

/// The stored form of a list of timers.
pub open spec fn timers_text(ts: Seq<TimerView>) -> Seq<char>
    decreases ts.len(),
{
    if ts.len() == 0 {
        Seq::empty()
    } else {
        timer_line(ts[0]) + timers_text(ts.drop_first())
    }
}

pub open spec fn labels_storable(ts: Seq<TimerView>) -> bool {
    forall|i: int| 0 <= i < ts.len() ==> !contains_any(#[trigger] ts[i].label, label_breaks())
}

proof fn lemma_timers_text_push(ts: Seq<TimerView>, t: TimerView)
    ensures
        timers_text(ts.push(t)) == timers_text(ts) + timer_line(t),
    decreases ts.len(),
{
    if ts.len() == 0 {
        assert(ts.push(t).drop_first() == Seq::<TimerView>::empty());
        assert(ts.push(t)[0] == t);
        assert(timers_text(Seq::<TimerView>::empty()) == Seq::<char>::empty());
        assert(timer_line(t) + Seq::<char>::empty() == timer_line(t));
        assert(Seq::<char>::empty() + timer_line(t) == timer_line(t));
    } else {
        assert(ts.push(t).drop_first() == ts.drop_first().push(t));
        assert(ts.push(t)[0] == ts[0]);
        lemma_timers_text_push(ts.drop_first(), t);
        assert(timer_line(ts[0]) + (timers_text(ts.drop_first()) + timer_line(t)) == (timer_line(
            ts[0],
        ) + timers_text(ts.drop_first())) + timer_line(t));
    }
}

/// What is written to the timers file: the lines of all timers, or `None`
/// when a label holds a tab or a line break.
#[verifier::rlimit(40)]
pub fn timers_contents(list: &Vec<Timer>) -> (r: Option<String>)
    ensures
        labels_storable(timer_views(list@)) ==> (r matches Some(s) && s@ == timers_text(
            timer_views(list@),
        )),
        !labels_storable(timer_views(list@)) ==> r is None,
{
    let mut out = String::new();
    let mut i: usize = 0;
    let ghost ts = timer_views(list@);
    while i < list.len()
        invariant
            i <= list.len(),
            ts == timer_views(list@),
            labels_storable(ts.take(i as int)),
            out@ == timers_text(ts.take(i as int)),
        decreases list.len() - i,
    {
        let t = &list[i];
        assert(ts[i as int] == t@);
        if contains_any_of(t.label.as_str(), "\t\r\n") {
            proof {
                reveal_strlit("\t\r\n");
                assert("\t\r\n"@ == label_breaks());
                assert(contains_any(ts[i as int].label, label_breaks()));
            }
            return None;
        }
        proof {
            reveal_strlit("\t\r\n");
            assert("\t\r\n"@ == label_breaks());
        }
        let n = u64_to_string(t.end_unix);
        push_all(&mut out, n.as_str());
        out.push('\t');
        push_all(&mut out, t.label.as_str());
        out.push('\n');
        proof {
            assert(ts.take(i + 1) == ts.take(i as int).push(t@));
            lemma_timers_text_push(ts.take(i as int), t@);
            assert(out@ == timers_text(ts.take(i as int)) + timer_line(t@));
        }
        i += 1;
    }
    assert(ts.take(list.len() as int) == ts);
    Some(out)
}

/// A timer's line holds no newline and ends other than in `\r`.
proof fn lemma_timer_line_shape(t: TimerView)
    requires
        !contains_any(t.label, label_breaks()),
    ensures
        find(timer_line(t), '\n') == timer_line(t).len() - 1,
        find(timer_line(t), '\t') == decimal_digits(t.end_unix as nat).len(),
{
    let d = decimal_digits(t.end_unix as nat);
    let l = timer_line(t);
    crate::text::lemma_decimal_roundtrip(t.end_unix as nat);
    assert forall|i: int| 0 <= i < l.len() - 1 implies #[trigger] l[i] != '\n' by {
        if i < d.len() {
            assert(l[i] == d[i]);
            assert(is_digit(d[i]));
        } else if i > d.len() {
            assert(l[i] == t.label[i - d.len() - 1]);
            assert(!label_breaks().contains(t.label[i - d.len() - 1]));
            assert(label_breaks()[2] == '\n');
        }
    }
    lemma_find_unique(l, '\n', l.len() - 1);
    assert forall|i: int| 0 <= i < d.len() implies #[trigger] l[i] != '\t' by {
        assert(l[i] == d[i]);
        assert(is_digit(d[i]));
    }
    lemma_find_unique(l, '\t', d.len() as int);
}

/// Stored timers read back: each timer returns with its label and end, its
/// `finished` flag set from the reading time.
pub open spec fn reread(ts: Seq<TimerView>, now: u64) -> Seq<TimerView> {
    ts.map_values(
        |t: TimerView| TimerView { label: t.label, end_unix: t.end_unix, finished: now >= t.end_unix },
    )
}

/// Law: what `timers_contents` writes, `parse_timers` reads back as the same
/// timers (labels and ends), with `finished` taken from the time of reading.
#[verifier::rlimit(40)]
pub proof fn law_timers_roundtrip(ts: Seq<TimerView>, now: u64)
    requires
        labels_storable(ts),
    ensures
        parse_timers_spec(timers_text(ts), now) == reread(ts, now),
    decreases ts.len(),
{
    if ts.len() == 0 {
        assert(reread(ts, now) == Seq::<TimerView>::empty());
    } else {
        let t = ts[0];
        let rest = ts.drop_first();
        assert(labels_storable(rest)) by {
            assert forall|i: int| 0 <= i < rest.len() implies !contains_any(
                #[trigger] rest[i].label,
                label_breaks(),
            ) by {
                assert(rest[i] == ts[i + 1]);
            }
        }
        law_timers_roundtrip(rest, now);
        let l = timer_line(t);
        let s = timers_text(ts);
        assert(s == l + timers_text(rest));
        lemma_timer_line_shape(t);
        let d = decimal_digits(t.end_unix as nat);
        crate::text::lemma_decimal_roundtrip(t.end_unix as nat);
        // the first line of s is l without its newline
        assert forall|i: int| 0 <= i < l.len() - 1 implies #[trigger] s[i] != '\n' by {
            assert(s[i] == l[i]);
            crate::text::lemma_find(l, '\n');
        }
        assert(s[l.len() - 1] == '\n');
        lemma_find_unique(s, '\n', l.len() - 1);
        let first = s.take(l.len() - 1);
        assert(first == l.drop_last());
        assert(s.skip(l.len() as int) == timers_text(rest));
        // the line does not end with '\r'
        assert(first.len() > 0);
        if t.label.len() > 0 {
            assert(first.last() == t.label.last());
            assert(!label_breaks().contains(t.label[t.label.len() - 1]));
            assert(label_breaks()[1] == '\r');
        } else {
            assert(first.last() == '\t');
        }
        assert(strip_cr(first) == first);
        assert(lines(s) == seq![first] + lines(timers_text(rest)));
        // split at the tab
        assert forall|i: int| 0 <= i < d.len() implies #[trigger] first[i] != '\t' by {
            assert(first[i] == d[i]);
            assert(is_digit(d[i]));
        }
        assert(first[d.len() as int] == '\t');
        lemma_find_unique(first, '\t', d.len() as int);
        assert(first.take(d.len() as int) == d);
        assert(first.skip(d.len() as int + 1) == t.label);
        assert(unsigned_digits(d) == d);
        assert(parse_timer_line(first, now) == Some(
            TimerView { label: t.label, end_unix: t.end_unix, finished: now >= t.end_unix },
        ));
        let ls = lines(s);
        assert(ls.drop_first() == lines(timers_text(rest)));
        assert(reread(ts, now) == seq![
            TimerView { label: t.label, end_unix: t.end_unix, finished: now >= t.end_unix },
        ] + reread(rest, now));
    }
}


// ---------------------------------------------------------------------------
// What the user types: `<duration> [label]`
// ---------------------------------------------------------------------------

/// Index of the first whitespace character of `s`, or `s.len()`.
pub open spec fn first_ws(s: Seq<char>) -> nat
    decreases s.len(),
{
    if s.len() == 0 || is_ws(s[0]) {
        0
    } else {
        1 + first_ws(s.drop_first())
    }
}

proof fn lemma_first_ws_unique(s: Seq<char>, k: int)
    requires
        0 <= k <= s.len(),
        forall|i: int| 0 <= i < k ==> !is_ws(#[trigger] s[i]),
        k < s.len() ==> is_ws(s[k]),
    ensures
        first_ws(s) == k,
    decreases s.len(),
{
    if k > 0 {
        assert(!is_ws(s[0]));
        assert forall|i: int| 0 <= i < k - 1 implies !is_ws(#[trigger] s.drop_first()[i]) by {
            assert(s.drop_first()[i] == s[i + 1]);
        }
        lemma_first_ws_unique(s.drop_first(), k - 1);
    }
}

/// Seconds in one unit: `h`, `m` or `s`, either case.
pub open spec fn unit_seconds(c: char) -> Option<nat> {
    if c == 'h' || c == 'H' {
        Some(3600)
    } else if c == 'm' || c == 'M' {
        Some(60)
    } else if c == 's' || c == 'S' {
        Some(1)
    } else {
        None
    }
}

/// The terms `(number, seconds per unit)` of a duration such as `1h30m` or
/// `90`: each number is a run of digits followed by a unit, except that the
/// last may stand alone and counts seconds. `None` when the text is not of
/// that shape.
pub open spec fn duration_terms(d: Seq<char>) -> Option<Seq<(nat, nat)>>
    decreases d.len(),
{
    if d.len() == 0 {
        Some(Seq::empty())
    } else {
        let k = digit_run(d);
        if k >= d.len() {
            Some(seq![(decimal_value(d), 1nat)])
        } else if k == 0 {
            None
        } else {
            match unit_seconds(d[k as int]) {
                None => None,
                Some(m) => match duration_terms(d.skip(k as int + 1)) {
                    None => None,
                    Some(rest) => Some(seq![(decimal_value(d.take(k as int)), m)] + rest),
                },
            }
        }
    }
}

pub open spec fn term_sum(ts: Seq<(nat, nat)>) -> nat
    decreases ts.len(),
{
    if ts.len() == 0 {
        0
    } else {
        ts[0].0 * ts[0].1 + term_sum(ts.drop_first())
    }
}

/// Every term fits in a `u64`.
pub open spec fn terms_fit(ts: Seq<(nat, nat)>) -> bool {
    forall|i: int| 0 <= i < ts.len() ==> #[trigger] ts[i].0 * ts[i].1 <= u64::MAX
}

/// The length of a duration in seconds: it has at least one term, every term
/// and the total fit in a `u64`, and the total is not zero.
pub open spec fn duration_secs(d: Seq<char>) -> Option<nat> {
    match duration_terms(d) {
        None => None,
        Some(ts) => if ts.len() > 0 && terms_fit(ts) && term_sum(ts) <= u64::MAX && term_sum(ts)
            > 0 {
            Some(term_sum(ts))
        } else {
            None
        },
    }
}

/// A timer request: the input trimmed, its first word the duration and the
/// rest, trimmed, the label, which defaults to the duration's text.
pub open spec fn timer_request(input: Seq<char>) -> Option<(nat, Seq<char>)> {
    let t = trim(input);
    let k = first_ws(t);
    let d = t.take(k as int);
    let label = if k < t.len() {
        trim(t.skip(k as int + 1))
    } else {
        Seq::empty()
    };
    match duration_secs(d) {
        None => None,
        Some(n) => Some((n, if label.len() == 0 { d } else { label })),
    }
}

proof fn lemma_term_sum_concat(a: Seq<(nat, nat)>, b: Seq<(nat, nat)>)
    ensures
        term_sum(a + b) == term_sum(a) + term_sum(b),
    decreases a.len(),
{
    if a.len() > 0 {
        assert((a + b).drop_first() == a.drop_first() + b);
        lemma_term_sum_concat(a.drop_first(), b);
    } else {
        assert(a + b == b);
    }
}

proof fn lemma_term_sum_push(a: Seq<(nat, nat)>, t: (nat, nat))
    ensures
        term_sum(a.push(t)) == term_sum(a) + t.0 * t.1,
{
    lemma_term_sum_concat(a, seq![t]);
    assert(a + seq![t] == a.push(t));
    assert(seq![t].drop_first() == Seq::<(nat, nat)>::empty());
    assert(seq![t][0] == t);
    assert(term_sum(Seq::<(nat, nat)>::empty()) == 0);
    assert(term_sum(seq![t]) == t.0 * t.1 + term_sum(seq![t].drop_first()));
}

/// `done + rest` for a parse that went on to `rest`.
pub open spec fn after_terms(done: Seq<(nat, nat)>, rest: Option<Seq<(nat, nat)>>) -> Option<
    Seq<(nat, nat)>,
> {
    match rest {
        None => None,
        Some(r) => Some(done + r),
    }
}

/// The duration `v[lo..hi]` in seconds.
#[verifier::rlimit(40)]
fn parse_duration(v: &Vec<char>, lo: usize, hi: usize) -> (r: Option<u64>)
    requires
        lo <= hi <= v.len(),
    ensures
        match duration_secs(v@.subrange(lo as int, hi as int)) {
            Some(n) => r == Some(n as u64),
            None => r is None,
        },
{
    let ghost d = v@.subrange(lo as int, hi as int);
    let ghost mut done: Seq<(nat, nat)> = Seq::empty();
    let mut total: u64 = 0;
    let mut i = lo;
    assert(d == v@.subrange(i as int, hi as int));
    assert(Seq::<(nat, nat)>::empty() + Seq::<(nat, nat)>::empty() == Seq::<(nat, nat)>::empty());
    while i < hi
        invariant
            lo <= i <= hi <= v.len(),
            d == v@.subrange(lo as int, hi as int),
            duration_terms(d) == after_terms(done, duration_terms(v@.subrange(i as int, hi as int))),
            terms_fit(done),
            total == term_sum(done),
            i == lo <==> done.len() == 0,
        decreases hi - i,
    {
        let ghost sub = v@.subrange(i as int, hi as int);
        let mut j = i;
        while j < hi && is_ascii_digit(v[j])
            invariant
                i <= j <= hi <= v.len(),
                forall|t: int| i <= t < j ==> is_digit(#[trigger] v@[t]),
            decreases hi - j,
        {
            j += 1;
        }
        proof {
            assert forall|t: int| 0 <= t < j - i implies is_digit(#[trigger] sub[t]) by {
                assert(sub[t] == v@[i + t]);
            }
            if j < hi {
                assert(sub[j - i] == v@[j as int]);
            }
            crate::pratt::lemma_digit_run_unique(sub, j - i);
            assert(sub.take(j - i) == v@.subrange(i as int, j as int));
        }
        if j == i {
            return None;
        }
        let val = match parse_digits_u64(v, i, j) {
            Some(x) => x,
            None => {
                proof {
                    let n = decimal_value(v@.subrange(i as int, j as int));
                    match duration_terms(sub) {
                        Some(rest) => {
                            let all = done + rest;
                            assert(all[done.len() as int] == rest[0]);
                            assert(rest[0].0 == n);
                            assert(rest[0].1 >= 1) by {
                                if j < hi {
                                    assert(unit_seconds(sub[j - i]) matches Some(m) && m >= 1);
                                }
                            }
                            assert(rest[0].0 * rest[0].1 >= rest[0].0) by (nonlinear_arith)
                                requires
                                    rest[0].1 >= 1,
                            ;
                            assert(!terms_fit(all));
                        },
                        None => {},
                    }
                }
                return None;
            },
        };
        let mult: u64;
        if j == hi {
            mult = 1;
            proof {
                assert(sub == v@.subrange(i as int, j as int));
            }
        } else {
            let c = v[j];
            assert(sub[j - i] == c);
            if c == 'h' || c == 'H' {
                mult = 3600;
            } else if c == 'm' || c == 'M' {
                mult = 60;
            } else if c == 's' || c == 'S' {
                mult = 1;
            } else {
                return None;
            }
            proof {
                assert(sub.skip(j - i + 1) == v@.subrange(j + 1, hi as int));
            }
        }
        let ghost term: (nat, nat) = (val as nat, mult as nat);
        let ghost rest_sub = if j == hi {
            Seq::<char>::empty()
        } else {
            v@.subrange(j + 1, hi as int)
        };
        proof {
            assert(duration_terms(sub) == after_terms(seq![term], duration_terms(rest_sub)));
        }
        let product = match val.checked_mul(mult) {
            Some(p) => p,
            None => {
                proof {
                    match duration_terms(rest_sub) {
                        Some(rest) => {
                            let all = done + (seq![term] + rest);
                            assert(all[done.len() as int] == term);
                            assert(term.0 * term.1 > u64::MAX);
                            assert(all[done.len() as int].0 * all[done.len() as int].1 > u64::MAX);
                            assert(!terms_fit(all));
                        },
                        None => {},
                    }
                }
                return None;
            },
        };
        let sum = match total.checked_add(product) {
            Some(t) => t,
            None => {
                proof {
                    match duration_terms(rest_sub) {
                        Some(rest) => {
                            lemma_term_sum_push(done, term);
                            lemma_term_sum_concat(done.push(term), rest);
                            assert(done + (seq![term] + rest) == done.push(term) + rest);
                        },
                        None => {},
                    }
                }
                return None;
            },
        };
        proof {
            lemma_term_sum_push(done, term);
            assert forall|t: int| 0 <= t < done.push(term).len() implies #[trigger] done.push(
                term,
            )[t].0 * done.push(term)[t].1 <= u64::MAX by {
                if t < done.len() {
                    assert(done.push(term)[t] == done[t]);
                }
            }
            match duration_terms(rest_sub) {
                Some(rest) => {
                    assert(done + (seq![term] + rest) == done.push(term) + rest);
                },
                None => {},
            }
            done = done.push(term);
        }
        total = sum;
        i = if j == hi {
            hi
        } else {
            j + 1
        };
        proof {
            if j == hi {
                assert(v@.subrange(hi as int, hi as int) == Seq::<char>::empty());
            }
        }
    }
    proof {
        assert(v@.subrange(hi as int, hi as int) == Seq::<char>::empty());
        assert(done + Seq::<(nat, nat)>::empty() == done);
    }
    if i == lo || total == 0 {
        return None;
    }
    Some(total)
}

/// Reads a timer request such as `5m coffee` or `1h30m`: the seconds and
/// the label, or `None` when the duration is not valid or is zero.
#[verifier::rlimit(40)]
pub fn parse_timer_input(input: &str) -> (r: Option<(u64, String)>)
    ensures
        match timer_request(input@) {
            Some((n, label)) => r matches Some((secs, l)) && secs == n && l@ == label,
            None => r is None,
        },
{
    let v = chars_of(input);
    let (a, b) = trim_range(&v, 0, v.len());
    let ghost t = trim(input@);
    assert(v@.subrange(0, v@.len() as int) == input@);
    assert(t == v@.subrange(a as int, b as int));
    let mut k = a;
    while k < b && !is_whitespace(v[k])
        invariant
            a <= k <= b <= v.len(),
            forall|i: int| a <= i < k ==> !is_ws(#[trigger] v@[i]),
        decreases b - k,
    {
        k += 1;
    }
    proof {
        assert forall|i: int| 0 <= i < k - a implies !is_ws(#[trigger] t[i]) by {
            assert(t[i] == v@[a + i]);
        }
        if k < b {
            assert(t[k - a] == v@[k as int]);
        }
        lemma_first_ws_unique(t, k - a);
        assert(t.take(k - a) == v@.subrange(a as int, k as int));
    }
    let secs = match parse_duration(&v, a, k) {
        Some(n) => n,
        None => return None,
    };
    let label = if k < b {
        let (la, lb) = trim_range(&v, k + 1, b);
        proof {
            assert(t.skip(k - a + 1) == v@.subrange(k + 1, b as int));
        }
        string_of_range(&v, la, lb)
    } else {
        String::new()
    };
    if label.as_str().is_empty() {
        Some((secs, string_of_range(&v, a, k)))
    } else {
        Some((secs, label))
    }
}

// ---------------------------------------------------------------------------
// Display of what is left
// ---------------------------------------------------------------------------

/// A number written with at least two digits, as `{:02}` writes it.
pub open spec fn pad2(n: nat) -> Seq<char> {
    if n < 10 {
        seq!['0'] + decimal_digits(n)
    } else {
        decimal_digits(n)
    }
}

/// `HH:MM:SS` when at least an hour is left, else `MM:SS`.
pub open spec fn clock_text(secs: nat) -> Seq<char> {
    let h = secs / 3600;
    let m = (secs % 3600) / 60;
    let s = secs % 60;
    if h > 0 {
        pad2(h) + seq![':'] + pad2(m) + seq![':'] + pad2(s)
    } else {
        pad2(m) + seq![':'] + pad2(s)
    }
}

fn push_pad2(out: &mut String, n: u64)
    ensures
        final(out)@ == old(out)@ + pad2(n as nat),
{
    if n < 10 {
        out.push('0');
    }
    let d = u64_to_string(n);
    push_all(out, d.as_str());
}

/// Formats seconds as a clock: `01:02:03`, or `00:59` under an hour.
pub fn format_remaining(secs: u64) -> (r: String)
    ensures
        r@ == clock_text(secs as nat),
{
    let hours = secs / 3600;
    let minutes = (secs % 3600) / 60;
    let seconds = secs % 60;
    let mut out = String::new();
    if hours > 0 {
        push_pad2(&mut out, hours);
        out.push(':');
    }
    push_pad2(&mut out, minutes);
    out.push(':');
    push_pad2(&mut out, seconds);
    proof {
        if hours > 0 {
            assert(out@ =~= pad2(hours as nat) + seq![':'] + pad2(minutes as nat) + seq![':'] + pad2(
                seconds as nat,
            ));
        } else {
            assert(out@ =~= pad2(minutes as nat) + seq![':'] + pad2(seconds as nat));
        }
    }
    out
}


// ---------------------------------------------------------------------------
// Clearing and finishing
// ---------------------------------------------------------------------------

/// Keeps the timers that have not finished.
pub open spec fn still_running() -> spec_fn(TimerView) -> bool {
    |t: TimerView| !t.finished
}

/// What `t: clear <argument>` does to the list: the argument trimmed, empty
/// or `all` clears everything, `done` drops the finished timers, a number `n`
/// from 1 to the length drops the `n`-th timer counted from the newest (the
/// last). `None` leaves the list alone.
pub open spec fn clear_outcome(list: Seq<TimerView>, argument: Seq<char>) -> Option<
    Seq<TimerView>,
> {
    let a = trim(argument);
    if a.len() == 0 || eq_ignore_ascii_case(a, "all"@) {
        Some(Seq::empty())
    } else if eq_ignore_ascii_case(a, "done"@) {
        Some(list.filter(still_running()))
    } else {
        match parse_unsigned(a, usize::MAX as nat) {
            Some(n) => if 1 <= n <= list.len() {
                Some(list.remove(list.len() - n))
            } else {
                None
            },
            None => None,
        }
    }
}

/// Applies a clear command to the timers; true when the list was rewritten
/// (and is to be stored), false when the argument selects nothing.
#[verifier::rlimit(40)]
pub fn clear_command(list: &mut Vec<Timer>, argument: &str) -> (changed: bool)
    ensures
        match clear_outcome(timer_views(old(list)@), argument@) {
            Some(l) => changed && timer_views(final(list)@) == l,
            None => !changed && final(list)@ == old(list)@,
        },
{
    let v = chars_of(argument);
    let (a, b) = trim_range(&v, 0, v.len());
    proof {
        assert(v@.subrange(0, v@.len() as int) == argument@);
        reveal_strlit("all");
        reveal_strlit("done");
    }
    if a == b || chars_eq_ignore_ascii_case(&v, a, b, "all") {
        list.clear();
        assert(timer_views(list@) == Seq::<TimerView>::empty());
        return true;
    }
    if chars_eq_ignore_ascii_case(&v, a, b, "done") {
        let ghost old_views = timer_views(list@);
        let mut kept: Vec<Timer> = Vec::new();
        let mut i: usize = 0;
        while i < list.len()
            invariant
                i <= list.len(),
                old_views == timer_views(list@),
                timer_views(kept@) == old_views.take(i as int).filter(still_running()),
            decreases list.len() - i,
        {
            let t = &list[i];
            proof {
                reveal_with_fuel(Seq::<_>::filter, 1);
                assert(old_views.take(i + 1).drop_last() == old_views.take(i as int));
                assert(old_views.take(i + 1).last() == t@);
            }
            if !t.finished {
                let c = t.clone_timer();
                kept.push(c);
                proof {
                    assert(timer_views(kept@) == timer_views(kept@.drop_last()).push(c@));
                }
            }
            i += 1;
        }
        assert(old_views.take(list.len() as int) == old_views);
        *list = kept;
        return true;
    }
    match parse_usize_range(&v, a, b) {
        Some(number) => {
            if number == 0 || number > list.len() {
                return false;
            }
            let ghost old_list = list@;
            list.remove(list.len() - number);
            proof {
                assert(timer_views(list@) == timer_views(old_list).remove(old_list.len() - number));
            }
            true
        },
        None => false,
    }
}

/// The timers after a tick at `now`: each timer whose end has come is finished.
pub open spec fn finish_due(list: Seq<TimerView>, now: u64) -> Seq<TimerView> {
    list.map_values(
        |t: TimerView|
            TimerView {
                label: t.label,
                end_unix: t.end_unix,
                finished: t.finished || secs_left(t.end_unix, now) == 0,
            },
    )
}

/// Marks every unfinished timer whose time is up at `now` as finished; true
/// when one changed.
#[verifier::rlimit(40)]
pub fn mark_finished(list: &mut Vec<Timer>, now: u64) -> (changed: bool)
    ensures
        timer_views(final(list)@) == finish_due(timer_views(old(list)@), now),
        changed == exists|i: int|
            0 <= i < old(list)@.len() && !(#[trigger] old(list)@[i]).finished && secs_left(
                old(list)@[i].end_unix,
                now,
            ) == 0,
{
    let ghost orig = list@;
    let mut changed = false;
    let mut i: usize = 0;
    while i < list.len()
        invariant
            i <= list.len(),
            list@.len() == orig.len(),
            forall|j: int| i <= j < orig.len() ==> #[trigger] list@[j] == orig[j],
            forall|j: int|
                0 <= j < i ==> #[trigger] list@[j]@ == finish_due(timer_views(orig), now)[j],
            changed == exists|j: int|
                0 <= j < i && !(#[trigger] orig[j]).finished && secs_left(orig[j].end_unix, now)
                    == 0,
        decreases list.len() - i,
    {
        if !list[i].finished && list[i].remaining_at(now) == 0 {
            let label = owned(list[i].label.as_str());
            let end_unix = list[i].end_unix;
            list.set(i, Timer { label, end_unix, finished: true });
            changed = true;
        }
        proof {
            assert(timer_views(orig)[i as int] == orig[i as int]@);
        }
        i += 1;
    }
    assert(timer_views(list@) == finish_due(timer_views(orig), now));
    changed
}

/// Law: a timer once finished stays finished, and marking at a later time
/// again changes nothing more than marking once at that time.
pub proof fn law_finishing_is_monotone(ts: Seq<TimerView>, earlier: u64, later: u64)
    requires
        earlier <= later,
    ensures
        finish_due(finish_due(ts, earlier), later) == finish_due(ts, later),
        forall|i: int|
            0 <= i < ts.len() && #[trigger] finish_due(ts, earlier)[i].finished ==> finish_due(
                ts,
                later,
            )[i].finished,
{
    assert(finish_due(finish_due(ts, earlier), later) =~= finish_due(ts, later));
}

/// Law: clearing the finished timers keeps exactly the running ones, in
/// their order.
pub proof fn law_clear_done_keeps_running(ts: Seq<TimerView>)
    ensures
        clear_outcome(ts, "done"@) == Some(ts.filter(still_running())),
        forall|i: int|
            0 <= i < ts.filter(still_running()).len() ==> !(#[trigger] ts.filter(
                still_running(),
            )[i]).finished,
{
    reveal_strlit("done");
    reveal_strlit("all");
    crate::text::lemma_trim_noop("done"@);
    assert(!eq_ignore_ascii_case("done"@, "all"@)) by {
        assert("done"@.len() != "all"@.len());
    }
    assert(eq_ignore_ascii_case("done"@, "done"@));
    let kept = ts.filter(still_running());
    assert forall|i: int| 0 <= i < kept.len() implies !(#[trigger] kept[i]).finished by {
        broadcast use vstd::seq_lib::group_filter_ensures;
    }
}

proof fn lemma_one_term(n: nat, c: char, u: nat)
    requires
        1 <= n,
        unit_seconds(c) == Some(u),
        n * u <= u64::MAX,
    ensures
        duration_secs(decimal_digits(n).push(c)) == Some(n * u),
        timer_request(decimal_digits(n).push(c)) == Some((n * u, decimal_digits(n).push(c))),
{
    let ds = decimal_digits(n);
    let d = ds.push(c);
    crate::text::lemma_decimal_roundtrip(n);
    assert(!is_digit(c));
    assert forall|i: int| 0 <= i < ds.len() implies is_digit(#[trigger] d[i]) by {
        assert(d[i] == ds[i]);
        assert(is_digit(ds[i]));
    }
    crate::pratt::lemma_digit_run_unique(d, ds.len() as int);
    assert(d.take(ds.len() as int) == ds);
    assert(d.skip(ds.len() as int + 1) == Seq::<char>::empty());
    assert(duration_terms(Seq::<char>::empty()) == Some(Seq::<(nat, nat)>::empty()));
    let ts = seq![(n, u)];
    assert(duration_terms(d) == Some(ts));
    assert(ts.drop_first() == Seq::<(nat, nat)>::empty());
    assert(term_sum(Seq::<(nat, nat)>::empty()) == 0);
    assert(ts[0] == (n, u));
    assert(term_sum(ts) == ts[0].0 * ts[0].1 + term_sum(ts.drop_first()));
    assert(term_sum(ts) == n * u);
    assert(n * u > 0) by (nonlinear_arith)
        requires
            n >= 1,
            u >= 1,
    ;
    assert(terms_fit(ts));
    // the whole request is that one word
    assert(!is_ws(d[0])) by {
        assert(d[0] == ds[0]);
    }
    assert(!is_ws(d.last()));
    crate::text::lemma_trim_noop(d);
    assert forall|i: int| 0 <= i < d.len() implies !is_ws(#[trigger] d[i]) by {
        if i < ds.len() {
            assert(is_digit(d[i]));
        }
    }
    lemma_first_ws_unique(d, d.len() as int);
    assert(d.take(d.len() as int) == d);
}

/// Law: the units have their real lengths: `n` followed by `h`, `m` or `s`
/// asks for `n` hours, minutes or seconds (either case), and names the
/// timer by that text.
pub proof fn law_units_have_their_lengths(n: nat)
    requires
        1 <= n,
        n * 3600 <= u64::MAX,
    ensures
        timer_request(decimal_digits(n).push('h')) == Some((n * 3600, decimal_digits(n).push('h'))),
        timer_request(decimal_digits(n).push('H')) == Some((n * 3600, decimal_digits(n).push('H'))),
        timer_request(decimal_digits(n).push('m')) == Some((n * 60, decimal_digits(n).push('m'))),
        timer_request(decimal_digits(n).push('M')) == Some((n * 60, decimal_digits(n).push('M'))),
        timer_request(decimal_digits(n).push('s')) == Some((n, decimal_digits(n).push('s'))),
        timer_request(decimal_digits(n).push('S')) == Some((n, decimal_digits(n).push('S'))),
{
    lemma_one_term(n, 'h', 3600);
    lemma_one_term(n, 'H', 3600);
    lemma_one_term(n, 'm', 60);
    lemma_one_term(n, 'M', 60);
    lemma_one_term(n, 's', 1);
    lemma_one_term(n, 'S', 1);
}

} // verus!
