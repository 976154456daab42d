//! The launcher's state and its rules: which mode the query selects, how
//! applications are matched and ordered, what each key does, and what Enter
//! asks the outside world to do.
use vstd::prelude::*;
use crate::apps::{clone_app, App, AppView};
use crate::settings::{mode_named, DisplayMode, Settings};
use crate::timers::{timer_request, Timer, TimerView};
use crate::sort::{is_stable_order, stable_order, SortKey};
use crate::text::{
    chars_of, eq_ignore_ascii_case, is_whitespace, is_ws, lowercase, parse_unsigned,
    signed_decimal, split_words, string_of, string_of_range, to_lowercase, trim, trim_range,
    trim_start, views,
};
use crate::pratt::calculation;

verus! {

// ---------------------------------------------------------------------------
// Modes chosen by a prefix
// ---------------------------------------------------------------------------

/// The command after a mode prefix such as `t:`: the trimmed input must
/// start with the letter and a colon, and the rest is trimmed too.
pub open spec fn mode_command(input: Seq<char>, letter: char) -> Option<Seq<char>> {
    let t = trim(input);
    if t.len() >= 2 && t[0] == letter && t[1] == ':' {
        Some(trim(t.skip(2)))
    } else {
        None
    }
}

/// Where the command of a mode prefix lies in `v[lo..hi]`.
fn command_range(v: &Vec<char>, lo: usize, hi: usize, letter: char) -> (r: Option<(usize, usize)>)
    requires
        lo <= hi <= v.len(),
    ensures
        match r {
            Some((a, b)) => lo <= a <= b <= hi && mode_command(
                v@.subrange(lo as int, hi as int),
                letter,
            ) == Some(v@.subrange(a as int, b as int)),
            None => mode_command(v@.subrange(lo as int, hi as int), letter) is None,
        },
{
    let (a, b) = trim_range(v, lo, hi);
    let ghost t = trim(v@.subrange(lo as int, hi as int));
    assert(t == v@.subrange(a as int, b as int));
    if b - a >= 2 && v[a] == letter && v[a + 1] == ':' {
        let (c, d) = trim_range(v, a + 2, b);
        assert(t.skip(2) == v@.subrange(a + 2, b as int));
        Some((c, d))
    } else {
        proof {
            if t.len() >= 2 {
                assert(t[0] == v@[a as int]);
                assert(t[1] == v@[a + 1]);
            }
        }
        None
    }
}

/// The timer command of an input starting with `t:`.
pub fn timer_command(input: &str) -> (r: Option<String>)
    ensures
        match r {
            Some(c) => mode_command(input@, 't') == Some(c@),
            None => mode_command(input@, 't') is None,
        },
{
    command_of(input, 't')
}

/// The calculation of an input starting with `m:`.
pub fn math_command(input: &str) -> (r: Option<String>)
    ensures
        match r {
            Some(c) => mode_command(input@, 'm') == Some(c@),
            None => mode_command(input@, 'm') is None,
        },
{
    command_of(input, 'm')
}

/// The settings command of an input starting with `s:`.
pub fn settings_command(input: &str) -> (r: Option<String>)
    ensures
        match r {
            Some(c) => mode_command(input@, 's') == Some(c@),
            None => mode_command(input@, 's') is None,
        },
{
    command_of(input, 's')
}

fn command_of(input: &str, letter: char) -> (r: Option<String>)
    ensures
        match r {
            Some(c) => mode_command(input@, letter) == Some(c@),
            None => mode_command(input@, letter) is None,
        },
{
    let v = chars_of(input);
    assert(v@.subrange(0, v.len() as int) == input@);
    match command_range(&v, 0, v.len(), letter) {
        Some((a, b)) => Some(string_of_range(&v, a, b)),
        None => None,
    }
}

pub fn is_timer_mode(input: &str) -> (b: bool)
    ensures
        b == mode_command(input@, 't') is Some,
{
    timer_command(input).is_some()
}

pub fn is_math_mode(input: &str) -> (b: bool)
    ensures
        b == mode_command(input@, 'm') is Some,
{
    math_command(input).is_some()
}

pub fn is_settings_mode(input: &str) -> (b: bool)
    ensures
        b == mode_command(input@, 's') is Some,
{
    settings_command(input).is_some()
}

/// The text after a leading `word` that is followed by whitespace or ends
/// the input, with the whitespace after it dropped.
pub open spec fn after_word(input: Seq<char>, word: Seq<char>) -> Option<Seq<char>> {
    if word.len() <= input.len() && input.take(word.len() as int) == word && (input.len()
        == word.len() || is_ws(input[word.len() as int])) {
        Some(trim_start(input.skip(word.len() as int)))
    } else {
        None
    }
}

/// Where the rest after a leading `word` starts in `v[lo..hi]`.
fn word_rest(v: &Vec<char>, lo: usize, hi: usize, word: &str) -> (r: Option<usize>)
    requires
        lo <= hi <= v.len(),
    ensures
        match r {
            Some(k) => lo <= k <= hi && after_word(v@.subrange(lo as int, hi as int), word@)
                == Some(v@.subrange(k as int, hi as int)),
            None => after_word(v@.subrange(lo as int, hi as int), word@) is None,
        },
{
    let ghost s = v@.subrange(lo as int, hi as int);
    let w = chars_of(word);
    if w.len() > hi - lo {
        return None;
    }
    let end = lo + w.len();
    let starts = crate::apps::range_eq(v, lo, end, word);
    assert(s.take(w.len() as int) == v@.subrange(lo as int, end as int));
    if !starts {
        return None;
    }
    if end < hi && !is_whitespace(v[end]) {
        assert(s[w.len() as int] == v@[end as int]);
        return None;
    }
    proof {
        if end < hi {
            assert(s[w.len() as int] == v@[end as int]);
        }
    }
    let (k, _) = trim_range(v, end, hi);
    proof {
        let rest = v@.subrange(end as int, hi as int);
        assert(s.skip(w.len() as int) == rest);
        crate::text::lemma_lead_ws(rest);
        assert(rest.skip(crate::text::lead_ws(rest) as int) == v@.subrange(k as int, hi as int));
    }
    Some(k)
}

/// `input` without a leading `word` and the whitespace after it, when the
/// word stands alone there.
pub fn strip_prefix_word(input: &str, word: &str) -> (r: Option<String>)
    ensures
        match r {
            Some(rest) => after_word(input@, word@) == Some(rest@),
            None => after_word(input@, word@) is None,
        },
{
    let v = chars_of(input);
    assert(v@.subrange(0, v.len() as int) == input@);
    match word_rest(&v, 0, v.len(), word) {
        Some(k) => Some(string_of_range(&v, k, v.len())),
        None => None,
    }
}

// ---------------------------------------------------------------------------
// Matching applications
// ---------------------------------------------------------------------------

/// `q` occurs in `s` as a contiguous run.
pub open spec fn occurs_in(q: Seq<char>, s: Seq<char>) -> bool {
    exists|i: int| 0 <= i && i + q.len() <= s.len() && #[trigger] s.subrange(i, i + q.len()) == q
}

/// `q` can be read in `s` in order, skipping characters of `s`.
pub open spec fn subsequence(q: Seq<char>, s: Seq<char>) -> bool
    decreases s.len(),
{
    if q.len() == 0 {
        true
    } else if s.len() == 0 {
        false
    } else if q[0] == s[0] {
        subsequence(q.drop_first(), s.drop_first())
    } else {
        subsequence(q, s.drop_first())
    }
}

/// How well a lowercase name matches a query: 0 for a prefix (or an empty
/// query), 1 for a run inside the name, 2 for a scattered match, none when
/// the query's characters do not occur in order.
pub open spec fn score(name: Seq<char>, q: Seq<char>) -> Option<usize> {
    if q.len() == 0 || q.is_prefix_of(name) {
        Some(0)
    } else if occurs_in(q, name) {
        Some(1)
    } else if subsequence(q, name) {
        Some(2)
    } else {
        None
    }
}

fn is_prefix(q: &Vec<char>, s: &Vec<char>) -> (b: bool)
    ensures
        b == q@.is_prefix_of(s@),
{
    if q.len() > s.len() {
        return false;
    }
    let mut i: usize = 0;
    while i < q.len()
        invariant
            q.len() <= s.len(),
            i <= q.len(),
            forall|j: int| 0 <= j < i ==> q@[j] == s@[j],
        decreases q.len() - i,
    {
        if q[i] != s[i] {
            return false;
        }
        i += 1;
    }
    assert(q@ == s@.take(q.len() as int));
    true
}

fn occurs_at(q: &Vec<char>, s: &Vec<char>, at: usize) -> (b: bool)
    requires
        at + q.len() <= s.len(),
    ensures
        b == (s@.subrange(at as int, at + q.len()) == q@),
{
    let mut i: usize = 0;
    while i < q.len()
        invariant
            at + q.len() <= s.len(),
            i <= q.len(),
            forall|j: int| 0 <= j < i ==> q@[j] == s@[at + j],
        decreases q.len() - i,
    {
        if q[i] != s[at + i] {
            assert(s@.subrange(at as int, at + q.len())[i as int] != q@[i as int]);
            return false;
        }
        i += 1;
    }
    assert(s@.subrange(at as int, at + q.len()) == q@);
    true
}

fn occurs(q: &Vec<char>, s: &Vec<char>) -> (b: bool)
    ensures
        b == occurs_in(q@, s@),
{
    if q.len() > s.len() {
        return false;
    }
    if q.len() == 0 {
        assert(s@.subrange(0int, 0int + q@.len()) == q@);
        return true;
    }
    let mut i: usize = 0;
    while i <= s.len() - q.len()
        invariant
            0 < q.len() <= s.len(),
            i <= s.len() - q.len() + 1,
            forall|j: int| 0 <= j < i ==> #[trigger] s@.subrange(j, j + q.len()) != q@,
        decreases s.len() - q.len() + 1 - i,
    {
        if occurs_at(q, s, i) {
            return true;
        }
        i += 1;
    }
    false
}

proof fn lemma_subsequence_skip(q: Seq<char>, s: Seq<char>, i: int, j: int)
    requires
        0 <= i < q.len(),
        0 <= j < s.len(),
    ensures
        subsequence(q.skip(i), s.skip(j)) == if q[i] == s[j] {
            subsequence(q.skip(i + 1), s.skip(j + 1))
        } else {
            subsequence(q.skip(i), s.skip(j + 1))
        },
{
    assert(q.skip(i)[0] == q[i]);
    assert(s.skip(j)[0] == s[j]);
    assert(q.skip(i).drop_first() == q.skip(i + 1));
    assert(s.skip(j).drop_first() == s.skip(j + 1));
}

fn is_subsequence(q: &Vec<char>, s: &Vec<char>) -> (b: bool)
    ensures
        b == subsequence(q@, s@),
{
    let mut i: usize = 0;
    let mut j: usize = 0;
    assert(q@.skip(0) == q@);
    assert(s@.skip(0) == s@);
    while i < q.len()
        invariant
            i <= q.len(),
            j <= s.len(),
            subsequence(q@, s@) == subsequence(q@.skip(i as int), s@.skip(j as int)),
        decreases s.len() - j,
    {
        if j == s.len() {
            assert(s@.skip(j as int).len() == 0);
            return false;
        }
        proof {
            lemma_subsequence_skip(q@, s@, i as int, j as int);
        }
        if q[i] == s[j] {
            i += 1;
        }
        j += 1;
    }
    assert(q@.skip(i as int).len() == 0);
    true
}

/// How well the lowercase `name` matches the lowercase `query` (see `score`).
pub fn match_score(name_lower: &str, query: &str) -> (r: Option<usize>)
    ensures
        r == score(name_lower@, query@),
{
    let s = chars_of(name_lower);
    let q = chars_of(query);
    if q.len() == 0 || is_prefix(&q, &s) {
        return Some(0);
    }
    if occurs(&q, &s) {
        return Some(1);
    }
    if is_subsequence(&q, &s) {
        return Some(2);
    }
    None
}

/// The index of the first `name` in `list`, or -1.
pub open spec fn position(list: Seq<Seq<char>>, name: Seq<char>) -> int
    decreases list.len(),
{
    if list.len() == 0 {
        -1
    } else if list[0] == name {
        0
    } else {
        let p = position(list.drop_first(), name);
        if p < 0 {
            -1
        } else {
            p + 1
        }
    }
}

/// The first place of `name` in the recent list, `usize::MAX` when absent.
pub open spec fn rank(recents: Seq<Seq<char>>, name: Seq<char>) -> usize {
    let p = position(recents, name);
    if p < 0 {
        usize::MAX
    } else {
        p as usize
    }
}

/// Where a name was launched lately: its place in `recents`, or
/// `usize::MAX` for one not there.
#[verifier::rlimit(40)]
pub fn recency_rank(recents: &Vec<String>, name: &str) -> (r: usize)
    ensures
        r == rank(views(recents@), name@),
{
    let ghost list = views(recents@);
    let mut i: usize = 0;
    assert(list.skip(0) == list);
    while i < recents.len()
        invariant
            i <= recents.len(),
            list == views(recents@),
            position(list, name@) == (if position(list.skip(i as int), name@) < 0 {
                -1
            } else {
                position(list.skip(i as int), name@) + i
            }),
        decreases recents.len() - i,
    {
        let ghost rest = list.skip(i as int);
        assert(rest[0] == recents@[i as int]@);
        if crate::apps::str_eq(recents[i].as_str(), name) {
            return i;
        }
        assert(rest.drop_first() == list.skip(i + 1));
        i += 1;
    }
    assert(list.skip(i as int).len() == 0);
    usize::MAX
}

// ---------------------------------------------------------------------------
// The launcher's state
// ---------------------------------------------------------------------------

/// Everything the launcher shows and edits. The cursor counts characters
/// of the query.
pub struct Launcher {
    pub query: Vec<char>,
    pub cursor: usize,
    pub apps: Vec<App>,
    pub selected: usize,
    pub history_selected: usize,
    pub math_history: Vec<String>,
    pub settings: Settings,
    pub recents: Vec<String>,
    pub launch_error: Option<String>,
}

pub open spec fn app_views(apps: Seq<App>) -> Seq<AppView> {
    apps.map_values(|a: App| a@)
}

/// The query applications are matched against: trimmed and lowercased.
pub open spec fn search_key(query: Seq<char>) -> Seq<char> {
    lowercase(trim(query))
}

/// The indices of the applications whose lowercase names match `q`, in
/// their order.
pub open spec fn candidates(apps: Seq<AppView>, q: Seq<char>) -> Seq<int>
    decreases apps.len(),
{
    if apps.len() == 0 {
        Seq::empty()
    } else {
        let c = candidates(apps.drop_last(), q);
        if score(lowercase(apps.last().name), q) is Some {
            c.push(apps.len() - 1)
        } else {
            c
        }
    }
}

/// What matches are sorted by: with the `recent` display, the match score
/// and then how lately the app was launched (only the latter for an empty
/// query); otherwise the score alone.
pub open spec fn order_key(display: DisplayMode, query_empty: bool, score: usize, rank: usize) -> (
    usize,
    usize,
) {
    match display {
        DisplayMode::Recent => if query_empty {
            (0, rank)
        } else {
            (score, rank)
        },
        _ => (score, 0),
    }
}

pub open spec fn candidate_keys(
    apps: Seq<AppView>,
    q: Seq<char>,
    display: DisplayMode,
    recents: Seq<Seq<char>>,
) -> Seq<(usize, usize)> {
    candidates(apps, q).map_values(
        |i: int|
            order_key(
                display,
                q.len() == 0,
                score(lowercase(apps[i].name), q)->0,
                rank(recents, apps[i].name),
            ),
    )
}

/// `r` is the list of matches shown for `query`: nothing for an empty query
/// when the display setting is `none`; else the matching applications,
/// stably sorted by `order_key`.
pub open spec fn is_match_list(
    apps: Seq<AppView>,
    query: Seq<char>,
    settings: Settings,
    recents: Seq<Seq<char>>,
    r: Seq<AppView>,
) -> bool {
    let q = search_key(query);
    if q.len() == 0 && settings.display == DisplayMode::Empty {
        r.len() == 0
    } else {
        exists|order: Seq<usize>|
            #![trigger is_stable_order(candidate_keys(apps, q, settings.display, recents), order)]
            is_stable_order(candidate_keys(apps, q, settings.display, recents), order) && r.len()
                == order.len() && forall|i: int|
                0 <= i < r.len() ==> #[trigger] r[i] == apps[candidates(apps, q)[order[i] as int]]
    }
}

impl Launcher {
    /// The cursor lies within the query.
    pub open spec fn wf(&self) -> bool {
        self.cursor <= self.query.len()
    }

    /// The applications that match the query, in the order they are listed.
    #[verifier::rlimit(40)]
    pub fn matching_apps(&self) -> (r: Vec<App>)
        ensures
            is_match_list(
                app_views(self.apps@),
                self.query@,
                self.settings,
                views(self.recents@),
                app_views(r@),
            ),
            search_key(self.query@).len() > 0 ==> forall|i: int, j: int|
                0 <= i < j < r@.len() ==> score(
                    lowercase(#[trigger] r@[i].name@),
                    search_key(self.query@),
                )->0 <= score(lowercase(#[trigger] r@[j].name@), search_key(self.query@))->0,
    {
        let (a, b) = trim_range(&self.query, 0, self.query.len());
        assert(self.query@.subrange(0, self.query.len() as int) == self.query@);
        let trimmed = string_of_range(&self.query, a, b);
        let q = to_lowercase(trimmed.as_str());
        let ghost qs = search_key(self.query@);
        let ghost apps = app_views(self.apps@);
        let ghost recents = views(self.recents@);
        let ghost display = self.settings.display;
        assert(q@ == qs);
        if q.as_str().is_empty() && self.settings.display == DisplayMode::Empty {
            let r: Vec<App> = Vec::new();
            assert(app_views(r@).len() == 0);
            return r;
        }
        let query_empty = q.as_str().is_empty();
        let mut cands: Vec<usize> = Vec::new();
        let mut keys: Vec<(usize, usize)> = Vec::new();
        let mut i: usize = 0;
        while i < self.apps.len()
            invariant
                i <= self.apps.len(),
                apps == app_views(self.apps@),
                recents == views(self.recents@),
                display == self.settings.display,
                q@ == qs,
                query_empty == (qs.len() == 0),
                cands@.len() == keys@.len(),
                cands@.len() == candidates(apps.take(i as int), qs).len(),
                forall|t: int|
                    0 <= t < cands@.len() ==> #[trigger] cands@[t] as int == candidates(
                        apps.take(i as int),
                        qs,
                    )[t],
                keys@ == candidate_keys(apps.take(i as int), qs, display, recents),
            decreases self.apps.len() - i,
        {
            let ghost pre = apps.take(i as int);
            let ghost post = apps.take(i + 1);
            assert(post.drop_last() == pre);
            assert(post.last() == apps[i as int]);
            assert(apps[i as int] == self.apps@[i as int]@);
            let name_lower = to_lowercase(self.apps[i].name.as_str());
            let found = match_score(name_lower.as_str(), q.as_str());
            proof {
                assert forall|t: int| 0 <= t < pre.len() implies #[trigger] post[t] == pre[t] by {}
                assert forall|t: int| 0 <= t < candidates(pre, qs).len() implies 0 <= #[trigger] candidates(pre, qs)[t] < pre.len() by {
                    lemma_candidates_bounds(pre, qs);
                }
            }
            match found {
                Some(sc) => {
                    let rk = recency_rank(&self.recents, self.apps[i].name.as_str());
                    let key = if self.settings.display == DisplayMode::Recent {
                        if query_empty {
                            (0, rk)
                        } else {
                            (sc, rk)
                        }
                    } else {
                        (sc, 0)
                    };
                    cands.push(i);
                    keys.push(key);
                    proof {
                        lemma_candidates_bounds(pre, qs);
                        assert(candidates(post, qs) == candidates(pre, qs).push(i as int));
                        assert(candidate_keys(post, qs, display, recents) == candidate_keys(pre, qs, display, recents).push(key)) by {
                            assert forall|t: int| 0 <= t < candidates(pre, qs).len() implies
                                #[trigger] post[candidates(pre, qs)[t]] == pre[candidates(pre, qs)[t]] by {}
                        }
                    }
                },
                None => {
                    proof {
                        lemma_candidates_bounds(pre, qs);
                        assert(candidates(post, qs) == candidates(pre, qs));
                        assert(candidate_keys(post, qs, display, recents) == candidate_keys(pre, qs, display, recents)) by {
                            assert forall|t: int| 0 <= t < candidates(pre, qs).len() implies
                                #[trigger] post[candidates(pre, qs)[t]] == pre[candidates(pre, qs)[t]] by {}
                        }
                    }
                },
            }
            i += 1;
        }
        assert(apps.take(self.apps.len() as int) == apps);
        let order = stable_order(&keys);
        proof {
            lemma_candidates_bounds(apps, qs);
            assert(apps.len() == self.apps.len());
        }
        let mut r: Vec<App> = Vec::new();
        let mut k: usize = 0;
        while k < order.len()
            invariant
                k <= order.len(),
                apps == app_views(self.apps@),
                is_stable_order(keys@, order@),
                keys@ == candidate_keys(apps, qs, display, recents),
                cands@.len() == keys@.len(),
                forall|t: int|
                    0 <= t < cands@.len() ==> #[trigger] cands@[t] as int == candidates(apps, qs)[t],
                forall|t: int| 0 <= t < cands@.len() ==> #[trigger] cands@[t] < self.apps.len(),
                r@.len() == k,
                forall|t: int|
                    0 <= t < k ==> #[trigger] app_views(r@)[t] == apps[candidates(
                        apps,
                        qs,
                    )[order@[t] as int]],
            decreases order.len() - k,
        {
            assert(order@[k as int] < keys@.len());
            let idx = cands[order[k]];
            let ghost before = r@;
            r.push(clone_app(&self.apps[idx]));
            proof {
                assert(apps[idx as int] == self.apps@[idx as int]@);
                assert forall|t: int| 0 <= t < k + 1 implies #[trigger] app_views(r@)[t] == apps[candidates(apps, qs)[order@[t] as int]] by {
                    if t < k {
                        assert(r@[t] == before[t]);
                        assert(app_views(before)[t] == before[t]@);
                    }
                }
            }
            k += 1;
        }
        proof {
            if qs.len() > 0 {
                law_better_matches_first(apps, self.query@, self.settings, recents, app_views(r@));
                assert forall|i: int, j: int| 0 <= i < j < r@.len() implies score(
                    lowercase(#[trigger] r@[i].name@),
                    qs,
                )->0 <= score(lowercase(#[trigger] r@[j].name@), qs)->0 by {
                    assert(app_views(r@)[i] == r@[i]@);
                    assert(app_views(r@)[j] == r@[j]@);
                }
            }
        }
        r
    }
}

/// The launcher as a value.
pub struct LauncherView {
    pub query: Seq<char>,
    pub cursor: nat,
    pub apps: Seq<AppView>,
    pub selected: nat,
    pub history_selected: nat,
    pub math_history: Seq<Seq<char>>,
    pub settings: Settings,
    pub recents: Seq<Seq<char>>,
    pub launch_error: Option<Seq<char>>,
}

pub open spec fn error_view(e: Option<String>) -> Option<Seq<char>> {
    match e {
        Some(s) => Some(s@),
        None => None,
    }
}

impl View for Launcher {
    type V = LauncherView;

    open spec fn view(&self) -> LauncherView {
        LauncherView {
            query: self.query@,
            cursor: self.cursor as nat,
            apps: app_views(self.apps@),
            selected: self.selected as nat,
            history_selected: self.history_selected as nat,
            math_history: views(self.math_history@),
            settings: self.settings,
            recents: views(self.recents@),
            launch_error: error_view(self.launch_error),
        }
    }
}

/// How many applications match the query.
pub open spec fn match_count(v: LauncherView) -> nat {
    let q = search_key(v.query);
    if q.len() == 0 && v.settings.display == DisplayMode::Empty {
        0
    } else {
        candidates(v.apps, q).len()
    }
}

/// A position in a list of `len` entries moved by `delta`: up to the first
/// entry at most, down to the last at most.
pub open spec fn moved(pos: nat, delta: int, len: nat) -> nat {
    if delta < 0 {
        if pos >= -delta {
            (pos + delta) as nat
        } else {
            0
        }
    } else if pos + delta < len {
        (pos + delta) as nat
    } else {
        (len - 1) as nat
    }
}

/// The launcher after moving the selection by `delta`: nothing in timer and
/// settings mode, the recalled calculation in math mode, else the selected
/// application.
pub open spec fn selection_moved(v: LauncherView, delta: int) -> LauncherView {
    if mode_command(v.query, 't') is Some || mode_command(v.query, 's') is Some {
        v
    } else if mode_command(v.query, 'm') is Some {
        let len = v.math_history.len();
        LauncherView {
            history_selected: if len == 0 { 0 } else { moved(v.history_selected, delta, len) },
            ..v
        }
    } else {
        let n = match_count(v);
        LauncherView { selected: if n == 0 { 0 } else { moved(v.selected, delta, n) }, ..v }
    }
}

/// A position moved within `len` entries, without overflowing.
fn move_pos(pos: usize, delta: i32, len: usize) -> (r: usize)
    requires
        len > 0,
    ensures
        r == moved(pos as nat, delta as int, len as nat),
{
    if delta < 0 {
        let back = (-(delta as i64)) as usize;
        if pos >= back {
            pos - back
        } else {
            0
        }
    } else {
        let ahead = delta as usize;
        if pos < len - 1 && ahead < len - 1 - pos {
            pos + ahead
        } else {
            len - 1
        }
    }
}

#[verifier::rlimit(40)]
proof fn lemma_match_list_len(
    apps: Seq<AppView>,
    query: Seq<char>,
    settings: Settings,
    recents: Seq<Seq<char>>,
    r: Seq<AppView>,
)
    requires
        is_match_list(apps, query, settings, recents, r),
    ensures
        r.len() == match_count(
            LauncherView {
                query,
                cursor: 0,
                apps,
                selected: 0,
                history_selected: 0,
                math_history: Seq::empty(),
                settings,
                recents,
                launch_error: None,
            },
        ),
{
    let q = search_key(query);
    if !(q.len() == 0 && settings.display == DisplayMode::Empty) {
        let order = choose|order: Seq<usize>|
            #![trigger is_stable_order(candidate_keys(apps, q, settings.display, recents), order)]
            is_stable_order(candidate_keys(apps, q, settings.display, recents), order) && r.len()
                == order.len() && forall|i: int|
                0 <= i < r.len() ==> #[trigger] r[i] == apps[candidates(apps, q)[order[i] as int]];
        assert(candidate_keys(apps, q, settings.display, recents).len() == candidates(apps, q).len());
    }
}

impl Launcher {
    /// The number of applications matching the query.
    pub fn match_count(&self) -> (n: usize)
        ensures
            n == match_count(self@),
    {
        let r = self.matching_apps();
        proof {
            lemma_match_list_len(
                app_views(self.apps@),
                self.query@,
                self.settings,
                views(self.recents@),
                app_views(r@),
            );
        }
        r.len()
    }

    /// The matches the search screen lists, with the selection kept on one of
    /// them: the last one when it is past their end.
    pub fn shown_matches(&mut self) -> (r: Vec<App>)
        requires
            old(self).wf(),
        ensures
            final(self).wf(),
            is_match_list(
                old(self)@.apps,
                old(self)@.query,
                old(self)@.settings,
                old(self)@.recents,
                app_views(r@),
            ),
            final(self)@ == (LauncherView {
                selected: if r.len() > 0 && old(self).selected >= r.len() {
                    (r.len() - 1) as nat
                } else {
                    old(self)@.selected
                },
                ..old(self)@
            }),
    {
        let r = self.matching_apps();
        if r.len() > 0 && self.selected >= r.len() {
            self.selected = r.len() - 1;
        }
        r
    }

    /// Keeps the recalled calculation on an entry of the history: the
    /// oldest one when it is past their end.
    pub fn clamp_history(&mut self)
        requires
            old(self).wf(),
        ensures
            final(self).wf(),
            final(self)@ == (LauncherView {
                history_selected: if old(self).math_history.len() > 0 && old(self).history_selected
                    >= old(self).math_history.len() {
                    (old(self).math_history.len() - 1) as nat
                } else {
                    old(self)@.history_selected
                },
                ..old(self)@
            }),
    {
        let len = self.math_history.len();
        if len > 0 && self.history_selected >= len {
            self.history_selected = len - 1;
        }
    }

    /// Moves the selection by `delta` entries (see `selection_moved`).
    #[verifier::rlimit(40)]
    pub fn move_selection(&mut self, delta: i32)
        ensures
            final(self)@ == selection_moved(old(self)@, delta as int),
    {
        let text = crate::text::string_of(&self.query);
        if is_timer_mode(text.as_str()) || is_settings_mode(text.as_str()) {
            return;
        }
        if is_math_mode(text.as_str()) {
            let len = self.math_history.len();
            if len == 0 {
                self.history_selected = 0;
            } else {
                self.history_selected = move_pos(self.history_selected, delta, len);
            }
            return;
        }
        let n = self.match_count();
        if n == 0 {
            self.selected = 0;
        } else {
            self.selected = move_pos(self.selected, delta, n);
        }
    }
}

// ---------------------------------------------------------------------------
// Keys
// ---------------------------------------------------------------------------

/// A key press or mouse wheel step, as the launcher tells them apart.
#[derive(Debug, Clone, Copy, PartialEq, Eq, Structural)]
pub enum Input {
    Char { c: char, ctrl: bool },
    Esc,
    Left,
    Right,
    Tab,
    BackTab,
    Home,
    End,
    Backspace,
    Delete,
    Up,
    Down,
    PageUp,
    PageDown,
    Enter,
    ScrollUp,
    ScrollDown,
    Other,
}

/// What the event loop does after an input.
#[derive(Debug, Clone, Copy, PartialEq, Eq, Structural)]
pub enum Step {
    Continue,
    Quit,
    Enter,
}

/// The launcher with an edited query: the selections start over and the
/// error is cleared.
pub open spec fn edited(v: LauncherView, query: Seq<char>, cursor: nat) -> LauncherView {
    LauncherView { query, cursor, selected: 0, history_selected: 0, launch_error: None, ..v }
}

/// Where a backwards word deletion from `k` stops: at the nearest
/// whitespace before `k`, which is deleted too, or at the start.
pub open spec fn word_start(q: Seq<char>, k: nat) -> nat
    decreases k,
{
    if k == 0 {
        0
    } else if is_ws(q[k - 1]) {
        (k - 1) as nat
    } else {
        word_start(q, (k - 1) as nat)
    }
}

/// The query starts with one of the mode prefixes `t:`, `m:` or `s:`.
pub open spec fn in_command_mode(q: Seq<char>) -> bool {
    mode_command(q, 't') is Some || mode_command(q, 'm') is Some || mode_command(q, 's') is Some
}

/// What an input does to the launcher.
pub open spec fn after_input(v: LauncherView, input: Input) -> (LauncherView, Step) {
    let q = v.query;
    let k = v.cursor;
    match input {
        Input::Esc => (v, Step::Quit),
        Input::Char { c, ctrl } => if ctrl && c == 'c' {
            (v, Step::Quit)
        } else if ctrl && c == 'u' {
            (edited(v, Seq::empty(), 0), Step::Continue)
        } else if ctrl && c == 'w' {
            let j = word_start(q, k);
            (edited(v, q.take(j as int) + q.skip(k as int), j), Step::Continue)
        } else if ctrl && (c == 'l' || c == 'h') {
            (v, Step::Continue)
        } else if ctrl && (c == 'k' || c == 'p') {
            (selection_moved(v, -1), Step::Continue)
        } else if ctrl && (c == 'j' || c == 'n') {
            (selection_moved(v, 1), Step::Continue)
        } else {
            (edited(v, q.insert(k as int, c), k + 1), Step::Continue)
        },
        Input::Left => (
            LauncherView { cursor: if k > 0 { (k - 1) as nat } else { 0 }, ..v },
            Step::Continue,
        ),
        Input::Right => if (in_command_mode(q) || v.selected < match_count(v)) && k < q.len() {
            (LauncherView { cursor: k + 1, ..v }, Step::Continue)
        } else {
            (v, Step::Continue)
        },
        Input::Home => (LauncherView { cursor: 0, ..v }, Step::Continue),
        Input::End => (LauncherView { cursor: q.len(), ..v }, Step::Continue),
        Input::Backspace => if k > 0 {
            (edited(v, q.remove(k - 1), (k - 1) as nat), Step::Continue)
        } else {
            (v, Step::Continue)
        },
        Input::Delete => if k < q.len() {
            (edited(v, q.remove(k as int), k), Step::Continue)
        } else {
            (v, Step::Continue)
        },
        Input::Up | Input::ScrollUp => (selection_moved(v, -1), Step::Continue),
        Input::Down | Input::ScrollDown => (selection_moved(v, 1), Step::Continue),
        Input::PageUp => (selection_moved(v, -5), Step::Continue),
        Input::PageDown => (selection_moved(v, 5), Step::Continue),
        Input::Enter => (v, Step::Enter),
        Input::Tab | Input::BackTab | Input::Other => (v, Step::Continue),
    }
}

impl Launcher {
    /// A launcher with an empty query over the given applications and
    /// stored lists.
    pub fn new(apps: Vec<App>, math_history: Vec<String>, settings: Settings, recents: Vec<String>) -> (r: Launcher)
        ensures
            r.wf(),
            r.query@.len() == 0,
            r.cursor == 0,
            r.selected == 0,
            r.history_selected == 0,
            r.apps@ == apps@,
            r.math_history@ == math_history@,
            r.settings == settings,
            r.recents@ == recents@,
            r.launch_error is None,
    {
        Launcher {
            query: Vec::new(),
            cursor: 0,
            apps,
            selected: 0,
            history_selected: 0,
            math_history,
            settings,
            recents,
            launch_error: None,
        }
    }

    fn reset_selection(&mut self)
        ensures
            final(self)@ == (LauncherView {
                selected: 0,
                history_selected: 0,
                launch_error: None,
                ..old(self)@
            }),
            final(self).query@ == old(self).query@,
            final(self).cursor == old(self).cursor,
    {
        self.selected = 0;
        self.history_selected = 0;
        self.launch_error = None;
    }

    /// Deletes backwards from the cursor through the nearest whitespace.
    #[verifier::rlimit(40)]
    fn delete_word(&mut self)
        requires
            old(self).wf(),
        ensures
            final(self).wf(),
            final(self)@ == edited(
                old(self)@,
                old(self).query@.take(word_start(old(self).query@, old(self).cursor as nat) as int)
                    + old(self).query@.skip(old(self).cursor as int),
                word_start(old(self).query@, old(self).cursor as nat),
            ),
    {
        let ghost q0 = self.query@;
        let ghost k0 = self.cursor as nat;
        let ghost target = word_start(q0, k0);
        loop
            invariant_except_break
                self.cursor <= self.query.len(),
                word_start(q0, self.cursor as nat) == target,
                self.query@ == q0.take(self.cursor as int) + q0.skip(k0 as int),
                self.cursor <= k0 <= q0.len(),
                self.apps@ == old(self).apps@,
                self.math_history@ == old(self).math_history@,
                self.settings == old(self).settings,
                self.recents@ == old(self).recents@,
                self.selected == old(self).selected,
                self.history_selected == old(self).history_selected,
                self.launch_error == old(self).launch_error,
            ensures
                self.cursor == target,
                self.cursor <= self.query.len(),
                self.query@ == q0.take(target as int) + q0.skip(k0 as int),
                self.apps@ == old(self).apps@,
                self.math_history@ == old(self).math_history@,
                self.settings == old(self).settings,
                self.recents@ == old(self).recents@,
            decreases self.cursor,
        {
            if self.cursor == 0 {
                break;
            }
            let prev = self.cursor - 1;
            assert(self.query@[prev as int] == q0[prev as int]);
            let was_space = is_whitespace(self.query[prev]);
            self.query.remove(prev);
            proof {
                assert(self.query@ == q0.take(prev as int) + q0.skip(k0 as int));
            }
            self.cursor = prev;
            if was_space {
                break;
            }
        }
        self.reset_selection();
    }

    /// Handles one input (see `after_input`). Enter only reports itself:
    /// what it does is `enter`.
    #[verifier::rlimit(40)]
    pub fn handle_input(&mut self, input: Input) -> (r: Step)
        requires
            old(self).wf(),
        ensures
            final(self).wf(),
            (final(self)@, r) == after_input(old(self)@, input),
    {
        match input {
            Input::Esc => Step::Quit,
            Input::Char { c, ctrl } => {
                if ctrl && c == 'c' {
                    Step::Quit
                } else if ctrl && c == 'u' {
                    self.query = Vec::new();
                    self.cursor = 0;
                    self.reset_selection();
                    Step::Continue
                } else if ctrl && c == 'w' {
                    self.delete_word();
                    Step::Continue
                } else if ctrl && (c == 'l' || c == 'h') {
                    Step::Continue
                } else if ctrl && (c == 'k' || c == 'p') {
                    self.move_selection(-1);
                    Step::Continue
                } else if ctrl && (c == 'j' || c == 'n') {
                    self.move_selection(1);
                    Step::Continue
                } else {
                    self.query.insert(self.cursor, c);
                    assert(self.cursor < self.query.len());
                    self.cursor = self.cursor + 1;
                    self.reset_selection();
                    Step::Continue
                }
            },
            Input::Left => {
                if self.cursor > 0 {
                    self.cursor = self.cursor - 1;
                }
                Step::Continue
            },
            Input::Right => {
                let text = crate::text::string_of(&self.query);
                let command = is_timer_mode(text.as_str()) || is_math_mode(text.as_str())
                    || is_settings_mode(text.as_str());
                if (command || self.selected < self.match_count()) && self.cursor < self.query.len() {
                    self.cursor = self.cursor + 1;
                }
                Step::Continue
            },
            Input::Home => {
                self.cursor = 0;
                Step::Continue
            },
            Input::End => {
                self.cursor = self.query.len();
                Step::Continue
            },
            Input::Backspace => {
                if self.cursor > 0 {
                    self.query.remove(self.cursor - 1);
                    self.cursor = self.cursor - 1;
                    self.reset_selection();
                }
                Step::Continue
            },
            Input::Delete => {
                if self.cursor < self.query.len() {
                    self.query.remove(self.cursor);
                    self.reset_selection();
                }
                Step::Continue
            },
            Input::Up | Input::ScrollUp => {
                self.move_selection(-1);
                Step::Continue
            },
            Input::Down | Input::ScrollDown => {
                self.move_selection(1);
                Step::Continue
            },
            Input::PageUp => {
                self.move_selection(-5);
                Step::Continue
            },
            Input::PageDown => {
                self.move_selection(5);
                Step::Continue
            },
            Input::Enter => Step::Enter,
            Input::Tab | Input::BackTab | Input::Other => Step::Continue,
        }
    }
}

// ---------------------------------------------------------------------------
// Enter
// ---------------------------------------------------------------------------

/// What Enter asks of the outside world. Its result is reported back with
/// `resolve`.
pub enum Effect {
    Nothing,
    /// Start this application.
    Launch { app: App },
    /// Clear stored timers as the argument says (`all`, `done` or a number).
    ClearTimers { argument: String },
    /// Store a new timer.
    AddTimer { timer: Timer },
    /// Write the calculation history.
    SaveHistory,
    /// Add an entry to the stored calculation history.
    AppendHistory { entry: String },
    /// Write the settings.
    SaveSettings,
}

pub enum EffectView {
    Nothing,
    Launch(AppView),
    ClearTimers(Seq<char>),
    AddTimer(TimerView),
    SaveHistory,
    AppendHistory(Seq<char>),
    SaveSettings,
}

impl View for Effect {
    type V = EffectView;

    open spec fn view(&self) -> EffectView {
        match self {
            Effect::Nothing => EffectView::Nothing,
            Effect::Launch { app } => EffectView::Launch(app@),
            Effect::ClearTimers { argument } => EffectView::ClearTimers(argument@),
            Effect::AddTimer { timer } => EffectView::AddTimer(timer@),
            Effect::SaveHistory => EffectView::SaveHistory,
            Effect::AppendHistory { entry } => EffectView::AppendHistory(entry@),
            Effect::SaveSettings => EffectView::SaveSettings,
        }
    }
}

/// The launcher with the query set to a mode prompt and the cursor after it.
pub open spec fn prompted(v: LauncherView, prompt: Seq<char>) -> LauncherView {
    LauncherView { query: prompt, cursor: prompt.len(), ..v }
}

/// Enter in timer mode, with the command after `t:`.
pub open spec fn timer_entered(v: LauncherView, cmd: Seq<char>, now: u64) -> (LauncherView, EffectView) {
    if cmd.len() == 0 {
        (v, EffectView::Nothing)
    } else {
        match after_word(cmd, "clear"@) {
            Some(rest) => (
                LauncherView { selected: 0, ..prompted(v, "t: "@) },
                EffectView::ClearTimers(rest),
            ),
            None => match timer_request(cmd) {
                Some((secs, label)) => if now + secs <= u64::MAX {
                    (
                        v,
                        EffectView::AddTimer(
                            TimerView { label, end_unix: (now + secs) as u64, finished: false },
                        ),
                    )
                } else {
                    (
                        LauncherView { launch_error: Some("timer duration is too large"@), ..v },
                        EffectView::Nothing,
                    )
                },
                None => (v, EffectView::Nothing),
            },
        }
    }
}

/// ` = ` starts at `i` in `s`.
pub open spec fn sep_at(s: Seq<char>, i: int) -> bool {
    0 <= i && i + 3 <= s.len() && s.subrange(i, i + 3) == " = "@
}

/// The last place at or before `i` where ` = ` starts in `s`, or -1.
pub open spec fn last_sep(s: Seq<char>, i: int) -> int
    decreases i + 1,
{
    if i < 0 {
        -1
    } else if sep_at(s, i) {
        i
    } else {
        last_sep(s, i - 1)
    }
}

/// `str::rsplit_once(" = ")`, its first part.
pub open spec fn before_last_sep(s: Seq<char>) -> Option<Seq<char>> {
    let k = last_sep(s, s.len() - 3);
    if k >= 0 {
        Some(s.take(k))
    } else {
        None
    }
}

/// The history after a clear command: all of it for an empty argument or
/// `all`, else the entry numbered from the newest, when there is one.
pub open spec fn history_cleared(h: Seq<Seq<char>>, arg: Seq<char>) -> Seq<Seq<char>> {
    if arg.len() == 0 || eq_ignore_ascii_case(arg, "all"@) {
        Seq::empty()
    } else {
        match parse_unsigned(arg, usize::MAX as nat) {
            Some(n) => if 0 < n <= h.len() {
                h.remove(h.len() - n)
            } else {
                h
            },
            None => h,
        }
    }
}

/// The argument of a `clear` or `delete` calculation command.
pub open spec fn clear_argument(e: Seq<char>) -> Option<Seq<char>> {
    match after_word(e, "clear"@) {
        Some(rest) => Some(rest),
        None => after_word(e, "delete"@),
    }
}

/// Enter in math mode, with the text after `m:`.
pub open spec fn math_entered(v: LauncherView, e: Seq<char>) -> (LauncherView, EffectView) {
    match clear_argument(e) {
        Some(rest) => {
            let h = history_cleared(v.math_history, trim(rest));
            let hs = if v.history_selected >= h.len() {
                if h.len() == 0 {
                    0
                } else {
                    (h.len() - 1) as nat
                }
            } else {
                v.history_selected
            };
            (
                LauncherView { math_history: h, history_selected: hs, ..prompted(v, "m: "@) },
                EffectView::SaveHistory,
            )
        },
        None => if e.len() == 0 {
            let len = v.math_history.len();
            if len == 0 {
                (v, EffectView::Nothing)
            } else {
                let back = if v.history_selected < len { v.history_selected } else { (len - 1) as nat };
                match before_last_sep(v.math_history[len - 1 - back]) {
                    Some(expr) => (
                        LauncherView { history_selected: 0, ..prompted(v, "m: "@ + expr) },
                        EffectView::Nothing,
                    ),
                    None => (v, EffectView::Nothing),
                }
            }
        } else {
            match calculation(e) {
                Ok(value) => (
                    LauncherView { history_selected: 0, ..prompted(v, "m: "@) },
                    EffectView::AppendHistory(e + " = "@ + signed_decimal(value)),
                ),
                Err(_) => (v, EffectView::Nothing),
            }
        },
    }
}

pub open spec fn flag_named(s: Seq<char>) -> Option<bool> {
    if s == "true"@ {
        Some(true)
    } else if s == "false"@ {
        Some(false)
    } else {
        None
    }
}

/// The settings after a command of two words: `1`, `2` or `3` and a flag
/// for the background, the footer and the timers, or `4` and a display mode.
pub open spec fn setting_changed(settings: Settings, words: Seq<Seq<char>>) -> Option<Settings> {
    if words.len() != 2 {
        None
    } else {
        let index = words[0];
        let value = words[1];
        if index == "1"@ || index == "2"@ || index == "3"@ {
            match flag_named(value) {
                Some(f) => Some(
                    if index == "1"@ {
                        Settings { background: f, ..settings }
                    } else if index == "2"@ {
                        Settings { footer: f, ..settings }
                    } else {
                        Settings { timers: f, ..settings }
                    },
                ),
                None => None,
            }
        } else if index == "4"@ {
            match mode_named(value) {
                Some(m) => Some(Settings { display: m, ..settings }),
                None => None,
            }
        } else {
            None
        }
    }
}

/// Enter in settings mode, with the command after `s:`.
pub open spec fn settings_entered(v: LauncherView, cmd: Seq<char>) -> (LauncherView, EffectView) {
    match setting_changed(v.settings, split_words(cmd)) {
        Some(s) => (LauncherView { settings: s, ..prompted(v, "s: "@) }, EffectView::SaveSettings),
        None => (v, EffectView::Nothing),
    }
}

/// Enter on an application search: the selection is kept within the matches
/// and the selected application is launched.
pub open spec fn apps_entered(v: LauncherView, v2: LauncherView, effect: EffectView) -> bool {
    let n = match_count(v);
    let sel = if v.selected >= n {
        if n == 0 {
            0
        } else {
            (n - 1) as nat
        }
    } else {
        v.selected
    };
    &&& v2 == LauncherView { selected: sel, ..v }
    &&& if sel < n {
        exists|r: Seq<AppView>|
            #[trigger] is_match_list(v.apps, v.query, v.settings, v.recents, r) && effect
                == EffectView::Launch(r[sel as int])
    } else {
        effect == EffectView::Nothing
    }
}

/// What Enter does: the error is cleared, then the mode of the query
/// decides.
pub open spec fn entered(v: LauncherView, now: u64, v2: LauncherView, effect: EffectView) -> bool {
    let v0 = LauncherView { launch_error: None, ..v };
    match mode_command(v.query, 't') {
        Some(cmd) => (v2, effect) == timer_entered(v0, cmd, now),
        None => match mode_command(v.query, 'm') {
            Some(e) => (v2, effect) == math_entered(v0, e),
            None => match mode_command(v.query, 's') {
                Some(cmd) => (v2, effect) == settings_entered(v0, cmd),
                None => apps_entered(v0, v2, effect),
            },
        },
    }
}

/// The launcher after the outside world reports how an effect went:
/// `failure` holds the error's text. The result also says whether the
/// launcher is done (an application was started).
pub open spec fn resolved(v: LauncherView, effect: EffectView, failure: Option<Seq<char>>) -> (
    LauncherView,
    bool,
) {
    match effect {
        EffectView::Nothing => (v, false),
        EffectView::Launch(_) => match failure {
            None => (v, true),
            Some(e) => (LauncherView { launch_error: Some("launch failed: "@ + e), ..v }, false),
        },
        EffectView::ClearTimers(_) => match failure {
            None => (v, false),
            Some(e) => (LauncherView { launch_error: Some("timer failed: "@ + e), ..v }, false),
        },
        EffectView::AddTimer(_) => match failure {
            None => (LauncherView { selected: 0, ..prompted(v, "t: "@) }, false),
            Some(e) => (LauncherView { launch_error: Some("timer failed: "@ + e), ..v }, false),
        },
        EffectView::SaveHistory => match failure {
            None => (v, false),
            Some(e) => (LauncherView { launch_error: Some("history failed: "@ + e), ..v }, false),
        },
        EffectView::AppendHistory(entry) => match failure {
            None => (LauncherView { math_history: v.math_history.push(entry), ..v }, false),
            Some(e) => (LauncherView { launch_error: Some("history failed: "@ + e), ..v }, false),
        },
        EffectView::SaveSettings => match failure {
            None => (v, false),
            Some(e) => (LauncherView { launch_error: Some("settings failed: "@ + e), ..v }, false),
        },
    }
}

/// `str::rsplit_once(" = ")` of `s`: the text before the last separator.
#[verifier::rlimit(40)]
fn split_last_sep(s: &str) -> (r: Option<String>)
    ensures
        match before_last_sep(s@) {
            Some(e) => r matches Some(x) && x@ == e,
            None => r is None,
        },
{
    let v = chars_of(s);
    if v.len() < 3 {
        assert(last_sep(s@, s@.len() - 3) == -1);
        return None;
    }
    let mut i: usize = v.len() - 3;
    loop
        invariant
            v@ == s@,
            v.len() >= 3,
            i <= v.len() - 3,
            last_sep(s@, s@.len() - 3) == last_sep(s@, i as int),
        decreases i,
    {
        let found = crate::apps::range_eq(&v, i, i + 3, " = ");
        if found {
            return Some(string_of_range(&v, 0, i));
        }
        if i == 0 {
            assert(last_sep(s@, -1) == -1);
            return None;
        }
        i = i - 1;
    }
}

impl Launcher {
    /// Sets the query to a mode prompt, the cursor after it.
    fn prompt(&mut self, p: &str)
        ensures
            final(self).wf(),
            final(self)@ == prompted(old(self)@, p@),
    {
        self.query = chars_of(p);
        self.cursor = self.query.len();
    }

    fn enter_timer(&mut self, cmd: &str, now: u64) -> (r: Effect)
        requires
            old(self).wf(),
        ensures
            final(self).wf(),
            (final(self)@, r@) == timer_entered(old(self)@, cmd@, now),
    {
        if cmd.is_empty() {
            return Effect::Nothing;
        }
        match strip_prefix_word(cmd, "clear") {
            Some(rest) => {
                self.prompt("t: ");
                self.selected = 0;
                return Effect::ClearTimers { argument: rest };
            },
            None => {},
        }
        match crate::timers::parse_timer_input(cmd) {
            Some((secs, label)) => match now.checked_add(secs) {
                Some(end) => Effect::AddTimer { timer: Timer { label, end_unix: end, finished: false } },
                None => {
                    self.launch_error = Some(crate::pratt::owned("timer duration is too large"));
                    Effect::Nothing
                },
            },
            None => Effect::Nothing,
        }
    }

    #[verifier::rlimit(40)]
    fn enter_math(&mut self, e: &str) -> (r: Effect)
        requires
            old(self).wf(),
        ensures
            final(self).wf(),
            (final(self)@, r@) == math_entered(old(self)@, e@),
    {
        let cleared = match strip_prefix_word(e, "clear") {
            Some(rest) => Some(rest),
            None => strip_prefix_word(e, "delete"),
        };
        match cleared {
            Some(rest) => {
                let v = chars_of(rest.as_str());
                let (a, b) = trim_range(&v, 0, v.len());
                assert(v@.subrange(0, v.len() as int) == rest@);
                let ghost arg = trim(rest@);
                let ghost h0 = views(self.math_history@);
                if a == b || crate::text::chars_eq_ignore_ascii_case(&v, a, b, "all") {
                    self.math_history = Vec::new();
                    assert(views(self.math_history@) == Seq::<Seq<char>>::empty());
                } else {
                    let len = self.math_history.len();
                    match crate::text::parse_usize_range(&v, a, b) {
                        Some(n) => {
                            if n > 0 && n <= len {
                                self.math_history.remove(len - n);
                                assert(views(self.math_history@) == h0.remove(len - n));
                            }
                        },
                        None => {},
                    }
                }
                assert(views(self.math_history@) == history_cleared(h0, arg));
                let len = self.math_history.len();
                if self.history_selected >= len {
                    self.history_selected = if len == 0 {
                        0
                    } else {
                        len - 1
                    };
                }
                self.prompt("m: ");
                Effect::SaveHistory
            },
            None => {
                if e.is_empty() {
                    self.recall();
                    Effect::Nothing
                } else {
                    match crate::pratt::calculate(e) {
                        Ok(value) => {
                            proof {
                                crate::pratt::lemma_calculation_in_range(e@);
                            }
                            let mut entry = crate::pratt::owned(e);
                            crate::text::push_all(&mut entry, " = ");
                            let digits = crate::text::i64_to_string(value);
                            crate::text::push_all(&mut entry, digits.as_str());
                            self.prompt("m: ");
                            self.history_selected = 0;
                            Effect::AppendHistory { entry }
                        },
                        Err(_) => Effect::Nothing,
                    }
                }
            },
        }
    }

    /// Enter on an empty calculation: the selected entry's expression is
    /// put back into the query.
    #[verifier::rlimit(40)]
    fn recall(&mut self)
        requires
            old(self).wf(),
        ensures
            final(self).wf(),
            (final(self)@, EffectView::Nothing) == math_entered(old(self)@, Seq::empty()),
    {
        proof {
            assert(clear_argument(Seq::<char>::empty()) is None) by {
                reveal_strlit("clear");
                reveal_strlit("delete");
            }
        }
        let len = self.math_history.len();
        if len == 0 {
            return;
        }
        let back = if self.history_selected < len {
            self.history_selected
        } else {
            len - 1
        };
        let index = len - 1 - back;
        assert(views(self.math_history@)[index as int] == self.math_history@[index as int]@);
        match split_last_sep(self.math_history[index].as_str()) {
            Some(expr) => {
                let mut text = crate::pratt::owned("m: ");
                crate::text::push_all(&mut text, expr.as_str());
                self.prompt(text.as_str());
                self.history_selected = 0;
            },
            None => {},
        }
    }

    #[verifier::rlimit(40)]
    fn enter_settings(&mut self, cmd: &str) -> (r: Effect)
        requires
            old(self).wf(),
        ensures
            final(self).wf(),
            (final(self)@, r@) == settings_entered(old(self)@, cmd@),
    {
        let v = chars_of(cmd);
        let ranges = crate::text::word_ranges(&v);
        let ghost words = split_words(cmd@);
        if ranges.len() != 2 {
            return Effect::Nothing;
        }
        let (a0, b0) = ranges[0];
        let (a1, b1) = ranges[1];
        assert(v@.subrange(a0 as int, b0 as int) == words[0]);
        assert(v@.subrange(a1 as int, b1 as int) == words[1]);
        let one = crate::apps::range_eq(&v, a0, b0, "1");
        let two = crate::apps::range_eq(&v, a0, b0, "2");
        let three = crate::apps::range_eq(&v, a0, b0, "3");
        let four = crate::apps::range_eq(&v, a0, b0, "4");
        let changed = if one || two || three {
            let flag = if crate::apps::range_eq(&v, a1, b1, "true") {
                Some(true)
            } else if crate::apps::range_eq(&v, a1, b1, "false") {
                Some(false)
            } else {
                None
            };
            match flag {
                Some(f) => {
                    let mut next = self.settings;
                    if one {
                        next.background = f;
                    } else if two {
                        next.footer = f;
                    } else {
                        next.timers = f;
                    }
                    Some(next)
                },
                None => None,
            }
        } else if four {
            let value = string_of_range(&v, a1, b1);
            match DisplayMode::from_str(value.as_str()) {
                Some(m) => {
                    let mut next = self.settings;
                    next.display = m;
                    Some(next)
                },
                None => None,
            }
        } else {
            None
        };
        assert(changed == setting_changed(self.settings, words));
        match changed {
            Some(next) => {
                self.settings = next;
                self.prompt("s: ");
                Effect::SaveSettings
            },
            None => Effect::Nothing,
        }
    }

    #[verifier::rlimit(40)]
    fn enter_apps(&mut self) -> (r: Effect)
        requires
            old(self).wf(),
        ensures
            final(self).wf(),
            apps_entered(old(self)@, final(self)@, r@),
    {
        let matches = self.matching_apps();
        let n = matches.len();
        proof {
            lemma_match_list_len(
                app_views(self.apps@),
                self.query@,
                self.settings,
                views(self.recents@),
                app_views(matches@),
            );
        }
        if self.selected >= n {
            self.selected = if n == 0 {
                0
            } else {
                n - 1
            };
        }
        if self.selected < n {
            let app = clone_app(&matches[self.selected]);
            assert(app_views(matches@)[self.selected as int] == matches@[self.selected as int]@);
            Effect::Launch { app }
        } else {
            Effect::Nothing
        }
    }

    /// What Enter does (see `entered`); the effect is then carried out
    /// outside and reported with `resolve`. `now` is the current UNIX time in
    /// seconds, from which a new timer counts.
    #[verifier::rlimit(40)]
    pub fn enter(&mut self, now: u64) -> (r: Effect)
        requires
            old(self).wf(),
        ensures
            final(self).wf(),
            entered(old(self)@, now, final(self)@, r@),
    {
        self.launch_error = None;
        let text = string_of(&self.query);
        match timer_command(text.as_str()) {
            Some(cmd) => return self.enter_timer(cmd.as_str(), now),
            None => {},
        }
        match math_command(text.as_str()) {
            Some(e) => return self.enter_math(e.as_str()),
            None => {},
        }
        match settings_command(text.as_str()) {
            Some(cmd) => return self.enter_settings(cmd.as_str()),
            None => {},
        }
        self.enter_apps()
    }

    /// Takes in how an effect went, `failure` holding the error's text (see
    /// `resolved`). Returns whether the launcher is done.
    pub fn resolve(&mut self, effect: &Effect, failure: Option<String>) -> (done: bool)
        requires
            old(self).wf(),
        ensures
            final(self).wf(),
            (final(self)@, done) == resolved(old(self)@, effect@, error_view(failure)),
    {
        match effect {
            Effect::Nothing => false,
            Effect::Launch { .. } => match failure {
                None => true,
                Some(e) => {
                    self.fail("launch failed: ", e.as_str());
                    false
                },
            },
            Effect::ClearTimers { .. } => {
                match failure {
                    None => {},
                    Some(e) => self.fail("timer failed: ", e.as_str()),
                }
                false
            },
            Effect::AddTimer { .. } => {
                match failure {
                    None => {
                        self.prompt("t: ");
                        self.selected = 0;
                    },
                    Some(e) => self.fail("timer failed: ", e.as_str()),
                }
                false
            },
            Effect::SaveHistory => {
                match failure {
                    None => {},
                    Some(e) => self.fail("history failed: ", e.as_str()),
                }
                false
            },
            Effect::AppendHistory { entry } => {
                match failure {
                    None => {
                        self.math_history.push(entry.clone());
                        assert(views(self.math_history@) == views(old(self).math_history@).push(entry@));
                    },
                    Some(e) => self.fail("history failed: ", e.as_str()),
                }
                false
            },
            Effect::SaveSettings => {
                match failure {
                    None => {},
                    Some(e) => self.fail("settings failed: ", e.as_str()),
                }
                false
            },
        }
    }

    /// After a launch: the recent list becomes the stored list with the
    /// launched application's name recorded first.
    pub fn launched(&mut self, stored: &Vec<String>, name: &str)
        requires
            old(self).wf(),
        ensures
            final(self).wf(),
            final(self)@ == (LauncherView {
                recents: crate::recents::recorded(views(stored@), name@),
                ..old(self)@
            }),
    {
        self.recents = crate::recents::record(stored, name);
    }

    /// Shows an error: a prefix and the outside error's text.
    fn fail(&mut self, prefix: &str, e: &str)
        ensures
            final(self)@ == (LauncherView { launch_error: Some(prefix@ + e@), ..old(self)@ }),
            final(self).query@ == old(self).query@,
            final(self).cursor == old(self).cursor,
    {
        let mut text = crate::pratt::owned(prefix);
        crate::text::push_all(&mut text, e);
        self.launch_error = Some(text);
    }
}

// ---------------------------------------------------------------------------
// Laws
// ---------------------------------------------------------------------------

/// Law: typing a character and then Backspace gives back the query and
/// the cursor (the selection and error having been reset by the typing).
pub proof fn law_type_then_backspace(v: LauncherView, c: char)
    requires
        v.cursor <= v.query.len(),
    ensures
        after_input(after_input(v, Input::Char { c, ctrl: false }).0, Input::Backspace).0
            == edited(v, v.query, v.cursor),
{
    let typed = after_input(v, Input::Char { c, ctrl: false }).0;
    assert(typed.query.remove(v.cursor as int) == v.query);
}

/// Law: every input keeps the cursor within the query.
pub proof fn law_cursor_in_query(v: LauncherView, input: Input)
    requires
        v.cursor <= v.query.len(),
    ensures
        after_input(v, input).0.cursor <= after_input(v, input).0.query.len(),
{
    match input {
        Input::Char { c, ctrl } => {
            if ctrl && c == 'w' {
                lemma_word_start(v.query, v.cursor);
            }
        },
        _ => {},
    }
}

pub proof fn lemma_word_start(q: Seq<char>, k: nat)
    ensures
        word_start(q, k) <= k,
    decreases k,
{
    if k > 0 {
        lemma_word_start(q, (k - 1) as nat);
    }
}

/// Law: moving the selection from an entry of the list it moves in (the
/// matches, or the calculation history in math mode) leaves it on an entry
/// of that list, and changes nothing else.
pub proof fn law_selection_in_list(v: LauncherView, delta: int)
    ensures
        ({
            let w = selection_moved(v, delta);
            &&& w.query == v.query
            &&& w.cursor == v.cursor
            &&& w.math_history == v.math_history
            &&& w.apps == v.apps
            &&& w.settings == v.settings
            &&& w.recents == v.recents
            &&& !in_command_mode(v.query) && v.selected < match_count(v) ==> w.selected
                < match_count(v)
            &&& mode_command(v.query, 't') is None && mode_command(v.query, 's') is None
                && mode_command(v.query, 'm') is Some && v.history_selected
                < v.math_history.len() ==> w.history_selected < v.math_history.len()
        }),
{
}

/// Law: moving the selection down and back up by the same amount returns
/// to the same application, when the way down stays within the matches.
pub proof fn law_selection_down_up(v: LauncherView, d: nat)
    requires
        !in_command_mode(v.query),
        v.selected + d < match_count(v),
    ensures
        selection_moved(selection_moved(v, d as int), -(d as int)).selected == v.selected,
{
}

/// Law: Ctrl-U empties the query and puts the cursor at its start.
pub proof fn law_ctrl_u_clears(v: LauncherView)
    ensures
        after_input(v, Input::Char { c: 'u', ctrl: true }).0.query.len() == 0,
        after_input(v, Input::Char { c: 'u', ctrl: true }).0.cursor == 0,
{
}

/// Law: a launch that succeeds ends the launcher, one that fails shows its
/// error and keeps it running.
pub proof fn law_launch_outcome(v: LauncherView, app: AppView, failure: Option<Seq<char>>)
    ensures
        resolved(v, EffectView::Launch(app), failure).1 == (failure is None),
        failure matches Some(e) ==> resolved(v, EffectView::Launch(app), failure).0.launch_error
            == Some("launch failed: "@ + e),
{
}

/// Law: the list of matches is determined by the applications, the query,
/// the settings and the recent launches.
#[verifier::rlimit(40)]
pub proof fn law_match_list_unique(
    apps: Seq<AppView>,
    query: Seq<char>,
    settings: Settings,
    recents: Seq<Seq<char>>,
    r1: Seq<AppView>,
    r2: Seq<AppView>,
)
    requires
        is_match_list(apps, query, settings, recents, r1),
        is_match_list(apps, query, settings, recents, r2),
    ensures
        r1 == r2,
{
    let q = search_key(query);
    if !(q.len() == 0 && settings.display == DisplayMode::Empty) {
        let keys = candidate_keys(apps, q, settings.display, recents);
        let o1 = choose|order: Seq<usize>|
            #![trigger is_stable_order(keys, order)]
            is_stable_order(keys, order) && r1.len() == order.len() && forall|i: int|
                0 <= i < r1.len() ==> #[trigger] r1[i] == apps[candidates(apps, q)[order[i] as int]];
        let o2 = choose|order: Seq<usize>|
            #![trigger is_stable_order(keys, order)]
            is_stable_order(keys, order) && r2.len() == order.len() && forall|i: int|
                0 <= i < r2.len() ==> #[trigger] r2[i] == apps[candidates(apps, q)[order[i] as int]];
        crate::sort::law_stable_order_unique(keys, o1, o2);
        assert(r1 =~= r2);
    } else {
        assert(r1 =~= r2);
    }
}

/// Every candidate's name matches the query.
pub proof fn lemma_candidates_match(apps: Seq<AppView>, q: Seq<char>)
    ensures
        forall|t: int|
            0 <= t < candidates(apps, q).len() ==> score(
                lowercase(apps[#[trigger] candidates(apps, q)[t]].name),
                q,
            ) is Some,
    decreases apps.len(),
{
    if apps.len() > 0 {
        let pre = apps.drop_last();
        lemma_candidates_match(pre, q);
        lemma_candidates_bounds(pre, q);
        assert forall|t: int| 0 <= t < candidates(apps, q).len() implies score(
            lowercase(apps[#[trigger] candidates(apps, q)[t]].name),
            q,
        ) is Some by {
            if t < candidates(pre, q).len() {
                assert(candidates(apps, q)[t] == candidates(pre, q)[t]);
                assert(apps[candidates(pre, q)[t]] == pre[candidates(pre, q)[t]]);
            }
        }
    }
}

/// Law: for a query that is not blank, every listed application matches
/// it, and one whose name matches better (a lower score) is listed before
/// one that matches worse, whatever the recent launches and the display
/// setting.
pub proof fn law_better_matches_first(
    apps: Seq<AppView>,
    query: Seq<char>,
    settings: Settings,
    recents: Seq<Seq<char>>,
    r: Seq<AppView>,
)
    requires
        is_match_list(apps, query, settings, recents, r),
        search_key(query).len() > 0,
    ensures
        forall|i: int| 0 <= i < r.len() ==> score(lowercase(#[trigger] r[i].name), search_key(query)) is Some,
        forall|i: int, j: int|
            0 <= i < j < r.len() ==> score(lowercase(#[trigger] r[i].name), search_key(query))->0
                <= score(lowercase(#[trigger] r[j].name), search_key(query))->0,
{
    let q = search_key(query);
    let keys = candidate_keys(apps, q, settings.display, recents);
    let c = candidates(apps, q);
    let order = choose|order: Seq<usize>|
        #![trigger is_stable_order(keys, order)]
        is_stable_order(keys, order) && r.len() == order.len() && forall|i: int|
            0 <= i < r.len() ==> #[trigger] r[i] == apps[c[order[i] as int]];
    lemma_candidates_match(apps, q);
    assert(keys.len() == c.len());
    assert forall|i: int| 0 <= i < r.len() implies score(lowercase(#[trigger] r[i].name), q) is Some by {
        assert(r[i] == apps[c[order[i] as int]]);
        assert(order[i] < keys.len());
    }
    assert forall|i: int, j: int|
        0 <= i < j < r.len() implies score(lowercase(#[trigger] r[i].name), q)->0 <= score(
        lowercase(#[trigger] r[j].name),
        q,
    )->0 by {
        assert(r[i] == apps[c[order[i] as int]]);
        assert(r[j] == apps[c[order[j] as int]]);
        assert(keys[order[i] as int].key_le(&keys[order[j] as int]));
        assert(order[i] < keys.len() && order[j] < keys.len());
        assert(keys[order[i] as int].0 == score(lowercase(apps[c[order[i] as int]].name), q)->0);
        assert(keys[order[j] as int].0 == score(lowercase(apps[c[order[j] as int]].name), q)->0);
    }
}

pub proof fn lemma_candidates_bounds(apps: Seq<AppView>, q: Seq<char>)
    ensures
        candidates(apps, q).len() <= apps.len(),
        forall|t: int|
            0 <= t < candidates(apps, q).len() ==> 0 <= #[trigger] candidates(apps, q)[t]
                < apps.len(),
    decreases apps.len(),
{
    if apps.len() > 0 {
        lemma_candidates_bounds(apps.drop_last(), q);
    }
}

} // verus!
