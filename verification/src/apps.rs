//! Desktop entries: reading `.desktop` files into applications, the `Exec`
//! quoting rules, field codes, visibility, and what launching runs.
use vstd::prelude::*;
use crate::text::{lowercase, to_lowercase, chars_of, eq_ignore_ascii_case, chars_eq_ignore_ascii_case, find, find_in, is_whitespace, is_ws, lemma_find, lines, lines_of, push_all, split_once, string_of_range, trim, trim_range, views};
use crate::pratt::owned;

verus! {

#[derive(Debug, Clone)]
pub struct App {
    pub name: String,
    pub command: Vec<String>,
    pub icon: Option<String>,
    pub terminal: bool,
    pub path: Option<String>,
    pub dbus_activatable: bool,
    pub desktop_file: String,
}

/// An application as a value.
pub struct AppView {
    pub name: Seq<char>,
    pub command: Seq<Seq<char>>,
    pub icon: Option<Seq<char>>,
    pub terminal: bool,
    pub path: Option<Seq<char>>,
    pub dbus_activatable: bool,
    pub desktop_file: Seq<char>,
}

pub open spec fn opt_view(o: Option<String>) -> Option<Seq<char>> {
    match o {
        Some(s) => Some(s@),
        None => None,
    }
}

impl View for App {
    type V = AppView;

    open spec fn view(&self) -> AppView {
        AppView {
            name: self.name@,
            command: views(self.command@),
            icon: opt_view(self.icon),
            terminal: self.terminal,
            path: opt_view(self.path),
            dbus_activatable: self.dbus_activatable,
            desktop_file: self.desktop_file@,
        }
    }
}

// ---------------------------------------------------------------------------
// The `Exec` key: quoting and field codes
// ---------------------------------------------------------------------------

/// The state of the `Exec` tokenizer after some characters.
pub struct ExecScan {
    pub args: Seq<Seq<char>>,
    pub current: Seq<char>,
    pub quote: Option<char>,
    pub escaped: bool,
    pub started: bool,
}

pub open spec fn exec_scan_start() -> ExecScan {
    ExecScan { args: Seq::empty(), current: Seq::empty(), quote: None, escaped: false, started: false }
}

/// One character of an `Exec` value: a backslash takes the next character
/// literally, `"` and `'` open and close quoting (the other kind is literal
/// inside), unquoted whitespace ends an argument, anything else is kept.
pub open spec fn exec_step(st: ExecScan, ch: char) -> ExecScan {
    if st.escaped {
        ExecScan { current: st.current.push(ch), escaped: false, started: true, ..st }
    } else if ch == '\\' {
        ExecScan { escaped: true, started: true, ..st }
    } else if (ch == '"' || ch == '\'') && (st.quote is None || st.quote == Some(ch)) {
        ExecScan {
            quote: if st.quote is Some {
                None
            } else {
                Some(ch)
            },
            started: true,
            ..st
        }
    } else if is_ws(ch) && st.quote is None {
        if st.started {
            ExecScan { args: st.args.push(st.current), current: Seq::empty(), started: false, ..st }
        } else {
            st
        }
    } else {
        ExecScan { current: st.current.push(ch), started: true, ..st }
    }
}

/// The tokenizer state after all of `s`.
pub open spec fn exec_scan(s: Seq<char>) -> ExecScan
    decreases s.len(),
{
    if s.len() == 0 {
        exec_scan_start()
    } else {
        exec_step(exec_scan(s.drop_last()), s.last())
    }
}

/// Field codes other than `%%` that may stand alone as a whole argument.
pub open spec fn field_code_letter(c: char) -> bool {
    c == 'f' || c == 'F' || c == 'u' || c == 'U' || c == 'i' || c == 'c' || c == 'k'
}

/// Every `%` is part of a `%%`.
pub open spec fn only_escaped_percents(s: Seq<char>) -> bool
    decreases s.len(),
{
    if s.len() == 0 {
        true
    } else if s[0] != '%' {
        only_escaped_percents(s.drop_first())
    } else if s.len() >= 2 && s[1] == '%' {
        only_escaped_percents(s.skip(2))
    } else {
        false
    }
}

/// An argument's field codes are acceptable: it is a lone code such as `%U`,
/// or every `%` in it is doubled.
pub open spec fn valid_codes(arg: Seq<char>) -> bool {
    (arg.len() == 2 && arg[0] == '%' && field_code_letter(arg[1])) || only_escaped_percents(arg)
}

/// The arguments of an `Exec` value: `None` for an unfinished escape or
/// quote, for no argument at all, or for an argument with invalid field codes.
pub open spec fn exec_args(s: Seq<char>) -> Option<Seq<Seq<char>>> {
    let st = exec_scan(s);
    if st.escaped || st.quote is Some {
        None
    } else if scan_args(st).len() == 0 || !all_codes_valid(scan_args(st)) {
        None
    } else {
        Some(scan_args(st))
    }
}

/// The arguments collected, the one in progress included.
pub open spec fn scan_args(st: ExecScan) -> Seq<Seq<char>> {
    if st.started {
        st.args.push(st.current)
    } else {
        st.args
    }
}

pub open spec fn all_codes_valid(args: Seq<Seq<char>>) -> bool {
    forall|i: int| 0 <= i < args.len() ==> valid_codes(#[trigger] args[i])
}

pub fn is_field_code_letter(c: char) -> (b: bool)
    ensures
        b == field_code_letter(c),
{
    c == 'f' || c == 'F' || c == 'u' || c == 'U' || c == 'i' || c == 'c' || c == 'k'
}

proof fn lemma_only_escaped_step(s: Seq<char>, i: int)
    requires
        0 <= i <= s.len(),
    ensures
        i < s.len() && s[i] != '%' ==> only_escaped_percents(s.skip(i)) == only_escaped_percents(
            s.skip(i + 1),
        ),
        i + 1 < s.len() && s[i] == '%' && s[i + 1] == '%' ==> only_escaped_percents(s.skip(i))
            == only_escaped_percents(s.skip(i + 2)),
        i < s.len() && s[i] == '%' && !(i + 1 < s.len() && s[i + 1] == '%')
            ==> !only_escaped_percents(s.skip(i)),
{
    if i < s.len() {
        assert(s.skip(i)[0] == s[i]);
        assert(s.skip(i).drop_first() == s.skip(i + 1));
        if i + 1 < s.len() {
            assert(s.skip(i)[1] == s[i + 1]);
            assert(s.skip(i).skip(2) == s.skip(i + 2));
        }
    }
}

/// Checks the field codes of one argument.
pub fn valid_field_codes(arg: &str) -> (b: bool)
    ensures
        b == valid_codes(arg@),
{
    let v = chars_of(arg);
    let lone = v.len() == 2 && v[0] == '%' && is_field_code_letter(v[1]);
    let mut i: usize = 0;
    assert(v@.skip(0) == v@);
    while i < v.len()
        invariant
            i <= v.len(),
            v@ == arg@,
            valid_codes(arg@) == (lone || only_escaped_percents(v@.skip(i as int))),
            lone == (arg@.len() == 2 && arg@[0] == '%' && field_code_letter(arg@[1])),
        decreases v.len() - i,
    {
        proof {
            lemma_only_escaped_step(v@, i as int);
        }
        if v[i] != '%' {
            i += 1;
        } else if i + 1 < v.len() && v[i + 1] == '%' {
            i += 2;
        } else if lone {
            return true;
        } else {
            return false;
        }
    }
    assert(v@.skip(v.len() as int) == Seq::<char>::empty());
    true
}

/// Splits an `Exec` value into arguments, following the desktop entry
/// quoting rules; see `exec_args`.
#[verifier::rlimit(40)]
pub fn parse_exec(input: &str) -> (r: Option<Vec<String>>)
    ensures
        match exec_args(input@) {
            Some(args) => r matches Some(v) && views(v@) == args,
            None => r is None,
        },
{
    let v = chars_of(input);
    let mut args: Vec<String> = Vec::new();
    let mut current = String::new();
    let mut quote: Option<char> = None;
    let mut escaped = false;
    let mut token_started = false;
    let mut i: usize = 0;
    assert(v@.take(0) == Seq::<char>::empty());
    assert(views(args@) == Seq::<Seq<char>>::empty());
    while i < v.len()
        invariant
            i <= v.len(),
            v@ == input@,
            exec_scan(v@.take(i as int)).args == views(args@),
            exec_scan(v@.take(i as int)).current == current@,
            exec_scan(v@.take(i as int)).quote == quote,
            exec_scan(v@.take(i as int)).escaped == escaped,
            exec_scan(v@.take(i as int)).started == token_started,
        decreases v.len() - i,
    {
        let ch = v[i];
        proof {
            assert(v@.take(i + 1).drop_last() == v@.take(i as int));
            assert(v@.take(i + 1).last() == ch);
        }
        if escaped {
            current.push(ch);
            escaped = false;
            token_started = true;
        } else if ch == '\\' {
            escaped = true;
            token_started = true;
        } else if (ch == '"' || ch == '\'') && (match quote {
            None => true,
            Some(q) => q == ch,
        }) {
            if quote.is_some() {
                quote = None;
            } else {
                quote = Some(ch);
            }
            token_started = true;
        } else if is_whitespace(ch) && quote.is_none() {
            if token_started {
                let done = current;
                current = String::new();
                args.push(done);
                proof {
                    assert(views(args@) == views(args@.drop_last()).push(done@));
                }
                token_started = false;
            }
        } else {
            current.push(ch);
            token_started = true;
        }
        i += 1;
    }
    assert(v@.take(v.len() as int) == v@);
    if escaped || quote.is_some() {
        return None;
    }
    if token_started {
        let last = current;
        args.push(last);
        proof {
            assert(views(args@) == views(args@.drop_last()).push(last@));
        }
    }
    if args.len() == 0 {
        return None;
    }
    let ghost st = exec_scan(input@);
    let ghost spec_args = scan_args(st);
    assert(views(args@) == spec_args);
    let mut j: usize = 0;
    while j < args.len()
        invariant
            j <= args.len(),
            st == exec_scan(input@),
            !st.escaped && st.quote is None,
            spec_args == scan_args(st),
            views(args@) == spec_args,
            spec_args.len() > 0,
            forall|t: int| 0 <= t < j ==> valid_codes(#[trigger] views(args@)[t]),
        decreases args.len() - j,
    {
        if !valid_field_codes(args[j].as_str()) {
            assert(!valid_codes(views(args@)[j as int]));
            assert(!valid_codes(spec_args[j as int]));
            assert(exec_args(input@) is None);
            return None;
        }
        j += 1;
    }
    Some(args)
}


// ---------------------------------------------------------------------------
// Strings and lists of strings
// ---------------------------------------------------------------------------

/// A copy of a vector of strings.
pub fn clone_strings(v: &Vec<String>) -> (r: Vec<String>)
    ensures
        views(r@) == views(v@),
{
    let mut r: Vec<String> = Vec::new();
    let mut i: usize = 0;
    while i < v.len()
        invariant
            i <= v.len(),
            views(r@) == views(v@).take(i as int),
        decreases v.len() - i,
    {
        let c = v[i].clone();
        r.push(c);
        proof {
            assert(views(r@) == views(r@.drop_last()).push(c@));
            assert(views(v@).take(i + 1) == views(v@).take(i as int).push(v@[i as int]@));
        }
        i += 1;
    }
    assert(views(v@).take(v.len() as int) == views(v@));
    r
}

pub fn clone_opt(o: &Option<String>) -> (r: Option<String>)
    ensures
        opt_view(r) == opt_view(*o),
{
    match o {
        Some(s) => Some(s.clone()),
        None => None,
    }
}

/// Two character ranges hold the same text.
pub fn range_eq(v: &Vec<char>, lo: usize, hi: usize, lit: &str) -> (r: bool)
    requires
        lo <= hi <= v.len(),
    ensures
        r == (v@.subrange(lo as int, hi as int) == lit@),
{
    let w = chars_of(lit);
    if hi - lo != w.len() {
        return false;
    }
    let mut i: usize = 0;
    while i < w.len()
        invariant
            lo <= hi <= v.len(),
            hi - lo == w.len(),
            w@ == lit@,
            i <= w.len(),
            forall|j: int| 0 <= j < i ==> v@[lo + j] == #[trigger] w@[j],
        decreases w.len() - i,
    {
        if v[lo + i] != w[i] {
            assert(v@.subrange(lo as int, hi as int)[i as int] != lit@[i as int]);
            return false;
        }
        i += 1;
    }
    assert(v@.subrange(lo as int, hi as int) =~= lit@);
    true
}

/// Two strings hold the same text.
pub fn str_eq(a: &str, b: &str) -> (r: bool)
    ensures
        r == (a@ == b@),
{
    let v = chars_of(a);
    assert(v@.subrange(0, v@.len() as int) == v@);
    range_eq(&v, 0, v.len(), b)
}

/// `str::split(c)` with the empty pieces dropped.
pub open spec fn split_nonempty(s: Seq<char>, c: char) -> Seq<Seq<char>>
    decreases s.len(),
{
    let k = find(s, c);
    let head = s.take(k as int);
    let first = if head.len() > 0 {
        seq![head]
    } else {
        Seq::empty()
    };
    if k < s.len() {
        first + split_nonempty(s.skip(k as int + 1), c)
    } else {
        first
    }
}

/// The non-empty pieces of `s` split at `c`.
#[verifier::rlimit(40)]
pub fn split_nonempty_of(s: &str, c: char) -> (r: Vec<String>)
    ensures
        views(r@) == split_nonempty(s@, c),
{
    let v = chars_of(s);
    let mut out: Vec<String> = Vec::new();
    let mut i: usize = 0;
    assert(v@.skip(0) == v@);
    assert(views(out@) == Seq::<Seq<char>>::empty());
    loop
        invariant_except_break
            i <= v.len(),
            v@ == s@,
            views(out@) + split_nonempty(v@.skip(i as int), c) == split_nonempty(s@, c),
        ensures
            views(out@) == split_nonempty(s@, c),
        decreases v.len() - i,
    {
        let ghost rest = v@.skip(i as int);
        let k = find_in(&v, i, v.len(), c);
        assert(v@.subrange(i as int, v.len() as int) == rest);
        assert(rest.take(k - i) == v@.subrange(i as int, k as int));
        let ghost first = if k > i {
            seq![v@.subrange(i as int, k as int)]
        } else {
            Seq::<Seq<char>>::empty()
        };
        if k > i {
            let piece = string_of_range(&v, i, k);
            out.push(piece);
            proof {
                assert(views(out@) == views(out@.drop_last()).push(piece@));
                assert(views(out@.drop_last()).push(piece@) == views(out@.drop_last()) + first);
            }
        } else {
            assert(views(out@) + first == views(out@));
        }
        if k == v.len() {
            proof {
                assert(split_nonempty(rest, c) == first);
            }
            break;
        }
        proof {
            assert(split_nonempty(rest, c) == first + split_nonempty(v@.skip(k + 1), c)) by {
                assert(rest.skip(k - i + 1) == v@.skip(k + 1));
            }
        }
        i = k + 1;
    }
    out
}

// ---------------------------------------------------------------------------
// Desktop entry files
// ---------------------------------------------------------------------------

/// Keys and values of a desktop entry, in file order.
pub type Fields = Vec<(String, String)>;

pub open spec fn field_views(v: Seq<(String, String)>) -> Seq<(Seq<char>, Seq<char>)> {
    v.map_values(|p: (String, String)| (p.0@, p.1@))
}

/// The value of `key`; when a key is set more than once, the last one counts.
pub open spec fn field_value(es: Seq<(Seq<char>, Seq<char>)>, key: Seq<char>) -> Option<Seq<char>>
    decreases es.len(),
{
    if es.len() == 0 {
        None
    } else if es.last().0 == key {
        Some(es.last().1)
    } else {
        field_value(es.drop_last(), key)
    }
}

/// The index of the entry that gives `key` its value.
pub fn field_index(fields: &Fields, key: &str) -> (r: Option<usize>)
    ensures
        match field_value(field_views(fields@), key@) {
            Some(v) => r matches Some(i) && i < fields.len() && fields@[i as int].1@ == v,
            None => r is None,
        },
{
    let ghost fv = field_views(fields@);
    let mut i = fields.len();
    assert(fv.take(i as int) == fv);
    while i > 0
        invariant
            i <= fields.len(),
            fv == field_views(fields@),
            field_value(fv, key@) == field_value(fv.take(i as int), key@),
        decreases i,
    {
        proof {
            assert(fv.take(i as int).last() == (fields@[i - 1].0@, fields@[i - 1].1@));
            assert(fv.take(i as int).drop_last() == fv.take(i - 1));
        }
        if str_eq(fields[i - 1].0.as_str(), key) {
            return Some(i - 1);
        }
        i -= 1;
    }
    None
}

/// The value of `key`, copied.
pub fn field(fields: &Fields, key: &str) -> (r: Option<String>)
    ensures
        opt_view(r) == field_value(field_views(fields@), key@),
{
    match field_index(fields, key) {
        Some(i) => Some(fields[i].1.clone()),
        None => None,
    }
}

/// The keys and values of the `[Desktop Entry]` group, from the lines `ls`
/// on: trimmed lines, a `[...]` line starting a group, blank lines, comments
/// and localized keys (`Name[de]`) skipped, key and value trimmed.
pub open spec fn entry_fields(ls: Seq<Seq<char>>, in_entry: bool) -> Seq<(Seq<char>, Seq<char>)>
    decreases ls.len(),
{
    if ls.len() == 0 {
        Seq::empty()
    } else {
        let (next, found) = line_step(ls[0], in_entry);
        let rest = entry_fields(ls.drop_first(), next);
        match found {
            Some(kv) => seq![kv] + rest,
            None => rest,
        }
    }
}

/// One line of a desktop file: whether the desktop entry group goes on after
/// it, and the key and value it sets there.
pub open spec fn line_step(raw: Seq<char>, in_entry: bool) -> (bool, Option<(Seq<char>, Seq<char>)>) {
    let line = trim(raw);
    if line.len() > 0 && line[0] == '[' {
        (line == "[Desktop Entry]"@, None)
    } else if !in_entry || line.len() == 0 || line[0] == '#' {
        (in_entry, None)
    } else {
        match split_once(line, '=') {
            Some((k, v)) => if k.contains('[') {
                (in_entry, None)
            } else {
                (in_entry, Some((trim(k), trim(v))))
            },
            None => (in_entry, None),
        }
    }
}

#[verifier::rlimit(40)]
fn desktop_line(raw: &str, in_entry: bool) -> (r: (bool, Option<(String, String)>))
    ensures
        r.0 == line_step(raw@, in_entry).0,
        match line_step(raw@, in_entry).1 {
            Some((k, v)) => r.1 matches Some((a, b)) && a@ == k && b@ == v,
            None => r.1 is None,
        },
{
    let v = chars_of(raw);
    let (a, b) = trim_range(&v, 0, v.len());
    proof {
        assert(v@.subrange(0, v@.len() as int) == v@);
    }
    let ghost line = v@.subrange(a as int, b as int);
    if a < b && v[a] == '[' {
        assert(line[0] == v@[a as int]);
        return (range_eq(&v, a, b, "[Desktop Entry]"), None);
    }
    if !in_entry || a == b || v[a] == '#' {
        proof {
            if a < b {
                assert(line[0] == v@[a as int]);
            }
        }
        return (in_entry, None);
    }
    assert(line[0] == v@[a as int]);
    let eq = find_in(&v, a, b, '=');
    if eq == b {
        return (in_entry, None);
    }
    proof {
        assert(line.take(eq - a) == v@.subrange(a as int, eq as int));
        assert(line.skip(eq - a + 1) == v@.subrange(eq + 1, b as int));
    }
    let bracket = find_in(&v, a, eq, '[');
    proof {
        let k = v@.subrange(a as int, eq as int);
        crate::text::lemma_find(k, '[');
        if bracket < eq {
            assert(k[bracket - a] == '[');
        } else {
            assert forall|t: int| 0 <= t < k.len() implies k[t] != '[' by {}
        }
    }
    if bracket < eq {
        return (in_entry, None);
    }
    let (ka, kb) = trim_range(&v, a, eq);
    let (va, vb) = trim_range(&v, eq + 1, b);
    (in_entry, Some((string_of_range(&v, ka, kb), string_of_range(&v, va, vb))))
}

pub open spec fn desktop_fields(content: Seq<char>) -> Seq<(Seq<char>, Seq<char>)> {
    entry_fields(lines(content), false)
}

/// Reads the `[Desktop Entry]` keys of a desktop file's contents.
#[verifier::rlimit(40)]
pub fn parse_desktop_fields(content: &str) -> (r: Fields)
    ensures
        field_views(r@) == desktop_fields(content@),
{
    let ls = lines_of(content);
    let ghost all = views(ls@);
    let mut out: Fields = Vec::new();
    let mut in_entry = false;
    let mut i: usize = 0;
    assert(all.skip(0) == all);
    assert(field_views(out@) == Seq::<(Seq<char>, Seq<char>)>::empty());
    while i < ls.len()
        invariant
            i <= ls.len(),
            all == views(ls@),
            all == lines(content@),
            field_views(out@) + entry_fields(all.skip(i as int), in_entry) == desktop_fields(
                content@,
            ),
        decreases ls.len() - i,
    {
        let ghost rest = all.skip(i as int);
        assert(rest[0] == ls@[i as int]@);
        assert(rest.drop_first() == all.skip(i + 1));
        let (next, found) = desktop_line(ls[i].as_str(), in_entry);
        match found {
            Some(kv) => {
                let ghost kvv = (kv.0@, kv.1@);
                out.push(kv);
                proof {
                    assert(field_views(out@) == field_views(out@.drop_last()).push(kvv));
                    assert(field_views(out@) + entry_fields(all.skip(i + 1), next) == field_views(
                        out@.drop_last(),
                    ) + (seq![kvv] + entry_fields(all.skip(i + 1), next)));
                }
            },
            None => {},
        }
        in_entry = next;
        i += 1;
    }
    proof {
        assert(all.skip(ls.len() as int) == Seq::<Seq<char>>::empty());
        assert(field_views(out@) + Seq::<(Seq<char>, Seq<char>)>::empty() == field_views(out@));
    }
    out
}


/// A boolean key: set to `true` in any ASCII case.
pub open spec fn field_true(fields: Seq<(Seq<char>, Seq<char>)>, key: Seq<char>) -> bool {
    field_value(fields, key) matches Some(v) && eq_ignore_ascii_case(v, "true"@)
}

pub fn parse_bool(fields: &Fields, key: &str) -> (b: bool)
    ensures
        b == field_true(field_views(fields@), key@),
{
    match field_index(fields, key) {
        Some(i) => {
            let v = chars_of(fields[i].1.as_str());
            assert(v@.subrange(0, v@.len() as int) == v@);
            chars_eq_ignore_ascii_case(&v, 0, v.len(), "true")
        },
        None => false,
    }
}

/// Some desktop in `desktops` is named, in any ASCII case, in `names`.
pub open spec fn names_desktop(desktops: Seq<Seq<char>>, names: Seq<Seq<char>>) -> bool {
    exists|i: int, j: int|
        0 <= i < desktops.len() && 0 <= j < names.len() && eq_ignore_ascii_case(
            #[trigger] names[j],
            #[trigger] desktops[i],
        )
}

/// `OnlyShowIn` (when it names any desktop) must name a current desktop, and
/// `NotShowIn` must name none.
pub open spec fn visible_on(fields: Seq<(Seq<char>, Seq<char>)>, desktops: Seq<Seq<char>>) -> bool {
    &&& match field_value(fields, "OnlyShowIn"@) {
        Some(v) => split_nonempty(v, ';').len() == 0 || names_desktop(
            desktops,
            split_nonempty(v, ';'),
        ),
        None => true,
    }
    &&& match field_value(fields, "NotShowIn"@) {
        Some(v) => !names_desktop(desktops, split_nonempty(v, ';')),
        None => true,
    }
}

fn names_any_desktop(desktops: &Vec<String>, names: &Vec<String>) -> (r: bool)
    ensures
        r == names_desktop(views(desktops@), views(names@)),
{
    let mut i: usize = 0;
    while i < desktops.len()
        invariant
            i <= desktops.len(),
            forall|a: int, b: int|
                0 <= a < i && 0 <= b < names.len() ==> !eq_ignore_ascii_case(
                    #[trigger] views(names@)[b],
                    #[trigger] views(desktops@)[a],
                ),
        decreases desktops.len() - i,
    {
        let mut j: usize = 0;
        while j < names.len()
            invariant
                i < desktops.len(),
                j <= names.len(),
                forall|b: int|
                    0 <= b < j ==> !eq_ignore_ascii_case(
                        #[trigger] views(names@)[b],
                        views(desktops@)[i as int],
                    ),
            decreases names.len() - j,
        {
            let v = chars_of(names[j].as_str());
            assert(v@.subrange(0, v@.len() as int) == v@);
            if chars_eq_ignore_ascii_case(&v, 0, v.len(), desktops[i].as_str()) {
                assert(eq_ignore_ascii_case(views(names@)[j as int], views(desktops@)[i as int]));
                return true;
            }
            j += 1;
        }
        i += 1;
    }
    false
}

/// Whether the entry is shown on the current desktops.
pub fn desktop_is_visible(fields: &Fields, desktops: &Vec<String>) -> (b: bool)
    ensures
        b == visible_on(field_views(fields@), views(desktops@)),
{
    match field(fields, "OnlyShowIn") {
        Some(only) => {
            let allowed = split_nonempty_of(only.as_str(), ';');
            if allowed.len() > 0 && !names_any_desktop(desktops, &allowed) {
                return false;
            }
        },
        None => {},
    }
    match field(fields, "NotShowIn") {
        Some(not) => {
            let blocked = split_nonempty_of(not.as_str(), ';');
            if names_any_desktop(desktops, &blocked) {
                return false;
            }
        },
        None => {},
    }
    true
}

/// The command a `TryExec` value names: its first argument.
pub open spec fn try_exec_target(value: Seq<char>) -> Option<Seq<char>> {
    match exec_args(value) {
        Some(args) => Some(args[0]),
        None => None,
    }
}

/// The program a `TryExec` value asks to be present; `None` when the value
/// does not parse, and then the entry is not shown.
pub fn try_exec_command(value: &str) -> (r: Option<String>)
    ensures
        opt_view(r) == try_exec_target(value@),
{
    match parse_exec(value) {
        Some(args) => {
            assert(args@[0]@ == views(args@)[0]);
            Some(args[0].clone())
        },
        None => None,
    }
}

/// The application a desktop entry describes, or `None` when it is not an
/// application, is hidden, is not for these desktops, its `TryExec` program is
/// missing (`try_exec_found` tells, and counts only when `TryExec` is set),
/// it has no name, or it has neither a usable `Exec` nor D-Bus activation.
pub open spec fn entry_app(
    fields: Seq<(Seq<char>, Seq<char>)>,
    desktops: Seq<Seq<char>>,
    try_exec_found: bool,
    desktop_file: Seq<char>,
) -> Option<AppView> {
    let entry_type = match field_value(fields, "Type"@) {
        Some(t) => t,
        None => "Application"@,
    };
    let command = match field_value(fields, "Exec"@) {
        Some(raw) => match exec_args(raw) {
            Some(args) => args,
            None => Seq::empty(),
        },
        None => Seq::empty(),
    };
    let dbus = field_true(fields, "DBusActivatable"@);
    if entry_type != "Application"@ || field_true(fields, "NoDisplay"@) || field_true(
        fields,
        "Hidden"@,
    ) || !visible_on(fields, desktops) {
        None
    } else if field_value(fields, "TryExec"@) is Some && !try_exec_found {
        None
    } else if field_value(fields, "Name"@) is None {
        None
    } else if !dbus && command.len() == 0 {
        None
    } else {
        Some(
            AppView {
                name: field_value(fields, "Name"@).unwrap(),
                command,
                icon: field_value(fields, "Icon"@),
                terminal: field_true(fields, "Terminal"@),
                path: match field_value(fields, "Path"@) {
                    Some(p) => if p.len() > 0 {
                        Some(p)
                    } else {
                        None
                    },
                    None => None,
                },
                dbus_activatable: dbus,
                desktop_file,
            },
        )
    }
}

/// Builds the application of a desktop entry; see `entry_app`.
#[verifier::rlimit(40)]
pub fn app_from_fields(
    fields: &Fields,
    desktops: &Vec<String>,
    try_exec_found: bool,
    desktop_file: &str,
) -> (r: Option<App>)
    ensures
        match entry_app(field_views(fields@), views(desktops@), try_exec_found, desktop_file@) {
            Some(a) => r matches Some(app) && app@ == a,
            None => r is None,
        },
        field_true(field_views(fields@), "NoDisplay"@) || field_true(field_views(fields@), "Hidden"@)
            ==> r is None,
{
    let is_app = match field(fields, "Type") {
        Some(t) => str_eq(t.as_str(), "Application"),
        None => true,
    };
    if !is_app || parse_bool(fields, "NoDisplay") || parse_bool(fields, "Hidden")
        || !desktop_is_visible(fields, desktops) {
        return None;
    }
    if field_index(fields, "TryExec").is_some() && !try_exec_found {
        return None;
    }
    let name = match field(fields, "Name") {
        Some(n) => n,
        None => return None,
    };
    let dbus_activatable = parse_bool(fields, "DBusActivatable");
    let command = match field(fields, "Exec") {
        Some(raw) => match parse_exec(raw.as_str()) {
            Some(args) => args,
            None => {
                let e: Vec<String> = Vec::new();
                assert(views(e@) == Seq::<Seq<char>>::empty());
                e
            },
        },
        None => {
            let e: Vec<String> = Vec::new();
            assert(views(e@) == Seq::<Seq<char>>::empty());
            e
        },
    };
    if !dbus_activatable && command.len() == 0 {
        return None;
    }
    let path = match field(fields, "Path") {
        Some(p) => if p.as_str().is_empty() {
            None
        } else {
            Some(p)
        },
        None => None,
    };
    Some(
        App {
            name,
            command,
            icon: field(fields, "Icon"),
            terminal: parse_bool(fields, "Terminal"),
            path,
            dbus_activatable,
            desktop_file: owned(desktop_file),
        },
    )
}


// ---------------------------------------------------------------------------
// Launching
// ---------------------------------------------------------------------------

/// `str::replace("%%", "%")`.
pub open spec fn unescape_percent(s: Seq<char>) -> Seq<char>
    decreases s.len(),
{
    if s.len() == 0 {
        s
    } else if s.len() >= 2 && s[0] == '%' && s[1] == '%' {
        seq!['%'] + unescape_percent(s.skip(2))
    } else {
        seq![s[0]] + unescape_percent(s.drop_first())
    }
}

#[verifier::rlimit(40)]
fn unescape_percent_str(s: &str) -> (r: String)
    ensures
        r@ == unescape_percent(s@),
{
    let v = chars_of(s);
    let mut out = String::new();
    let mut i: usize = 0;
    assert(v@.skip(0) == v@);
    while i < v.len()
        invariant
            i <= v.len(),
            v@ == s@,
            out@ + unescape_percent(v@.skip(i as int)) == unescape_percent(s@),
        decreases v.len() - i,
    {
        let ghost rest = v@.skip(i as int);
        assert(rest[0] == v@[i as int]);
        if i + 1 < v.len() && v[i] == '%' && v[i + 1] == '%' {
            assert(rest[1] == v@[i + 1]);
            assert(rest.skip(2) == v@.skip(i + 2));
            out.push('%');
            proof {
                assert(out@ + unescape_percent(v@.skip(i + 2)) == out@.drop_last() + (seq!['%']
                    + unescape_percent(v@.skip(i + 2))));
            }
            i += 2;
        } else {
            let c = v[i];
            assert(rest.drop_first() == v@.skip(i + 1));
            out.push(c);
            proof {
                assert(out@ + unescape_percent(v@.skip(i + 1)) == out@.drop_last() + (seq![c]
                    + unescape_percent(v@.skip(i + 1))));
            }
            i += 1;
        }
    }
    assert(v@.skip(v.len() as int) == Seq::<char>::empty());
    assert(out@ + Seq::<char>::empty() == out@);
    out
}

/// The arguments one `Exec` argument stands for when launching: file and URL
/// codes vanish, `%i` becomes `--icon <icon>` (or nothing), `%c` the name,
/// `%k` the desktop file, and anything else has `%%` turned into `%`.
pub open spec fn expand_arg(a: AppView, arg: Seq<char>) -> Seq<Seq<char>> {
    if arg == "%f"@ || arg == "%F"@ || arg == "%u"@ || arg == "%U"@ {
        Seq::empty()
    } else if arg == "%i"@ {
        match a.icon {
            Some(icon) => seq!["--icon"@, icon],
            None => Seq::empty(),
        }
    } else if arg == "%c"@ {
        seq![a.name]
    } else if arg == "%k"@ {
        seq![a.desktop_file]
    } else {
        seq![unescape_percent(arg)]
    }
}

pub open spec fn expand_args(a: AppView, args: Seq<Seq<char>>) -> Seq<Seq<char>>
    decreases args.len(),
{
    if args.len() == 0 {
        Seq::empty()
    } else {
        expand_args(a, args.drop_last()) + expand_arg(a, args.last())
    }
}

/// The command line an application runs, its field codes expanded.
#[verifier::rlimit(40)]
pub fn expand_exec(app: &App) -> (r: Vec<String>)
    ensures
        views(r@) == expand_args(app@, app@.command),
{
    let mut expanded: Vec<String> = Vec::new();
    let mut i: usize = 0;
    assert(app@.command.take(0) == Seq::<Seq<char>>::empty());
    assert(views(expanded@) == Seq::<Seq<char>>::empty());
    while i < app.command.len()
        invariant
            i <= app.command.len(),
            views(expanded@) == expand_args(app@, app@.command.take(i as int)),
        decreases app.command.len() - i,
    {
        let arg = app.command[i].as_str();
        let ghost before = views(expanded@);
        proof {
            assert(app@.command.take(i + 1).drop_last() == app@.command.take(i as int));
            assert(app@.command.take(i + 1).last() == arg@);
        }
        if str_eq(arg, "%f") || str_eq(arg, "%F") || str_eq(arg, "%u") || str_eq(arg, "%U") {
            assert(before + Seq::<Seq<char>>::empty() == before);
        } else if str_eq(arg, "%i") {
            match &app.icon {
                Some(icon) => {
                    let flag = owned("--icon");
                    expanded.push(flag);
                    let c = icon.clone();
                    expanded.push(c);
                    proof {
                        assert(views(expanded@) == before.push(flag@).push(c@));
                        assert(before.push(flag@).push(c@) == before + seq!["--icon"@, icon@]);
                    }
                },
                None => {
                    assert(before + Seq::<Seq<char>>::empty() == before);
                },
            }
        } else if str_eq(arg, "%c") {
            let c = app.name.clone();
            expanded.push(c);
            assert(views(expanded@) == before + seq![c@]);
        } else if str_eq(arg, "%k") {
            let c = app.desktop_file.clone();
            expanded.push(c);
            assert(views(expanded@) == before + seq![c@]);
        } else {
            let c = unescape_percent_str(arg);
            expanded.push(c);
            assert(views(expanded@) == before + seq![c@]);
        }
        i += 1;
    }
    assert(app@.command.take(app.command.len() as int) == app@.command);
    expanded
}

/// How an application is started.
pub enum LaunchPlan {
    /// `gio launch <desktop file>`, for D-Bus activatable entries.
    Gio { desktop_file: String, dir: Option<String> },
    /// The program with its arguments.
    Program { program: String, args: Vec<String>, dir: Option<String> },
    /// The whole command inside a terminal emulator.
    Terminal { command: Vec<String>, dir: Option<String> },
}

/// Why an application cannot be started.
pub enum LaunchError {
    /// The entry has no executable command once its field codes are expanded.
    NoCommand,
}

/// How to start an application: D-Bus activatable entries through `gio`,
/// else the expanded command, in a terminal when the entry asks for one.
pub fn launch_plan(app: &App) -> (r: Result<LaunchPlan, LaunchError>)
    ensures
        app.dbus_activatable ==> (r matches Ok(LaunchPlan::Gio { desktop_file, dir })
            && desktop_file@ == app.desktop_file@ && opt_view(dir) == opt_view(app.path)),
        !app.dbus_activatable && expand_args(app@, app@.command).len() == 0 ==> r matches Err(
            LaunchError::NoCommand,
        ),
        !app.dbus_activatable && expand_args(app@, app@.command).len() > 0 && app.terminal ==> (
        r matches Ok(LaunchPlan::Terminal { command, dir }) && views(command@) == expand_args(
            app@,
            app@.command,
        ) && opt_view(dir) == opt_view(app.path)),
        !app.dbus_activatable && expand_args(app@, app@.command).len() > 0 && !app.terminal ==> (
        r matches Ok(LaunchPlan::Program { program, args, dir }) && program@ == expand_args(
            app@,
            app@.command,
        )[0] && views(args@) == expand_args(app@, app@.command).drop_first() && opt_view(dir)
            == opt_view(app.path)),
{
    if app.dbus_activatable {
        return Ok(LaunchPlan::Gio { desktop_file: app.desktop_file.clone(), dir: clone_opt(&app.path) });
    }
    let exec = expand_exec(app);
    if exec.len() == 0 {
        return Err(LaunchError::NoCommand);
    }
    if app.terminal {
        return Ok(LaunchPlan::Terminal { command: exec, dir: clone_opt(&app.path) });
    }
    let program = exec[0].clone();
    assert(program@ == views(exec@)[0]);
    let mut args: Vec<String> = Vec::new();
    let mut i: usize = 1;
    assert(views(args@) == views(exec@).subrange(1, 1));
    while i < exec.len()
        invariant
            1 <= i <= exec.len(),
            views(args@) == views(exec@).subrange(1, i as int),
        decreases exec.len() - i,
    {
        let c = exec[i].clone();
        args.push(c);
        proof {
            assert(views(args@) == views(args@.drop_last()).push(c@));
            assert(views(exec@).subrange(1, i + 1) == views(exec@).subrange(1, i as int).push(
                views(exec@)[i as int],
            ));
        }
        i += 1;
    }
    assert(views(exec@).subrange(1, exec.len() as int) == views(exec@).drop_first());
    Ok(LaunchPlan::Program { program, args, dir: clone_opt(&app.path) })
}

/// The option a terminal emulator takes before the command it is to run.
pub open spec fn terminal_flag(program: Seq<char>) -> Seq<char> {
    if ends_with(program, "gnome-terminal"@) {
        "--"@
    } else if ends_with(program, "xfce4-terminal"@) {
        "--execute"@
    } else {
        "-e"@
    }
}

pub open spec fn ends_with(s: Seq<char>, suffix: Seq<char>) -> bool {
    suffix.len() <= s.len() && s.skip(s.len() - suffix.len()) == suffix
}

fn str_ends_with(s: &str, suffix: &str) -> (r: bool)
    ensures
        r == ends_with(s@, suffix@),
{
    let v = chars_of(s);
    let w = chars_of(suffix);
    if w.len() > v.len() {
        return false;
    }
    assert(v@.subrange(v.len() - w.len(), v.len() as int) == v@.skip(v.len() - w.len()));
    range_eq(&v, v.len() - w.len(), v.len(), suffix)
}

/// The command line that runs `command` inside the terminal emulator
/// `terminal` (its program and its own arguments).
pub open spec fn terminal_command_line(terminal: Seq<Seq<char>>, command: Seq<Seq<char>>) -> Seq<
    Seq<char>,
> {
    terminal + seq![terminal_flag(terminal[0])] + command
}

/// The command line for running a command in a terminal emulator.
pub fn terminal_invocation(terminal: &Vec<String>, command: &Vec<String>) -> (r: Vec<String>)
    requires
        terminal.len() > 0,
    ensures
        views(r@) == terminal_command_line(views(terminal@), views(command@)),
{
    let mut r = clone_strings(terminal);
    let program = terminal[0].as_str();
    let flag = if str_ends_with(program, "gnome-terminal") {
        owned("--")
    } else if str_ends_with(program, "xfce4-terminal") {
        owned("--execute")
    } else {
        owned("-e")
    };
    r.push(flag);
    assert(flag@ == terminal_flag(views(terminal@)[0]));
    assert(views(r@) == views(r@.drop_last()).push(flag@));
    assert(views(r@) == views(terminal@) + seq![flag@] + views(command@).take(0));
    let mut i: usize = 0;
    while i < command.len()
        invariant
            terminal.len() > 0,
            i <= command.len(),
            views(r@) == views(terminal@) + seq![terminal_flag(views(terminal@)[0])] + views(
                command@,
            ).take(i as int),
        decreases command.len() - i,
    {
        let c = command[i].clone();
        let ghost before = views(r@);
        r.push(c);
        proof {
            assert(views(r@) == before.push(c@));
            assert(views(command@).take(i + 1) == views(command@).take(i as int).push(c@));
            assert(before.push(c@) =~= views(terminal@) + seq![terminal_flag(views(terminal@)[0])]
                + views(command@).take(i + 1));
        }
        i += 1;
    }
    assert(views(command@).take(command.len() as int) == views(command@));
    r
}

/// The terminal emulators tried, in order, when `$TERMINAL` does not name one.
pub fn terminal_candidates() -> (r: Vec<String>)
    ensures
        views(r@) == seq![
            "x-terminal-emulator"@,
            "gnome-terminal"@,
            "konsole"@,
            "xfce4-terminal"@,
            "alacritty"@,
            "kitty"@,
            "foot"@,
            "xterm"@,
        ],
{
    let mut r: Vec<String> = Vec::new();
    r.push(owned("x-terminal-emulator"));
    r.push(owned("gnome-terminal"));
    r.push(owned("konsole"));
    r.push(owned("xfce4-terminal"));
    r.push(owned("alacritty"));
    r.push(owned("kitty"));
    r.push(owned("foot"));
    r.push(owned("xterm"));
    assert(views(r@) =~= seq![
        "x-terminal-emulator"@,
        "gnome-terminal"@,
        "konsole"@,
        "xfce4-terminal"@,
        "alacritty"@,
        "kitty"@,
        "foot"@,
        "xterm"@,
    ]);
    r
}

// ---------------------------------------------------------------------------
// Finding the desktop files
// ---------------------------------------------------------------------------

/// `PathBuf::join` with a relative path: a `/` between the two unless the
/// base is empty or already ends with one.
pub open spec fn path_join(base: Seq<char>, rel: Seq<char>) -> Seq<char> {
    if base.len() == 0 || base.last() == '/' {
        base + rel
    } else {
        base + seq!['/'] + rel
    }
}

pub fn join_path(base: &str, rel: &str) -> (r: String)
    ensures
        r@ == path_join(base@, rel@),
{
    let v = chars_of(base);
    let mut r = owned(base);
    if v.len() > 0 && v[v.len() - 1] != '/' {
        r.push('/');
    }
    push_all(&mut r, rel);
    r
}

/// The directories searched for desktop files: the user's data directory
/// (`$XDG_DATA_HOME`, else `$HOME/.local/share`), then each directory of
/// `$XDG_DATA_DIRS` (default `/usr/local/share:/usr/share`), each with
/// `applications` appended. An empty variable counts as unset.
pub open spec fn application_dirs(
    data_home: Option<Seq<char>>,
    home: Option<Seq<char>>,
    data_dirs: Option<Seq<char>>,
) -> Seq<Seq<char>> {
    let user = match data_home {
        Some(d) if d.len() > 0 => seq![path_join(d, "applications"@)],
        _ => match home {
            Some(h) => seq![path_join(h, ".local/share/applications"@)],
            None => Seq::empty(),
        },
    };
    let system = match data_dirs {
        Some(d) if d.len() > 0 => split_nonempty(d, ':').map_values(
            |x: Seq<char>| path_join(x, "applications"@),
        ),
        _ => seq!["/usr/local/share/applications"@, "/usr/share/applications"@],
    };
    user + system
}

/// The directories to search for desktop files, from the values of
/// `XDG_DATA_HOME`, `HOME` and `XDG_DATA_DIRS`.
#[verifier::rlimit(40)]
pub fn desktop_file_dirs(data_home: Option<&str>, home: Option<&str>, data_dirs: Option<&str>) -> (r:
    Vec<String>)
    ensures
        views(r@) == application_dirs(
            match data_home {
                Some(s) => Some(s@),
                None => None,
            },
            match home {
                Some(s) => Some(s@),
                None => None,
            },
            match data_dirs {
                Some(s) => Some(s@),
                None => None,
            },
        ),
{
    let mut dirs: Vec<String> = Vec::new();
    let home_set = match data_home {
        Some(d) => !d.is_empty(),
        None => false,
    };
    if home_set {
        match data_home {
            Some(d) => {
                dirs.push(join_path(d, "applications"));
            },
            None => {},
        }
    } else {
        match home {
            Some(h) => {
                dirs.push(join_path(h, ".local/share/applications"));
            },
            None => {},
        }
    }
    let ghost user = views(dirs@);
    let dirs_set = match data_dirs {
        Some(d) => !d.is_empty(),
        None => false,
    };
    if dirs_set {
        match data_dirs {
            Some(d) => {
                let parts = split_nonempty_of(d, ':');
                let mut i: usize = 0;
                while i < parts.len()
                    invariant
                        i <= parts.len(),
                        views(dirs@) == user + views(parts@).take(i as int).map_values(
                            |x: Seq<char>| path_join(x, "applications"@),
                        ),
                    decreases parts.len() - i,
                {
                    let j = join_path(parts[i].as_str(), "applications");
                    let ghost before = views(dirs@);
                    dirs.push(j);
                    proof {
                        assert(views(dirs@) == before.push(j@));
                        assert(j@ == path_join(views(parts@)[i as int], "applications"@));
                        assert(views(parts@).take(i + 1) == views(parts@).take(i as int).push(
                            parts@[i as int]@,
                        ));
                        assert(views(parts@).take(i + 1).map_values(
                            |x: Seq<char>| path_join(x, "applications"@),
                        ) == views(parts@).take(i as int).map_values(
                            |x: Seq<char>| path_join(x, "applications"@),
                        ).push(j@));
                        assert(before.push(j@) =~= user + views(parts@).take(i + 1).map_values(
                            |x: Seq<char>| path_join(x, "applications"@),
                        ));
                    }
                    i += 1;
                }
                assert(views(parts@).take(parts.len() as int) == views(parts@));
            },
            None => {},
        }
    } else {
        dirs.push(owned("/usr/local/share/applications"));
        dirs.push(owned("/usr/share/applications"));
        assert(views(dirs@) == user + seq![
            "/usr/local/share/applications"@,
            "/usr/share/applications"@,
        ]);
    }
    dirs
}

/// The desktop file ID of a file `name` found `prefix` levels down
/// (subdirectories joined by `-`).
pub open spec fn desktop_id_of(prefix: Seq<char>, name: Seq<char>) -> Seq<char> {
    if prefix.len() == 0 {
        name
    } else {
        prefix + seq!['-'] + name
    }
}

pub fn desktop_id(prefix: &str, name: &str) -> (r: String)
    ensures
        r@ == desktop_id_of(prefix@, name@),
{
    if prefix.is_empty() {
        owned(name)
    } else {
        let mut r = owned(prefix);
        r.push('-');
        push_all(&mut r, name);
        r
    }
}

/// The desktops in use: those of `$XDG_CURRENT_DESKTOP` (colon separated),
/// then `$DESKTOP_SESSION` unless it is empty or already listed.
pub open spec fn desktops_in_use(current: Option<Seq<char>>, session: Option<Seq<char>>) -> Seq<
    Seq<char>,
> {
    let listed = match current {
        Some(c) => split_nonempty(c, ':'),
        None => Seq::empty(),
    };
    match session {
        Some(s) => if s.len() > 0 && !listed.contains(s) {
            listed.push(s)
        } else {
            listed
        },
        None => listed,
    }
}

/// The current desktops from `XDG_CURRENT_DESKTOP` and `DESKTOP_SESSION`.
pub fn current_desktops(current: Option<&str>, session: Option<&str>) -> (r: Vec<String>)
    ensures
        views(r@) == desktops_in_use(
            match current {
                Some(s) => Some(s@),
                None => None,
            },
            match session {
                Some(s) => Some(s@),
                None => None,
            },
        ),
{
    let mut desktops: Vec<String> = match current {
        Some(c) => split_nonempty_of(c, ':'),
        None => {
            let e: Vec<String> = Vec::new();
            assert(views(e@) == Seq::<Seq<char>>::empty());
            e
        },
    };
    match session {
        Some(s) => {
            if !s.is_empty() {
                let mut found = false;
                let mut i: usize = 0;
                while i < desktops.len()
                    invariant
                        i <= desktops.len(),
                        found == exists|j: int| 0 <= j < i && views(desktops@)[j] == s@,
                    decreases desktops.len() - i,
                {
                    if str_eq(desktops[i].as_str(), s) {
                        found = true;
                        assert(views(desktops@)[i as int] == s@);
                    } else {
                        assert(views(desktops@)[i as int] != s@);
                    }
                    i += 1;
                }
                proof {
                    if found {
                        let j = choose|j: int| 0 <= j < desktops.len() && views(desktops@)[j] == s@;
                        assert(views(desktops@).contains(s@));
                    } else {
                        assert(!views(desktops@).contains(s@));
                    }
                }
                if !found {
                    let c = owned(s);
                    desktops.push(c);
                    assert(views(desktops@) == views(desktops@.drop_last()).push(c@));
                }
            }
        },
        None => {},
    }
    desktops
}

/// Of the desktop files found, in search order, the ones whose ID was not
/// seen before: an earlier directory shadows a later one.
pub fn first_occurrences(ids: &Vec<String>) -> (keep: Vec<bool>)
    ensures
        keep.len() == ids.len(),
        forall|i: int|
            0 <= i < ids.len() ==> #[trigger] keep@[i] == forall|j: int|
                0 <= j < i ==> ids@[j]@ != ids@[i]@,
{
    let mut keep: Vec<bool> = Vec::new();
    let mut i: usize = 0;
    while i < ids.len()
        invariant
            i <= ids.len(),
            keep.len() == i,
            forall|t: int|
                0 <= t < i ==> #[trigger] keep@[t] == forall|j: int|
                    0 <= j < t ==> ids@[j]@ != ids@[t]@,
        decreases ids.len() - i,
    {
        let mut j: usize = 0;
        let mut fresh = true;
        while j < i
            invariant
                j <= i < ids.len(),
                fresh == forall|t: int| 0 <= t < j ==> ids@[t]@ != ids@[i as int]@,
            decreases i - j,
        {
            if ids[j] == ids[i] {
                fresh = false;
            }
            j += 1;
        }
        keep.push(fresh);
        i += 1;
    }
    keep
}

/// Applications ordered by their lowercase names, stably.
pub fn sort_apps(apps: &Vec<App>) -> (r: Vec<App>)
    ensures
        exists|keys: Seq<String>, order: Seq<usize>|
            keys.len() == apps@.len() && (forall|t: int|
                0 <= t < keys.len() ==> (#[trigger] keys[t])@ == lowercase(apps@[t].name@))
                && crate::sort::is_stable_order(keys, order) && r@.len() == order.len() && forall|
                i: int,
            | 0 <= i < order.len() ==> (#[trigger] r@[i])@ == apps@[order[i] as int]@,
{
    let mut keys: Vec<String> = Vec::new();
    let mut i: usize = 0;
    while i < apps.len()
        invariant
            i <= apps.len(),
            keys@.len() == i,
            forall|t: int| 0 <= t < i ==> #[trigger] keys@[t]@ == lowercase(apps@[t].name@),
        decreases apps.len() - i,
    {
        keys.push(to_lowercase(apps[i].name.as_str()));
        i += 1;
    }
    let order = crate::sort::stable_order(&keys);
    let mut r: Vec<App> = Vec::new();
    let mut k: usize = 0;
    while k < order.len()
        invariant
            k <= order.len(),
            crate::sort::is_stable_order(keys@, order@),
            keys@.len() == apps@.len(),
            forall|t: int| 0 <= t < keys@.len() ==> #[trigger] keys@[t]@ == lowercase(apps@[t].name@),
            r@.len() == k,
            forall|t: int| 0 <= t < k ==> (#[trigger] r@[t])@ == apps@[order@[t] as int]@,
        decreases order.len() - k,
    {
        let idx = order[k];
        assert(idx < apps.len());
        r.push(clone_app(&apps[idx]));
        k += 1;
    }
    assert(keys@.len() == apps@.len());
    r
}

/// A copy of an application.
pub fn clone_app(a: &App) -> (r: App)
    ensures
        r@ == a@,
{
    App {
        name: a.name.clone(),
        command: clone_strings(&a.command),
        icon: clone_opt(&a.icon),
        terminal: a.terminal,
        path: clone_opt(&a.path),
        dbus_activatable: a.dbus_activatable,
        desktop_file: a.desktop_file.clone(),
    }
}

/// A desktop ID is seen here for the first time.
pub open spec fn first_seen(ids: Seq<Seq<char>>, i: int) -> bool {
    forall|j: int| 0 <= j < i ==> ids[j] != ids[i]
}

/// The applications of the desktop files found, in search order: a file
/// counts only when its desktop ID was not seen before (an earlier one
/// shadows it, even one that does not parse), and is listed when it parsed.
pub open spec fn listed(ids: Seq<Seq<char>>, parsed: Seq<Option<AppView>>) -> Seq<AppView>
    decreases ids.len(),
{
    if ids.len() == 0 || parsed.len() == 0 {
        Seq::empty()
    } else {
        let n = ids.len() - 1;
        let pre = listed(ids.drop_last(), parsed.drop_last());
        if first_seen(ids, n) && parsed.last() is Some {
            pre.push(parsed.last()->0)
        } else {
            pre
        }
    }
}

pub open spec fn parsed_views(v: Seq<Option<App>>) -> Seq<Option<AppView>> {
    v.map_values(|o: Option<App>| match o {
        Some(a) => Some(a@),
        None => None,
    })
}

/// Law: what stands at a shadowed position (one whose desktop ID came
/// before) never changes the list.
pub proof fn law_shadowed_files_ignored(
    ids: Seq<Seq<char>>,
    parsed: Seq<Option<AppView>>,
    i: int,
    x: Option<AppView>,
)
    requires
        ids.len() == parsed.len(),
        0 <= i < ids.len(),
        !first_seen(ids, i),
    ensures
        listed(ids, parsed.update(i, x)) == listed(ids, parsed),
    decreases ids.len(),
{
    let n = ids.len() - 1;
    let p2 = parsed.update(i, x);
    if i < n {
        assert(p2.drop_last() == parsed.drop_last().update(i, x));
        assert(!first_seen(ids.drop_last(), i)) by {
            let j = choose|j: int| 0 <= j < i && ids[j] == ids[i];
            assert(ids.drop_last()[j] == ids.drop_last()[i]);
        }
        law_shadowed_files_ignored(ids.drop_last(), parsed.drop_last(), i, x);
        assert(p2.last() == parsed.last());
    } else {
        assert(p2.drop_last() == parsed.drop_last());
    }
}

/// The applications to list from the desktop files found (see `listed`):
/// `ids` are their desktop IDs in search order, `parsed` what each file
/// gave (nothing is asked of a shadowed file).
pub fn gather_apps(ids: &Vec<String>, parsed: Vec<Option<App>>) -> (r: Vec<App>)
    requires
        ids.len() == parsed.len(),
    ensures
        r@.len() == listed(views(ids@), parsed_views(parsed@)).len(),
        forall|i: int| 0 <= i < r@.len() ==> (#[trigger] r@[i])@ == listed(
            views(ids@),
            parsed_views(parsed@),
        )[i],
{
    let keep = first_occurrences(ids);
    let mut r: Vec<App> = Vec::new();
    let mut i: usize = 0;
    let ghost is = views(ids@);
    let ghost ps = parsed_views(parsed@);
    while i < parsed.len()
        invariant
            i <= parsed.len(),
            ids.len() == parsed.len(),
            keep@.len() == ids.len(),
            is == views(ids@),
            ps == parsed_views(parsed@),
            forall|t: int|
                0 <= t < ids.len() ==> #[trigger] keep@[t] == forall|j: int|
                    0 <= j < t ==> ids@[j]@ != ids@[t]@,
            r@.len() == listed(is.take(i as int), ps.take(i as int)).len(),
            forall|t: int| 0 <= t < r@.len() ==> (#[trigger] r@[t])@ == listed(is.take(i as int), ps.take(i as int))[t],
        decreases parsed.len() - i,
    {
        let ghost pre = listed(is.take(i as int), ps.take(i as int));
        proof {
            assert(is.take(i + 1).drop_last() == is.take(i as int));
            assert(ps.take(i + 1).drop_last() == ps.take(i as int));
            assert(ps.take(i + 1).last() == ps[i as int]);
            assert(keep@[i as int] == first_seen(is.take(i + 1), i as int)) by {
                if keep@[i as int] {
                    assert forall|j: int| 0 <= j < i implies #[trigger] is.take(i + 1)[j] != is.take(i + 1)[i as int] by {
                        assert(ids@[j]@ != ids@[i as int]@);
                    }
                } else {
                    let j = choose|j: int| 0 <= j < i && !(ids@[j]@ != ids@[i as int]@);
                    assert(is.take(i + 1)[j] == is.take(i + 1)[i as int]);
                }
            }
        }
        if keep[i] {
            match &parsed[i] {
                Some(app) => {
                    r.push(clone_app(app));
                    proof {
                        assert(ps[i as int] == Some(app@));
                    }
                },
                None => {},
            }
        }
        i += 1;
    }
    assert(is.take(parsed.len() as int) == is);
    assert(ps.take(parsed.len() as int) == ps);
    r
}

/// Law: an entry marked `NoDisplay` or `Hidden` (set to `true` in any ASCII
/// case) gives no application, whatever else it holds.
pub proof fn law_hidden_entries_not_listed(
    fields: Seq<(Seq<char>, Seq<char>)>,
    desktops: Seq<Seq<char>>,
    try_exec_found: bool,
    desktop_file: Seq<char>,
)
    requires
        field_true(fields, "NoDisplay"@) || field_true(fields, "Hidden"@),
    ensures
        entry_app(fields, desktops, try_exec_found, desktop_file) is None,
{
}

/// The tokenizer state after reading `t` from the state `st`.
pub open spec fn scan_from(st: ExecScan, t: Seq<char>) -> ExecScan
    decreases t.len(),
{
    if t.len() == 0 {
        st
    } else {
        exec_step(scan_from(st, t.drop_last()), t.last())
    }
}

proof fn lemma_scan_concat(s: Seq<char>, t: Seq<char>)
    ensures
        exec_scan(s + t) == scan_from(exec_scan(s), t),
    decreases t.len(),
{
    if t.len() == 0 {
        assert(s + t == s);
    } else {
        assert((s + t).drop_last() == s + t.drop_last());
        assert((s + t).last() == t.last());
        lemma_scan_concat(s, t.drop_last());
    }
}

/// A character that stands for itself outside quotes: no blank, quote,
/// backslash or percent sign.
pub open spec fn plain_exec_char(c: char) -> bool {
    !is_ws(c) && c != '"' && c != '\'' && c != '\\' && c != '%'
}

proof fn lemma_scan_plain(st: ExecScan, x: Seq<char>)
    requires
        st.quote is None,
        !st.escaped,
        forall|i: int| 0 <= i < x.len() ==> plain_exec_char(#[trigger] x[i]),
    ensures
        scan_from(st, x) == (ExecScan {
            current: st.current + x,
            started: st.started || x.len() > 0,
            ..st
        }),
    decreases x.len(),
{
    if x.len() > 0 {
        lemma_scan_plain(st, x.drop_last());
        assert(plain_exec_char(x[x.len() - 1]));
        let prev = scan_from(st, x.drop_last());
        assert(prev.current.push(x.last()) =~= st.current + x);
        assert(scan_from(st, x) == exec_step(prev, x.last()));
    } else {
        assert(st.current + x =~= st.current);
    }
}

proof fn lemma_scan_quoted(st: ExecScan, y: Seq<char>, q: char)
    requires
        st.quote == Some(q),
        q == '"' || q == '\'',
        !st.escaped,
        forall|i: int| 0 <= i < y.len() ==> #[trigger] y[i] != q && y[i] != '\\',
    ensures
        scan_from(st, y) == (ExecScan {
            current: st.current + y,
            started: st.started || y.len() > 0,
            ..st
        }),
    decreases y.len(),
{
    if y.len() > 0 {
        lemma_scan_quoted(st, y.drop_last(), q);
        assert(y[y.len() - 1] != q && y[y.len() - 1] != '\\');
        let prev = scan_from(st, y.drop_last());
        assert(prev.current.push(y.last()) =~= st.current + y);
        assert(scan_from(st, y) == exec_step(prev, y.last()));
    } else {
        assert(st.current + y =~= st.current);
    }
}

proof fn lemma_no_percent(s: Seq<char>)
    requires
        forall|i: int| 0 <= i < s.len() ==> #[trigger] s[i] != '%',
    ensures
        only_escaped_percents(s),
    decreases s.len(),
{
    if s.len() > 0 {
        assert forall|i: int| 0 <= i < s.drop_first().len() implies #[trigger] s.drop_first()[i]
            != '%' by {
            assert(s.drop_first()[i] == s[i + 1]);
        }
        lemma_no_percent(s.drop_first());
    }
}

/// Law: inside either kind of quote a blank does not end the argument: a
/// word, a blank and a quoted text give two arguments, the word and the
/// text with its blanks.
pub proof fn law_quoted_blanks_kept(x: Seq<char>, y: Seq<char>, q: char)
    requires
        x.len() > 0,
        forall|i: int| 0 <= i < x.len() ==> plain_exec_char(#[trigger] x[i]),
        q == '"' || q == '\'',
        forall|i: int| 0 <= i < y.len() ==> #[trigger] y[i] != q && y[i] != '\\' && y[i] != '%',
    ensures
        exec_args(x + seq![' ', q] + y + seq![q]) == Some(seq![x, y]),
{
    let start = exec_scan_start();
    assert(Seq::<char>::empty() + x == x);
    lemma_scan_concat(Seq::<char>::empty(), x);
    assert(exec_scan(Seq::<char>::empty()) == start);
    lemma_scan_plain(start, x);
    let s1 = exec_scan(x);
    assert(s1.current == x);
    let p2 = x.push(' ');
    assert(p2.drop_last() == x);
    let s2 = exec_scan(p2);
    assert(is_ws(' '));
    assert(s2 == ExecScan { args: seq![x], current: Seq::empty(), started: false, ..s1 });
    let p3 = p2.push(q);
    assert(p3.drop_last() == p2);
    let s3 = exec_scan(p3);
    assert(s3.quote == Some(q) && !s3.escaped);
    lemma_scan_concat(p3, y);
    assert forall|i: int| 0 <= i < y.len() implies #[trigger] y[i] != q && y[i] != '\\' by {}
    lemma_scan_quoted(s3, y, q);
    let p4 = p3 + y;
    let s4 = exec_scan(p4);
    assert(s4.current == Seq::<char>::empty() + y);
    assert(Seq::<char>::empty() + y == y);
    let p5 = p4.push(q);
    assert(p5.drop_last() == p4);
    assert(p5 == x + seq![' ', q] + y + seq![q]);
    let s5 = exec_scan(p5);
    assert(s5.quote is None && !s5.escaped && s5.started);
    assert(s5.args == seq![x] && s5.current == y);
    assert(scan_args(s5) == seq![x, y]);
    assert forall|i: int| 0 <= i < x.len() implies #[trigger] x[i] != '%' by {
        assert(plain_exec_char(x[i]));
    }
    lemma_no_percent(x);
    lemma_no_percent(y);
    assert(valid_codes(seq![x, y][0]));
    assert(valid_codes(seq![x, y][1]));
    assert(all_codes_valid(seq![x, y]));
}

} // verus!
