//! User settings and the `key=value` file they are kept in.
use vstd::prelude::*;
use crate::text::{lemma_lines_cons, lemma_trim_noop, lemma_find_unique, is_ws, lines, lines_of, push_all, split_once, trim, chars_of, find_in, trim_range};
use crate::pratt::owned;

verus! {

#[derive(Debug, Clone, Copy, PartialEq, Eq, Structural)]
pub enum DisplayMode {
    Empty,
    Apps,
    Recent,
}

pub open spec fn mode_name(m: DisplayMode) -> Seq<char> {
    match m {
        DisplayMode::Empty => "none"@,
        DisplayMode::Apps => "apps"@,
        DisplayMode::Recent => "recent"@,
    }
}

pub open spec fn mode_named(s: Seq<char>) -> Option<DisplayMode> {
    if s == "none"@ {
        Some(DisplayMode::Empty)
    } else if s == "apps"@ {
        Some(DisplayMode::Apps)
    } else if s == "recent"@ {
        Some(DisplayMode::Recent)
    } else {
        Option::None
    }
}

impl DisplayMode {
    /// The name the mode is stored and typed as.
    pub fn as_str(self) -> (r: &'static str)
        ensures
            r@ == mode_name(self),
    {
        match self {
            DisplayMode::Empty => "none",
            DisplayMode::Apps => "apps",
            DisplayMode::Recent => "recent",
        }
    }

    /// The mode with a given name.
    pub fn from_str(s: &str) -> (r: Option<Self>)
        ensures
            r == mode_named(s@),
    {
        if crate::apps::str_eq(s, "none") {
            Some(DisplayMode::Empty)
        } else if crate::apps::str_eq(s, "apps") {
            Some(DisplayMode::Apps)
        } else if crate::apps::str_eq(s, "recent") {
            Some(DisplayMode::Recent)
        } else {
            Option::None
        }
    }
}

/// Law: a mode's name reads back as that mode.
pub proof fn law_mode_name_roundtrip(m: DisplayMode)
    ensures
        mode_named(mode_name(m)) == Some(m),
{
    reveal_strlit("none");
    reveal_strlit("apps");
    reveal_strlit("recent");
    assert("apps"@[0] != "none"@[0]);
    assert("recent"@.len() != "none"@.len());
    assert("recent"@.len() != "apps"@.len());
}

#[derive(Debug, Clone, Copy, PartialEq, Eq, Structural)]
pub struct Settings {
    pub background: bool,
    pub footer: bool,
    pub timers: bool,
    pub display: DisplayMode,
}

pub open spec fn default_settings() -> Settings {
    Settings { background: false, footer: true, timers: true, display: DisplayMode::Recent }
}

impl Default for Settings {
    fn default() -> (r: Self)
        ensures
            r == default_settings(),
    {
        Settings { background: false, footer: true, timers: true, display: DisplayMode::Recent }
    }
}

/// One line of the settings file: `key=value`, both trimmed; a boolean key
/// takes `true` or `false`, `display` a mode name; anything else is ignored.
pub open spec fn apply_setting_line(s: Settings, line: Seq<char>) -> Settings {
    match split_once(line, '=') {
        Option::None => s,
        Some((k, v)) => {
            let key = trim(k);
            let value = trim(v);
            if key == "background"@ && value == "true"@ {
                Settings { background: true, ..s }
            } else if key == "background"@ && value == "false"@ {
                Settings { background: false, ..s }
            } else if key == "footer"@ && value == "true"@ {
                Settings { footer: true, ..s }
            } else if key == "footer"@ && value == "false"@ {
                Settings { footer: false, ..s }
            } else if key == "timers"@ && value == "true"@ {
                Settings { timers: true, ..s }
            } else if key == "timers"@ && value == "false"@ {
                Settings { timers: false, ..s }
            } else if key == "display"@ {
                match mode_named(value) {
                    Some(m) => Settings { display: m, ..s },
                    Option::None => s,
                }
            } else {
                s
            }
        },
    }
}

pub open spec fn settings_after(s: Settings, ls: Seq<Seq<char>>) -> Settings
    decreases ls.len(),
{
    if ls.len() == 0 {
        s
    } else {
        settings_after(apply_setting_line(s, ls[0]), ls.drop_first())
    }
}

/// The settings a file's contents give: the defaults, changed by each line in turn.
pub open spec fn settings_of(contents: Seq<char>) -> Settings {
    settings_after(default_settings(), lines(contents))
}

fn apply_line(s: Settings, line: &str) -> (r: Settings)
    ensures
        r == apply_setting_line(s, line@),
{
    let v = chars_of(line);
    let eq = find_in(&v, 0, v.len(), '=');
    proof {
        assert(v@.subrange(0, v@.len() as int) == v@);
    }
    if eq == v.len() {
        return s;
    }
    let (ka, kb) = trim_range(&v, 0, eq);
    let (va, vb) = trim_range(&v, eq + 1, v.len());
    proof {
        assert(v@.take(eq as int) == v@.subrange(0, eq as int));
        assert(v@.skip(eq + 1) == v@.subrange(eq + 1, v.len() as int));
    }
    let key = crate::text::string_of_range(&v, ka, kb);
    let value = crate::text::string_of_range(&v, va, vb);
    let k = key.as_str();
    let val = value.as_str();
    let is_true = crate::apps::str_eq(val, "true");
    let is_false = crate::apps::str_eq(val, "false");
    if crate::apps::str_eq(k, "background") && is_true {
        Settings { background: true, ..s }
    } else if crate::apps::str_eq(k, "background") && is_false {
        Settings { background: false, ..s }
    } else if crate::apps::str_eq(k, "footer") && is_true {
        Settings { footer: true, ..s }
    } else if crate::apps::str_eq(k, "footer") && is_false {
        Settings { footer: false, ..s }
    } else if crate::apps::str_eq(k, "timers") && is_true {
        Settings { timers: true, ..s }
    } else if crate::apps::str_eq(k, "timers") && is_false {
        Settings { timers: false, ..s }
    } else if crate::apps::str_eq(k, "display") {
        match DisplayMode::from_str(val) {
            Some(m) => Settings { display: m, ..s },
            Option::None => s,
        }
    } else {
        s
    }
}

/// Reads settings out of the settings file's contents.
#[verifier::rlimit(40)]
pub fn parse_settings(contents: &str) -> (r: Settings)
    ensures
        r == settings_of(contents@),
{
    let ls = lines_of(contents);
    let ghost all = crate::text::views(ls@);
    let mut s = Settings::default();
    let mut i: usize = 0;
    assert(all.skip(0) == all);
    while i < ls.len()
        invariant
            i <= ls.len(),
            all == crate::text::views(ls@),
            all == lines(contents@),
            settings_after(s, all.skip(i as int)) == settings_of(contents@),
        decreases ls.len() - i,
    {
        proof {
            assert(all.skip(i as int)[0] == ls@[i as int]@);
            assert(all.skip(i as int).drop_first() == all.skip(i + 1));
        }
        s = apply_line(s, ls[i].as_str());
        i += 1;
    }
    assert(all.skip(ls.len() as int) == Seq::<Seq<char>>::empty());
    s
}

pub open spec fn bool_text(b: bool) -> Seq<char> {
    if b {
        "true"@
    } else {
        "false"@
    }
}

/// The settings file's contents for some settings.
pub open spec fn settings_text(s: Settings) -> Seq<char> {
    setting_line("background"@, bool_text(s.background)) + seq!['\n'] + (setting_line(
        "footer"@,
        bool_text(s.footer),
    ) + seq!['\n'] + (setting_line("timers"@, bool_text(s.timers)) + seq!['\n'] + (setting_line(
        "display"@,
        mode_name(s.display),
    ) + seq!['\n'])))
}

/// A stored `key=value` line, without its newline.
pub open spec fn setting_line(key: Seq<char>, value: Seq<char>) -> Seq<char> {
    key + seq!['='] + value
}

fn push_bool(out: &mut String, b: bool)
    ensures
        final(out)@ == old(out)@ + bool_text(b),
{
    if b {
        push_all(out, "true");
    } else {
        push_all(out, "false");
    }
}

/// What is written to the settings file.
pub fn settings_contents(settings: &Settings) -> (r: String)
    ensures
        r@ == settings_text(*settings),
{
    let mut out = owned("background");
    out.push('=');
    push_bool(&mut out, settings.background);
    out.push('\n');
    push_all(&mut out, "footer");
    out.push('=');
    push_bool(&mut out, settings.footer);
    out.push('\n');
    push_all(&mut out, "timers");
    out.push('=');
    push_bool(&mut out, settings.timers);
    out.push('\n');
    push_all(&mut out, "display");
    out.push('=');
    push_all(&mut out, settings.display.as_str());
    out.push('\n');
    assert(out@ =~= settings_text(*settings));
    out
}


/// A `key=value` line with both parts free of `=` and of surrounding blanks
/// splits into them.
proof fn lemma_setting_line(key: Seq<char>, value: Seq<char>)
    requires
        !key.contains('='),
        key.len() > 0,
        value.len() > 0,
        !is_ws(key[0]) && !is_ws(key.last()),
        !is_ws(value[0]) && !is_ws(value.last()),
    ensures
        split_once(setting_line(key, value), '=') == Some((key, value)),
        trim(key) == key,
        trim(value) == value,
{
    let l = setting_line(key, value);
    assert forall|i: int| 0 <= i < key.len() implies #[trigger] l[i] != '=' by {
        assert(l[i] == key[i]);
    }
    assert(l[key.len() as int] == '=');
    lemma_find_unique(l, '=', key.len() as int);
    assert(l.take(key.len() as int) == key);
    assert(l.skip(key.len() as int + 1) == value);
    lemma_trim_noop(key);
    lemma_trim_noop(value);
}

/// A stored line holds no newline and does not end in `\r`.
proof fn lemma_setting_line_shape(key: Seq<char>, value: Seq<char>)
    requires
        !key.contains('\n'),
        !value.contains('\n'),
        value.len() > 0,
        value.last() != '\r',
    ensures
        !setting_line(key, value).contains('\n'),
        setting_line(key, value).last() != '\r',
{
    let l = setting_line(key, value);
    assert forall|i: int| 0 <= i < l.len() implies l[i] != '\n' by {
        if i < key.len() {
            assert(l[i] == key[i]);
        } else if i > key.len() {
            assert(l[i] == value[i - key.len() - 1]);
        }
    }
    assert(l.last() == value.last());
}

proof fn lemma_bool_text(b: bool)
    ensures
        bool_text(b).len() > 0,
        !is_ws(bool_text(b)[0]),
        !is_ws(bool_text(b).last()),
        !bool_text(b).contains('\n'),
        bool_text(b).last() != '\r',
        bool_text(b) == "true"@ <==> b,
        bool_text(b) == "false"@ <==> !b,
{
    reveal_strlit("true");
    reveal_strlit("false");
    assert("true"@.len() != "false"@.len());
}

proof fn lemma_mode_text(m: DisplayMode)
    ensures
        mode_name(m).len() > 0,
        !is_ws(mode_name(m)[0]),
        !is_ws(mode_name(m).last()),
        !mode_name(m).contains('\n'),
        mode_name(m).last() != '\r',
        mode_named(mode_name(m)) == Some(m),
{
    reveal_strlit("none");
    reveal_strlit("apps");
    reveal_strlit("recent");
    law_mode_name_roundtrip(m);
}

proof fn lemma_keys()
    ensures
        !"background"@.contains('=') && !"background"@.contains('\n') && "background"@.len() > 0
            && !is_ws("background"@[0]) && !is_ws("background"@.last()),
        !"footer"@.contains('=') && !"footer"@.contains('\n') && "footer"@.len() > 0 && !is_ws(
            "footer"@[0],
        ) && !is_ws("footer"@.last()),
        !"timers"@.contains('=') && !"timers"@.contains('\n') && "timers"@.len() > 0 && !is_ws(
            "timers"@[0],
        ) && !is_ws("timers"@.last()),
        !"display"@.contains('=') && !"display"@.contains('\n') && "display"@.len() > 0 && !is_ws(
            "display"@[0],
        ) && !is_ws("display"@.last()),
        "background"@ != "footer"@ && "background"@ != "timers"@ && "background"@ != "display"@,
        "footer"@ != "timers"@ && "footer"@ != "display"@ && "timers"@ != "display"@,
{
    reveal_strlit("background");
    reveal_strlit("footer");
    reveal_strlit("timers");
    reveal_strlit("display");
    assert("footer"@[0] != "timers"@[0]);
}

proof fn lemma_lines_of_text(s: Settings)
    ensures
        lines(settings_text(s)) == seq![
            setting_line("background"@, bool_text(s.background)),
            setting_line("footer"@, bool_text(s.footer)),
            setting_line("timers"@, bool_text(s.timers)),
            setting_line("display"@, mode_name(s.display)),
        ],
{
    lemma_keys();
    lemma_bool_text(s.background);
    lemma_bool_text(s.footer);
    lemma_bool_text(s.timers);
    lemma_mode_text(s.display);
    let l1 = setting_line("background"@, bool_text(s.background));
    let l2 = setting_line("footer"@, bool_text(s.footer));
    let l3 = setting_line("timers"@, bool_text(s.timers));
    let l4 = setting_line("display"@, mode_name(s.display));
    lemma_setting_line_shape("background"@, bool_text(s.background));
    lemma_setting_line_shape("footer"@, bool_text(s.footer));
    lemma_setting_line_shape("timers"@, bool_text(s.timers));
    lemma_setting_line_shape("display"@, mode_name(s.display));
    assert(l4 + seq!['\n'] == l4 + seq!['\n'] + Seq::<char>::empty());
    lemma_lines_cons(l4, Seq::<char>::empty());
    lemma_lines_cons(l3, l4 + seq!['\n']);
    lemma_lines_cons(l2, l3 + seq!['\n'] + (l4 + seq!['\n']));
    lemma_lines_cons(l1, l2 + seq!['\n'] + (l3 + seq!['\n'] + (l4 + seq!['\n'])));
    assert(lines(Seq::<char>::empty()) == Seq::<Seq<char>>::empty());
    assert(seq![l4] + Seq::<Seq<char>>::empty() == seq![l4]);
    assert(seq![l1] + (seq![l2] + (seq![l3] + seq![l4])) =~= seq![l1, l2, l3, l4]);
}

proof fn lemma_apply_background(st: Settings, b: bool)
    ensures
        apply_setting_line(st, setting_line("background"@, bool_text(b))) == (Settings {
            background: b,
            ..st
        }),
{
    lemma_keys();
    lemma_bool_text(b);
    lemma_setting_line("background"@, bool_text(b));
}

proof fn lemma_apply_footer(st: Settings, b: bool)
    ensures
        apply_setting_line(st, setting_line("footer"@, bool_text(b))) == (Settings {
            footer: b,
            ..st
        }),
{
    lemma_keys();
    lemma_bool_text(b);
    lemma_setting_line("footer"@, bool_text(b));
}

proof fn lemma_apply_timers(st: Settings, b: bool)
    ensures
        apply_setting_line(st, setting_line("timers"@, bool_text(b))) == (Settings {
            timers: b,
            ..st
        }),
{
    lemma_keys();
    lemma_bool_text(b);
    lemma_setting_line("timers"@, bool_text(b));
}

proof fn lemma_apply_display(st: Settings, m: DisplayMode)
    ensures
        apply_setting_line(st, setting_line("display"@, mode_name(m))) == (Settings {
            display: m,
            ..st
        }),
{
    lemma_keys();
    lemma_mode_text(m);
    lemma_setting_line("display"@, mode_name(m));
}

/// Law: the settings written by `settings_contents` read back unchanged.
#[verifier::rlimit(40)]
pub proof fn law_settings_roundtrip(s: Settings)
    ensures
        settings_of(settings_text(s)) == s,
{
    lemma_lines_of_text(s);
    let l1 = setting_line("background"@, bool_text(s.background));
    let l2 = setting_line("footer"@, bool_text(s.footer));
    let l3 = setting_line("timers"@, bool_text(s.timers));
    let l4 = setting_line("display"@, mode_name(s.display));
    let d = default_settings();
    lemma_apply_background(d, s.background);
    let s1 = Settings { background: s.background, ..d };
    lemma_apply_footer(s1, s.footer);
    let s2 = Settings { footer: s.footer, ..s1 };
    lemma_apply_timers(s2, s.timers);
    let s3 = Settings { timers: s.timers, ..s2 };
    lemma_apply_display(s3, s.display);
    let s4 = Settings { display: s.display, ..s3 };
    let ls = seq![l1, l2, l3, l4];
    assert(ls.drop_first() =~= seq![l2, l3, l4]);
    assert(seq![l2, l3, l4].drop_first() =~= seq![l3, l4]);
    assert(seq![l3, l4].drop_first() =~= seq![l4]);
    assert(seq![l4].drop_first() =~= Seq::<Seq<char>>::empty());
    assert(settings_after(s4, Seq::<Seq<char>>::empty()) == s4);
    assert(settings_after(s3, seq![l4]) == s4);
    assert(settings_after(s2, seq![l3, l4]) == s4);
    assert(settings_after(s1, seq![l2, l3, l4]) == s4);
    assert(settings_after(d, ls) == s4);
}

} // verus!
