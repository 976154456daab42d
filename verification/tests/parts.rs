use mylauncher::apps::{
    current_desktops, desktop_file_dirs, gather_apps, desktop_id, desktop_is_visible, expand_exec,
    first_occurrences, launch_plan, parse_desktop_fields, sort_apps, terminal_invocation,
    try_exec_command, App, LaunchError, LaunchPlan,
};
use mylauncher::convert::{conversion_request, Conversion, Scale, Unit};
use mylauncher::layout::{
    cursor_column, fit, list_window, row_text_width, scroll_start, shown_rows, skip_cells, split_cells,
    str_width, take_cells, wrap,
};
use mylauncher::launcher::Launcher;
use mylauncher::power::all_power_options;
use mylauncher::pratt::{Lexer, Token};
use mylauncher::recents::record;
use mylauncher::screen::{
    empty_message, footer, history_rows, join, math_preview, running_timers_text, settings_rows,
    timer_preview_text, timer_rows, MathPreview, Screen,
};
use mylauncher::settings::{parse_settings, settings_contents, DisplayMode, Settings};
use mylauncher::store::{appended_contents, data_dir, entries_contents, parse_entries};
use mylauncher::timers::{clear_command, mark_finished, parse_timers, timers_contents, Timer};
use mylauncher::web::search_url;

fn timer(label: &str, end_unix: u64, finished: bool) -> Timer {
    Timer { label: label.to_string(), end_unix, finished }
}

#[test]
fn cuts_text_at_cells() {
    assert_eq!(split_cells("hello", 3), ("hel".to_string(), "lo".to_string()));
    assert_eq!(split_cells("hello", 0), (String::new(), "hello".to_string()));
    assert_eq!(split_cells("日本語", 3), ("日".to_string(), "本語".to_string()));
    assert_eq!(split_cells("日本語", 1), ("日".to_string(), "本語".to_string()));
    assert_eq!(skip_cells("hello", 2), "llo");
    assert_eq!(skip_cells("hello", 0), "hello");
    assert_eq!(skip_cells("日本語", 1), "本語");
    assert_eq!(take_cells("hello", 4), "hell");
    assert_eq!(str_width("日本"), 4);
    assert_eq!(str_width(""), 0);
}

#[test]
fn fits_text_with_an_ellipsis() {
    assert_eq!(fit("hello", 5), "hello");
    assert_eq!(fit("hello world", 5), "hell…");
    assert_eq!(fit("hello", 0), "…");
}

#[test]
fn wraps_words_into_lines() {
    assert_eq!(wrap("the quick brown fox", 10), vec!["the quick", "brown fox"]);
    assert_eq!(wrap("", 5), vec![""]);
    assert_eq!(wrap("   ", 5), vec![""]);
    assert_eq!(wrap("abcdefghij", 4), vec!["abcd", "efgh", "ij"]);
    assert_eq!(wrap("a bb ccc", 0), vec!["a", "b", "b", "c", "c", "c"]);
    assert_eq!(wrap("ab abcdef", 4), vec!["ab", "abcd", "ef"]);
}

#[test]
fn picks_the_rows_shown() {
    assert_eq!(list_window(&vec![1, 1, 1], Some(1), 5), (0, 2));
    assert_eq!(list_window(&vec![1, 1, 1, 1, 1], Some(3), 3), (2, 4));
    assert_eq!(list_window(&vec![1, 1, 1, 1, 1], None, 3), (0, 1));
    assert_eq!(list_window(&vec![2, 2, 2], Some(9), 3), (2, 2));
    assert_eq!(list_window(&vec![5, 1], Some(0), 3), (0, 0));
}

#[test]
fn scrolls_the_query_to_the_cursor() {
    assert_eq!(scroll_start(8, 8, 10), 0);
    assert_eq!(scroll_start(20, 15, 10), 6);
    assert_eq!(scroll_start(20, 20, 10), 10);
    assert_eq!(scroll_start(20, 3, 10), 0);
    assert_eq!(cursor_column(2, 15, 6, 80), 11);
    assert_eq!(cursor_column(2, 100, 0, 40), 39);
    assert_eq!(row_text_width(80, false), 76);
    assert_eq!(row_text_width(80, true), 74);
    assert_eq!(row_text_width(3, false), 1);
}

#[test]
fn reads_conversion_requests() {
    let r = conversion_request("5 km to mi").unwrap();
    assert_eq!(r.amount, "5");
    assert_eq!(r.from, "km");
    assert_eq!(r.to, "mi");
    assert_eq!(r.conversion, Conversion::Scaled(Unit::Kilometer, Unit::Mile));
    let r = conversion_request("100 C F").unwrap();
    assert_eq!(r.conversion, Conversion::Temperature(Scale::Celsius, Scale::Fahrenheit));
    assert_eq!(conversion_request("3 m h").unwrap().conversion, Conversion::Scaled(Unit::Minute, Unit::Hour));
    assert_eq!(conversion_request("3 m in").unwrap().conversion, Conversion::Scaled(Unit::Meter, Unit::Inch));
    assert_eq!(conversion_request("1 gb in mb").unwrap().conversion, Conversion::Scaled(Unit::Gigabyte, Unit::Megabyte));
    assert!(conversion_request("1 c c").is_none());
    assert!(conversion_request("5 kg").is_none());
    assert!(conversion_request("5 kg at g").is_none());
    assert!(conversion_request("5 kg m").is_none());
}

#[test]
fn builds_screen_rows() {
    let list = vec![timer("tea", 400, false), timer("eggs", 100, true)];
    let rows = timer_rows(&list, 100);
    assert_eq!(rows, vec![("1. [done] eggs".to_string(), true), ("2. [05:00] tea".to_string(), false)]);
    assert_eq!(running_timers_text(&list, 100), Some("05:00 tea".to_string()));
    assert_eq!(running_timers_text(&vec![timer("x", 1, true)], 0), None);
    let two = vec![timer("a", 70, false), timer("b", 3600, false)];
    assert_eq!(running_timers_text(&two, 0), Some("01:10 a · 01:00:00 b".to_string()));
    assert_eq!(history_rows(&vec!["1 = 1".to_string(), "2 = 2".to_string()]), vec!["1. 2 = 2", "2. 1 = 1"]);
    let rows = settings_rows(&Settings::default());
    assert_eq!(rows[0], "1. background     false");
    assert_eq!(rows[1], "2. footer(hints)  true");
    assert_eq!(rows[3], "4. display        recent");
    assert_eq!(join(&vec!["a".to_string(), "b".to_string()], ", "), "a, b");
}

#[test]
fn builds_previews_and_footers() {
    assert_eq!(timer_preview_text("5m tea"), Some("  [05:00] tea".to_string()));
    assert_eq!(timer_preview_text("soon"), None);
    assert_eq!(timer_preview_text(""), None);
    match math_preview("2*3") {
        MathPreview::Value { text } => assert_eq!(text, "6"),
        _ => panic!("expected a value"),
    }
    match math_preview("clear") {
        MathPreview::Clearing { message } => assert_eq!(message, "  enter to clear all history"),
        _ => panic!("expected a clear"),
    }
    match math_preview("delete 2") {
        MathPreview::Clearing { message } => assert_eq!(message, "  enter to clear that entry"),
        _ => panic!("expected a clear"),
    }
    assert!(matches!(math_preview("2+"), MathPreview::Pending));
    let (label, body) = footer(Screen::Timers);
    assert_eq!(label, "timers");
    assert_eq!(body, "5m coffee · clear [all|n|done] · esc quit");
    assert_eq!(footer(Screen::Settings).1, "1-3 true|false · 4 none|apps|recent · esc quit");
}

#[test]
fn settings_round_trip() {
    let s = Settings { background: true, footer: false, timers: true, display: DisplayMode::Apps };
    assert_eq!(parse_settings(&settings_contents(&s)), s);
    let d = Settings::default();
    assert_eq!(d, Settings { background: false, footer: true, timers: true, display: DisplayMode::Recent });
    assert_eq!(parse_settings("display=none\nfooter=false\nbogus\n").display, DisplayMode::Empty);
    assert_eq!(DisplayMode::from_str("apps"), Some(DisplayMode::Apps));
    assert_eq!(DisplayMode::Empty.as_str(), "none");
    assert_eq!(DisplayMode::from_str("None"), None);
}

#[test]
fn stored_entries_round_trip() {
    let entries = vec!["1 + 1 = 2".to_string(), "x".to_string()];
    assert_eq!(parse_entries(&entries_contents(&entries)), entries);
    assert_eq!(entries_contents(&vec!["a\nb".to_string(), "c".to_string()]), "c\n");
    assert_eq!(parse_entries("a\r\nb"), vec!["a", "b"]);
}

#[test]
fn records_recent_launches() {
    let list = vec!["a".to_string(), "b".to_string(), "c".to_string()];
    assert_eq!(record(&list, "b"), vec!["b", "a", "c"]);
    assert_eq!(record(&list, "d"), vec!["d", "a", "b", "c"]);
    let long: Vec<String> = (0..60).map(|i| i.to_string()).collect();
    let r = record(&long, "new");
    assert_eq!(r.len(), 50);
    assert_eq!(r[0], "new");
    assert_eq!(r[49], "48");
}

#[test]
fn timers_round_trip_clear_and_finish() {
    let list = vec![timer("tea", 500, false), timer("eggs", 100, false)];
    let text = timers_contents(&list).unwrap();
    assert_eq!(text, "500\ttea\n100\teggs\n");
    let back = parse_timers(&text, 200);
    assert_eq!(back.len(), 2);
    assert!(!back[0].finished);
    assert!(back[1].finished);
    assert!(timers_contents(&vec![timer("a\tb", 1, false)]).is_none());
    assert_eq!(parse_timers("oops\n12\tx\nnan\ty\n", 0).len(), 1);

    let mut l = back.clone();
    assert!(clear_command(&mut l, " done "));
    assert_eq!(l.len(), 1);
    assert_eq!(l[0].label, "tea");
    let mut l = back.clone();
    assert!(clear_command(&mut l, "1"));
    assert_eq!(l[0].label, "tea");
    let mut l = back.clone();
    assert!(!clear_command(&mut l, "7"));
    assert_eq!(l.len(), 2);
    let mut l = back.clone();
    assert!(clear_command(&mut l, "ALL"));
    assert!(l.is_empty());

    let mut l = vec![timer("tea", 500, false)];
    assert!(!mark_finished(&mut l, 499));
    assert!(mark_finished(&mut l, 500));
    assert!(l[0].finished);
    assert_eq!(l[0].remaining_at(400), 100);
}

#[test]
fn desktop_entries_and_launching() {
    let fields = parse_desktop_fields(
        "# c\n[Desktop Entry]\nName=Term\nName[de]=Terminal\nExec=xterm -e %i %c %k %f 100%%\nIcon=term\nOnlyShowIn=GNOME;KDE;\n[Other]\nName=Wrong\n",
    );
    assert!(desktop_is_visible(&fields, &vec!["kde".to_string()]));
    assert!(!desktop_is_visible(&fields, &vec!["XFCE".to_string()]));
    let app = mylauncher::apps::app_from_fields(&fields, &vec!["KDE".to_string()], true, "/a/term.desktop").unwrap();
    assert_eq!(app.name, "Term");
    assert_eq!(expand_exec(&app), vec!["xterm", "-e", "--icon", "term", "Term", "/a/term.desktop", "100%"]);
    match launch_plan(&app) {
        Ok(LaunchPlan::Program { program, args, dir }) => {
            assert_eq!(program, "xterm");
            assert_eq!(args.len(), 6);
            assert_eq!(dir, None);
        }
        _ => panic!("expected a program"),
    }
    let empty = App { command: vec!["%f".to_string()], ..app.clone() };
    assert!(matches!(launch_plan(&empty), Err(LaunchError::NoCommand)));
    let dbus = App { dbus_activatable: true, ..app.clone() };
    assert!(matches!(launch_plan(&dbus), Ok(LaunchPlan::Gio { .. })));
    assert_eq!(
        terminal_invocation(&vec!["gnome-terminal".to_string()], &vec!["top".to_string()]),
        vec!["gnome-terminal", "--", "top"]
    );
    assert_eq!(try_exec_command("'/opt/x' --y"), Some("/opt/x".to_string()));
    assert_eq!(try_exec_command("\"unclosed"), None);
}

#[test]
fn finds_desktop_files_and_desktops() {
    assert_eq!(
        desktop_file_dirs(Some("/d"), Some("/h"), Some("/x::/y/")),
        vec!["/d/applications", "/x/applications", "/y/applications"]
    );
    assert_eq!(
        desktop_file_dirs(Some(""), Some("/h"), None),
        vec!["/h/.local/share/applications", "/usr/local/share/applications", "/usr/share/applications"]
    );
    assert_eq!(desktop_id("", "a.desktop"), "a.desktop");
    assert_eq!(desktop_id("kde", "a.desktop"), "kde-a.desktop");
    assert_eq!(current_desktops(Some("GNOME:ubuntu:"), Some("ubuntu")), vec!["GNOME", "ubuntu"]);
    assert_eq!(current_desktops(None, Some("sway")), vec!["sway"]);
    let ids = vec!["a".to_string(), "b".to_string(), "a".to_string()];
    assert_eq!(first_occurrences(&ids), vec![true, true, false]);
}

#[test]
fn sorts_apps_by_lowercase_name() {
    let mk = |n: &str| App {
        name: n.to_string(),
        command: vec!["x".to_string()],
        icon: None,
        terminal: false,
        path: None,
        dbus_activatable: false,
        desktop_file: String::new(),
    };
    let sorted = sort_apps(&vec![mk("b"), mk("A"), mk("a"), mk("C")]);
    let names: Vec<String> = sorted.iter().map(|a| a.name.clone()).collect();
    assert_eq!(names, vec!["A", "a", "b", "C"]);
}

#[test]
fn web_and_power() {
    assert_eq!(search_url("  rust lang "), "https://duckduckgo.com/?q=rust+lang");
    assert_eq!(search_url("https://example.org/a b"), "https://example.org/a b");
    assert_eq!(search_url("a&b=é"), "https://duckduckgo.com/?q=a%26b%3D%C3%A9");
    let options = all_power_options();
    assert_eq!(options.len(), 5);
    assert_eq!(options[1].name, "Sleep / Suspend");
    assert_eq!(options[1].command, vec!["loginctl", "suspend"]);
}

#[test]
fn remaining_time_reads_the_clock() {
    assert_eq!(timer("past", 0, false).remaining(), 0);
    assert!(timer("far", u64::MAX, false).remaining() > 0);
}

#[test]
fn wrapping_keeps_the_words() {
    let text = "  the quick   brownish fox\tjumps ";
    for width in [0, 1, 3, 5, 8, 40] {
        let joined: String = wrap(text, width).concat().chars().filter(|c| *c != ' ').collect();
        assert_eq!(joined, "thequickbrownishfoxjumps");
    }
}

#[test]
fn match_order_is_repeatable() {
    let mk = |n: &str| App {
        name: n.to_string(),
        command: vec!["x".to_string()],
        icon: None,
        terminal: false,
        path: None,
        dbus_activatable: false,
        desktop_file: String::new(),
    };
    let l = Launcher::new(vec![mk("Beta"), mk("alpha"), mk("Alphabet")], Vec::new(), Settings::default(), vec!["Alphabet".to_string()]);
    let first: Vec<String> = l.matching_apps().iter().map(|a| a.name.clone()).collect();
    let second: Vec<String> = l.matching_apps().iter().map(|a| a.name.clone()).collect();
    assert_eq!(first, second);
    assert_eq!(first, vec!["Alphabet", "Beta", "alpha"]);
}

#[test]
fn finds_the_data_directory() {
    assert_eq!(data_dir(Some("/x/data"), Some("/home/u")), "/x/data/mylauncher");
    assert_eq!(data_dir(Some(""), Some("/home/u")), "/home/u/.local/share/mylauncher");
    assert_eq!(data_dir(None, None), "./.local/share/mylauncher");
}

#[test]
fn finishing_timers_is_monotone() {
    let list = vec![timer("a", 100, false), timer("b", 200, false), timer("c", 300, false)];
    let mut once = list.clone();
    mark_finished(&mut once, 250);
    let mut twice = list.clone();
    mark_finished(&mut twice, 150);
    mark_finished(&mut twice, 250);
    let flags = |l: &Vec<Timer>| l.iter().map(|t| t.finished).collect::<Vec<bool>>();
    assert_eq!(flags(&once), flags(&twice));
    assert_eq!(flags(&once), vec![true, true, false]);
}

#[test]
fn calculator_reads_back_printed_numbers() {
    for n in [0i64, 7, -7, 1234567890, i64::MAX, i64::MIN + 1] {
        assert_eq!(mylauncher::pratt::calculate(&n.to_string()), Ok(n));
    }
    assert!(mylauncher::pratt::calculate(&i64::MIN.to_string()).is_err());
}

#[test]
fn lexer_gives_eof_only_at_the_end() {
    let mut lexer = Lexer::new("1 +");
    assert_eq!(lexer.peek(), Token::Atom(1));
    assert_eq!(lexer.next(), Token::Atom(1));
    assert_eq!(lexer.peek(), Token::Plus);
    assert_eq!(lexer.next(), Token::Plus);
    assert_eq!(lexer.peek(), Token::Eof);
    assert_eq!(lexer.next(), Token::Eof);
    assert_eq!(lexer.next(), Token::Eof);
    assert_eq!(lexer.peek(), Token::Eof);
}

#[test]
fn empty_lists_have_a_message() {
    assert_eq!(empty_message(Screen::Timers, "t:", DisplayMode::Recent), Some("  no timers".to_string()));
    assert_eq!(empty_message(Screen::Calc, "m:", DisplayMode::Recent), Some("  no calculations yet".to_string()));
    assert_eq!(empty_message(Screen::Settings, "s:", DisplayMode::Recent), None);
    assert_eq!(empty_message(Screen::Search, "  ", DisplayMode::Empty), Some("  type to search".to_string()));
    assert_eq!(empty_message(Screen::Search, "  ", DisplayMode::Apps), Some("  no matching apps".to_string()));
    assert_eq!(empty_message(Screen::Search, "zz", DisplayMode::Empty), Some("  no matching apps".to_string()));
}

#[test]
fn row_numbers_match_clear_commands() {
    let list = vec![timer("a", 1, false), timer("b", 2, true), timer("c", 3, false)];
    let rows = timer_rows(&list, 0);
    assert!(rows[1].0.starts_with("2. [done] b"));
    let mut cleared = list.clone();
    assert!(clear_command(&mut cleared, "2"));
    let labels: Vec<String> = cleared.iter().map(|t| t.label.clone()).collect();
    assert_eq!(labels, vec!["a", "c"]);
    let history = vec!["1 = 1".to_string(), "2 = 2".to_string(), "3 = 3".to_string()];
    assert_eq!(history_rows(&history)[0], "1. 3 = 3");
}

#[test]
fn wrapped_ascii_lines_fit() {
    let text = "  a quick-brown-foxish jump over\tthe lazydogsandcats ";
    for width in [0usize, 1, 2, 5, 7, 12, 80] {
        let w = width.max(1);
        for line in wrap(text, width) {
            assert!(!line.is_empty());
            assert!(line.chars().count() <= w);
            assert_eq!(str_width(&line), line.chars().count());
            assert_eq!(line.trim(), line);
        }
    }
    assert_eq!(wrap(" \t\n ", 3), vec![""]);
    assert_eq!(str_width("a b~"), 4);
}

#[test]
fn window_rows_fill_the_space() {
    assert_eq!(shown_rows(&vec![1, 2, 3], 0, 1, 10), (3, 1, true));
    assert_eq!(shown_rows(&vec![1, 2, 3], 0, 2, 4), (4, 0, false));
    assert_eq!(shown_rows(&vec![2, 2, 2], 0, 1, 4), (4, 1, false));
}

#[test]
fn appending_history_keeps_single_lines() {
    let entries = vec!["1 = 1".to_string()];
    assert_eq!(appended_contents(&entries, "2 = 2"), Some("1 = 1\n2 = 2\n".to_string()));
    assert_eq!(appended_contents(&entries, "2\n= 2"), None);
}

#[test]
fn earlier_desktop_ids_shadow_later_files() {
    let mk = |n: &str| App {
        name: n.to_string(),
        command: vec!["x".to_string()],
        icon: None,
        terminal: false,
        path: None,
        dbus_activatable: false,
        desktop_file: String::new(),
    };
    let ids = vec!["a.desktop".to_string(), "b.desktop".to_string(), "a.desktop".to_string()];
    let listed = gather_apps(&ids, vec![None, Some(mk("B")), Some(mk("A2"))]);
    let names: Vec<String> = listed.iter().map(|a| a.name.clone()).collect();
    assert_eq!(names, vec!["B"]);
}
