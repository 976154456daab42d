use mylauncher::apps::App;
use mylauncher::launcher::{
    is_math_mode, match_score, math_command, recency_rank, settings_command, strip_prefix_word,
    timer_command, Effect, Input, Launcher, Step,
};
use mylauncher::settings::{DisplayMode, Settings};

fn app(name: &str) -> App {
    App {
        name: name.to_string(),
        command: vec![name.to_lowercase()],
        icon: None,
        terminal: false,
        path: None,
        dbus_activatable: false,
        desktop_file: format!("/usr/share/applications/{}.desktop", name.to_lowercase()),
    }
}

fn launcher() -> Launcher {
    Launcher::new(
        vec![app("Firefox"), app("Files"), app("GIMP")],
        Vec::new(),
        Settings::default(),
        Vec::new(),
    )
}

fn type_text(l: &mut Launcher, text: &str) {
    for c in text.chars() {
        assert_eq!(l.handle_input(Input::Char { c, ctrl: false }), Step::Continue);
    }
}

fn query(l: &Launcher) -> String {
    l.query.iter().collect()
}

fn names(apps: &[App]) -> Vec<String> {
    apps.iter().map(|a| a.name.clone()).collect()
}

#[test]
fn typing_edits_the_query_at_the_cursor() {
    let mut l = launcher();
    type_text(&mut l, "fox");
    assert_eq!(query(&l), "fox");
    assert_eq!(l.cursor, 3);
    l.handle_input(Input::Home);
    type_text(&mut l, "fire");
    assert_eq!(query(&l), "firefox");
    assert_eq!(l.cursor, 4);
    l.handle_input(Input::Delete);
    assert_eq!(query(&l), "fireox");
    l.handle_input(Input::Backspace);
    assert_eq!(query(&l), "firox");
    assert_eq!(l.cursor, 3);
    l.handle_input(Input::End);
    assert_eq!(l.cursor, 5);
}

#[test]
fn type_then_backspace_restores_the_query() {
    let mut l = launcher();
    type_text(&mut l, "gi");
    l.handle_input(Input::Left);
    let before = query(&l);
    let cursor = l.cursor;
    type_text(&mut l, "x");
    l.handle_input(Input::Backspace);
    assert_eq!(query(&l), before);
    assert_eq!(l.cursor, cursor);
}

#[test]
fn control_keys_quit_clear_and_delete_words() {
    let mut l = launcher();
    type_text(&mut l, "foo bar");
    assert_eq!(l.handle_input(Input::Char { c: 'w', ctrl: true }), Step::Continue);
    assert_eq!(query(&l), "foo");
    assert_eq!(l.cursor, 3);
    l.handle_input(Input::Char { c: 'u', ctrl: true });
    assert_eq!(query(&l), "");
    assert_eq!(l.cursor, 0);
    assert_eq!(l.handle_input(Input::Char { c: 'c', ctrl: true }), Step::Quit);
    assert_eq!(l.handle_input(Input::Esc), Step::Quit);
    assert_eq!(l.handle_input(Input::Enter), Step::Enter);
    l.handle_input(Input::Char { c: 'a', ctrl: true });
    assert_eq!(query(&l), "a");
}

#[test]
fn matches_are_scored_and_ordered() {
    let mut l = launcher();
    type_text(&mut l, "fi");
    assert_eq!(names(&l.matching_apps()), vec!["Firefox", "Files"]);
    l.handle_input(Input::Char { c: 'u', ctrl: true });
    type_text(&mut l, "fire");
    assert_eq!(names(&l.matching_apps()), vec!["Firefox"]);
    l.handle_input(Input::Char { c: 'u', ctrl: true });
    type_text(&mut l, "  GmP ");
    assert_eq!(names(&l.matching_apps()), vec!["GIMP"]);
}

#[test]
fn empty_query_follows_the_display_setting() {
    let mut l = launcher();
    l.recents = vec!["GIMP".to_string(), "Files".to_string()];
    assert_eq!(names(&l.matching_apps()), vec!["GIMP", "Files", "Firefox"]);
    l.settings.display = DisplayMode::Apps;
    assert_eq!(names(&l.matching_apps()), vec!["Firefox", "Files", "GIMP"]);
    l.settings.display = DisplayMode::Empty;
    assert!(l.matching_apps().is_empty());
}

#[test]
fn match_scores_rank_prefix_run_and_scatter() {
    assert_eq!(match_score("firefox", ""), Some(0));
    assert_eq!(match_score("firefox", "fire"), Some(0));
    assert_eq!(match_score("firefox", "fox"), Some(1));
    assert_eq!(match_score("firefox", "ffx"), Some(2));
    assert_eq!(match_score("firefox", "xf"), None);
    let recents = vec!["a".to_string(), "b".to_string()];
    assert_eq!(recency_rank(&recents, "b"), 1);
    assert_eq!(recency_rank(&recents, "c"), usize::MAX);
}

#[test]
fn selection_moves_within_the_matches() {
    let mut l = launcher();
    l.handle_input(Input::Down);
    l.handle_input(Input::PageDown);
    assert_eq!(l.selected, 2);
    l.handle_input(Input::Up);
    assert_eq!(l.selected, 1);
    l.handle_input(Input::PageUp);
    assert_eq!(l.selected, 0);
    l.handle_input(Input::Char { c: 'n', ctrl: true });
    assert_eq!(l.selected, 1);
    l.handle_input(Input::Char { c: 'p', ctrl: true });
    assert_eq!(l.selected, 0);
}

#[test]
fn mode_prefixes_are_recognised() {
    assert_eq!(timer_command("  t:  5m tea "), Some("5m tea".to_string()));
    assert_eq!(timer_command("t:"), Some(String::new()));
    assert_eq!(math_command("m:1+1"), Some("1+1".to_string()));
    assert_eq!(settings_command("x s: 1"), None);
    assert!(is_math_mode(" m: "));
    assert!(!is_math_mode("mm:"));
    assert_eq!(strip_prefix_word("clear  3", "clear"), Some("3".to_string()));
    assert_eq!(strip_prefix_word("clear", "clear"), Some(String::new()));
    assert_eq!(strip_prefix_word("clearly", "clear"), None);
}

#[test]
fn enter_adds_a_timer() {
    let mut l = launcher();
    type_text(&mut l, "t: 5m coffee");
    let effect = l.enter(1000);
    match &effect {
        Effect::AddTimer { timer } => {
            assert_eq!(timer.label, "coffee");
            assert_eq!(timer.end_unix, 1300);
            assert!(!timer.finished);
        }
        _ => panic!("expected a new timer"),
    }
    assert!(!l.resolve(&effect, None));
    assert_eq!(query(&l), "t: ");
    assert_eq!(l.cursor, 3);
}

#[test]
fn enter_reports_a_timer_too_large() {
    let mut l = launcher();
    type_text(&mut l, "t: 18446744073709551615s");
    let effect = l.enter(1);
    assert!(matches!(effect, Effect::Nothing));
    assert_eq!(l.launch_error, Some("timer duration is too large".to_string()));
}

#[test]
fn enter_clears_timers() {
    let mut l = launcher();
    type_text(&mut l, "t: clear done");
    let effect = l.enter(0);
    match &effect {
        Effect::ClearTimers { argument } => assert_eq!(argument, "done"),
        _ => panic!("expected a clear"),
    }
    assert_eq!(query(&l), "t: ");
    assert!(!l.resolve(&effect, Some("disk full".to_string())));
    assert_eq!(l.launch_error, Some("timer failed: disk full".to_string()));
}

#[test]
fn enter_calculates_recalls_and_clears() {
    let mut l = launcher();
    type_text(&mut l, "m: 2+2");
    let effect = l.enter(0);
    match &effect {
        Effect::AppendHistory { entry } => assert_eq!(entry, "2+2 = 4"),
        _ => panic!("expected a history entry"),
    }
    assert_eq!(query(&l), "m: ");
    l.resolve(&effect, None);
    assert_eq!(l.math_history, vec!["2+2 = 4"]);

    let effect = l.enter(0);
    assert!(matches!(effect, Effect::Nothing));
    assert_eq!(query(&l), "m: 2+2");

    l.math_history.push("3*3 = 9".to_string());
    l.handle_input(Input::Char { c: 'u', ctrl: true });
    type_text(&mut l, "m: clear 1");
    let effect = l.enter(0);
    assert!(matches!(effect, Effect::SaveHistory));
    assert_eq!(l.math_history, vec!["2+2 = 4"]);
    assert_eq!(query(&l), "m: ");

    l.handle_input(Input::Char { c: 'u', ctrl: true });
    type_text(&mut l, "m: delete ALL");
    l.enter(0);
    assert!(l.math_history.is_empty());
}

#[test]
fn enter_keeps_a_failed_calculation() {
    let mut l = launcher();
    type_text(&mut l, "m: 1/0");
    assert!(matches!(l.enter(0), Effect::Nothing));
    assert_eq!(query(&l), "m: 1/0");
}

#[test]
fn enter_changes_settings() {
    let mut l = launcher();
    type_text(&mut l, "s: 1 true");
    assert!(matches!(l.enter(0), Effect::SaveSettings));
    assert!(l.settings.background);
    assert_eq!(query(&l), "s: ");
    type_text(&mut l, "4 none");
    assert!(matches!(l.enter(0), Effect::SaveSettings));
    assert_eq!(l.settings.display, DisplayMode::Empty);
    type_text(&mut l, "2 maybe");
    assert!(matches!(l.enter(0), Effect::Nothing));
    assert!(l.settings.footer);
}

#[test]
fn enter_launches_the_selected_app() {
    let mut l = launcher();
    type_text(&mut l, "fi");
    l.handle_input(Input::Down);
    let effect = l.enter(0);
    match &effect {
        Effect::Launch { app } => assert_eq!(app.name, "Files"),
        _ => panic!("expected a launch"),
    }
    assert!(!l.resolve(&effect, Some("not found".to_string())));
    assert_eq!(l.launch_error, Some("launch failed: not found".to_string()));
    assert!(l.resolve(&effect, None));
}

#[test]
fn enter_without_matches_does_nothing() {
    let mut l = launcher();
    type_text(&mut l, "zzz");
    l.selected = 4;
    assert!(matches!(l.enter(0), Effect::Nothing));
    assert_eq!(l.selected, 0);
}

#[test]
fn shown_matches_keep_the_selection_on_the_list() {
    let mut l = launcher();
    type_text(&mut l, "fi");
    l.selected = 7;
    let shown = l.shown_matches();
    assert_eq!(names(&shown), vec!["Firefox", "Files"]);
    assert_eq!(l.selected, 1);
    l.selected = 0;
    l.shown_matches();
    assert_eq!(l.selected, 0);
}

#[test]
fn history_selection_is_kept_on_the_history() {
    let mut l = launcher();
    l.history_selected = 5;
    l.clamp_history();
    assert_eq!(l.history_selected, 5);
    l.math_history = vec!["1 = 1".to_string(), "2 = 2".to_string()];
    l.clamp_history();
    assert_eq!(l.history_selected, 1);
}

#[test]
fn launching_records_the_app_first() {
    let mut l = launcher();
    let stored = vec!["GIMP".to_string(), "Files".to_string()];
    l.launched(&stored, "Files");
    assert_eq!(l.recents, vec!["Files", "GIMP"]);
}
