use mylauncher::apps::{app_from_fields, parse_desktop_fields, parse_exec, valid_field_codes};
use mylauncher::pratt::calculate;
use mylauncher::timers::{format_remaining, parse_timer_input};
use std::time::Duration;

#[test]
fn parses_desktop_exec_quoting() {
    assert_eq!(
        parse_exec("\"/tmp/my app\" \"two words\" %%").unwrap(),
        vec!["/tmp/my app", "two words", "%%"]
    );
    assert_eq!(
        parse_exec("flatpak 'run' '%U'").unwrap(),
        vec!["flatpak", "run", "%U"]
    );
}

#[test]
fn validates_field_codes() {
    assert!(valid_field_codes("foo%%bar"));
    assert!(valid_field_codes("%c"));
    assert!(!valid_field_codes("foo%c"));
    assert!(!valid_field_codes("%x"));
    assert!(!valid_field_codes("%"));
}

#[test]
fn parses_launch_metadata() {
    let contents = "[Desktop Entry]\nType=Application\nName=Example\nExec=\"/tmp/my app\" --value \"two words\"\nTerminal=true\nPath=/tmp\n";
    let fields = parse_desktop_fields(contents);
    let app = app_from_fields(&fields, &Vec::new(), true, "/tmp/example.desktop").unwrap();
    assert_eq!(app.name, "Example");
    assert_eq!(app.command, vec!["/tmp/my app", "--value", "two words"]);
    assert!(app.terminal);
    assert_eq!(app.path, Some("/tmp".to_string()));
}

#[test]
fn rejects_unknown_and_trailing_input() {
    for input in ["2garbage", "2 3", "2$+3", "(1)2"] {
        assert!(calculate(input).is_err(), "accepted {input:?}");
    }
}

#[test]
fn rejects_integer_overflow() {
    assert!(calculate("9223372036854775807+1").is_err());
    assert!(calculate("3037000500*3037000500").is_err());
    assert!(calculate("-(-9223372036854775807-1)").is_err());
}

#[test]
fn evaluates_valid_expressions() {
    assert_eq!(calculate("2 + 3 * (4 - 1)"), Ok(11));
    assert_eq!(calculate("-7 / 2"), Ok(-3));
}

#[test]
fn parses_whitespace_separated_labels() {
    assert_eq!(
        parse_timer_input("5m\tcoffee").map(|(secs, label)| (Duration::from_secs(secs), label)),
        Some((Duration::from_secs(300), "coffee".to_string()))
    );
}

#[test]
fn rejects_duration_overflow() {
    assert!(parse_timer_input("18446744073709551615s").is_some());
    assert!(parse_timer_input("9999999999999999h").is_none());
}

#[test]
fn formats_remaining() {
    assert_eq!(format_remaining(Duration::from_secs(3723).as_secs()), "01:02:03");
    assert_eq!(format_remaining(Duration::from_secs(59).as_secs()), "00:59");
}
