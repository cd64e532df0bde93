use xcode_log_parse::common::XcodebuildParser;
use xcode_log_parse::driver::{finish, step};
use xcode_log_parse::formatter::resolve_formatter;

/// What a run writes for `lines` with the formatter of this name.
fn written(formatter: &str, lines: &[&str]) -> String {
    let mut parser = XcodebuildParser::new();
    let mut formatter = resolve_formatter(formatter).unwrap();
    let mut out = String::new();
    for line in lines {
        out.push_str(&step(&mut parser, &mut formatter, line));
    }
    out.push_str(&finish(&parser, &mut formatter));
    out
}

const LOG: [&str; 9] = [
    "=== BUILD TARGET App ===",
    "",
    "CompileC /out/Foo.o /src/Foo.m (in target: App)",
    "    cd /src",
    "warning: unused variable",
    "",
    "Ld /out/App (in target: App)",
    "",
    "** BUILD SUCCEEDED ** [2.5 sec]",
];

#[test]
fn a_run_with_the_plain_formatter() {
    assert_eq!(
        written("plain", &LOG),
        "\u{1F6E0}  Building App\n\u{25B8} Compiling Foo.o\n\u{26A0}\u{FE0F} warning: unused variable\n\u{25B8} Linking App\nBUILD SUCCEEDED [2.5 sec]\n\n"
    );
}

#[test]
fn a_run_with_the_summary_counter() {
    assert_eq!(
        written("summary-counter", &LOG),
        "\u{1b}[0KTarget: 1\n\u{1b}[0KCompileC: 1\n\u{1b}[0Kwarning: 1\n\u{1b}[0KLd: 1\n"
    );
}

#[test]
fn a_run_with_the_live_counter() {
    assert_eq!(
        written("live-counter", &["note: a", "Ld x", "", "note: b"]),
        "\u{1b}[0Knote: 1\n\u{1b}[1A\u{1b}[0Knote: 1\n\u{1b}[0KLd: 1\n\u{1b}[2A\u{1b}[0Knote: 2\n\u{1b}[0KLd: 1\n"
    );
}

#[test]
fn a_run_with_the_null_formatter() {
    assert_eq!(written("null", &LOG), "");
    assert_eq!(written("null", &["    never recognised"]), "");
}

#[test]
fn a_run_that_ends_in_text_without_a_match() {
    assert_eq!(
        written("plain", &["note: fine", "    never recognised", "note: lost"]),
        "\u{1F4DD} note: fine\nNoMatch\n"
    );
    assert_eq!(written("summary-counter", &["Ld never closed"]), "NoMatch\n");
    assert_eq!(
        written("summary-counter", &["note: x", "Ld never closed"]),
        "NoMatch\n\u{1b}[0Knote: 1\n"
    );
    assert_eq!(written("live-counter", &["Ld never closed"]), "NoMatch\n");
}

#[test]
fn a_run_without_input_writes_nothing() {
    assert_eq!(written("plain", &[]), "");
    assert_eq!(written("summary-counter", &[]), "");
    assert_eq!(written("live-counter", &[]), "");
}
