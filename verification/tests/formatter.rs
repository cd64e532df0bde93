use xcode_log_parse::common::{Parser, ParserEvent, ParserResult, XcodebuildParser};
use xcode_log_parse::formatter::{
    resolve_formatter, AnyFormatter, Counted, Counter, Formatter, LiveCounterFormatter,
    NullFormatter, PlainTextFormatter, SummaryCounterFormatter,
};
use xcode_log_parse::text::{chars_of, is_text, push_decimal, same_text, string_of};

fn st(t: &str) -> String {
    t.to_string()
}

fn sts(ts: &[&str]) -> Vec<String> {
    ts.iter().map(|t| t.to_string()).collect()
}

fn sample_events() -> Vec<ParserEvent> {
    vec![
        ParserEvent::BeginTarget(st("App")),
        ParserEvent::BeginCommand(st("CompileC"), sts(&["/out/Foo.o", "/src/Foo.m"])),
        ParserEvent::Message(st("warning"), st("unused")),
        ParserEvent::BeginCommand(st("CompileC"), sts(&["/out/Bar.o"])),
        ParserEvent::BeginSubCommand(st("clang"), sts(&["-c"])),
        ParserEvent::Status(st("BUILD"), st("SUCCEEDED"), None),
    ]
}

#[test]
fn plain_messages_carry_their_sign() {
    let mut f = PlainTextFormatter::new();
    assert_eq!(
        f.print_event(ParserEvent::Message(st("note"), st("a"))),
        "\u{1F4DD} note: a\n"
    );
    assert_eq!(
        f.print_event(ParserEvent::Message(st("warning"), st("b"))),
        "\u{26A0}\u{FE0F} warning: b\n"
    );
    assert_eq!(
        f.print_event(ParserEvent::Message(st("error"), st("c"))),
        "\u{274C} error: c\n"
    );
    assert_eq!(f.print_event(ParserEvent::Message(st("ld"), st("d"))), "ld: d\n");
}

#[test]
fn plain_status_is_followed_by_an_empty_line() {
    let mut f = PlainTextFormatter::new();
    assert_eq!(
        f.print_event(ParserEvent::Status(st("BUILD"), st("SUCCEEDED"), Some(st("1.5 sec")))),
        "BUILD SUCCEEDED [1.5 sec]\n\n"
    );
    assert_eq!(
        f.print_event(ParserEvent::Status(st("CLEAN"), st("FAILED"), None)),
        "CLEAN FAILED\n\n"
    );
}

#[test]
fn plain_target_line() {
    let mut f = PlainTextFormatter::new();
    assert_eq!(
        f.print_event(ParserEvent::BeginTarget(st("My App"))),
        "\u{1F6E0}  Building My App\n"
    );
}

#[test]
fn plain_commands_show_the_file_name_of_their_first_argument() {
    let mut f = PlainTextFormatter::new();
    assert_eq!(
        f.print_event(ParserEvent::BeginCommand(st("CompileC"), sts(&["/out/Foo.o", "/src/Foo.m"]))),
        "\u{25B8} Compiling Foo.o\n"
    );
    assert_eq!(
        f.print_event(ParserEvent::BeginCommand(st("CompileXIB"), sts(&["Main.xib"]))),
        "\u{25B8} Compiling Main.xib\n"
    );
    assert_eq!(
        f.print_event(ParserEvent::BeginCommand(st("CpResource"), sts(&["/out/dir/a.png"]))),
        "\u{25B8} Copying a.png\n"
    );
    assert_eq!(
        f.print_event(ParserEvent::BeginCommand(st("CopyStringsFile"), sts(&["/out/x.strings"]))),
        "\u{25B8} Copying x.strings\n"
    );
    assert_eq!(
        f.print_event(ParserEvent::BeginCommand(st("ProcessPCH"), sts(&["/out/p.pch"]))),
        "\u{25B8} Precompiling p.pch\n"
    );
    assert_eq!(
        f.print_event(ParserEvent::BeginCommand(st("Ld"), sts(&["/out/App.app/App"]))),
        "\u{25B8} Linking App\n"
    );
}

#[test]
fn plain_passes_over_what_it_does_not_show() {
    let mut f = PlainTextFormatter::new();
    // a command of another name
    assert_eq!(f.print_event(ParserEvent::BeginCommand(st("Touch"), sts(&["/out/a"]))), "");
    // a command without a first argument, or whose argument has no file name
    assert_eq!(f.print_event(ParserEvent::BeginCommand(st("Ld"), vec![])), "");
    assert_eq!(f.print_event(ParserEvent::BeginCommand(st("Ld"), sts(&["/out/.."]))), "");
    // nesting is not written
    assert_eq!(f.print_event(ParserEvent::BeginSubCommand(st("cd"), sts(&["/src"]))), "");
    assert_eq!(f.print_event(ParserEvent::EndSubCommand(st("cd"), sts(&["/src"]))), "");
    assert_eq!(f.print_event(ParserEvent::EndCommand(st("Ld"), vec![])), "");
    assert_eq!(f.print_event(ParserEvent::EndCommand(st("Ld"), vec![])), "");
    assert_eq!(f.indentation(), "");
}

#[test]
fn plain_render_event_takes_the_file_name_as_given() {
    let mut f = PlainTextFormatter::new();
    assert_eq!(
        f.render_event(
            ParserEvent::BeginCommand(st("Ld"), sts(&["/out/App"])),
            Some(st("given"))
        ),
        "\u{25B8} Linking given\n"
    );
    assert_eq!(
        f.render_event(ParserEvent::BeginCommand(st("Ld"), sts(&["/out/App"])), None),
        ""
    );
    assert_eq!(
        f.render_event(ParserEvent::Message(st("note"), st("x")), Some(st("ignored"))),
        "\u{1F4DD} note: x\n"
    );
}

#[test]
fn plain_format_writes_the_events_in_order() {
    let mut f = PlainTextFormatter::new();
    assert_eq!(
        f.format(ParserResult::Commands(sample_events())),
        "\u{1F6E0}  Building App\n\u{25B8} Compiling Foo.o\n\u{26A0}\u{FE0F} warning: unused\n\u{25B8} Compiling Bar.o\nBUILD SUCCEEDED\n\n"
    );
    assert_eq!(f.format(ParserResult::Commands(vec![])), "");
    assert_eq!(f.format(ParserResult::Continue), "");
    assert_eq!(f.finalize(), "");
}

#[test]
fn no_match_is_written_as_its_marker() {
    assert_eq!(PlainTextFormatter::new().format(ParserResult::NoMatch), "NoMatch\n");
    assert_eq!(LiveCounterFormatter::new().format(ParserResult::NoMatch), "NoMatch\n");
    assert_eq!(SummaryCounterFormatter::new().format(ParserResult::NoMatch), "NoMatch\n");
}

#[test]
fn unmatched_line_at_end_of_input_reaches_the_formatter() {
    let mut parser = XcodebuildParser::new();
    let mut formatter = PlainTextFormatter::new();
    let first = match parser.read_line("\tnot a line of the log") {
        Ok(result) => formatter.format(result),
        Err(_) => formatter.format(ParserResult::NoMatch),
    };
    assert_eq!(first, "");
    let owed = parser.end_of_input();
    assert_eq!(owed, Some(ParserResult::NoMatch));
    assert_eq!(formatter.format(owed.unwrap()), "NoMatch\n");
}

#[test]
fn counter_counts_targets_messages_by_kind_and_commands_by_name() {
    let mut counter = Counter::new();
    assert_eq!(counter.metrics_len(), 0);
    assert_eq!(counter.write_lines(), "");
    for event in sample_events() {
        counter.count_event(event);
    }
    assert_eq!(counter.metrics_len(), 3);
    assert_eq!(
        counter.write_lines(),
        "\u{1b}[0KTarget: 1\n\u{1b}[0KCompileC: 2\n\u{1b}[0Kwarning: 1\n"
    );
}

#[test]
fn counter_keeps_kinds_and_names_apart() {
    let mut counter = Counter::new();
    counter.increment(Counted::Message(st("Ld")));
    counter.increment(Counted::Command(st("Ld")));
    counter.increment(Counted::Message(st("Ld")));
    counter.increment(Counted::Target);
    counter.increment(Counted::Command(st("Target")));
    assert_eq!(counter.metrics_len(), 4);
    assert_eq!(
        counter.write_lines(),
        "\u{1b}[0KLd: 2\n\u{1b}[0KLd: 1\n\u{1b}[0KTarget: 1\n\u{1b}[0KTarget: 1\n"
    );
    assert!(Counted::Target.same(&Counted::Target));
    assert!(!Counted::Message(st("a")).same(&Counted::Command(st("a"))));
    assert!(!Counted::Message(st("a")).same(&Counted::Message(st("b"))));
    assert_eq!(Counted::Target.name(), "Target");
    assert_eq!(Counted::Command(st("Ld")).name(), "Ld");
}

#[test]
fn counter_writes_counts_of_several_digits() {
    let mut counter = Counter::new();
    for _ in 0..120 {
        counter.increment(Counted::Target);
    }
    assert_eq!(counter.write_lines(), "\u{1b}[0KTarget: 120\n");
}

#[test]
fn live_counter_writes_over_its_last_lines() {
    let mut f = LiveCounterFormatter::new();
    assert_eq!(
        f.format(ParserResult::Commands(vec![
            ParserEvent::BeginTarget(st("App")),
            ParserEvent::Message(st("note"), st("x")),
        ])),
        "\u{1b}[0KTarget: 1\n\u{1b}[0Knote: 1\n"
    );
    assert_eq!(f.format(ParserResult::Continue), "");
    assert_eq!(
        f.format(ParserResult::Commands(vec![ParserEvent::BeginCommand(st("Ld"), vec![])])),
        "\u{1b}[2A\u{1b}[0KTarget: 1\n\u{1b}[0Knote: 1\n\u{1b}[0KLd: 1\n"
    );
    assert_eq!(
        f.format(ParserResult::Commands(vec![])),
        "\u{1b}[3A\u{1b}[0KTarget: 1\n\u{1b}[0Knote: 1\n\u{1b}[0KLd: 1\n"
    );
    assert_eq!(f.finalize(), "");
}

#[test]
fn live_counter_with_nothing_counted_writes_nothing() {
    let mut f = LiveCounterFormatter::new();
    assert_eq!(f.format(ParserResult::Commands(vec![])), "");
    f.update_for_event(ParserEvent::BeginTarget(st("App")));
    assert_eq!(f.print(), "\u{1b}[0KTarget: 1\n");
    assert_eq!(f.print(), "\u{1b}[1A\u{1b}[0KTarget: 1\n");
}

#[test]
fn summary_counter_writes_at_the_end() {
    let mut f = SummaryCounterFormatter::new();
    assert_eq!(f.format(ParserResult::Commands(sample_events())), "");
    assert_eq!(f.format(ParserResult::Continue), "");
    f.update_for_event(ParserEvent::BeginTarget(st("Lib")));
    assert_eq!(
        f.finalize(),
        "\u{1b}[0KTarget: 2\n\u{1b}[0KCompileC: 2\n\u{1b}[0Kwarning: 1\n"
    );
}

#[test]
fn null_formatter_writes_nothing() {
    let mut f = NullFormatter::new();
    assert_eq!(f.format(ParserResult::Commands(sample_events())), "");
    assert_eq!(f.format(ParserResult::NoMatch), "");
    assert_eq!(f.format(ParserResult::Continue), "");
    assert_eq!(f.finalize(), "");
}

#[test]
fn resolve_formatter_knows_four_names() {
    assert!(matches!(resolve_formatter("plain"), Ok(AnyFormatter::Plain(_))));
    assert!(matches!(resolve_formatter("live-counter"), Ok(AnyFormatter::LiveCounter(_))));
    assert!(matches!(
        resolve_formatter("summary-counter"),
        Ok(AnyFormatter::SummaryCounter(_))
    ));
    assert!(matches!(resolve_formatter("null"), Ok(AnyFormatter::Null(_))));
}

#[test]
fn resolve_formatter_refuses_other_names() {
    assert!(matches!(resolve_formatter("fancy"), Err("Unknown formatter type")));
    assert!(matches!(resolve_formatter(""), Err("Unknown formatter type")));
    assert!(matches!(resolve_formatter("Plain"), Err("Unknown formatter type")));
}

#[test]
fn a_resolved_formatter_does_what_its_kind_does() {
    let mut plain = resolve_formatter("plain").unwrap();
    assert_eq!(
        plain.format(ParserResult::Commands(vec![ParserEvent::BeginTarget(st("App"))])),
        "\u{1F6E0}  Building App\n"
    );
    assert_eq!(plain.finalize(), "");
    let mut summary = resolve_formatter("summary-counter").unwrap();
    assert_eq!(
        summary.format(ParserResult::Commands(vec![ParserEvent::BeginTarget(st("App"))])),
        ""
    );
    assert_eq!(summary.finalize(), "\u{1b}[0KTarget: 1\n");
    let mut live = resolve_formatter("live-counter").unwrap();
    assert_eq!(
        live.format(ParserResult::Commands(vec![ParserEvent::BeginTarget(st("App"))])),
        "\u{1b}[0KTarget: 1\n"
    );
    let mut null = resolve_formatter("null").unwrap();
    assert_eq!(null.format(ParserResult::NoMatch), "");
}

#[test]
fn text_helpers() {
    assert_eq!(chars_of("añ✓"), vec!['a', 'ñ', '✓']);
    assert_eq!(chars_of(""), Vec::<char>::new());
    assert_eq!(string_of(&vec!['a', 'b', 'c', 'd'], 1, 3), "bc");
    assert_eq!(string_of(&vec!['a', 'b'], 2, 2), "");
    assert!(same_text("plain", "plain"));
    assert!(!same_text("plain", "plain "));
    assert!(is_text(&st("Ld"), "Ld"));
    assert!(!is_text(&st("Ld"), "ld"));
}

#[test]
fn decimal_digits() {
    let mut out = st("n=");
    push_decimal(&mut out, 0);
    push_decimal(&mut out, 7);
    push_decimal(&mut out, 10);
    push_decimal(&mut out, 18446744073709551615);
    assert_eq!(out, "n=071018446744073709551615");
}

#[test]
fn default_formatters_are_new_formatters() {
    let mut live = LiveCounterFormatter::default();
    assert_eq!(live.print(), "");
    let mut summary = SummaryCounterFormatter::default();
    assert_eq!(summary.finalize(), "");
    let mut null = NullFormatter::default();
    assert_eq!(null.finalize(), "");
    let counter = Counter::default();
    assert_eq!(counter.metrics_len(), 0);
}
