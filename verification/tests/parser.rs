use xcode_log_parse::common::{
    surfaced, Parser, ParserError, ParserEvent, ParserResult, XcodebuildParser,
};
use xcode_log_parse::grammar_parser::NoMatch;
use xcode_log_parse::tree::{Node, Rule};

fn s(text: &str) -> String {
    text.to_string()
}

fn strings(texts: &[&str]) -> Vec<String> {
    texts.iter().map(|t| t.to_string()).collect()
}

fn feed(parser: &mut XcodebuildParser, line: &str) -> ParserResult {
    match parser.read_line(line) {
        Ok(result) => result,
        Err(_) => panic!("the parser failed"),
    }
}

/// The events of one call for each line, all together.
fn feed_all(parser: &mut XcodebuildParser, lines: &[&str]) -> Vec<ParserEvent> {
    let mut events = Vec::new();
    for line in lines {
        match feed(parser, line) {
            ParserResult::Commands(more) => events.extend(more),
            ParserResult::Continue => {}
            ParserResult::NoMatch => panic!("the parser never answers NoMatch"),
        }
    }
    events
}

#[test]
fn compile_command_with_target() {
    let mut parser = XcodebuildParser::new();
    assert_eq!(
        feed(&mut parser, "CompileC /out/Foo.o /src/Foo.m (in target: App)"),
        ParserResult::Continue
    );
    assert_eq!(feed(&mut parser, "    cd /src"), ParserResult::Continue);
    assert_eq!(feed(&mut parser, "    clang -c Foo.m"), ParserResult::Continue);
    assert_eq!(
        feed(&mut parser, ""),
        ParserResult::Commands(vec![
            ParserEvent::BeginTarget(s("App")),
            ParserEvent::BeginCommand(s("CompileC"), strings(&["/out/Foo.o", "/src/Foo.m"])),
        ])
    );
}

#[test]
fn note_line_gives_one_message() {
    let mut parser = XcodebuildParser::new();
    assert_eq!(
        feed(&mut parser, "note: detected encoding of input file as Unicode (UTF-8)"),
        ParserResult::Commands(vec![ParserEvent::Message(
            s("note"),
            s("detected encoding of input file as Unicode (UTF-8)")
        )])
    );
}

#[test]
fn unknown_line_is_no_match_at_end_of_input() {
    let mut parser = XcodebuildParser::new();
    assert_eq!(parser.end_of_input(), None);
    assert_eq!(
        feed(&mut parser, "    indented text with nothing above it"),
        ParserResult::Continue
    );
    assert_eq!(parser.end_of_input(), Some(ParserResult::NoMatch));
}

#[test]
fn consumed_input_leaves_nothing_at_end_of_input() {
    let mut parser = XcodebuildParser::new();
    feed(&mut parser, "warning: something");
    assert_eq!(parser.end_of_input(), None);
}

#[test]
fn a_failed_parser_is_surfaced_as_no_match() {
    assert_eq!(surfaced(Err(ParserError {})), ParserResult::NoMatch);
    assert_eq!(surfaced(Ok(ParserResult::Continue)), ParserResult::Continue);
    assert_eq!(
        surfaced(Ok(ParserResult::Commands(vec![ParserEvent::BeginTarget(s("App"))]))),
        ParserResult::Commands(vec![ParserEvent::BeginTarget(s("App"))])
    );
}

#[test]
fn targets_are_announced_once() {
    let mut parser = XcodebuildParser::new();
    let events = feed_all(
        &mut parser,
        &[
            "Ld /out/a (in target: T1)",
            "",
            "Ld /out/b (in target: T2)",
            "",
            "Ld /out/c (in target: T1)",
            "",
            "Ld /out/d (in target: T3)",
            "",
        ],
    );
    assert_eq!(
        events,
        vec![
            ParserEvent::BeginTarget(s("T1")),
            ParserEvent::BeginCommand(s("Ld"), strings(&["/out/a"])),
            ParserEvent::BeginTarget(s("T2")),
            ParserEvent::BeginCommand(s("Ld"), strings(&["/out/b"])),
            ParserEvent::BeginCommand(s("Ld"), strings(&["/out/c"])),
            ParserEvent::BeginTarget(s("T3")),
            ParserEvent::BeginCommand(s("Ld"), strings(&["/out/d"])),
        ]
    );
    let targets = events
        .iter()
        .filter(|e| matches!(e, ParserEvent::BeginTarget(_)))
        .count();
    assert_eq!(targets, 3);
    assert!(parser.has_seen(&s("T1")));
    assert!(parser.has_seen(&s("T2")));
    assert!(parser.has_seen(&s("T3")));
    assert!(!parser.has_seen(&s("T4")));
}

#[test]
fn targets_are_announced_once_within_one_call() {
    let mut parser = XcodebuildParser::new();
    let text = "Ld /out/a (in target: T1)\n\nLd /out/b (in target: T1)\n";
    assert_eq!(
        feed(&mut parser, text),
        ParserResult::Commands(vec![
            ParserEvent::BeginTarget(s("T1")),
            ParserEvent::BeginCommand(s("Ld"), strings(&["/out/a"])),
            ParserEvent::BeginCommand(s("Ld"), strings(&["/out/b"])),
        ])
    );
}

#[test]
fn one_call_and_line_by_line_give_the_same_events() {
    let lines = [
        "=== BUILD TARGET App OF PROJECT App WITH CONFIGURATION Debug ===",
        "",
        "Check dependencies",
        "",
        "CompileC /out/Foo.o /src/Foo.m normal x86_64 (in target: App)",
        "    cd /src",
        "    clang -c Foo.m",
        "warning: unused variable",
        "",
        "Ld /out/App normal x86_64 (in target: App)",
        "    cd /src",
        "",
        "note: done",
        "** BUILD SUCCEEDED ** [1.234 sec]",
    ];
    let mut by_line = XcodebuildParser::new();
    let split = feed_all(&mut by_line, &lines);

    let mut at_once = XcodebuildParser::new();
    let whole = match feed(&mut at_once, &lines.join("\n")) {
        ParserResult::Commands(events) => events,
        other => panic!("expected events, got {:?}", other),
    };
    assert_eq!(split, whole);
    assert_eq!(
        whole,
        vec![
            ParserEvent::BeginCommand(s("Check"), strings(&["dependencies"])),
            ParserEvent::BeginTarget(s("App")),
            ParserEvent::BeginCommand(
                s("CompileC"),
                strings(&["/out/Foo.o", "/src/Foo.m", "normal", "x86_64"])
            ),
            ParserEvent::Message(s("warning"), s("unused variable")),
            ParserEvent::BeginCommand(s("Ld"), strings(&["/out/App", "normal", "x86_64"])),
            ParserEvent::Message(s("note"), s("done")),
            ParserEvent::Status(s("BUILD"), s("SUCCEEDED"), Some(s("1.234 sec"))),
        ]
    );
    assert_eq!(by_line.buffered(), at_once.buffered());
    assert_eq!(by_line.consumed_offset(), at_once.consumed_offset());
}

#[test]
fn consumed_offset_never_decreases() {
    let mut parser = XcodebuildParser::new();
    assert_eq!(parser.buffered(), 0);
    assert_eq!(parser.consumed_offset(), 0);
    let lines = [
        "note: a",
        "Ld /out/a",
        "    cd /src",
        "",
        "",
        "    stray",
        "note: b",
        "",
    ];
    let mut last = 0;
    let mut buffered = 0;
    let mut offsets = Vec::new();
    for line in lines {
        feed(&mut parser, line);
        assert!(parser.consumed_offset() >= last);
        assert!(parser.consumed_offset() <= parser.buffered());
        assert_eq!(parser.buffered(), buffered + line.chars().count() + 1);
        last = parser.consumed_offset();
        buffered = parser.buffered();
        offsets.push(last);
    }
    // "note: a\n" is 8 characters; the command is complete after 31; the
    // second blank line is a comment; the stray line is never consumed
    assert_eq!(offsets, vec![8, 8, 8, 31, 32, 32, 32, 32]);
}

#[test]
fn open_command_returns_nothing_until_its_blank_line() {
    let mut parser = XcodebuildParser::new();
    let body = [
        "CpResource /out/a.png /src/a.png (in target: App)",
        "    cd /src",
        "    builtin-copy -exclude .DS_Store /src/a.png /out",
        "note: copied",
        "    touch /out/a.png",
    ];
    for line in body {
        assert_eq!(feed(&mut parser, line), ParserResult::Continue);
        assert_eq!(parser.consumed_offset(), 0);
    }
    assert_eq!(
        feed(&mut parser, ""),
        ParserResult::Commands(vec![
            ParserEvent::BeginTarget(s("App")),
            ParserEvent::BeginCommand(s("CpResource"), strings(&["/out/a.png", "/src/a.png"])),
            ParserEvent::Message(s("note"), s("copied")),
        ])
    );
    assert_eq!(parser.consumed_offset(), parser.buffered());
}

#[test]
fn arguments_keep_their_source_order() {
    let mut parser = XcodebuildParser::new();
    feed(&mut parser, "Touch a b c");
    assert_eq!(
        feed(&mut parser, ""),
        ParserResult::Commands(vec![ParserEvent::BeginCommand(
            s("Touch"),
            strings(&["a", "b", "c"])
        )])
    );
}

#[test]
fn escaped_spaces_stay_inside_an_argument() {
    let mut parser = XcodebuildParser::new();
    feed(
        &mut parser,
        "CopyStringsFile /build/Xcode\\ Build\\ Profiler.app/en.lproj/InfoPlist.strings /src/InfoPlist.strings (in target: Xcode Build Profiler)",
    );
    assert_eq!(
        feed(&mut parser, ""),
        ParserResult::Commands(vec![
            ParserEvent::BeginTarget(s("Xcode Build Profiler")),
            ParserEvent::BeginCommand(
                s("CopyStringsFile"),
                strings(&[
                    "/build/Xcode\\ Build\\ Profiler.app/en.lproj/InfoPlist.strings",
                    "/src/InfoPlist.strings"
                ])
            ),
        ])
    );
}

#[test]
fn command_without_arguments_has_empty_args() {
    let mut parser = XcodebuildParser::new();
    feed(&mut parser, "Clean");
    assert_eq!(
        feed(&mut parser, ""),
        ParserResult::Commands(vec![ParserEvent::BeginCommand(s("Clean"), vec![])])
    );
}

#[test]
fn command_inside_a_command_is_a_sub_command() {
    let mut parser = XcodebuildParser::new();
    let events = feed_all(
        &mut parser,
        &[
            "CompileSwiftSources normal x86_64 (in target: App)",
            "    cd /src",
            "CompileSwift normal x86_64 /src/A.swift (in target: Other)",
            "    cd /src",
            "",
        ],
    );
    assert_eq!(
        events,
        vec![
            ParserEvent::BeginTarget(s("App")),
            ParserEvent::BeginCommand(s("CompileSwiftSources"), strings(&["normal", "x86_64"])),
            ParserEvent::BeginSubCommand(
                s("CompileSwift"),
                strings(&["normal", "x86_64", "/src/A.swift"])
            ),
        ]
    );
    // the target of a nested command is not announced
    assert!(!parser.has_seen(&s("Other")));
}

#[test]
fn status_lines_with_and_without_duration() {
    let mut parser = XcodebuildParser::new();
    assert_eq!(
        feed(&mut parser, "** BUILD SUCCEEDED **"),
        ParserResult::Commands(vec![ParserEvent::Status(s("BUILD"), s("SUCCEEDED"), None)])
    );
    assert_eq!(
        feed(&mut parser, "** CLEAN FAILED ** [0.5 sec]"),
        ParserResult::Commands(vec![ParserEvent::Status(
            s("CLEAN"),
            s("FAILED"),
            Some(s("0.5 sec"))
        )])
    );
}

#[test]
fn blank_lines_and_banners_give_no_events() {
    let mut parser = XcodebuildParser::new();
    assert_eq!(feed(&mut parser, ""), ParserResult::Commands(vec![]));
    assert_eq!(
        feed(&mut parser, "=== BUILD TARGET App OF PROJECT App ==="),
        ParserResult::Commands(vec![])
    );
    assert_eq!(parser.consumed_offset(), parser.buffered());
}

#[test]
fn message_kind_is_not_validated() {
    let mut parser = XcodebuildParser::new();
    assert_eq!(
        feed(&mut parser, "ld: warning: directory not found"),
        ParserResult::Commands(vec![ParserEvent::Message(
            s("ld"),
            s("warning: directory not found")
        )])
    );
    assert_eq!(
        feed(&mut parser, "remark: "),
        ParserResult::Commands(vec![ParserEvent::Message(s("remark"), s(""))])
    );
}

#[test]
fn text_that_is_never_recognised_stays_pending() {
    let mut parser = XcodebuildParser::new();
    assert_eq!(feed(&mut parser, "\tstray"), ParserResult::Continue);
    assert_eq!(feed(&mut parser, "note: after the stray line"), ParserResult::Continue);
    assert_eq!(feed(&mut parser, ""), ParserResult::Continue);
    assert_eq!(parser.consumed_offset(), 0);
    assert_eq!(parser.end_of_input(), Some(ParserResult::NoMatch));
}

#[test]
fn lines_may_hold_other_scripts() {
    let mut parser = XcodebuildParser::new();
    assert_eq!(
        feed(&mut parser, "note: Überprüfung abgeschlossen ✓"),
        ParserResult::Commands(vec![ParserEvent::Message(
            s("note"),
            s("Überprüfung abgeschlossen ✓")
        )])
    );
    assert_eq!(parser.buffered(), "note: Überprüfung abgeschlossen ✓".chars().count() + 1);
}

#[test]
fn a_parser_can_be_driven_with_another_grammar() {
    let mut parser = XcodebuildParser::new();
    parser.push_line("anything at all");
    assert_eq!(parser.pending(), "anything at all\n");
    assert_eq!(parser.consumed_offset(), 0);

    // no match: the text stays pending
    assert_eq!(parser.accept(Err(NoMatch {})), Ok(ParserResult::Continue));
    assert_eq!(parser.pending(), "anything at all\n");

    // trees that the walker does not know are refused, and nothing changes
    let unknown = Node { rule: Rule::Arg, text: s("anything"), children: vec![] };
    assert_eq!(parser.accept(Ok(vec![unknown])), Err(ParserError {}));
    assert_eq!(parser.pending(), "anything at all\n");
    assert_eq!(parser.consumed_offset(), 0);

    // trees that it knows are walked, and the text is consumed
    let message = Node {
        rule: Rule::Message,
        text: s("anything at all"),
        children: vec![
            Node { rule: Rule::MessageType, text: s("anything"), children: vec![] },
            Node { rule: Rule::MessageContents, text: s("at all"), children: vec![] },
        ],
    };
    assert_eq!(
        parser.accept(Ok(vec![message])),
        Ok(ParserResult::Commands(vec![ParserEvent::Message(s("anything"), s("at all"))]))
    );
    assert_eq!(parser.pending(), "");
    assert_eq!(parser.consumed_offset(), parser.buffered());
}

#[test]
fn parse_buffer_tries_what_is_pending() {
    let mut parser = XcodebuildParser::new();
    assert_eq!(parser.parse_buffer(), Ok(ParserResult::Commands(vec![])));
    parser.push_line("Ld a");
    assert_eq!(parser.parse_buffer(), Ok(ParserResult::Continue));
    parser.push_line("");
    assert_eq!(
        parser.parse_buffer(),
        Ok(ParserResult::Commands(vec![ParserEvent::BeginCommand(s("Ld"), strings(&["a"]))]))
    );
    assert_eq!(parser.parse_buffer(), Ok(ParserResult::Commands(vec![])));
}

#[test]
fn a_command_may_take_many_lines() {
    let mut parser = XcodebuildParser::new();
    assert_eq!(feed(&mut parser, "Ld /out/App (in target: App)"), ParserResult::Continue);
    for i in 0..500 {
        assert_eq!(
            feed(&mut parser, &format!("    step {}", i)),
            ParserResult::Continue
        );
    }
    assert_eq!(
        feed(&mut parser, ""),
        ParserResult::Commands(vec![
            ParserEvent::BeginTarget(s("App")),
            ParserEvent::BeginCommand(s("Ld"), strings(&["/out/App"])),
        ])
    );
}
