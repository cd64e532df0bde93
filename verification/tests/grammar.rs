use xcode_log_parse::grammar_parser::{NoMatch, XcodebuildGrammarParser};
use xcode_log_parse::scan::{scan_line, LogLine};
use xcode_log_parse::tree::{Node, Rule};

fn text(t: &str) -> String {
    t.to_string()
}

fn texts(ts: &[&str]) -> Vec<String> {
    ts.iter().map(|t| t.to_string()).collect()
}

fn chars(t: &str) -> Vec<char> {
    t.chars().collect()
}

fn leaf(rule: Rule, t: &str) -> Node {
    Node { rule, text: text(t), children: vec![] }
}

#[test]
fn parse_input_of_a_message() {
    assert_eq!(
        XcodebuildGrammarParser::parse_input("error: no such file\n"),
        Ok(vec![Node {
            rule: Rule::Message,
            text: text("error: no such file"),
            children: vec![
                leaf(Rule::MessageType, "error"),
                leaf(Rule::MessageContents, "no such file"),
            ],
        }])
    );
}

#[test]
fn parse_input_of_a_full_command() {
    let input = "CompileC a.o a.m (in target: App)\n    cd /src\nnote: fine\nLd a\n\n";
    assert_eq!(
        XcodebuildGrammarParser::parse_input(input),
        Ok(vec![Node {
            rule: Rule::FullCommand,
            text: text(input),
            children: vec![
                Node {
                    rule: Rule::ToplevelCommand,
                    text: text("CompileC a.o a.m (in target: App)"),
                    children: vec![
                        Node {
                            rule: Rule::Command,
                            text: text("CompileC a.o a.m"),
                            children: vec![
                                leaf(Rule::CommandName, "CompileC"),
                                leaf(Rule::Arg, "a.o"),
                                leaf(Rule::Arg, "a.m"),
                            ],
                        },
                        leaf(Rule::TargetName, "App"),
                    ],
                },
                Node {
                    rule: Rule::Message,
                    text: text("note: fine"),
                    children: vec![
                        leaf(Rule::MessageType, "note"),
                        leaf(Rule::MessageContents, "fine"),
                    ],
                },
                Node {
                    rule: Rule::NestedCommand,
                    text: text("Ld a"),
                    children: vec![Node {
                        rule: Rule::Command,
                        text: text("Ld a"),
                        children: vec![leaf(Rule::CommandName, "Ld"), leaf(Rule::Arg, "a")],
                    }],
                },
            ],
        }])
    );
}

#[test]
fn parse_input_of_status_and_comments() {
    assert_eq!(
        XcodebuildGrammarParser::parse_input("\n=== x ===\n** TEST FAILED ** [2 sec]\n"),
        Ok(vec![
            leaf(Rule::CommentyBits, ""),
            leaf(Rule::CommentyBits, "=== x ==="),
            Node {
                rule: Rule::BuildStatus,
                text: text("** TEST FAILED ** [2 sec]"),
                children: vec![
                    leaf(Rule::ActionName, "TEST"),
                    leaf(Rule::BuildOutcome, "FAILED"),
                    leaf(Rule::Duration, "2 sec"),
                ],
            },
        ])
    );
}

#[test]
fn parse_input_of_nothing_is_no_tree() {
    assert_eq!(XcodebuildGrammarParser::parse_input(""), Ok(vec![]));
}

#[test]
fn parse_input_refuses_a_line_without_its_terminator() {
    assert_eq!(XcodebuildGrammarParser::parse_input("note: half a line"), Err(NoMatch {}));
    assert_eq!(
        XcodebuildGrammarParser::parse_input("note: a line\nnote: half a line"),
        Err(NoMatch {})
    );
}

#[test]
fn parse_input_refuses_a_command_without_its_blank_line() {
    assert_eq!(XcodebuildGrammarParser::parse_input("Ld a\n    cd /src\n"), Err(NoMatch {}));
}

#[test]
fn parse_input_refuses_lines_of_no_known_shape() {
    assert_eq!(XcodebuildGrammarParser::parse_input("    indented\n"), Err(NoMatch {}));
    assert_eq!(XcodebuildGrammarParser::parse_input("** BUILD\n"), Err(NoMatch {}));
    assert_eq!(XcodebuildGrammarParser::parse_input("Ld a \n\n"), Err(NoMatch {}));
}

#[test]
fn parse_input_refuses_what_cannot_stand_inside_a_command() {
    assert_eq!(
        XcodebuildGrammarParser::parse_input("Ld a\n=== banner ===\n\n"),
        Err(NoMatch {})
    );
    assert_eq!(
        XcodebuildGrammarParser::parse_input("Ld a\n** BUILD SUCCEEDED **\n\n"),
        Err(NoMatch {})
    );
}

#[test]
fn parse_from_starts_at_the_given_place() {
    let all = chars("    skipped\nnote: kept\n");
    let nodes = XcodebuildGrammarParser::parse_from(&all, 12).unwrap();
    assert_eq!(nodes.len(), 1);
    assert_eq!(nodes[0].text, "note: kept");
    assert_eq!(XcodebuildGrammarParser::parse_from(&all, 0), Err(NoMatch {}));
    assert_eq!(XcodebuildGrammarParser::parse_from(&all, all.len()), Ok(vec![]));
}

#[test]
fn scan_line_knows_each_shape() {
    assert_eq!(scan_line(&chars("")), LogLine::Blank);
    assert_eq!(scan_line(&chars("    cd /src")), LogLine::Indented);
    assert_eq!(scan_line(&chars("\tcd /src")), LogLine::Indented);
    assert_eq!(scan_line(&chars(" ")), LogLine::Indented);
    assert_eq!(scan_line(&chars("=== BUILD ===")), LogLine::Banner);
    assert_eq!(
        scan_line(&chars("warning: be careful")),
        LogLine::Message { kind: text("warning"), contents: text("be careful") }
    );
    assert_eq!(
        scan_line(&chars("** ARCHIVE SUCCEEDED **")),
        LogLine::Status { action: text("ARCHIVE"), outcome: text("SUCCEEDED"), duration: None }
    );
    assert_eq!(
        scan_line(&chars("** BUILD FAILED ** [12.5 sec]")),
        LogLine::Status {
            action: text("BUILD"),
            outcome: text("FAILED"),
            duration: Some(text("12.5 sec"))
        }
    );
    assert_eq!(
        scan_line(&chars("Ld /out/App normal (in target: My App)")),
        LogLine::Header {
            command: text("Ld /out/App normal"),
            name: text("Ld"),
            args: texts(&["/out/App", "normal"]),
            target: Some(text("My App")),
        }
    );
    assert_eq!(
        scan_line(&chars("Ld")),
        LogLine::Header { command: text("Ld"), name: text("Ld"), args: vec![], target: None }
    );
}

#[test]
fn scan_line_at_the_edges_of_a_message() {
    // a kind is made of letters and is followed by a colon and a space
    assert_eq!(
        scan_line(&chars("note:no space")),
        LogLine::Header {
            command: text("note:no space"),
            name: text("note:no"),
            args: texts(&["space"]),
            target: None
        }
    );
    assert_eq!(
        scan_line(&chars("/src/a.m:3:1: warning: unused")),
        LogLine::Header {
            command: text("/src/a.m:3:1: warning: unused"),
            name: text("/src/a.m:3:1:"),
            args: texts(&["warning:", "unused"]),
            target: None
        }
    );
    // without a kind before the colon the line is no diagnostic
    assert_eq!(
        scan_line(&chars(": x")),
        LogLine::Header {
            command: text(": x"),
            name: text(":"),
            args: texts(&["x"]),
            target: None
        }
    );
}

#[test]
fn scan_line_at_the_edges_of_a_status() {
    assert_eq!(scan_line(&chars("**")), LogLine::Unknown);
    assert_eq!(scan_line(&chars("** BUILD **")), LogLine::Unknown);
    assert_eq!(scan_line(&chars("** BUILD SUCCEEDED")), LogLine::Unknown);
    assert_eq!(scan_line(&chars("** BUILD SUCCEEDED ** ")), LogLine::Unknown);
    assert_eq!(scan_line(&chars("** BUILD SUCCEEDED ** []")), LogLine::Unknown);
    assert_eq!(scan_line(&chars("** BUILD SUCCEEDED ** [1 sec")), LogLine::Unknown);
    assert_eq!(scan_line(&chars("**  BUILD SUCCEEDED **")), LogLine::Unknown);
    assert_eq!(
        scan_line(&chars("** BUILD SUCCEEDED ** [a] [b]")),
        LogLine::Status {
            action: text("BUILD"),
            outcome: text("SUCCEEDED"),
            duration: Some(text("a] [b"))
        }
    );
}

#[test]
fn scan_line_at_the_edges_of_a_command() {
    // two spaces, a space at the end and a backslash at the end fit no shape
    assert_eq!(scan_line(&chars("Ld  a")), LogLine::Unknown);
    assert_eq!(scan_line(&chars("Ld a ")), LogLine::Unknown);
    assert_eq!(scan_line(&chars("Ld a\\")), LogLine::Unknown);
    // a target needs a name and its closing bracket
    assert_eq!(scan_line(&chars("Ld a (in target: )")), LogLine::Unknown);
    assert_eq!(scan_line(&chars("Ld a (in target: App")), LogLine::Unknown);
    // the target takes the rest of the line
    assert_eq!(
        scan_line(&chars("Ld a (in target: App (iOS))")),
        LogLine::Header {
            command: text("Ld a"),
            name: text("Ld"),
            args: texts(&["a"]),
            target: Some(text("App (iOS)")),
        }
    );
    // what only looks like a target is an argument like any other
    assert_eq!(
        scan_line(&chars("Ld (in a)")),
        LogLine::Header {
            command: text("Ld (in a)"),
            name: text("Ld"),
            args: texts(&["(in", "a)"]),
            target: None,
        }
    );
    // a backslash takes the next character into the token
    assert_eq!(
        scan_line(&chars("Ld a\\ b \\\\")),
        LogLine::Header {
            command: text("Ld a\\ b \\\\"),
            name: text("Ld"),
            args: texts(&["a\\ b", "\\\\"]),
            target: None,
        }
    );
}
