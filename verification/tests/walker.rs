use xcode_log_parse::common::{ParserEvent, SeenTargets, XcodebuildParser};
use xcode_log_parse::tree::{Node, Rule};

fn owned(t: &str) -> String {
    t.to_string()
}

fn all_owned(ts: &[&str]) -> Vec<String> {
    ts.iter().map(|t| t.to_string()).collect()
}

fn node(rule: Rule, text: &str, children: Vec<Node>) -> Node {
    Node { rule, text: owned(text), children }
}

fn command(name: &str, args: &[&str]) -> Node {
    let mut children = vec![node(Rule::CommandName, name, vec![])];
    for arg in args {
        children.push(node(Rule::Arg, arg, vec![]));
    }
    node(Rule::Command, "", children)
}

fn toplevel(name: &str, args: &[&str], target: Option<&str>) -> Node {
    let mut children = vec![command(name, args)];
    if let Some(target) = target {
        children.push(node(Rule::TargetName, target, vec![]));
    }
    node(Rule::ToplevelCommand, "", children)
}

#[test]
fn find_first_goes_depth_first_in_document_order() {
    let tree = node(
        Rule::FullCommand,
        "",
        vec![
            node(
                Rule::ToplevelCommand,
                "",
                vec![
                    node(Rule::Command, "", vec![node(Rule::Arg, "deep", vec![])]),
                    node(Rule::Arg, "shallow", vec![]),
                ],
            ),
            node(Rule::Arg, "late", vec![]),
        ],
    );
    assert_eq!(tree.find_first(Rule::Arg), Some(owned("deep")));
    assert_eq!(tree.find_all(Rule::Arg), all_owned(&["deep", "shallow", "late"]));
    assert_eq!(tree.find_first(Rule::Duration), None);
    assert_eq!(tree.find_all(Rule::Duration), Vec::<String>::new());
}

#[test]
fn find_first_leaves_the_node_itself_out() {
    let tree = node(Rule::Arg, "self", vec![node(Rule::Arg, "child", vec![])]);
    assert_eq!(tree.find_first(Rule::Arg), Some(owned("child")));
    assert_eq!(tree.find_all(Rule::Arg), all_owned(&["child"]));
    let alone = node(Rule::Arg, "self", vec![]);
    assert_eq!(alone.find_first(Rule::Arg), None);
}

#[test]
fn child_is_the_first_direct_child_of_the_kind() {
    let tree = node(
        Rule::ToplevelCommand,
        "",
        vec![
            node(Rule::TargetName, "t", vec![node(Rule::Command, "below", vec![])]),
            node(Rule::Command, "first", vec![]),
            node(Rule::Command, "second", vec![]),
        ],
    );
    assert_eq!(tree.child(Rule::Command).map(|n| n.text.clone()), Some(owned("first")));
    assert!(tree.child(Rule::Arg).is_none());
}

#[test]
fn walking_a_message() {
    let tree = node(
        Rule::Message,
        "warning: x",
        vec![
            node(Rule::MessageType, "warning", vec![]),
            node(Rule::MessageContents, "x", vec![]),
        ],
    );
    let mut targets = SeenTargets::new();
    assert!(XcodebuildParser::is_walkable(&tree));
    assert_eq!(
        XcodebuildParser::transform_pair(&tree, &mut targets),
        vec![ParserEvent::Message(owned("warning"), owned("x"))]
    );
    assert_eq!(targets.len(), 0);
}

#[test]
fn walking_a_status() {
    let with = node(
        Rule::BuildStatus,
        "",
        vec![
            node(Rule::ActionName, "BUILD", vec![]),
            node(Rule::BuildOutcome, "FAILED", vec![]),
            node(Rule::Duration, "3 sec", vec![]),
        ],
    );
    let without = node(
        Rule::BuildStatus,
        "",
        vec![
            node(Rule::ActionName, "BUILD", vec![]),
            node(Rule::BuildOutcome, "FAILED", vec![]),
        ],
    );
    let mut targets = SeenTargets::new();
    assert_eq!(
        XcodebuildParser::transform_pair(&with, &mut targets),
        vec![ParserEvent::Status(owned("BUILD"), owned("FAILED"), Some(owned("3 sec")))]
    );
    assert_eq!(
        XcodebuildParser::transform_pair(&without, &mut targets),
        vec![ParserEvent::Status(owned("BUILD"), owned("FAILED"), None)]
    );
}

#[test]
fn walking_a_command_announces_a_new_target_first() {
    let tree = toplevel("Ld", &["a", "b"], Some("App"));
    let mut targets = SeenTargets::new();
    assert!(targets.insert(owned("Other")));
    assert_eq!(
        XcodebuildParser::transform_pair(&tree, &mut targets),
        vec![
            ParserEvent::BeginTarget(owned("App")),
            ParserEvent::BeginCommand(owned("Ld"), all_owned(&["a", "b"])),
        ]
    );
    assert_eq!(targets.len(), 2);
    assert!(targets.contains(&owned("Other")));
    assert!(targets.contains(&owned("App")));
    // the second time the target is known
    assert_eq!(
        XcodebuildParser::transform_pair(&tree, &mut targets),
        vec![ParserEvent::BeginCommand(owned("Ld"), all_owned(&["a", "b"]))]
    );
    assert_eq!(targets.len(), 2);
}

#[test]
fn walking_a_command_without_target() {
    let tree = toplevel("Ld", &[], None);
    let mut targets = SeenTargets::new();
    assert_eq!(
        XcodebuildParser::transform_pair(&tree, &mut targets),
        vec![ParserEvent::BeginCommand(owned("Ld"), vec![])]
    );
    assert_eq!(targets.len(), 0);
}

#[test]
fn walking_a_full_command_walks_its_children_in_order() {
    let nested = node(
        Rule::NestedCommand,
        "",
        vec![command("clang", &["-c", "a.m"]), node(Rule::TargetName, "Hidden", vec![])],
    );
    let tree = node(
        Rule::FullCommand,
        "",
        vec![
            toplevel("CompileC", &["a.o"], Some("App")),
            node(Rule::CommentyBits, "    cd /src", vec![]),
            nested,
            node(
                Rule::FullCommand,
                "",
                vec![toplevel("Ld", &["a"], Some("App")), toplevel("Ld", &["b"], Some("Lib"))],
            ),
        ],
    );
    let mut targets = SeenTargets::new();
    assert!(XcodebuildParser::is_walkable(&tree));
    assert_eq!(
        XcodebuildParser::transform_pair(&tree, &mut targets),
        vec![
            ParserEvent::BeginTarget(owned("App")),
            ParserEvent::BeginCommand(owned("CompileC"), all_owned(&["a.o"])),
            ParserEvent::BeginSubCommand(owned("clang"), all_owned(&["-c", "a.m"])),
            ParserEvent::BeginCommand(owned("Ld"), all_owned(&["a"])),
            ParserEvent::BeginTarget(owned("Lib")),
            ParserEvent::BeginCommand(owned("Ld"), all_owned(&["b"])),
        ]
    );
    assert_eq!(targets.len(), 2);
    assert!(targets.contains(&owned("App")));
    assert!(targets.contains(&owned("Lib")));
    assert!(!targets.contains(&owned("Hidden")));
}

#[test]
fn walking_a_comment_gives_nothing() {
    let tree = node(Rule::CommentyBits, "=== x ===", vec![]);
    let mut targets = SeenTargets::new();
    assert_eq!(XcodebuildParser::transform_pair(&tree, &mut targets), vec![]);
}

#[test]
fn trees_that_the_walker_does_not_know() {
    // kinds that never stand at the top
    assert!(!XcodebuildParser::is_walkable(&node(Rule::Arg, "a", vec![])));
    assert!(!XcodebuildParser::is_walkable(&command("Ld", &[])));
    // a message without its parts
    assert!(!XcodebuildParser::is_walkable(&node(
        Rule::Message,
        "",
        vec![node(Rule::MessageType, "note", vec![])]
    )));
    // a status without its outcome
    assert!(!XcodebuildParser::is_walkable(&node(
        Rule::BuildStatus,
        "",
        vec![node(Rule::ActionName, "BUILD", vec![])]
    )));
    // a command without a command inside, or with an empty name
    assert!(!XcodebuildParser::is_walkable(&node(Rule::ToplevelCommand, "", vec![])));
    assert!(!XcodebuildParser::is_walkable(&toplevel("", &["a"], None)));
    assert!(!XcodebuildParser::is_walkable(&node(
        Rule::NestedCommand,
        "",
        vec![node(Rule::Command, "", vec![])]
    )));
    // a full command with one bad child
    assert!(!XcodebuildParser::is_walkable(&node(
        Rule::FullCommand,
        "",
        vec![toplevel("Ld", &[], None), node(Rule::Arg, "a", vec![])]
    )));
    assert!(XcodebuildParser::is_walkable(&node(Rule::FullCommand, "", vec![])));
}

#[test]
fn seen_targets_take_each_name_once() {
    let mut targets = SeenTargets::new();
    assert_eq!(targets.len(), 0);
    assert!(!targets.contains(&owned("App")));
    assert!(targets.insert(owned("App")));
    assert!(!targets.insert(owned("App")));
    assert!(targets.insert(owned("Lib")));
    assert!(targets.insert(owned("")));
    assert!(!targets.insert(owned("")));
    assert_eq!(targets.len(), 3);
    assert!(targets.contains(&owned("App")));
    assert!(targets.contains(&owned("Lib")));
    assert!(!targets.contains(&owned("app")));
}
