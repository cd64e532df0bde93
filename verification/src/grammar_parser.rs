//! The grammar of the log: from text to parse trees.
//!
//! The text is taken line by line; each line ends with a line break.
//!
//! ```text
//! text         = unit*
//! unit         = comment | message | status | full command
//! comment      = a blank line | a line that starts with "="
//! message      = letters ": " anything
//! status       = "** " letters " " letters " **" [ " [" something "]" ]
//! full command = opening, then any of { indented line | message | opening },
//!                then a blank line
//! opening      = token { " " token } [ " (in target: " something ")" ]
//! ```
//!
//! A comment, a message and a status line are units of one line. The line
//! that opens a command starts a full command, which runs up to the next
//! blank line. Inside a full command, indented lines are passed over,
//! messages are kept, and a line that opens a command is a nested command.
//! Text is recognised as a whole or not at all: a line without its line
//! break, a full command without its blank line and a line of no known
//! shape each make the answer `NoMatch`.

use vstd::prelude::*;
use crate::common::walkable;
use crate::laws::lemma_grammar_walkable;
use crate::pieces::lemma_lines_from_skip;
use crate::scan::{classify, scan_line, Line, LogLine};
use crate::text::{chars_of, string_of};
use crate::tree::{lemma_trees_of, text_of, texts_of, trees_of, Node, Rule, Text, Tree};

verus! {

/// A tree without children.
pub open spec fn leaf(rule: Rule, text: Text) -> Tree {
    Tree { rule, text, children: Seq::empty() }
}

/// The leaves of kind `Arg` for `args`, one by one.
pub open spec fn arg_leaves(args: Seq<Text>) -> Seq<Tree> {
    Seq::new(args.len(), |i: int| leaf(Rule::Arg, args[i]))
}

/// The tree of a target name, where there is one.
pub open spec fn target_leaves(target: Option<Text>) -> Seq<Tree> {
    match target {
        Some(name) => seq![leaf(Rule::TargetName, name)],
        None => Seq::empty(),
    }
}

/// The tree of a comment.
pub open spec fn comment_tree(line: Text) -> Tree {
    leaf(Rule::CommentyBits, line)
}

/// The tree of a diagnostic.
pub open spec fn message_tree(line: Text, kind: Text, contents: Text) -> Tree {
    Tree {
        rule: Rule::Message,
        text: line,
        children: seq![leaf(Rule::MessageType, kind), leaf(Rule::MessageContents, contents)],
    }
}

/// The tree of a status line.
pub open spec fn status_tree(line: Text, action: Text, outcome: Text, duration: Option<Text>) -> Tree {
    Tree {
        rule: Rule::BuildStatus,
        text: line,
        children: seq![leaf(Rule::ActionName, action), leaf(Rule::BuildOutcome, outcome)] + (
        match duration {
            Some(d) => seq![leaf(Rule::Duration, d)],
            None => Seq::empty(),
        }),
    }
}

/// The tree of a command: its name, then its arguments.
pub open spec fn command_tree(text: Text, name: Text, args: Seq<Text>) -> Tree {
    Tree {
        rule: Rule::Command,
        text,
        children: seq![leaf(Rule::CommandName, name)] + arg_leaves(args),
    }
}

/// The tree of the line that opens a command, of kind `rule`: the command,
/// then the target where the line names one.
pub open spec fn opening_tree(
    rule: Rule,
    line: Text,
    command: Text,
    name: Text,
    args: Seq<Text>,
    target: Option<Text>,
) -> Tree {
    Tree {
        rule,
        text: line,
        children: seq![command_tree(command, name, args)] + target_leaves(target),
    }
}

/// The tree of a line that stands for itself, at the top or inside a full
/// command; `opening` is the kind that the opening of a command gets.
pub open spec fn line_tree(line: Text, opening: Rule) -> Tree {
    match classify(line) {
        Line::Message { kind, contents } => message_tree(line, kind, contents),
        Line::Status { action, outcome, duration } => status_tree(line, action, outcome, duration),
        Line::Header { command, name, args, target } => opening_tree(
            opening,
            line,
            command,
            name,
            args,
            target,
        ),
        _ => comment_tree(line),
    }
}

/// Where the line that starts at `from` ends: at the next line break, or at
/// the end of the text where none follows.
pub open spec fn line_end(text: Text, from: int) -> int
    decreases text.len() - from,
{
    if 0 <= from < text.len() && text[from] != '\n' {
        line_end(text, from + 1)
    } else {
        from
    }
}

/// The lines of `text` from position `from` on, each without its line
/// break; `None` where the last of them has no line break.
pub open spec fn lines_from(text: Text, from: int) -> Option<Seq<Text>>
    decreases text.len() - from,
{
    if from < 0 || from >= text.len() {
        Some(Seq::empty())
    } else {
        let end = line_end(text, from);
        if end >= text.len() {
            None
        } else {
            proof {
                lemma_line_end(text, from);
            }
            match lines_from(text, end + 1) {
                Some(rest) => Some(seq![text.subrange(from, end)] + rest),
                None => None,
            }
        }
    }
}

/// Whether a line of this shape can stand inside a full command.
pub open spec fn is_inner(line: Line) -> bool {
    line is Indented || line is Message || line is Header
}

/// The first blank line at or behind `from`; the number of lines where
/// there is none.
pub open spec fn block_end(lines: Seq<Text>, from: int) -> int
    decreases lines.len() - from,
{
    if 0 <= from < lines.len() && lines[from].len() != 0 {
        block_end(lines, from + 1)
    } else {
        from
    }
}

/// Whether each of the lines `from..to` can stand inside a full command.
pub open spec fn inner_ok(lines: Seq<Text>, from: int, to: int) -> bool {
    forall|i: int| from <= i < to ==> is_inner(classify(#[trigger] lines[i]))
}

/// The trees of the lines `from..to` inside a full command: indented lines
/// leave none, a diagnostic leaves its tree, the opening of a command leaves
/// a nested command.
pub open spec fn inner_trees(lines: Seq<Text>, from: int, to: int) -> Seq<Tree>
    decreases to - from,
{
    if from >= to {
        Seq::empty()
    } else if classify(lines[to - 1]) is Indented {
        inner_trees(lines, from, to - 1)
    } else {
        inner_trees(lines, from, to - 1).push(line_tree(lines[to - 1], Rule::NestedCommand))
    }
}

/// The text of the lines `from..to`, each with its line break.
pub open spec fn block_text(lines: Seq<Text>, from: int, to: int) -> Text
    decreases to - from,
{
    if from >= to {
        Seq::empty()
    } else {
        block_text(lines, from, to - 1) + lines[to - 1] + seq!['\n']
    }
}

/// The tree of the full command that opens with line `from` and closes with
/// the blank line `end`.
pub open spec fn block_tree(lines: Seq<Text>, from: int, end: int) -> Tree {
    Tree {
        rule: Rule::FullCommand,
        text: block_text(lines, from, end + 1),
        children: seq![line_tree(lines[from], Rule::ToplevelCommand)] + inner_trees(
            lines,
            from + 1,
            end,
        ),
    }
}

/// `first`, then what follows, if anything does.
pub open spec fn and_then_trees(first: Tree, rest: Option<Seq<Tree>>) -> Option<Seq<Tree>> {
    match rest {
        Some(rest) => Some(seq![first] + rest),
        None => None,
    }
}

/// The trees of the lines from `from` on, as far as they are made of
/// complete units; `None` where they are not.
pub open spec fn units_from(lines: Seq<Text>, from: int) -> Option<Seq<Tree>>
    decreases lines.len() - from,
{
    if from < 0 || from >= lines.len() {
        Some(Seq::empty())
    } else {
        match classify(lines[from]) {
            Line::Indented => None,
            Line::Unknown => None,
            Line::Header { .. } => {
                let end = block_end(lines, from + 1);
                if end < lines.len() && inner_ok(lines, from + 1, end) {
                    proof {
                        lemma_block_end(lines, from + 1);
                    }
                    and_then_trees(block_tree(lines, from, end), units_from(lines, end + 1))
                } else {
                    None
                }
            },
            _ => and_then_trees(
                line_tree(lines[from], Rule::ToplevelCommand),
                units_from(lines, from + 1),
            ),
        }
    }
}

/// The parse of `text`: its trees in source order, or `None` where the text
/// is not made of complete units.
pub open spec fn grammar(text: Text) -> Option<Seq<Tree>> {
    match lines_from(text, 0) {
        Some(lines) => units_from(lines, 0),
        None => None,
    }
}

/// A line ends behind its start and inside the text, and holds no line
/// break.
pub proof fn lemma_line_end(text: Text, from: int)
    requires
        0 <= from <= text.len(),
    ensures
        from <= line_end(text, from) <= text.len(),
        forall|i: int| from <= i < line_end(text, from) ==> #[trigger] text[i] != '\n',
        line_end(text, from) < text.len() ==> text[line_end(text, from)] == '\n',
    decreases text.len() - from,
{
    if from < text.len() && text[from] != '\n' {
        lemma_line_end(text, from + 1);
    }
}

/// The first blank line stands behind `from`, among the lines, and no line
/// before it is blank.
pub proof fn lemma_block_end(lines: Seq<Text>, from: int)
    requires
        0 <= from <= lines.len(),
    ensures
        from <= block_end(lines, from) <= lines.len(),
        forall|i: int| from <= i < block_end(lines, from) ==> (#[trigger] lines[i]).len() != 0,
        block_end(lines, from) < lines.len() ==> lines[block_end(lines, from)].len() == 0,
    decreases lines.len() - from,
{
    if from < lines.len() && lines[from].len() != 0 {
        lemma_block_end(lines, from + 1);
    }
}

/// The views of a sequence of lines, one by one.
pub open spec fn rows_of(lines: Seq<Vec<char>>) -> Seq<Text> {
    Seq::new(lines.len(), |i: int| lines[i]@)
}

/// The views of the lines that a split gave, if it gave any.
pub open spec fn split_of(lines: Option<Vec<Vec<char>>>) -> Option<Seq<Text>> {
    match lines {
        Some(lines) => Some(rows_of(lines@)),
        None => None,
    }
}

/// The values of the nodes that a parse gave, if it gave any.
pub open spec fn parse_of(nodes: Option<Vec<Node>>) -> Option<Seq<Tree>> {
    match nodes {
        Some(nodes) => Some(trees_of(nodes@)),
        None => None,
    }
}

/// The characters `text[from..to]`.
fn piece(text: &Vec<char>, from: usize, to: usize) -> (out: Vec<char>)
    requires
        from <= to <= text.len(),
    ensures
        out@ == text@.subrange(from as int, to as int),
{
    let mut out: Vec<char> = Vec::new();
    let mut i: usize = from;
    while i < to
        invariant
            from <= i <= to <= text.len(),
            out@ == text@.subrange(from as int, i as int),
        decreases to - i,
    {
        out.push(text[i]);
        i += 1;
    }
    out
}

/// The end of the line that starts at `from`.
fn find_line_end(text: &Vec<char>, from: usize) -> (end: usize)
    requires
        from <= text.len(),
    ensures
        end == line_end(text@, from as int),
        from <= end <= text.len(),
{
    let mut i: usize = from;
    while i < text.len() && text[i] != '\n'
        invariant
            from <= i <= text.len(),
            line_end(text@, from as int) == line_end(text@, i as int),
        decreases text.len() - i,
    {
        i += 1;
    }
    i
}

/// The lines of `text` from position `from` on.
fn split(text: &Vec<char>, from: usize) -> (lines: Option<Vec<Vec<char>>>)
    ensures
        split_of(lines) == lines_from(text@, from as int),
{
    let mut lines: Vec<Vec<char>> = Vec::new();
    let mut at: usize = from;
    assert(rows_of(lines@) =~= Seq::<Text>::empty());
    while at < text.len()
        invariant
            lines_from(text@, from as int) == (match lines_from(text@, at as int) {
                Some(rest) => Some(rows_of(lines@) + rest),
                None => None,
            }),
        decreases text.len() - at,
    {
        let end = find_line_end(text, at);
        if end >= text.len() {
            return None;
        }
        let ghost before = rows_of(lines@);
        let ghost rest = lines_from(text@, end + 1);
        lines.push(piece(text, at, end));
        proof {
            assert(rows_of(lines@) =~= before + seq![text@.subrange(at as int, end as int)]);
            if rest is Some {
                assert(rows_of(lines@) + rest.unwrap() =~= before + (seq![
                    text@.subrange(at as int, end as int),
                ] + rest.unwrap()));
            }
        }
        at = end + 1;
    }
    assert(rows_of(lines@) + Seq::<Text>::empty() =~= rows_of(lines@));
    Some(lines)
}

/// One more node at the end of `nodes`.
fn push_node(nodes: &mut Vec<Node>, node: Node)
    ensures
        trees_of(final(nodes)@) == trees_of(old(nodes)@).push(node@),
{
    nodes.push(node);
    assert(nodes@.drop_last() =~= old(nodes)@);
}

/// A node without children.
fn leaf_node(rule: Rule, text: String) -> (node: Node)
    ensures
        node@ == leaf(rule, text@),
{
    Node { rule, text, children: Vec::new() }
}

/// The node of a line that stands for itself.
fn line_node(line: &Vec<char>, shape: LogLine, opening: Rule) -> (node: Node)
    requires
        shape@ == classify(line@),
    ensures
        node@ == line_tree(line@, opening),
{
    let text = string_of(line, 0, line.len());
    assert(text@ =~= line@);
    let mut children: Vec<Node> = Vec::new();
    match shape {
        LogLine::Message { kind, contents } => {
            push_node(&mut children, leaf_node(Rule::MessageType, kind));
            push_node(&mut children, leaf_node(Rule::MessageContents, contents));
            let node = Node { rule: Rule::Message, text, children };
            assert(node@.children =~= message_tree(line@, kind@, contents@).children);
            node
        },
        LogLine::Status { action, outcome, duration } => {
            let ghost d = text_of(duration);
            push_node(&mut children, leaf_node(Rule::ActionName, action));
            push_node(&mut children, leaf_node(Rule::BuildOutcome, outcome));
            match duration {
                Some(duration) => {
                    push_node(&mut children, leaf_node(Rule::Duration, duration));
                },
                None => {},
            }
            let node = Node { rule: Rule::BuildStatus, text, children };
            assert(node@.children =~= status_tree(line@, action@, outcome@, d).children);
            node
        },
        LogLine::Header { command, name, args, target } => {
            let ghost arg_texts = texts_of(args@);
            let ghost t = text_of(target);
            let mut parts: Vec<Node> = Vec::new();
            push_node(&mut parts, leaf_node(Rule::CommandName, name));
            let ghost strings = args@;
            assert(trees_of(parts@) =~= seq![leaf(Rule::CommandName, name@)] + arg_leaves(
                arg_texts.take(0),
            ));
            for arg in it: args
                invariant
                    it.seq() == strings,
                    arg_texts == texts_of(strings),
                    trees_of(parts@) == seq![leaf(Rule::CommandName, name@)] + arg_leaves(
                        arg_texts.take(it.index()),
                    ),
            {
                push_node(&mut parts, leaf_node(Rule::Arg, arg));
                assert(trees_of(parts@) =~= seq![leaf(Rule::CommandName, name@)] + arg_leaves(
                    arg_texts.take(it.index() + 1),
                ));
            }
            assert(arg_texts.take(arg_texts.len() as int) =~= arg_texts);
            let command_node = Node { rule: Rule::Command, text: command, children: parts };
            push_node(&mut children, command_node);
            match target {
                Some(target) => {
                    push_node(&mut children, leaf_node(Rule::TargetName, target));
                },
                None => {},
            }
            let node = Node { rule: opening, text, children };
            assert(node@.children =~= opening_tree(
                opening,
                line@,
                command@,
                name@,
                arg_texts,
                t,
            ).children);
            node
        },
        _ => Node { rule: Rule::CommentyBits, text, children },
    }
}

/// The text of the lines `from..to`, each with its line break.
fn block_string(lines: &Vec<Vec<char>>, from: usize, to: usize) -> (out: String)
    requires
        from <= to <= lines.len(),
    ensures
        out@ == block_text(rows_of(lines@), from as int, to as int),
{
    let ghost rows = rows_of(lines@);
    let mut out = String::new();
    let mut i: usize = from;
    while i < to
        invariant
            from <= i <= to <= lines.len(),
            rows == rows_of(lines@),
            out@ == block_text(rows, from as int, i as int),
        decreases to - i,
    {
        let line = &lines[i];
        let ghost before = out@;
        let mut j: usize = 0;
        while j < line.len()
            invariant
                0 <= j <= line.len(),
                out@ == before + line@.take(j as int),
            decreases line.len() - j,
        {
            out.push(line[j]);
            assert(out@ =~= before + line@.take(j + 1));
            j += 1;
        }
        out.push('\n');
        assert(line@.take(line.len() as int) =~= line@);
        assert(rows[i as int] == line@);
        i += 1;
    }
    out
}

/// The nodes of `lines`, as far as they are made of complete units.
fn assemble(lines: &Vec<Vec<char>>) -> (nodes: Option<Vec<Node>>)
    ensures
        parse_of(nodes) == units_from(rows_of(lines@), 0),
{
    let ghost rows = rows_of(lines@);
    let mut nodes: Vec<Node> = Vec::new();
    let mut at: usize = 0;
    while at < lines.len()
        invariant
            0 <= at <= lines.len(),
            rows == rows_of(lines@),
            units_from(rows, 0) == (match units_from(rows, at as int) {
                Some(rest) => Some(trees_of(nodes@) + rest),
                None => None,
            }),
        decreases lines.len() - at,
    {
        let ghost done = trees_of(nodes@);
        let shape = scan_line(&lines[at]);
        assert(rows[at as int] == lines@[at as int]@);
        match shape {
            LogLine::Indented => {
                return None;
            },
            LogLine::Unknown => {
                return None;
            },
            LogLine::Header { .. } => {
                let mut children: Vec<Node> = Vec::new();
                push_node(&mut children, line_node(&lines[at], shape, Rule::ToplevelCommand));
                let mut i: usize = at + 1;
                assert(trees_of(children@) =~= seq![
                    line_tree(rows[at as int], Rule::ToplevelCommand),
                ] + inner_trees(rows, at + 1, i as int));
                while i < lines.len() && lines[i].len() != 0
                    invariant
                        at < i <= lines.len(),
                        rows == rows_of(lines@),
                        classify(rows[at as int]) is Header,
                        units_from(rows, at as int) is None ==> units_from(rows, 0) is None,
                        block_end(rows, at + 1) == block_end(rows, i as int),
                        inner_ok(rows, at + 1, i as int),
                        trees_of(children@) == seq![
                            line_tree(rows[at as int], Rule::ToplevelCommand),
                        ] + inner_trees(rows, at + 1, i as int),
                    decreases lines.len() - i,
                {
                    let ghost so_far = trees_of(children@);
                    let inner = scan_line(&lines[i]);
                    assert(rows[i as int] == lines@[i as int]@);
                    assert(rows[i as int].len() != 0);
                    proof {
                        lemma_block_end(rows, i as int);
                    }
                    match inner {
                        LogLine::Indented => {},
                        LogLine::Message { .. } => {
                            push_node(
                                &mut children,
                                line_node(&lines[i], inner, Rule::NestedCommand),
                            );
                        },
                        LogLine::Header { .. } => {
                            push_node(
                                &mut children,
                                line_node(&lines[i], inner, Rule::NestedCommand),
                            );
                        },
                        _ => {
                            assert(!is_inner(classify(rows[i as int])));
                            return None;
                        },
                    }
                    assert(trees_of(children@) =~= seq![
                        line_tree(rows[at as int], Rule::ToplevelCommand),
                    ] + inner_trees(rows, at + 1, i + 1));
                    i += 1;
                }
                if i >= lines.len() {
                    return None;
                }
                assert(rows[i as int] == lines@[i as int]@);
                let text = block_string(lines, at, i + 1);
                let full = Node { rule: Rule::FullCommand, text, children };
                assert(full@ == block_tree(rows, at as int, i as int));
                push_node(&mut nodes, full);
                proof {
                    let rest = units_from(rows, i + 1);
                    if rest is Some {
                        assert(trees_of(nodes@) + rest.unwrap() =~= done + (seq![
                            block_tree(rows, at as int, i as int),
                        ] + rest.unwrap()));
                    }
                }
                at = i + 1;
            },
            _ => {
                push_node(&mut nodes, line_node(&lines[at], shape, Rule::ToplevelCommand));
                proof {
                    let rest = units_from(rows, at + 1);
                    if rest is Some {
                        assert(trees_of(nodes@) + rest.unwrap() =~= done + (seq![
                            line_tree(rows[at as int], Rule::ToplevelCommand),
                        ] + rest.unwrap()));
                    }
                }
                at += 1;
            },
        }
    }
    assert(trees_of(nodes@) + Seq::<Tree>::empty() =~= trees_of(nodes@));
    Some(nodes)
}

/// Why no parse tree was made: the text is not, or not yet, made of
/// complete units.
#[derive(Debug, PartialEq, Eq)]
pub struct NoMatch {}

/// The value of a parse: its trees, or nothing.
pub open spec fn parsed(result: Result<Vec<Node>, NoMatch>) -> Option<Seq<Tree>> {
    match result {
        Ok(nodes) => Some(trees_of(nodes@)),
        Err(_) => None,
    }
}

/// The recogniser of the log's grammar.
pub struct XcodebuildGrammarParser;

impl XcodebuildGrammarParser {
    /// Parses the characters of `text` from position `from` on.
    pub fn parse_from(text: &Vec<char>, from: usize) -> (result: Result<Vec<Node>, NoMatch>)
        requires
            from <= text.len(),
        ensures
            parsed(result) == grammar(text@.skip(from as int)),
            match result {
                Ok(nodes) => forall|i: int| 0 <= i < nodes.len() ==> walkable(#[trigger] nodes[i]@),
                Err(_) => true,
            },
    {
        proof {
            lemma_lines_from_skip(text@, from as int, 0);
            lemma_grammar_walkable(text@.skip(from as int));
        }
        let result = match split(text, from) {
            Some(lines) => match assemble(&lines) {
                Some(nodes) => Ok(nodes),
                None => Err(NoMatch {  }),
            },
            None => Err(NoMatch {  }),
        };
        proof {
            if result is Ok {
                let nodes = result->Ok_0;
                let trees = trees_of(nodes@);
                lemma_trees_of(nodes@);
                assert(grammar(text@.skip(from as int)) == Some(trees));
                assert forall|i: int| 0 <= i < nodes.len() implies walkable(
                    #[trigger] nodes[i]@,
                ) by {
                    assert(trees[i] == nodes[i]@);
                }
            }
        }
        result
    }

    /// Parses `input` as a whole: the trees of its units in source order,
    /// or `NoMatch`.
    pub fn parse_input(input: &str) -> (result: Result<Vec<Node>, NoMatch>)
        ensures
            parsed(result) == grammar(input@),
            match result {
                Ok(nodes) => forall|i: int| 0 <= i < nodes.len() ==> walkable(#[trigger] nodes[i]@),
                Err(_) => true,
            },
    {
        let text = chars_of(input);
        assert(text@.skip(0) =~= input@);
        XcodebuildGrammarParser::parse_from(&text, 0)
    }
}

} // verus!
