//! What the trees of the grammar hold, and what the walker makes of them.
//!
//! The trees that the grammar builds hold the parts that the walker looks
//! for, so every tree of a parse can be walked; walking the tree of a line
//! gives the events of the line; commands have names; and a walk announces
//! each target once.

use vstd::prelude::*;
use crate::common::{
    command_args, command_name, lemma_push_new, walk, walk_all, walkable, Event, Walked,
};
use crate::grammar_parser::{
    arg_leaves, block_end, block_tree, command_tree, grammar, inner_trees, leaf, lemma_block_end,
    line_tree, lines_from, message_tree, opening_tree, status_tree, target_leaves, units_from,
};
use crate::scan::{classify, header_of, lemma_token_end, Line};
use crate::tree::{
    all_below, first_below, first_child, first_index, flat, lemma_flat_add, lemma_texts_with_add,
    lemma_texts_with_one, texts_with, Rule, Text, Tree,
};

verus! {

/// Below trees without children there is nothing more.
pub proof fn lemma_flat_leaves(ts: Seq<Tree>)
    requires
        forall|i: int| 0 <= i < ts.len() ==> (#[trigger] ts[i]).children.len() == 0,
    ensures
        flat(ts) == ts,
    decreases ts.len(),
{
    if ts.len() > 0 {
        lemma_flat_leaves(ts.drop_last());
        assert(ts.last().children =~= Seq::<Tree>::empty());
        assert(flat(ts.last().children) =~= Seq::<Tree>::empty());
        assert(flat(ts) =~= ts);
    } else {
        assert(flat(ts) =~= ts);
    }
}

/// A tree and what is below it.
pub proof fn lemma_flat_one(t: Tree)
    ensures
        flat(seq![t]) == seq![t] + flat(t.children),
{
    assert(seq![t].drop_last() =~= Seq::<Tree>::empty());
    assert(flat(Seq::<Tree>::empty()) =~= Seq::<Tree>::empty());
    assert(seq![t].last() == t);
    assert(flat(seq![t]) =~= seq![t] + flat(t.children));
}

/// Among the leaves of arguments, the texts of kind `Arg` are the arguments
/// and there are no texts of another kind.
pub proof fn lemma_texts_with_args(args: Seq<Text>, rule: Rule)
    ensures
        texts_with(arg_leaves(args), rule) == (if rule == Rule::Arg {
            args
        } else {
            Seq::<Text>::empty()
        }),
    decreases args.len(),
{
    if args.len() == 0 {
        assert(texts_with(arg_leaves(args), rule) =~= Seq::<Text>::empty());
        assert(args =~= Seq::<Text>::empty());
    } else {
        lemma_texts_with_args(args.drop_last(), rule);
        assert(arg_leaves(args).drop_last() =~= arg_leaves(args.drop_last()));
        assert(arg_leaves(args).last() == leaf(Rule::Arg, args.last()));
        if rule == Rule::Arg {
            assert(texts_with(arg_leaves(args), rule) =~= args);
        }
    }
}

/// A diagnostic's tree holds its kind and what it says.
pub proof fn lemma_message_tree(line: Text, kind: Text, contents: Text)
    ensures
        first_below(message_tree(line, kind, contents), Rule::MessageType) == Some(kind),
        first_below(message_tree(line, kind, contents), Rule::MessageContents) == Some(contents),
{
    let a = leaf(Rule::MessageType, kind);
    let b = leaf(Rule::MessageContents, contents);
    let t = message_tree(line, kind, contents);
    assert(t.children =~= seq![a] + seq![b]);
    lemma_flat_leaves(t.children);
    lemma_texts_with_add(seq![a], seq![b], Rule::MessageType);
    lemma_texts_with_add(seq![a], seq![b], Rule::MessageContents);
    lemma_texts_with_one(a, Rule::MessageType);
    lemma_texts_with_one(b, Rule::MessageType);
    lemma_texts_with_one(a, Rule::MessageContents);
    lemma_texts_with_one(b, Rule::MessageContents);
}

/// A status line's tree holds the action, the outcome and, where the line
/// has one, the duration.
pub proof fn lemma_status_tree(line: Text, action: Text, outcome: Text, duration: Option<Text>)
    ensures
        first_below(status_tree(line, action, outcome, duration), Rule::ActionName) == Some(
            action,
        ),
        first_below(status_tree(line, action, outcome, duration), Rule::BuildOutcome) == Some(
            outcome,
        ),
        first_below(status_tree(line, action, outcome, duration), Rule::Duration) == duration,
{
    let a = leaf(Rule::ActionName, action);
    let b = leaf(Rule::BuildOutcome, outcome);
    let t = status_tree(line, action, outcome, duration);
    let tail = match duration {
        Some(d) => seq![leaf(Rule::Duration, d)],
        None => Seq::<Tree>::empty(),
    };
    assert(t.children =~= (seq![a] + seq![b]) + tail);
    lemma_flat_leaves(t.children);
    lemma_texts_with_add(seq![a] + seq![b], tail, Rule::ActionName);
    lemma_texts_with_add(seq![a] + seq![b], tail, Rule::BuildOutcome);
    lemma_texts_with_add(seq![a] + seq![b], tail, Rule::Duration);
    lemma_texts_with_add(seq![a], seq![b], Rule::ActionName);
    lemma_texts_with_add(seq![a], seq![b], Rule::BuildOutcome);
    lemma_texts_with_add(seq![a], seq![b], Rule::Duration);
    lemma_texts_with_one(a, Rule::ActionName);
    lemma_texts_with_one(b, Rule::ActionName);
    lemma_texts_with_one(a, Rule::BuildOutcome);
    lemma_texts_with_one(b, Rule::BuildOutcome);
    lemma_texts_with_one(a, Rule::Duration);
    lemma_texts_with_one(b, Rule::Duration);
    match duration {
        Some(d) => {
            lemma_texts_with_one(leaf(Rule::Duration, d), Rule::ActionName);
            lemma_texts_with_one(leaf(Rule::Duration, d), Rule::BuildOutcome);
            lemma_texts_with_one(leaf(Rule::Duration, d), Rule::Duration);
        },
        None => {},
    }
}

/// A command's tree holds its name and its arguments in their order.
pub proof fn lemma_command_tree(text: Text, name: Text, args: Seq<Text>)
    ensures
        first_below(command_tree(text, name, args), Rule::CommandName) == Some(name),
        all_below(command_tree(text, name, args), Rule::Arg) == args,
        texts_with(flat(command_tree(text, name, args).children), Rule::TargetName).len() == 0,
{
    let n = leaf(Rule::CommandName, name);
    let t = command_tree(text, name, args);
    lemma_flat_leaves(t.children);
    lemma_texts_with_add(seq![n], arg_leaves(args), Rule::CommandName);
    lemma_texts_with_add(seq![n], arg_leaves(args), Rule::Arg);
    lemma_texts_with_add(seq![n], arg_leaves(args), Rule::TargetName);
    lemma_texts_with_one(n, Rule::CommandName);
    lemma_texts_with_one(n, Rule::Arg);
    lemma_texts_with_one(n, Rule::TargetName);
    lemma_texts_with_args(args, Rule::CommandName);
    lemma_texts_with_args(args, Rule::Arg);
    lemma_texts_with_args(args, Rule::TargetName);
    assert(seq![name] + Seq::<Text>::empty() =~= seq![name]);
    assert(Seq::<Text>::empty() + args =~= args);
}

/// The tree of the line that opens a command holds the command's name, its
/// arguments in their order, and the target where the line names one.
pub proof fn lemma_opening_tree(
    rule: Rule,
    line: Text,
    command: Text,
    name: Text,
    args: Seq<Text>,
    target: Option<Text>,
)
    ensures
        first_child(opening_tree(rule, line, command, name, args, target), Rule::Command)
            == Some(command_tree(command, name, args)),
        command_name(opening_tree(rule, line, command, name, args, target)) == name,
        command_args(opening_tree(rule, line, command, name, args, target)) == args,
        first_below(opening_tree(rule, line, command, name, args, target), Rule::TargetName)
            == target,
{
    let c = command_tree(command, name, args);
    let t = opening_tree(rule, line, command, name, args, target);
    lemma_command_tree(command, name, args);
    assert(t.children[0] == c);
    assert(first_index(t.children, Rule::Command) == 0);
    // below `t`: the command, what is below the command, then the target
    lemma_flat_add(seq![c], target_leaves(target));
    lemma_flat_one(c);
    lemma_flat_leaves(target_leaves(target));
    lemma_texts_with_add(flat(seq![c]), target_leaves(target), Rule::TargetName);
    lemma_texts_with_add(seq![c], flat(c.children), Rule::TargetName);
    lemma_texts_with_one(c, Rule::TargetName);
    match target {
        Some(name) => {
            lemma_texts_with_one(leaf(Rule::TargetName, name), Rule::TargetName);
        },
        None => {},
    }
}

/// The events of a line that stands for itself, at the top of the log or,
/// with `nested`, inside a full command, given the target names announced
/// so far. A diagnostic gives `Message` and a status line `Status`. The
/// opening of a command gives `BeginSubCommand` inside a full command; at the
/// top it gives `BeginCommand`, with `BeginTarget` before it where the line
/// names a target that has not been announced. Other lines give nothing.
pub open spec fn line_walk(line: Text, nested: bool, seen: Seq<Text>) -> Walked {
    match classify(line) {
        Line::Message { kind, contents } => Walked {
            events: seq![Event::Message(kind, contents)],
            seen,
        },
        Line::Status { action, outcome, duration } => Walked {
            events: seq![Event::Status(action, outcome, duration)],
            seen,
        },
        Line::Header { command, name, args, target } => if nested {
            Walked { events: seq![Event::BeginSubCommand(name, args)], seen }
        } else {
            match target {
                Some(target) => if seen.contains(target) {
                    Walked { events: seq![Event::BeginCommand(name, args)], seen }
                } else {
                    Walked {
                        events: seq![Event::BeginTarget(target), Event::BeginCommand(name, args)],
                        seen: seen.push(target),
                    }
                },
                None => Walked { events: seq![Event::BeginCommand(name, args)], seen },
            }
        },
        _ => Walked { events: Seq::empty(), seen },
    }
}

/// The kind that the opening of a command gets, at the top or nested.
pub open spec fn opening_rule(nested: bool) -> Rule {
    if nested {
        Rule::NestedCommand
    } else {
        Rule::ToplevelCommand
    }
}

/// The tree of a line can be walked, and walking it gives the events of the
/// line.
pub proof fn lemma_line_tree(line: Text, nested: bool, seen: Seq<Text>)
    ensures
        walkable(line_tree(line, opening_rule(nested))),
        walk(line_tree(line, opening_rule(nested)), seen) == line_walk(line, nested, seen),
{
    match classify(line) {
        Line::Message { kind, contents } => {
            lemma_message_tree(line, kind, contents);
        },
        Line::Status { action, outcome, duration } => {
            lemma_status_tree(line, action, outcome, duration);
        },
        Line::Header { command, name, args, target } => {
            lemma_opening_tree(opening_rule(nested), line, command, name, args, target);
            lemma_command_tree(command, name, args);
            lemma_token_end(line, 0);
            assert(header_of(line) is Some);
            assert(name.len() > 0);
        },
        _ => {},
    }
}

/// The trees of the lines inside a full command can be walked.
pub proof fn lemma_inner_trees_walkable(lines: Seq<Text>, from: int, to: int)
    ensures
        forall|k: int|
            0 <= k < inner_trees(lines, from, to).len() ==> walkable(
                #[trigger] inner_trees(lines, from, to)[k],
            ),
    decreases to - from,
{
    if from < to {
        lemma_inner_trees_walkable(lines, from, to - 1);
        lemma_line_tree(lines[to - 1], true, Seq::empty());
        let before = inner_trees(lines, from, to - 1);
        let all = inner_trees(lines, from, to);
        assert forall|k: int| 0 <= k < all.len() implies walkable(#[trigger] all[k]) by {
            if k < before.len() {
                assert(all[k] == before[k]);
            }
        }
    }
}

/// The tree of a full command can be walked.
pub proof fn lemma_block_tree_walkable(lines: Seq<Text>, from: int, end: int)
    ensures
        walkable(block_tree(lines, from, end)),
{
    let t = block_tree(lines, from, end);
    lemma_inner_trees_walkable(lines, from + 1, end);
    lemma_line_tree(lines[from], false, Seq::empty());
    assert forall|i: int| 0 <= i < t.children.len() implies walkable(#[trigger] t.children[i]) by {
        if i > 0 {
            assert(t.children[i] == inner_trees(lines, from + 1, end)[i - 1]);
        }
    }
}

/// Every tree that the units of some lines give can be walked.
pub proof fn lemma_units_walkable(lines: Seq<Text>, from: int)
    ensures
        forall|ts: Seq<Tree>, i: int|
            units_from(lines, from) == Some(ts) && 0 <= i < ts.len() ==> walkable(
                #[trigger] ts[i],
            ),
    decreases lines.len() - from,
{
    if 0 <= from < lines.len() {
        let next = match classify(lines[from]) {
            Line::Header { .. } => block_end(lines, from + 1) + 1,
            _ => from + 1,
        };
        lemma_block_end(lines, from + 1);
        lemma_block_tree_walkable(lines, from, next - 1);
        lemma_line_tree(lines[from], false, Seq::empty());
        if next <= lines.len() {
            lemma_units_walkable(lines, next);
        }
        assert forall|ts: Seq<Tree>, i: int|
            units_from(lines, from) == Some(ts) && 0 <= i < ts.len() implies walkable(
            #[trigger] ts[i],
        ) by {
            let rest = units_from(lines, next).unwrap();
            if i > 0 {
                assert(ts[i] == rest[i - 1]);
            }
        }
    }
}

/// Every tree of a parse can be walked: the grammar makes no tree that the
/// walker does not know.
pub proof fn lemma_grammar_walkable(text: Text)
    ensures
        forall|ts: Seq<Tree>, i: int|
            grammar(text) == Some(ts) && 0 <= i < ts.len() ==> walkable(#[trigger] ts[i]),
{
    match lines_from(text, 0) {
        Some(lines) => {
            lemma_units_walkable(lines, 0);
        },
        None => {},
    }
}

/// Walking a tree announces each target once: where no name stands twice
/// among those announced before, none does afterwards, and the names
/// announced before are still there, in their places.
pub proof fn lemma_walk_seen(t: Tree, seen: Seq<Text>)
    requires
        seen.no_duplicates(),
    ensures
        walk(t, seen).seen.no_duplicates(),
        seen.is_prefix_of(walk(t, seen).seen),
    decreases t,
{
    match t.rule {
        Rule::FullCommand => {
            lemma_walk_all_seen(t.children, seen);
        },
        Rule::ToplevelCommand => {
            match first_below(t, Rule::TargetName) {
                Some(target) => {
                    if !seen.contains(target) {
                        lemma_push_new(seen, target);
                    }
                },
                None => {},
            }
        },
        _ => {},
    }
}

/// Walking trees one after the other announces each target once.
pub proof fn lemma_walk_all_seen(ts: Seq<Tree>, seen: Seq<Text>)
    requires
        seen.no_duplicates(),
    ensures
        walk_all(ts, seen).seen.no_duplicates(),
        seen.is_prefix_of(walk_all(ts, seen).seen),
    decreases ts,
{
    if ts.len() > 0 {
        lemma_walk_all_seen(ts.drop_last(), seen);
        lemma_walk_seen(ts.last(), walk_all(ts.drop_last(), seen).seen);
    }
}

/// Whether each command among `events`, nested or not, has a name that is
/// not empty.
pub open spec fn commands_are_named(events: Seq<Event>) -> bool {
    forall|i: int|
        0 <= i < events.len() ==> match #[trigger] events[i] {
            Event::BeginCommand(name, _) => name.len() > 0,
            Event::BeginSubCommand(name, _) => name.len() > 0,
            _ => true,
        }
}

/// Every command that a walk reports has a name.
pub proof fn lemma_walk_named(t: Tree, seen: Seq<Text>)
    requires
        walkable(t),
    ensures
        commands_are_named(walk(t, seen).events),
    decreases t,
{
    match t.rule {
        Rule::FullCommand => {
            lemma_walk_all_named(t.children, seen);
        },
        _ => {},
    }
}

/// Every command that a walk over trees reports has a name.
pub proof fn lemma_walk_all_named(ts: Seq<Tree>, seen: Seq<Text>)
    requires
        forall|i: int| 0 <= i < ts.len() ==> walkable(#[trigger] ts[i]),
    ensures
        commands_are_named(walk_all(ts, seen).events),
    decreases ts,
{
    if ts.len() > 0 {
        let before = walk_all(ts.drop_last(), seen);
        assert forall|i: int| 0 <= i < ts.drop_last().len() implies walkable(
            #[trigger] ts.drop_last()[i],
        ) by {
            assert(ts.drop_last()[i] == ts[i]);
        }
        lemma_walk_all_named(ts.drop_last(), seen);
        assert(walkable(ts[ts.len() - 1]));
        lemma_walk_named(ts.last(), before.seen);
        let last = walk(ts.last(), before.seen);
        let all = walk_all(ts, seen).events;
        assert forall|i: int| 0 <= i < all.len() implies match #[trigger] all[i] {
            Event::BeginCommand(name, _) => name.len() > 0,
            Event::BeginSubCommand(name, _) => name.len() > 0,
            _ => true,
        } by {
            if i < before.events.len() {
                assert(all[i] == before.events[i]);
            } else {
                assert(all[i] == last.events[i - before.events.len()]);
            }
        }
    }
}

/// Every command that the events of a parse report has a name.
pub proof fn lemma_grammar_named(text: Text, seen: Seq<Text>)
    requires
        grammar(text) is Some,
    ensures
        commands_are_named(walk_all(grammar(text).unwrap(), seen).events),
{
    lemma_grammar_walkable(text);
    lemma_walk_all_named(grammar(text).unwrap(), seen);
}

/// Walking over trees, one sequence after the other: the second is walked
/// with the target names that the first has left.
pub proof fn lemma_walk_all_add(a: Seq<Tree>, b: Seq<Tree>, seen: Seq<Text>)
    ensures
        walk_all(a + b, seen).events == walk_all(a, seen).events + walk_all(
            b,
            walk_all(a, seen).seen,
        ).events,
        walk_all(a + b, seen).seen == walk_all(b, walk_all(a, seen).seen).seen,
    decreases b.len(),
{
    if b.len() == 0 {
        assert(a + b =~= a);
        assert(walk_all(a, seen).events + Seq::<Event>::empty() =~= walk_all(a, seen).events);
    } else {
        lemma_walk_all_add(a, b.drop_last(), seen);
        assert((a + b).drop_last() =~= a + b.drop_last());
        assert((a + b).last() == b.last());
        let wa = walk_all(a, seen);
        let wb = walk_all(b.drop_last(), wa.seen);
        let last = walk(b.last(), wb.seen);
        assert(wa.events + (wb.events + last.events) =~= (wa.events + wb.events) + last.events);
    }
}

/// The events of the lines `from..to` inside a full command, in order:
/// those of each line that is not indented.
pub open spec fn inner_events(lines: Seq<Text>, from: int, to: int) -> Seq<Event>
    decreases to - from,
{
    if from >= to {
        Seq::empty()
    } else {
        inner_events(lines, from, to - 1) + line_walk(lines[to - 1], true, Seq::empty()).events
    }
}

/// Inside a full command no target is announced, and the events do not
/// depend on the targets announced before.
pub proof fn lemma_nested_line_walk(line: Text, seen: Seq<Text>)
    ensures
        line_walk(line, true, seen).seen == seen,
        line_walk(line, true, seen).events == line_walk(line, true, Seq::empty()).events,
{
}

/// Walking the trees of the lines inside a full command gives the events of
/// those lines and announces no target.
pub proof fn lemma_inner_trees_walk(lines: Seq<Text>, from: int, to: int, seen: Seq<Text>)
    ensures
        walk_all(inner_trees(lines, from, to), seen).events == inner_events(lines, from, to),
        walk_all(inner_trees(lines, from, to), seen).seen == seen,
    decreases to - from,
{
    if from < to {
        let line = lines[to - 1];
        lemma_inner_trees_walk(lines, from, to - 1, seen);
        lemma_nested_line_walk(line, seen);
        let before = inner_trees(lines, from, to - 1);
        if classify(line) is Indented {
            assert(inner_events(lines, from, to) =~= inner_events(lines, from, to - 1));
        } else {
            lemma_line_tree(line, true, seen);
            assert(before.push(line_tree(line, Rule::NestedCommand)).drop_last() =~= before);
        }
    }
}

/// The events of a full command: those of the line that opens it, at the
/// top of the log, then those of the lines inside it. Only the line that
/// opens it can announce a target.
pub proof fn lemma_block_tree_walk(lines: Seq<Text>, from: int, end: int, seen: Seq<Text>)
    ensures
        walk(block_tree(lines, from, end), seen).events == line_walk(
            lines[from],
            false,
            seen,
        ).events + inner_events(lines, from + 1, end),
        walk(block_tree(lines, from, end), seen).seen == line_walk(lines[from], false, seen).seen,
{
    let first = line_tree(lines[from], Rule::ToplevelCommand);
    let inner = inner_trees(lines, from + 1, end);
    let opened = line_walk(lines[from], false, seen);
    lemma_line_tree(lines[from], false, seen);
    lemma_inner_trees_walk(lines, from + 1, end, opened.seen);
    lemma_walk_all_add(seq![first], inner, seen);
    assert(seq![first].drop_last() =~= Seq::<Tree>::empty());
    assert(walk_all(Seq::<Tree>::empty(), seen).events =~= Seq::<Event>::empty());
    assert(walk_all(seq![first], seen).events =~= opened.events);
}

/// The events of the lines inside a full command stay what they are when
/// more lines follow.
pub proof fn lemma_inner_events_more(lines: Seq<Text>, more: Seq<Text>, from: int, to: int)
    requires
        0 <= from,
        to <= lines.len(),
    ensures
        inner_events(lines + more, from, to) == inner_events(lines, from, to),
    decreases to - from,
{
    if from < to {
        lemma_inner_events_more(lines, more, from, to - 1);
        assert((lines + more)[to - 1] == lines[to - 1]);
    }
}

} // verus!
