//! Runs of the parser: what holds over many calls.

use vstd::prelude::*;
use crate::common::{walk, walk_all, Event, Outcome, ParserState};
use crate::grammar_parser::{
    block_tree, grammar, inner_ok, is_inner, line_tree, lines_from, units_from,
};
use crate::laws::{
    inner_events, lemma_block_tree_walk, lemma_inner_events_more, lemma_line_tree,
    lemma_walk_all_add, lemma_walk_all_seen, line_walk,
};
use crate::pieces::{
    lemma_block_end_at, lemma_grammar_more, lemma_lines_end, lemma_lines_more, lemma_no_blank,
    lemma_one_line_more,
};
use crate::lines::{
    command_text, command_walk, is_argument, is_command_name, is_word, lemma_args_in_order,
    lemma_command_events, lemma_message_line, message_text,
};
use crate::scan::{classify, is_letter, message_mark};
use crate::tree::{first_below, Rule, Text, Tree};

verus! {

/// What a parser has after some calls: its value, and the events that the
/// calls returned, in order.
pub struct Run {
    pub state: ParserState,
    pub events: Seq<Event>,
}

/// The events of a result: those that it holds, and none for a result
/// without events.
pub open spec fn events_in(outcome: Outcome) -> Seq<Event> {
    match outcome {
        Outcome::Commands(events) => events,
        _ => Seq::empty(),
    }
}

/// One call for each of `lines`, in order, on a parser of value `s`.
pub open spec fn run(s: ParserState, lines: Seq<Text>) -> Run
    decreases lines.len(),
{
    if lines.len() == 0 {
        Run { state: s, events: Seq::empty() }
    } else {
        let before = run(s, lines.drop_last());
        let fed = before.state.feed(lines.last());
        Run { state: fed.state, events: before.events + events_in(fed.outcome) }
    }
}

/// The text of `lines`, each followed by a line break.
pub open spec fn joined(lines: Seq<Text>) -> Text
    decreases lines.len(),
{
    if lines.len() == 0 {
        Seq::empty()
    } else {
        joined(lines.drop_last()) + lines.last() + seq!['\n']
    }
}

/// The text of `lines` as one piece: a line break stands between two lines,
/// and none behind the last.
pub open spec fn in_one(lines: Seq<Text>) -> Text {
    if lines.len() == 0 {
        Seq::empty()
    } else {
        joined(lines.drop_last()) + lines.last()
    }
}

/// The text of lines, one sequence after the other.
pub proof fn lemma_joined_add(a: Seq<Text>, b: Seq<Text>)
    ensures
        joined(a + b) == joined(a) + joined(b),
    decreases b.len(),
{
    if b.len() == 0 {
        assert(a + b =~= a);
        assert(joined(a) + joined(b) =~= joined(a));
    } else {
        lemma_joined_add(a, b.drop_last());
        assert((a + b).drop_last() =~= a + b.drop_last());
        assert((a + b).last() == b.last());
        assert(joined(a + b) =~= joined(a) + joined(b));
    }
}

/// Each call keeps what makes a parser's value well formed, consumes no less
/// than was consumed, and keeps the text and the target names that were
/// there, in their places.
pub proof fn lemma_feed_grows(s: ParserState, line: Text)
    requires
        s.wf(),
    ensures
        s.feed(line).state.wf(),
        s.feed(line).state.consumed >= s.consumed,
        s.feed(line).state.buffer == s.buffer + line + seq!['\n'],
        s.seen.is_prefix_of(s.feed(line).state.seen),
        s.feed(line).outcome is Continue ==> s.feed(line).state.consumed == s.consumed
            && s.feed(line).state.seen == s.seen,
        s.feed(line).outcome is Commands ==> s.feed(line).state.consumed == s.feed(
            line,
        ).state.buffer.len(),
        !(s.feed(line).outcome is NoMatch),
{
    let more = ParserState {
        buffer: s.buffer + line + seq!['\n'],
        consumed: s.consumed,
        seen: s.seen,
    };
    match grammar(more.pending()) {
        Some(trees) => {
            lemma_walk_all_seen(trees, s.seen);
        },
        None => {},
    }
}

/// Over any number of calls a parser consumes no less than was consumed,
/// keeps the text that it had at the start of its buffer, and keeps the
/// target names that were announced, in their places.
pub proof fn lemma_run_grows(s: ParserState, lines: Seq<Text>)
    requires
        s.wf(),
    ensures
        run(s, lines).state.wf(),
        run(s, lines).state.consumed >= s.consumed,
        run(s, lines).state.buffer == s.buffer + joined(lines),
        s.seen.is_prefix_of(run(s, lines).state.seen),
    decreases lines.len(),
{
    if lines.len() > 0 {
        let before = run(s, lines.drop_last());
        lemma_run_grows(s, lines.drop_last());
        lemma_feed_grows(before.state, lines.last());
        assert(run(s, lines).state.buffer =~= s.buffer + joined(lines));
    } else {
        assert(s.buffer + joined(lines) =~= s.buffer);
    }
}

/// What holds after the first `k` of `lines` have gone to a parser of value
/// `s`, while the text of all of them is one that the grammar takes: the
/// parser has consumed up to a place from which the grammar takes the rest,
/// and the events returned so far, with those of the rest, are the events of
/// the whole.
spec fn on_track(s: ParserState, lines: Seq<Text>, k: int) -> bool {
    let full = s.buffer + joined(lines);
    let whole = walk_all(grammar(full.skip(s.consumed as int)).unwrap(), s.seen);
    let r = run(s, lines.take(k));
    let rest = grammar(full.skip(r.state.consumed as int));
    &&& r.state.wf()
    &&& r.state.buffer == s.buffer + joined(lines.take(k))
    &&& rest is Some
    &&& r.events + walk_all(rest.unwrap(), r.state.seen).events == whole.events
    &&& walk_all(rest.unwrap(), r.state.seen).seen == whole.seen
}

/// One call more keeps the parser on track.
proof fn lemma_on_track_step(s: ParserState, lines: Seq<Text>, k: int)
    requires
        s.wf(),
        0 <= k < lines.len(),
        on_track(s, lines, k),
    ensures
        on_track(s, lines, k + 1),
{
    let full = s.buffer + joined(lines);
    let before = run(s, lines.take(k));
    let st = before.state;
    let line = lines[k];
    assert(lines.take(k + 1).drop_last() =~= lines.take(k));
    assert(lines.take(k + 1).last() == line);
    let after = run(s, lines.take(k + 1));
    let fed = st.feed(line);
    assert(after.state == fed.state);
    lemma_feed_grows(st, line);
    let buffer = st.buffer + line + seq!['\n'];
    assert(buffer =~= s.buffer + joined(lines.take(k + 1)));
    // the text of the lines that have not gone to the parser yet
    let later = joined(lines.skip(k + 1));
    assert(lines =~= lines.take(k + 1) + lines.skip(k + 1));
    lemma_joined_add(lines.take(k + 1), lines.skip(k + 1));
    assert(full =~= buffer + later);
    let c = st.consumed as int;
    let pending = buffer.skip(c);
    assert(full.skip(c) =~= pending + later);
    assert(full.skip(buffer.len() as int) =~= later);
    match grammar(pending) {
        Some(x) => {
            lemma_grammar_more(pending, later);
            let y = grammar(later).unwrap();
            lemma_walk_all_add(x, y, st.seen);
            let wx = walk_all(x, st.seen);
            let wy = walk_all(y, wx.seen);
            assert(after.events + wy.events =~= before.events + (wx.events + wy.events));
        },
        None => {},
    }
}

/// As long as lines are left, the parser is on track.
proof fn lemma_on_track(s: ParserState, lines: Seq<Text>, k: int)
    requires
        s.wf(),
        0 <= k <= lines.len(),
        grammar((s.buffer + joined(lines)).skip(s.consumed as int)) is Some,
    ensures
        on_track(s, lines, k),
    decreases k,
{
    if k == 0 {
        assert(lines.take(0) =~= Seq::<Text>::empty());
        assert(s.buffer + joined(lines.take(0)) =~= s.buffer);
        let full = s.buffer + joined(lines);
        let whole = walk_all(grammar(full.skip(s.consumed as int)).unwrap(), s.seen);
        assert(Seq::<Event>::empty() + whole.events =~= whole.events);
    } else {
        lemma_on_track(s, lines, k - 1);
        lemma_on_track_step(s, lines, k - 1);
    }
}

/// Input gives the same events whether it comes in one call or line by
/// line: where a parser takes the text of some lines in one call and
/// returns events, one call for each line returns, all calls together, the
/// same events in the same order, and leaves the parser with the same
/// value.
pub proof fn lemma_split_input(s: ParserState, lines: Seq<Text>)
    requires
        s.wf(),
        lines.len() > 0,
        s.feed(in_one(lines)).outcome is Commands,
    ensures
        run(s, lines).events == events_in(s.feed(in_one(lines)).outcome),
        run(s, lines).state == s.feed(in_one(lines)).state,
{
    let full = s.buffer + joined(lines);
    assert(s.buffer + in_one(lines) + seq!['\n'] =~= full);
    let n = lines.len() as int;
    lemma_on_track(s, lines, n - 1);
    // the last call
    let before = run(s, lines.take(n - 1));
    let st = before.state;
    assert(lines.take(n - 1) =~= lines.drop_last());
    let fed = st.feed(lines.last());
    assert(st.buffer + lines.last() + seq!['\n'] =~= full);
    lemma_feed_grows(st, lines.last());
    let whole = s.feed(in_one(lines));
    assert(run(s, lines).state.buffer =~= whole.state.buffer);
}

/// Text that was consumed is not read again: what a call returns depends on
/// the pending text and on the target names announced so far, and on
/// nothing else that the parser holds.
pub proof fn lemma_consumed_text_is_left(a: ParserState, b: ParserState, line: Text)
    requires
        a.wf(),
        b.wf(),
        a.pending() == b.pending(),
        a.seen == b.seen,
    ensures
        a.feed(line).outcome == b.feed(line).outcome,
        a.feed(line).state.pending() == b.feed(line).state.pending(),
        a.feed(line).state.seen == b.feed(line).state.seen,
{
    let more = line + seq!['\n'];
    let pa = (a.buffer + line + seq!['\n']).skip(a.consumed as int);
    let pb = (b.buffer + line + seq!['\n']).skip(b.consumed as int);
    assert(pa =~= a.pending() + more);
    assert(pb =~= b.pending() + more);
    let empty = Seq::<char>::empty();
    assert((a.buffer + line + seq!['\n']).skip((a.buffer + line + seq!['\n']).len() as int)
        =~= empty);
    assert((b.buffer + line + seq!['\n']).skip((b.buffer + line + seq!['\n']).len() as int)
        =~= empty);
}

/// The target names that `events` announce, in order.
pub open spec fn announced(events: Seq<Event>) -> Seq<Text>
    decreases events.len(),
{
    if events.len() == 0 {
        Seq::empty()
    } else {
        match events.last() {
            Event::BeginTarget(name) => announced(events.drop_last()).push(name),
            _ => announced(events.drop_last()),
        }
    }
}

/// The names announced by events, one sequence after the other.
pub proof fn lemma_announced_add(a: Seq<Event>, b: Seq<Event>)
    ensures
        announced(a + b) == announced(a) + announced(b),
    decreases b.len(),
{
    if b.len() == 0 {
        assert(a + b =~= a);
        assert(announced(a) + announced(b) =~= announced(a));
    } else {
        lemma_announced_add(a, b.drop_last());
        assert((a + b).drop_last() =~= a + b.drop_last());
        assert((a + b).last() == b.last());
        assert(announced(a + b) =~= announced(a) + announced(b));
    }
}

/// The names announced by one event.
pub proof fn lemma_announced_one(e: Event)
    ensures
        announced(seq![e]) == (match e {
            Event::BeginTarget(name) => seq![name],
            _ => Seq::<Text>::empty(),
        }),
{
    assert(seq![e].drop_last() =~= Seq::<Event>::empty());
    assert(announced(Seq::<Event>::empty()) =~= Seq::<Text>::empty());
    assert(seq![e].last() == e);
    match e {
        Event::BeginTarget(name) => {
            assert(announced(seq![e]) =~= seq![name]);
        },
        _ => {},
    }
}

/// The target names kept after walking a tree are those kept before, then
/// those that the walk's events announce.
pub proof fn lemma_walk_announces(t: Tree, seen: Seq<Text>)
    ensures
        walk(t, seen).seen == seen + announced(walk(t, seen).events),
    decreases t,
{
    let w = walk(t, seen);
    match t.rule {
        Rule::FullCommand => {
            lemma_walk_all_announces(t.children, seen);
        },
        Rule::ToplevelCommand => {
            let begin = w.events.last();
            lemma_announced_one(begin);
            match first_below(t, Rule::TargetName) {
                Some(target) => {
                    if !seen.contains(target) {
                        lemma_announced_one(Event::BeginTarget(target));
                        lemma_announced_add(seq![Event::BeginTarget(target)], seq![begin]);
                        assert(w.events =~= seq![Event::BeginTarget(target)] + seq![begin]);
                        assert(seen.push(target) =~= seen + (seq![target] + Seq::<Text>::empty()));
                    } else {
                        assert(w.events =~= seq![begin]);
                        assert(seen =~= seen + Seq::<Text>::empty());
                    }
                },
                None => {
                    assert(w.events =~= seq![begin]);
                    assert(seen =~= seen + Seq::<Text>::empty());
                },
            }
        },
        _ => {
            if w.events.len() > 0 {
                assert(w.events =~= seq![w.events[0]]);
                lemma_announced_one(w.events[0]);
            }
            assert(seen =~= seen + Seq::<Text>::empty());
        },
    }
}

/// The target names kept after walking trees are those kept before, then
/// those that the walk's events announce.
pub proof fn lemma_walk_all_announces(ts: Seq<Tree>, seen: Seq<Text>)
    ensures
        walk_all(ts, seen).seen == seen + announced(walk_all(ts, seen).events),
    decreases ts,
{
    if ts.len() > 0 {
        let before = walk_all(ts.drop_last(), seen);
        let last = walk(ts.last(), before.seen);
        lemma_walk_all_announces(ts.drop_last(), seen);
        lemma_walk_announces(ts.last(), before.seen);
        lemma_announced_add(before.events, last.events);
        assert(seen + (announced(before.events) + announced(last.events)) =~= (seen + announced(
            before.events,
        )) + announced(last.events));
    } else {
        assert(seen =~= seen + Seq::<Text>::empty());
    }
}

/// A target that a top-level command names is known once the command has
/// been walked: it was announced before, or the walk announces it.
pub proof fn lemma_target_known(t: Tree, seen: Seq<Text>)
    requires
        t.rule == Rule::ToplevelCommand,
        first_below(t, Rule::TargetName) is Some,
    ensures
        walk(t, seen).seen.contains(first_below(t, Rule::TargetName).unwrap()),
{
    let target = first_below(t, Rule::TargetName).unwrap();
    if !seen.contains(target) {
        assert(seen.push(target)[seen.len() as int] == target);
    }
}

/// Each target is announced once: over any number of calls, the target
/// names that the returned events announce are all different, none of them
/// was announced before the calls, and the parser keeps them, in their
/// order, behind those that it kept before.
pub proof fn lemma_targets_once(s: ParserState, lines: Seq<Text>)
    requires
        s.wf(),
    ensures
        run(s, lines).state.seen == s.seen + announced(run(s, lines).events),
        announced(run(s, lines).events).no_duplicates(),
        forall|i: int|
            0 <= i < announced(run(s, lines).events).len() ==> !s.seen.contains(
                #[trigger] announced(run(s, lines).events)[i],
            ),
    decreases lines.len(),
{
    let r = run(s, lines);
    if lines.len() == 0 {
        assert(s.seen =~= s.seen + Seq::<Text>::empty());
    } else {
        let before = run(s, lines.drop_last());
        lemma_targets_once(s, lines.drop_last());
        lemma_run_grows(s, lines.drop_last());
        let fed = before.state.feed(lines.last());
        let more = ParserState {
            buffer: before.state.buffer + lines.last() + seq!['\n'],
            consumed: before.state.consumed,
            seen: before.state.seen,
        };
        lemma_announced_add(before.events, events_in(fed.outcome));
        match grammar(more.pending()) {
            Some(trees) => {
                lemma_walk_all_announces(trees, before.state.seen);
            },
            None => {},
        }
        assert(r.state.seen =~= s.seen + announced(r.events));
    }
    lemma_run_grows(s, lines);
    let names = announced(r.events);
    let all = s.seen + names;
    assert forall|i: int, j: int| 0 <= i < names.len() && 0 <= j < names.len() && i != j implies names[i]
        != names[j] by {
        assert(all[s.seen.len() + i] == names[i]);
        assert(all[s.seen.len() + j] == names[j]);
    }
    assert forall|i: int| 0 <= i < names.len() implies !s.seen.contains(#[trigger] names[i]) by {
        if s.seen.contains(names[i]) {
            let k = choose|k: int| 0 <= k < s.seen.len() && s.seen[k] == names[i];
            assert(all[k] == s.seen[k]);
            assert(all[s.seen.len() + i] == names[i]);
        }
    }
}

/// Whether `line` can go to the parser as one line of a command that is
/// open: it is not blank and holds no line break.
pub open spec fn is_open_line(line: Text) -> bool {
    line.len() > 0 && !line.contains('\n')
}

/// A command that is open waits. Where a parser has no pending text and is
/// given the line that opens a command and then lines that are not blank,
/// each call returns `Continue`: no event is returned, nothing is consumed,
/// no target is announced, and the lines are kept as pending text. (The
/// last call is spoken of; the calls before it are the last calls of the
/// shorter sequences.)
pub proof fn lemma_open_command_waits(s: ParserState, lines: Seq<Text>)
    requires
        s.wf(),
        s.pending().len() == 0,
        lines.len() > 0,
        classify(lines[0]) is Header,
        forall|i: int| 0 <= i < lines.len() ==> is_open_line(#[trigger] lines[i]),
    ensures
        run(s, lines.drop_last()).state.feed(lines.last()).outcome is Continue,
        run(s, lines).events == Seq::<Event>::empty(),
        run(s, lines).state.consumed == s.consumed,
        run(s, lines).state.seen == s.seen,
        lines_from(run(s, lines).state.pending(), 0) == Some(lines),
    decreases lines.len(),
{
    let before = run(s, lines.drop_last());
    let line = lines.last();
    if lines.len() == 1 {
        assert(lines.drop_last() =~= Seq::<Text>::empty());
        assert(lines_from(s.pending(), 0) == Some(Seq::<Text>::empty()));
    } else {
        assert(lines.drop_last()[0] == lines[0]);
        assert forall|i: int| 0 <= i < lines.drop_last().len() implies is_open_line(
            #[trigger] lines.drop_last()[i],
        ) by {
            assert(lines.drop_last()[i] == lines[i]);
        }
        lemma_open_command_waits(s, lines.drop_last());
    }
    lemma_run_grows(s, lines.drop_last());
    let st = before.state;
    let pending = (st.buffer + line + seq!['\n']).skip(st.consumed as int);
    assert(pending =~= st.pending() + line + seq!['\n']);
    assert(is_open_line(lines[lines.len() - 1]));
    lemma_one_line_more(st.pending(), lines.drop_last(), line);
    assert(lines.drop_last().push(line) =~= lines);
    lemma_no_blank(lines, 1);
    assert(units_from(lines, 0) is None);
    assert(run(s, lines).events =~= Seq::<Event>::empty());
}

/// The blank line completes the command. Where a parser has no pending
/// text and is given the line that opens a command, then lines that can
/// stand inside a command, and then a blank line, the call with the blank
/// line returns the events of the whole command, and all the text is
/// consumed.
pub proof fn lemma_blank_line_completes(s: ParserState, lines: Seq<Text>)
    requires
        s.wf(),
        s.pending().len() == 0,
        lines.len() > 0,
        classify(lines[0]) is Header,
        forall|i: int| 0 <= i < lines.len() ==> is_open_line(#[trigger] lines[i]),
        inner_ok(lines, 1, lines.len() as int),
    ensures
        run(s, lines).state.feed(Seq::empty()).outcome == Outcome::Commands(
            walk(
                block_tree(lines.push(Seq::empty()), 0, lines.len() as int),
                s.seen,
            ).events,
        ),
        run(s, lines.push(Seq::empty())).events == walk(
            block_tree(lines.push(Seq::empty()), 0, lines.len() as int),
            s.seen,
        ).events,
        run(s, lines.push(Seq::empty())).events == line_walk(lines[0], false, s.seen).events
            + inner_events(lines, 1, lines.len() as int),
        run(s, lines.push(Seq::empty())).state.seen == line_walk(lines[0], false, s.seen).seen,
        run(s, lines.push(Seq::empty())).state.pending().len() == 0,
{
    let blank = Seq::<char>::empty();
    let all = lines.push(blank);
    let n = lines.len() as int;
    lemma_open_command_waits(s, lines);
    lemma_run_grows(s, lines);
    let st = run(s, lines).state;
    let pending = (st.buffer + blank + seq!['\n']).skip(st.consumed as int);
    assert(pending =~= st.pending() + blank + seq!['\n']);
    assert(!blank.contains('\n'));
    lemma_one_line_more(st.pending(), lines, blank);
    assert forall|i: int| 1 <= i < n implies (#[trigger] all[i]).len() > 0 by {
        assert(all[i] == lines[i]);
        assert(is_open_line(lines[i]));
    }
    lemma_block_end_at(all, 1, n);
    assert forall|i: int| 1 <= i < n implies is_inner(
        classify(#[trigger] all[i]),
    ) by {
        assert(all[i] == lines[i]);
    }
    assert(all[0] == lines[0]);
    let tree = block_tree(all, 0, n);
    assert(units_from(all, n + 1) == Some(Seq::<Tree>::empty()));
    assert(seq![tree] + Seq::<Tree>::empty() =~= seq![tree]);
    assert(units_from(all, 0) == Some(seq![tree]));
    assert(grammar(pending) == Some(seq![tree]));
    // walking the one tree
    assert(seq![tree].drop_last() =~= Seq::<Tree>::empty());
    assert(walk_all(Seq::<Tree>::empty(), s.seen).events =~= Seq::<Event>::empty());
    assert(walk_all(seq![tree], s.seen).events =~= walk(tree, s.seen).events);
    assert(all.drop_last() =~= lines);
    assert(run(s, all).events =~= walk(tree, s.seen).events);
    let end = run(s, all).state;
    assert(end.buffer.skip(end.buffer.len() as int) =~= Seq::<char>::empty());
    // the events, line by line
    lemma_block_tree_walk(all, 0, n, s.seen);
    lemma_inner_events_more(lines, seq![blank], 1, n);
    assert(lines + seq![blank] =~= all);
    assert(walk_all(seq![tree], s.seen).seen == walk(tree, s.seen).seen);
}

/// Indented lines inside a full command give no events.
pub proof fn lemma_indented_lines_are_silent(lines: Seq<Text>, from: int, to: int)
    requires
        0 <= from,
        to <= lines.len(),
        forall|i: int| from <= i < to ==> classify(#[trigger] lines[i]) is Indented,
    ensures
        inner_events(lines, from, to) == Seq::<Event>::empty(),
        inner_ok(lines, from, to),
    decreases to - from,
{
    if from < to {
        lemma_indented_lines_are_silent(lines, from, to - 1);
        assert(classify(lines[to - 1]) is Indented);
    }
}

/// A whole command, line by line. Where a parser has no pending text and is
/// given the line that opens a command, made of the command's name, its
/// arguments and, where there is one, its target, then indented lines, and
/// then a blank line, the calls return, all together: `BeginTarget` where
/// the line names a target that was not announced before, and then
/// `BeginCommand` with the name and the arguments in the order of the
/// source. All of it comes with the blank line.
pub proof fn lemma_command_run(
    s: ParserState,
    name: Text,
    args: Seq<Text>,
    target: Option<Text>,
    body: Seq<Text>,
)
    requires
        s.wf(),
        s.pending().len() == 0,
        is_command_name(name),
        forall|i: int| 0 <= i < args.len() ==> is_argument(#[trigger] args[i]),
        target matches Some(t) ==> t.len() > 0,
        !command_text(name, args, target).contains('\n'),
        forall|i: int|
            0 <= i < body.len() ==> is_open_line(#[trigger] body[i]) && classify(
                body[i],
            ) is Indented,
    ensures
        run(s, seq![command_text(name, args, target)] + body).events == Seq::<Event>::empty(),
        run(s, (seq![command_text(name, args, target)] + body).push(Seq::empty())).events
            == command_walk(name, args, target, s.seen).events,
{
    let header = command_text(name, args, target);
    let lines = seq![header] + body;
    let n = lines.len() as int;
    assert(classify(header) is Header) by {
        lemma_args_in_order(name, args, target);
    }
    assert(lines[0] == header);
    assert forall|i: int| 0 <= i < n implies is_open_line(#[trigger] lines[i]) by {
        if i > 0 {
            assert(lines[i] == body[i - 1]);
        }
    }
    assert forall|i: int| 1 <= i < n implies classify(#[trigger] lines[i]) is Indented by {
        assert(lines[i] == body[i - 1]);
    }
    lemma_indented_lines_are_silent(lines, 1, n);
    lemma_open_command_waits(s, lines);
    lemma_blank_line_completes(s, lines);
    lemma_command_events(name, args, target, s.seen);
    let opened = command_walk(name, args, target, s.seen).events;
    assert(opened + Seq::<Event>::empty() =~= opened);
}

/// A diagnostic is returned at once. Where a parser has no pending text and
/// is given a line made of a kind of letters, a colon, a space and a text,
/// the call returns one event, the message of that kind with that text, and
/// the line is consumed.
pub proof fn lemma_message_run(s: ParserState, kind: Text, contents: Text)
    requires
        s.wf(),
        s.pending().len() == 0,
        is_word(kind),
        !contents.contains('\n'),
    ensures
        s.feed(message_text(kind, contents)).outcome == Outcome::Commands(
            seq![Event::Message(kind, contents)],
        ),
        s.feed(message_text(kind, contents)).state.pending().len() == 0,
        s.feed(message_text(kind, contents)).state.seen == s.seen,
{
    reveal_strlit(": ");
    let line = message_text(kind, contents);
    lemma_message_line(kind, contents);
    assert(!line.contains('\n')) by {
        if line.contains('\n') {
            let i = choose|i: int| 0 <= i < line.len() && line[i] == '\n';
            if i < kind.len() {
                assert(line[i] == kind[i]);
                assert(is_letter(kind[i]));
            } else if i < kind.len() + 2 {
                assert(line[i] == message_mark()[i - kind.len()]);
            } else {
                assert(line[i] == contents[i - kind.len() - 2]);
                assert(contents.contains(contents[i - kind.len() - 2]));
            }
        }
    }
    let more = s.with_line(line);
    assert(more.pending() =~= s.pending() + line + seq!['\n']);
    assert(lines_from(s.pending(), 0) == Some(Seq::<Text>::empty()));
    lemma_one_line_more(s.pending(), Seq::<Text>::empty(), line);
    let lines = Seq::<Text>::empty().push(line);
    let tree = line_tree(line, Rule::ToplevelCommand);
    assert(units_from(lines, 1) == Some(Seq::<Tree>::empty()));
    assert(seq![tree] + Seq::<Tree>::empty() =~= seq![tree]);
    assert(units_from(lines, 0) == Some(seq![tree]));
    lemma_line_tree(line, false, s.seen);
    assert(seq![tree].drop_last() =~= Seq::<Tree>::empty());
    assert(walk_all(Seq::<Tree>::empty(), s.seen).events =~= Seq::<Event>::empty());
    assert(walk_all(seq![tree], s.seen).events =~= seq![Event::Message(kind, contents)]);
    let end = s.feed(line).state;
    assert(end.buffer.skip(end.buffer.len() as int) =~= Seq::<char>::empty());
}

/// Whether the pending text of `s` is made of whole lines of which the
/// first stands for nothing at the top of the log: it is indented, or it has
/// no known shape.
pub open spec fn is_stuck(s: ParserState) -> bool {
    match lines_from(s.pending(), 0) {
        Some(lines) => lines.len() > 0 && (classify(lines[0]) is Indented || classify(
            lines[0],
        ) is Unknown),
        None => false,
    }
}

/// Text without a match is never consumed. Where the pending text of a
/// parser starts with a line that stands for nothing at the top of the log,
/// every call returns `Continue`, whatever the line it is given, and the
/// parser stays as it is but for the text that it has received.
pub proof fn lemma_stuck_stays(s: ParserState, line: Text)
    requires
        s.wf(),
        is_stuck(s),
    ensures
        s.feed(line).outcome is Continue,
        s.feed(line).state.consumed == s.consumed,
        s.feed(line).state.seen == s.seen,
        is_stuck(s.feed(line).state),
{
    let more = line + seq!['\n'];
    let pending = s.with_line(line).pending();
    assert(pending =~= s.pending() + more);
    let lines = lines_from(s.pending(), 0).unwrap();
    lemma_lines_more(s.pending(), more, 0);
    // the last line of what was received has its line break
    lemma_lines_end(more, 0);
    let added = lines_from(more, 0).unwrap();
    assert((lines + added)[0] == lines[0]);
}

/// Over any number of calls, text without a match is never consumed and no
/// event is returned.
pub proof fn lemma_stuck_run(s: ParserState, lines: Seq<Text>)
    requires
        s.wf(),
        is_stuck(s),
    ensures
        run(s, lines).events == Seq::<Event>::empty(),
        run(s, lines).state.consumed == s.consumed,
        run(s, lines).state.seen == s.seen,
        is_stuck(run(s, lines).state),
        run(s, lines).state.pending().len() > 0,
    decreases lines.len(),
{
    if lines.len() > 0 {
        let before = run(s, lines.drop_last());
        lemma_stuck_run(s, lines.drop_last());
        lemma_run_grows(s, lines.drop_last());
        lemma_stuck_stays(before.state, lines.last());
        assert(run(s, lines).events =~= Seq::<Event>::empty());
    }
    let end = run(s, lines).state;
    assert(end.pending().len() > 0) by {
        if end.pending().len() == 0 {
            assert(lines_from(end.pending(), 0) == Some(Seq::<Text>::empty()));
        }
    }
}

/// After a call the pending text of a parser is made of whole lines.
pub proof fn lemma_pending_is_lines(s: ParserState, line: Text)
    requires
        s.wf(),
    ensures
        lines_from(s.feed(line).state.pending(), 0) is Some,
{
    let more = s.with_line(line);
    let pending = more.pending();
    assert(pending =~= s.pending() + line + seq!['\n']);
    lemma_lines_end(pending, 0);
    let end = s.feed(line).state;
    assert(end.buffer.skip(end.buffer.len() as int) =~= Seq::<char>::empty());
}

} // verus!
