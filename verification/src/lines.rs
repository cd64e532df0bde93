//! Lines made of words: what the line that opens a command is read as.

use vstd::prelude::*;
use crate::common::{walk, Event, Walked};
use crate::grammar_parser::line_tree;
use crate::laws::{lemma_line_tree, line_walk};
use crate::scan::{
    arg_follows, args_end, args_from, classify, duration_open, has_at, is_letter,
    lemma_letters_end, letters_end, message_mark, message_of, status_close, status_of,
    status_open, target_at, target_open, token_end, Line,
};
use crate::tree::{Rule, Text};

verus! {

/// Whether `word` is made of letters, one at least.
pub open spec fn is_word(word: Text) -> bool {
    word.len() > 0 && forall|i: int| 0 <= i < word.len() ==> is_letter(#[trigger] word[i])
}

/// Whether `w` is one token from its first character to its last.
pub open spec fn is_token(w: Text) -> bool {
    w.len() > 0 && token_end(w, 0) == w.len()
}

/// Whether `name` can be the name of a command: it is a token, its first
/// character does not make the line a banner, a status line or indented
/// text, and it holds no colon.
pub open spec fn is_command_name(name: Text) -> bool {
    &&& is_token(name)
    &&& name[0] != '\t'
    &&& name[0] != '='
    &&& name[0] != '*'
    &&& !name.contains(':')
}

/// Whether `arg` can be an argument of a command: it is a token that does
/// not start with `(`.
pub open spec fn is_argument(arg: Text) -> bool {
    is_token(arg) && arg[0] != '('
}

/// `words`, with a space before each.
pub open spec fn spaced(words: Seq<Text>) -> Text
    decreases words.len(),
{
    if words.len() == 0 {
        Seq::empty()
    } else {
        seq![' '] + words[0] + spaced(words.drop_first())
    }
}

/// What names the target of a command, behind the command.
pub open spec fn target_text(target: Option<Text>) -> Text {
    match target {
        Some(name) => target_open() + name + seq![')'],
        None => Seq::empty(),
    }
}

/// The line that opens a command: the name, the arguments with a space
/// before each, and the target where there is one.
pub open spec fn command_text(name: Text, args: Seq<Text>, target: Option<Text>) -> Text {
    name + spaced(args) + target_text(target)
}

/// A token that stands in a line, with a space or the end of the line
/// behind it, is read as one token.
pub proof fn lemma_token_in(line: Text, at: int, w: Text, i: int)
    requires
        0 <= at,
        at + w.len() <= line.len(),
        line.subrange(at, at + w.len()) == w,
        at + w.len() < line.len() ==> line[at + w.len()] == ' ',
        0 <= i <= w.len(),
        token_end(w, i) == w.len(),
    ensures
        token_end(line, at + i) == at + w.len(),
    decreases w.len() - i,
{
    if i < w.len() {
        assert(line[at + i] == line.subrange(at, at + w.len())[i]);
        if w[i] == '\\' {
            if i + 1 < w.len() {
                lemma_token_in(line, at, w, i + 2);
            }
        } else if w[i] != ' ' {
            lemma_token_in(line, at, w, i + 1);
        }
    }
}

/// Arguments that stand in a line, with the end of the line or a target
/// behind them, are read as they stand, in their order.
pub proof fn lemma_args_in(line: Text, at: int, args: Seq<Text>, target: Option<Text>)
    requires
        0 <= at,
        line.len() == at + spaced(args).len() + target_text(target).len(),
        line.subrange(at, line.len() as int) == spaced(args) + target_text(target),
        forall|i: int| 0 <= i < args.len() ==> is_argument(#[trigger] args[i]),
    ensures
        args_from(line, at) == args,
        args_end(line, at) == at + spaced(args).len(),
    decreases args.len(),
{
    reveal_strlit(" (in target: ");
    let rest = line.subrange(at, line.len() as int);
    if args.len() == 0 {
        assert(spaced(args) =~= Seq::<char>::empty());
        match target {
            Some(name) => {
                assert(rest =~= target_open() + name + seq![')']);
                assert forall|i: int| 0 <= i < target_open().len() implies line[at + i]
                    == #[trigger] target_open()[i] by {
                    assert(line[at + i] == rest[i]);
                }
                assert(has_at(line, at, target_open()));
            },
            None => {},
        }
        assert(!arg_follows(line, at));
        assert(args_from(line, at) =~= args);
    } else {
        let w = args[0];
        let more = args.drop_first();
        let tail = spaced(more) + target_text(target);
        assert(is_argument(args[0]));
        assert(rest =~= seq![' '] + w + tail);
        assert(line[at] == rest[0]);
        assert(line[at + 1] == rest[1]);
        let next = at + 1 + w.len();
        assert(rest.len() == 1 + w.len() + tail.len());
        assert forall|j: int| 0 <= j < w.len() implies line[at + 1 + j] == w[j] by {
            assert(line[at + 1 + j] == rest[1 + j]);
        }
        assert(line.subrange(at + 1, next) =~= w);
        if next < line.len() {
            assert(line[next] == rest[next - at]);
            assert(line[next] == tail[0]);
            if more.len() == 0 {
                assert(spaced(more) =~= Seq::<char>::empty());
                assert(tail[0] == target_open()[0]);
            }
        }
        lemma_token_in(line, at + 1, w, 0);
        assert(!has_at(line, at, target_open())) by {
            if has_at(line, at, target_open()) {
                assert(line[at + 1] == target_open()[1]);
            }
        }
        assert(arg_follows(line, at));
        assert forall|j: int| 0 <= j < tail.len() implies line[next + j] == tail[j] by {
            assert(line[next + j] == rest[next - at + j]);
        }
        assert(line.subrange(next, line.len() as int) =~= tail);
        assert forall|i: int| 0 <= i < more.len() implies is_argument(#[trigger] more[i]) by {
            assert(more[i] == args[i + 1]);
        }
        lemma_args_in(line, next, more, target);
        assert(seq![line.subrange(at + 1, next)] + more =~= args);
    }
}

/// Arguments come out as they stand in the source, in their order: the line
/// made of a command's name, its arguments and, where there is one, its
/// target is read as the opening of that command, with that name, those
/// arguments in that order and that target.
pub proof fn lemma_args_in_order(name: Text, args: Seq<Text>, target: Option<Text>)
    requires
        is_command_name(name),
        forall|i: int| 0 <= i < args.len() ==> is_argument(#[trigger] args[i]),
        target matches Some(t) ==> t.len() > 0,
    ensures
        classify(command_text(name, args, target)) == (Line::Header {
            command: name + spaced(args),
            name,
            args,
            target,
        }),
{
    reveal_strlit(" (in target: ");
    reveal_strlit(": ");
    let line = command_text(name, args, target);
    let n = name.len() as int;
    let e = n + spaced(args).len();
    assert(line.subrange(0, n) =~= name);
    assert(line.subrange(n, line.len() as int) =~= spaced(args) + target_text(target));
    assert(line[0] == name[0]);
    // behind the name stands a space or nothing
    if n < line.len() {
        let rest = spaced(args) + target_text(target);
        assert(line[n] == rest[0]);
        if args.len() == 0 {
            assert(spaced(args) =~= Seq::<char>::empty());
            assert(rest[0] == target_open()[0]);
        }
    }
    lemma_token_in(line, 0, name, 0);
    lemma_args_in(line, n, args, target);
    // the line is no diagnostic: no colon stands where its kind would end
    let k = letters_end(line, 0);
    lemma_letters_end(line, 0);
    assert(message_of(line) is None) by {
        if k < n {
            if line[k] == ':' {
                assert(name[k] == line[k]);
                assert(name.contains(':'));
            }
            assert(!has_at(line, k, message_mark())) by {
                if has_at(line, k, message_mark()) {
                    assert(line[k + 0] == message_mark()[0]);
                }
            }
        } else if n < line.len() {
            assert(k == n);
            assert(!has_at(line, k, message_mark())) by {
                if has_at(line, k, message_mark()) {
                    assert(line[k + 0] == message_mark()[0]);
                }
            }
        }
    }
    match target {
        Some(t) => {
            assert(line.subrange(0, e) =~= name + spaced(args));
            let from = e + target_open().len();
            let to = line.len() - 1;
            assert(line.subrange(e, line.len() as int) =~= target_open() + t + seq![')']);
            assert forall|i: int| 0 <= i < target_open().len() implies line[e + i]
                == #[trigger] target_open()[i] by {
                assert(line[e + i] == line.subrange(e, line.len() as int)[i]);
            }
            assert(line[to] == ')');
            assert(line.subrange(from, to) =~= t);
            assert(target_at(line, e) == Some(t));
        },
        None => {
            assert(line =~= name + spaced(args));
        },
    }
}

/// What the line that opens a command gives at the top of the log: the
/// target is announced where the line names one that has not been
/// announced, then the command begins, with its name and its arguments in
/// the order of the source.
pub open spec fn command_walk(
    name: Text,
    args: Seq<Text>,
    target: Option<Text>,
    seen: Seq<Text>,
) -> Walked {
    match target {
        Some(t) => if seen.contains(t) {
            Walked { events: seq![Event::BeginCommand(name, args)], seen }
        } else {
            Walked {
                events: seq![Event::BeginTarget(t), Event::BeginCommand(name, args)],
                seen: seen.push(t),
            }
        },
        None => Walked { events: seq![Event::BeginCommand(name, args)], seen },
    }
}

/// The events of the line that opens a command, at the top of the log, are
/// those of the command that the line is made of.
pub proof fn lemma_command_events(
    name: Text,
    args: Seq<Text>,
    target: Option<Text>,
    seen: Seq<Text>,
)
    requires
        is_command_name(name),
        forall|i: int| 0 <= i < args.len() ==> is_argument(#[trigger] args[i]),
        target matches Some(t) ==> t.len() > 0,
    ensures
        line_walk(command_text(name, args, target), false, seen) == command_walk(
            name,
            args,
            target,
            seen,
        ),
        walk(line_tree(command_text(name, args, target), Rule::ToplevelCommand), seen)
            == command_walk(name, args, target, seen),
{
    lemma_args_in_order(name, args, target);
    lemma_line_tree(command_text(name, args, target), false, seen);
}

/// A run of letters ends where the first character stands that is no
/// letter.
pub proof fn lemma_letters_end_at(text: Text, from: int, end: int)
    requires
        0 <= from <= end <= text.len(),
        forall|i: int| from <= i < end ==> is_letter(#[trigger] text[i]),
        end < text.len() ==> !is_letter(text[end]),
    ensures
        letters_end(text, from) == end,
    decreases end - from,
{
    if from < end {
        lemma_letters_end_at(text, from + 1, end);
    }
}

/// The line of a diagnostic: its kind, a colon, a space and what it says.
pub open spec fn message_text(kind: Text, contents: Text) -> Text {
    kind + message_mark() + contents
}

/// A kind made of letters, a colon, a space and any text are read as a
/// diagnostic of that kind with that text.
pub proof fn lemma_message_line(kind: Text, contents: Text)
    requires
        is_word(kind),
    ensures
        classify(message_text(kind, contents)) == (Line::Message { kind, contents }),
{
    reveal_strlit(": ");
    let line = message_text(kind, contents);
    let k = kind.len() as int;
    assert(is_letter(kind[0]));
    assert(line[0] == kind[0]);
    assert forall|i: int| 0 <= i < k implies is_letter(#[trigger] line[i]) by {
        assert(line[i] == kind[i]);
    }
    assert(line[k] == message_mark()[0]);
    lemma_letters_end_at(line, 0, k);
    assert forall|i: int| 0 <= i < message_mark().len() implies line[k + i]
        == #[trigger] message_mark()[i] by {}
    assert(line.subrange(0, k) =~= kind);
    assert(line.subrange(k + message_mark().len(), line.len() as int) =~= contents);
}

/// What gives the duration of an action, behind its status.
pub open spec fn duration_text(duration: Option<Text>) -> Text {
    match duration {
        Some(d) => duration_open() + d + seq![']'],
        None => Seq::empty(),
    }
}

/// A status line: the action and the outcome between their marks, and the
/// duration where there is one.
pub open spec fn status_text(action: Text, outcome: Text, duration: Option<Text>) -> Text {
    status_open() + action + seq![' '] + outcome + status_close() + duration_text(duration)
}

/// An action and an outcome made of letters, between their marks, with or
/// without a duration, are read as the status of that action with that
/// outcome and that duration.
pub proof fn lemma_status_line(action: Text, outcome: Text, duration: Option<Text>)
    requires
        is_word(action),
        is_word(outcome),
        duration matches Some(d) ==> d.len() > 0,
    ensures
        classify(status_text(action, outcome, duration)) == (Line::Status {
            action,
            outcome,
            duration,
        }),
{
    reveal_strlit("** ");
    reveal_strlit(" **");
    reveal_strlit(" [");
    let line = status_text(action, outcome, duration);
    let a0 = 3int;
    let a1 = a0 + action.len();
    let o0 = a1 + 1;
    let o1 = o0 + outcome.len();
    let e = o1 + 3;
    let head = status_open() + action + seq![' '] + outcome + status_close();
    assert(head.len() == e);
    assert(line =~= head + duration_text(duration));
    assert forall|i: int| 0 <= i < e implies line[i] == head[i] by {}
    assert forall|i: int| 0 <= i < 3 implies line[0 + i] == #[trigger] status_open()[i] by {
        assert(line[i] == head[i]);
    }
    assert(line[0] == '*');
    assert forall|i: int| a0 <= i < a1 implies is_letter(#[trigger] line[i]) by {
        assert(line[i] == head[i]);
        assert(head[i] == action[i - a0]);
    }
    assert(line[a1] == ' ') by {
        assert(line[a1] == head[a1]);
    }
    lemma_letters_end_at(line, a0, a1);
    assert forall|i: int| o0 <= i < o1 implies is_letter(#[trigger] line[i]) by {
        assert(line[i] == head[i]);
        assert(head[i] == outcome[i - o0]);
    }
    assert(line[o1] == ' ') by {
        assert(line[o1] == head[o1]);
        assert(head[o1] == status_close()[0]);
    }
    lemma_letters_end_at(line, o0, o1);
    assert forall|i: int| 0 <= i < 3 implies line[o1 + i] == #[trigger] status_close()[i] by {
        assert(line[o1 + i] == head[o1 + i]);
    }
    assert(line.subrange(a0, a1) =~= action);
    assert(line.subrange(o0, o1) =~= outcome);
    match duration {
        Some(d) => {
            let tail = duration_open() + d + seq![']'];
            assert(line.len() == e + 2 + d.len() + 1);
            assert forall|i: int| 0 <= i < tail.len() implies line[e + i] == tail[i] by {}
            assert forall|i: int| 0 <= i < 2 implies line[e + i] == #[trigger] duration_open()[i] by {
                assert(line[e + i] == tail[i]);
            }
            assert(line[line.len() - 1] == ']') by {
                assert(line[e + (tail.len() - 1)] == tail[tail.len() - 1]);
            }
            assert(line.subrange(e + 2, line.len() - 1) =~= d) by {
                assert forall|i: int| 0 <= i < d.len() implies line[e + 2 + i] == d[i] by {
                    assert(line[e + (2 + i)] == tail[2 + i]);
                }
            }
        },
        None => {
            assert(line.len() == e);
        },
    }
    assert(status_of(line) == Some(Line::Status { action, outcome, duration }));
}

} // verus!
