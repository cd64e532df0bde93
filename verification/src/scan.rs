//! The shapes of a single line of the log.
//!
//! A line is taken without its line terminator. Its first character decides
//! what it can be: nothing at all (a blank line), indented text, a banner
//! (`=== ... ===`), a status line (`** BUILD SUCCEEDED ** [1.2 sec]`), and
//! otherwise a diagnostic (`warning: ...`) or the line that opens a command
//! (`CompileC a.o a.m (in target: App)`).

use vstd::prelude::*;
use crate::text::{chars_of, string_of};
use crate::tree::{text_of, texts_of, Text};

verus! {

/// Whether `c` is one of the letters `a` to `z` and `A` to `Z`.
pub open spec fn is_letter(c: char) -> bool {
    ('a' <= c && c <= 'z') || ('A' <= c && c <= 'Z')
}

/// Where the run of letters that starts at `from` ends; `from` itself where
/// no letter stands there.
pub open spec fn letters_end(s: Text, from: int) -> int
    decreases s.len() - from,
{
    if 0 <= from < s.len() && is_letter(s[from]) {
        letters_end(s, from + 1)
    } else {
        from
    }
}

/// Where the token that starts at `from` ends; `from` itself where no token
/// starts there. A token runs up to the next space; a backslash takes the
/// character behind it into the token, whatever it is.
pub open spec fn token_end(s: Text, from: int) -> int
    decreases s.len() - from,
{
    if from < 0 || from >= s.len() || s[from] == ' ' {
        from
    } else if s[from] == '\\' {
        if from + 1 < s.len() {
            token_end(s, from + 2)
        } else {
            from
        }
    } else {
        token_end(s, from + 1)
    }
}

/// Whether `pat` stands in `s` at position `at`.
pub open spec fn has_at(s: Text, at: int, pat: Text) -> bool {
    &&& 0 <= at
    &&& at + pat.len() <= s.len()
    &&& forall|i: int| 0 <= i < pat.len() ==> s[at + i] == #[trigger] pat[i]
}

/// A run of letters ends behind its start and inside the text.
pub proof fn lemma_letters_end(s: Text, from: int)
    requires
        0 <= from <= s.len(),
    ensures
        from <= letters_end(s, from) <= s.len(),
        forall|i: int| from <= i < letters_end(s, from) ==> is_letter(#[trigger] s[i]),
        letters_end(s, from) < s.len() ==> !is_letter(s[letters_end(s, from)]),
    decreases s.len() - from,
{
    if from < s.len() && is_letter(s[from]) {
        lemma_letters_end(s, from + 1);
    }
}

/// A token ends behind its start and inside the text.
pub proof fn lemma_token_end(s: Text, from: int)
    requires
        0 <= from <= s.len(),
    ensures
        from <= token_end(s, from) <= s.len(),
    decreases s.len() - from,
{
    if from < s.len() && s[from] != ' ' {
        if s[from] == '\\' {
            if from + 1 < s.len() {
                lemma_token_end(s, from + 2);
            }
        } else {
            lemma_token_end(s, from + 1);
        }
    }
}

/// Whether `c` is a letter.
fn letter(c: char) -> (b: bool)
    ensures
        b == is_letter(c),
{
    ('a' <= c && c <= 'z') || ('A' <= c && c <= 'Z')
}

/// The end of the run of letters that starts at `from`.
fn scan_letters(line: &Vec<char>, from: usize) -> (end: usize)
    requires
        from <= line.len(),
    ensures
        end == letters_end(line@, from as int),
        from <= end <= line.len(),
{
    let mut i: usize = from;
    while i < line.len() && letter(line[i])
        invariant
            from <= i <= line.len(),
            letters_end(line@, from as int) == letters_end(line@, i as int),
        decreases line.len() - i,
    {
        i += 1;
    }
    i
}

/// The end of the token that starts at `from`.
fn scan_token(line: &Vec<char>, from: usize) -> (end: usize)
    requires
        from <= line.len(),
    ensures
        end == token_end(line@, from as int),
        from <= end <= line.len(),
{
    let mut i: usize = from;
    while i < line.len() && line[i] != ' '
        invariant
            from <= i <= line.len(),
            token_end(line@, from as int) == token_end(line@, i as int),
        decreases line.len() - i,
    {
        if line[i] == '\\' {
            if i + 1 < line.len() {
                i += 2;
            } else {
                return i;
            }
        } else {
            i += 1;
        }
    }
    i
}

/// Whether `pat` stands in `line` at position `at`.
fn starts_at(line: &Vec<char>, at: usize, pat: &Vec<char>) -> (b: bool)
    requires
        at <= line.len(),
    ensures
        b == has_at(line@, at as int, pat@),
{
    if pat.len() > line.len() - at {
        return false;
    }
    let mut i: usize = 0;
    while i < pat.len()
        invariant
            0 <= i <= pat.len(),
            at + pat.len() <= line.len(),
            forall|j: int| 0 <= j < i ==> line@[at + j] == #[trigger] pat@[j],
        decreases pat.len() - i,
    {
        if line[at + i] != pat[i] {
            return false;
        }
        i += 1;
    }
    true
}

/// What a line is, with the parts that events are made from.
pub enum Line {
    /// The empty line.
    Blank,
    /// A line that starts with a space or a tab.
    Indented,
    /// A line that starts with `=`.
    Banner,
    /// A diagnostic: `kind`, a colon, a space and `contents`.
    Message { kind: Text, contents: Text },
    /// A status line: `** `, `action`, a space, `outcome` and ` **`; behind
    /// them there may stand ` [`, `duration` and `]`.
    Status { action: Text, outcome: Text, duration: Option<Text> },
    /// The line that opens a command: `name` and `args`, a space before each
    /// argument; `command` is the text that they span. Behind them there may
    /// stand ` (in target: `, `target` and `)`.
    Header { command: Text, name: Text, args: Seq<Text>, target: Option<Text> },
    /// Anything else.
    Unknown,
}

/// The executable form of a [`Line`].
#[derive(Debug, PartialEq, Eq)]
pub enum LogLine {
    Blank,
    Indented,
    Banner,
    Message { kind: String, contents: String },
    Status { action: String, outcome: String, duration: Option<String> },
    Header { command: String, name: String, args: Vec<String>, target: Option<String> },
    Unknown,
}

impl View for LogLine {
    type V = Line;

    open spec fn view(&self) -> Line {
        match *self {
            LogLine::Blank => Line::Blank,
            LogLine::Indented => Line::Indented,
            LogLine::Banner => Line::Banner,
            LogLine::Message { kind, contents } => Line::Message {
                kind: kind@,
                contents: contents@,
            },
            LogLine::Status { action, outcome, duration } => Line::Status {
                action: action@,
                outcome: outcome@,
                duration: text_of(duration),
            },
            LogLine::Header { command, name, args, target } => Line::Header {
                command: command@,
                name: name@,
                args: texts_of(args@),
                target: text_of(target),
            },
            LogLine::Unknown => Line::Unknown,
        }
    }
}

/// The view of an optional line.
pub open spec fn line_of(l: Option<LogLine>) -> Option<Line> {
    match l {
        Some(l) => Some(l@),
        None => None,
    }
}

/// What stands between the kind of a diagnostic and what it says.
pub open spec fn message_mark() -> Text {
    ": "@
}

/// What opens a status line.
pub open spec fn status_open() -> Text {
    "** "@
}

/// What closes the action and outcome of a status line.
pub open spec fn status_close() -> Text {
    " **"@
}

/// What opens the duration of a status line.
pub open spec fn duration_open() -> Text {
    " ["@
}

/// What opens the target of a command.
pub open spec fn target_open() -> Text {
    " (in target: "@
}

/// The diagnostic that `line` is, if it is one: a run of letters at its
/// start, then `: `, then the rest of the line.
pub open spec fn message_of(line: Text) -> Option<Line> {
    let k = letters_end(line, 0);
    if k > 0 && has_at(line, k, message_mark()) {
        Some(
            Line::Message {
                kind: line.subrange(0, k),
                contents: line.subrange(k + message_mark().len(), line.len() as int),
            },
        )
    } else {
        None
    }
}

/// The status line that `line` is, if it is one.
pub open spec fn status_of(line: Text) -> Option<Line> {
    let a0 = status_open().len() as int;
    let a1 = letters_end(line, a0);
    let o0 = a1 + 1;
    let o1 = letters_end(line, o0);
    let e = o1 + status_close().len();
    let d0 = e + duration_open().len();
    let d1 = line.len() - 1;
    if has_at(line, 0, status_open()) && a0 < a1 < line.len() && line[a1] == ' ' && o0 < o1
        && has_at(line, o1, status_close()) {
        let action = line.subrange(a0, a1);
        let outcome = line.subrange(o0, o1);
        if e == line.len() {
            Some(Line::Status { action, outcome, duration: None })
        } else if has_at(line, e, duration_open()) && d0 < d1 && line[d1] == ']' {
            Some(Line::Status { action, outcome, duration: Some(line.subrange(d0, d1)) })
        } else {
            None
        }
    } else {
        None
    }
}

/// Whether an argument starts behind position `at`: a space stands there,
/// it does not open the target, and a token follows it.
pub open spec fn arg_follows(line: Text, at: int) -> bool {
    &&& 0 <= at < line.len()
    &&& line[at] == ' '
    &&& !has_at(line, at, target_open())
    &&& token_end(line, at + 1) > at + 1
}

/// Where the arguments that follow position `at` end.
pub open spec fn args_end(line: Text, at: int) -> int
    decreases line.len() - at,
{
    if arg_follows(line, at) {
        proof {
            lemma_token_end(line, at + 1);
        }
        args_end(line, token_end(line, at + 1))
    } else {
        at
    }
}

/// The arguments that follow position `at`, in order.
pub open spec fn args_from(line: Text, at: int) -> Seq<Text>
    decreases line.len() - at,
{
    if arg_follows(line, at) {
        proof {
            lemma_token_end(line, at + 1);
        }
        seq![line.subrange(at + 1, token_end(line, at + 1))] + args_from(
            line,
            token_end(line, at + 1),
        )
    } else {
        Seq::empty()
    }
}

/// The target that stands at position `at` and ends the line, if one does:
/// ` (in target: `, a name that is not empty, and `)` as the last character.
pub open spec fn target_at(line: Text, at: int) -> Option<Text> {
    let from = at + target_open().len();
    let to = line.len() - 1;
    if has_at(line, at, target_open()) && from < to && line[to] == ')' {
        Some(line.subrange(from, to))
    } else {
        None
    }
}

/// The opening of a command that `line` is, if it is one: a token, the
/// arguments behind it and then the end of the line or a target.
pub open spec fn header_of(line: Text) -> Option<Line> {
    let n = token_end(line, 0);
    let e = args_end(line, n);
    let name = line.subrange(0, n);
    let args = args_from(line, n);
    if n <= 0 {
        None
    } else if e == line.len() {
        Some(Line::Header { command: line, name, args, target: None })
    } else {
        match target_at(line, e) {
            Some(target) => Some(
                Line::Header { command: line.subrange(0, e), name, args, target: Some(target) },
            ),
            None => None,
        }
    }
}

/// What `line` is.
pub open spec fn classify(line: Text) -> Line {
    if line.len() == 0 {
        Line::Blank
    } else if line[0] == ' ' || line[0] == '\t' {
        Line::Indented
    } else if line[0] == '=' {
        Line::Banner
    } else if line[0] == '*' {
        match status_of(line) {
            Some(status) => status,
            None => Line::Unknown,
        }
    } else {
        match message_of(line) {
            Some(message) => message,
            None => match header_of(line) {
                Some(header) => header,
                None => Line::Unknown,
            },
        }
    }
}

/// The diagnostic that `line` is, if it is one.
fn scan_message(line: &Vec<char>) -> (found: Option<LogLine>)
    ensures
        line_of(found) == message_of(line@),
{
    let mark = chars_of(": ");
    let k = scan_letters(line, 0);
    if k > 0 && starts_at(line, k, &mark) {
        let kind = string_of(line, 0, k);
        let contents = string_of(line, k + mark.len(), line.len());
        Some(LogLine::Message { kind, contents })
    } else {
        None
    }
}

/// The status line that `line` is, if it is one.
fn scan_status(line: &Vec<char>) -> (found: Option<LogLine>)
    ensures
        line_of(found) == status_of(line@),
{
    let open = chars_of("** ");
    let close = chars_of(" **");
    let bracket = chars_of(" [");
    if !starts_at(line, 0, &open) {
        return None;
    }
    let a0 = open.len();
    let a1 = scan_letters(line, a0);
    if !(a0 < a1 && a1 < line.len() && line[a1] == ' ') {
        return None;
    }
    let o0 = a1 + 1;
    let o1 = scan_letters(line, o0);
    if !(o0 < o1 && starts_at(line, o1, &close)) {
        return None;
    }
    let e = o1 + close.len();
    let action = string_of(line, a0, a1);
    let outcome = string_of(line, o0, o1);
    if e == line.len() {
        return Some(LogLine::Status { action, outcome, duration: None });
    }
    if !starts_at(line, e, &bracket) {
        return None;
    }
    let d0 = e + bracket.len();
    let d1 = line.len() - 1;
    if d0 < d1 && line[d1] == ']' {
        let duration = string_of(line, d0, d1);
        Some(LogLine::Status { action, outcome, duration: Some(duration) })
    } else {
        None
    }
}

/// The target that stands at position `at` and ends the line, if one does.
fn scan_target(line: &Vec<char>, at: usize) -> (found: Option<String>)
    requires
        at <= line.len(),
    ensures
        text_of(found) == target_at(line@, at as int),
{
    let open = chars_of(" (in target: ");
    if !starts_at(line, at, &open) {
        return None;
    }
    proof {
        reveal_strlit(" (in target: ");
    }
    let from = at + open.len();
    let to = line.len() - 1;
    if from < to && line[to] == ')' {
        Some(string_of(line, from, to))
    } else {
        None
    }
}

/// The opening of a command that `line` is, if it is one.
fn scan_header(line: &Vec<char>) -> (found: Option<LogLine>)
    ensures
        line_of(found) == header_of(line@),
{
    let open = chars_of(" (in target: ");
    let n = scan_token(line, 0);
    if n == 0 {
        return None;
    }
    let name = string_of(line, 0, n);
    let mut args: Vec<String> = Vec::new();
    let mut at: usize = n;
    assert(texts_of(args@) + args_from(line@, at as int) =~= args_from(line@, n as int));
    loop
        invariant
            n <= at <= line.len(),
            open@ == target_open(),
            args_end(line@, at as int) == args_end(line@, n as int),
            texts_of(args@) + args_from(line@, at as int) == args_from(line@, n as int),
        ensures
            n <= at <= line.len(),
            at == args_end(line@, n as int),
            texts_of(args@) == args_from(line@, n as int),
        decreases line.len() - at,
    {
        if !(at < line.len() && line[at] == ' ') {
            break;
        }
        if starts_at(line, at, &open) {
            break;
        }
        let end = scan_token(line, at + 1);
        if end == at + 1 {
            break;
        }
        let ghost before = texts_of(args@);
        args.push(string_of(line, at + 1, end));
        proof {
            assert(arg_follows(line@, at as int));
            assert(texts_of(args@) =~= before + seq![line@.subrange(at + 1, end as int)]);
            assert(texts_of(args@) + args_from(line@, end as int) =~= before + args_from(
                line@,
                at as int,
            ));
        }
        at = end;
    }
    proof {
        assert(!arg_follows(line@, at as int));
        assert(texts_of(args@) + Seq::<Text>::empty() =~= texts_of(args@));
    }
    if at == line.len() {
        let command = string_of(line, 0, line.len());
        assert(command@ =~= line@);
        return Some(LogLine::Header { command, name, args, target: None });
    }
    match scan_target(line, at) {
        Some(target) => {
            let command = string_of(line, 0, at);
            Some(LogLine::Header { command, name, args, target: Some(target) })
        },
        None => None,
    }
}

/// What `line` is.
pub fn scan_line(line: &Vec<char>) -> (found: LogLine)
    ensures
        found@ == classify(line@),
{
    if line.len() == 0 {
        return LogLine::Blank;
    }
    let first = line[0];
    if first == ' ' || first == '\t' {
        LogLine::Indented
    } else if first == '=' {
        LogLine::Banner
    } else if first == '*' {
        match scan_status(line) {
            Some(status) => status,
            None => LogLine::Unknown,
        }
    } else {
        match scan_message(line) {
            Some(message) => message,
            None => match scan_header(line) {
                Some(header) => header,
                None => LogLine::Unknown,
            },
        }
    }
}

} // verus!
