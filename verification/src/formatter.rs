//! Formatters: what is written for the events that the parser returns.
//!
//! A formatter takes the result of each call of the parser and gives back
//! the text to write for it; when the input is over it is asked once more
//! for what is left to write. Nothing is written here: the text goes to the
//! caller.

use vstd::prelude::*;
use vstd::string::StringExecFns;
use crate::common::{events_of, Event, Outcome, ParserEvent, ParserResult};
use crate::text::{decimal, is_text, push_decimal, same_text};
use crate::tree::{text_of, Text};

verus! {

/// Something that turns the parser's results into text.
pub trait Formatter {
    /// The text to write for one result of the parser.
    fn format(&mut self, r: ParserResult) -> String;

    /// The text to write when the input is over.
    fn finalize(&mut self) -> String;
}

/// The text of the marker that stands for a result without a match.
pub open spec fn no_match_text() -> Text {
    "NoMatch\n"@
}

/// The sign that goes before a diagnostic of this kind.
pub open spec fn message_sign(kind: Text) -> Text {
    if kind == "note"@ {
        "\u{1F4DD} "@
    } else if kind == "warning"@ {
        "\u{26A0}\u{FE0F} "@
    } else if kind == "error"@ {
        "\u{274C} "@
    } else {
        ""@
    }
}

/// What is written for a command of this name; `None` for the commands
/// that are passed over.
pub open spec fn pretty_name(name: Text) -> Option<Text> {
    if name == "CompileC"@ || name == "CompileXIB"@ {
        Some("Compiling"@)
    } else if name == "CpResource"@ || name == "CopyStringsFile"@ {
        Some("Copying"@)
    } else if name == "ProcessPCH"@ {
        Some("Precompiling"@)
    } else if name == "Ld"@ {
        Some("Linking"@)
    } else {
        None
    }
}

/// One level deeper, as far as the machine can count.
pub open spec fn deeper(level: nat) -> nat {
    if level < usize::MAX {
        level + 1
    } else {
        level
    }
}

/// One level back, but not below the top.
pub open spec fn shallower(level: nat) -> nat {
    if level > 0 {
        (level - 1) as nat
    } else {
        0
    }
}

/// What the plain formatter has after an event: its nesting level and the
/// text to write.
pub struct Printed {
    pub level: nat,
    pub text: Text,
}

/// Whether the plain formatter shows a file for this event: it is the start
/// of a command that is not passed over and that has a first argument.
pub open spec fn shows_file(event: Event) -> bool {
    match event {
        Event::BeginCommand(name, args) => pretty_name(name) is Some && args.len() > 0,
        _ => false,
    }
}

/// What the plain formatter does with one event at nesting level `level`.
/// `file` is the file name of the command's first argument, where the event
/// shows a file and the argument has a file name.
///
/// A diagnostic is written with its sign, a status in one line followed by
/// an empty line, a new target in a line of its own. The start of a command
/// is written, one level deeper, where it shows a file and `file` is there;
/// otherwise it is passed over. The start and end of nested commands and the
/// end of a command only change the level.
pub open spec fn plain_event(level: nat, event: Event, file: Option<Text>) -> Printed {
    match event {
        Event::Message(kind, contents) => Printed {
            level,
            text: message_sign(kind) + kind + ": "@ + contents + "\n"@,
        },
        Event::Status(name, outcome, Some(duration)) => Printed {
            level,
            text: name + " "@ + outcome + " ["@ + duration + "]\n\n"@,
        },
        Event::Status(name, outcome, None) => Printed {
            level,
            text: name + " "@ + outcome + "\n\n"@,
        },
        Event::BeginCommand(name, args) => match (pretty_name(name), file) {
            (Some(pretty), Some(file)) => if args.len() > 0 {
                Printed { level: deeper(level), text: "\u{25B8} "@ + pretty + " "@ + file + "\n"@ }
            } else {
                Printed { level, text: Seq::empty() }
            },
            _ => Printed { level, text: Seq::empty() },
        },
        Event::EndCommand(_, _) => Printed { level: shallower(level), text: Seq::empty() },
        Event::BeginSubCommand(_, _) => Printed { level: deeper(level), text: Seq::empty() },
        Event::EndSubCommand(_, _) => Printed { level: shallower(level), text: Seq::empty() },
        Event::BeginTarget(name) => Printed {
            level,
            text: "\u{1F6E0}  Building "@ + name + "\n"@,
        },
    }
}

/// `Path::new(path).file_name()` as a string: the last component of the
/// path as the platform reads it, and `None` where the path has none (it
/// ends in `..`, or it is empty or a root). Nothing is claimed of the
/// result.
#[verifier::external_body]
fn file_name(path: &str) -> (name: Option<String>) {
    match std::path::Path::new(path).file_name() {
        Some(name) => name.to_str().map(|s| s.to_string()),
        None => None,
    }
}

/// The formatter that writes one line for each thing worth showing.
pub struct PlainTextFormatter {
    level: usize,
}

impl View for PlainTextFormatter {
    type V = nat;

    /// The nesting level.
    closed spec fn view(&self) -> nat {
        self.level as nat
    }
}

impl PlainTextFormatter {
    /// A formatter at the top level.
    pub fn new() -> (formatter: PlainTextFormatter)
        ensures
            formatter@ == 0,
    {
        PlainTextFormatter { level: 0 }
    }

    /// What goes before each line: nothing, at every level.
    pub fn indentation(&self) -> (text: String)
        ensures
            text@ == Seq::<char>::empty(),
    {
        String::new()
    }

    /// One level deeper.
    fn enter(&mut self)
        ensures
            final(self)@ == deeper(old(self)@),
    {
        if self.level < usize::MAX {
            self.level = self.level + 1;
        }
    }

    /// One level back.
    fn leave(&mut self)
        ensures
            final(self)@ == shallower(old(self)@),
    {
        if self.level > 0 {
            self.level = self.level - 1;
        }
    }

    /// The text for one event, given the file name of its first argument
    /// where it shows one.
    pub fn render_event(&mut self, event: ParserEvent, file: Option<String>) -> (text: String)
        ensures
            final(self)@ == plain_event(old(self)@, event@, text_of(file)).level,
            text@ == plain_event(old(self)@, event@, text_of(file)).text,
    {
        let mut text = self.indentation();
        match event {
            ParserEvent::Message(kind, contents) => {
                let sign = if is_text(&kind, "note") {
                    "\u{1F4DD} "
                } else if is_text(&kind, "warning") {
                    "\u{26A0}\u{FE0F} "
                } else if is_text(&kind, "error") {
                    "\u{274C} "
                } else {
                    ""
                };
                text.append(sign);
                text.append(kind.as_str());
                text.append(": ");
                text.append(contents.as_str());
                text.append("\n");
                assert(text@ =~= message_sign(kind@) + kind@ + ": "@ + contents@ + "\n"@);
            },
            ParserEvent::Status(name, outcome, duration) => {
                text.append(name.as_str());
                text.append(" ");
                text.append(outcome.as_str());
                match duration {
                    Some(duration) => {
                        text.append(" [");
                        text.append(duration.as_str());
                        text.append("]\n\n");
                        assert(text@ =~= name@ + " "@ + outcome@ + " ["@ + duration@ + "]\n\n"@);
                    },
                    None => {
                        text.append("\n\n");
                        assert(text@ =~= name@ + " "@ + outcome@ + "\n\n"@);
                    },
                }
            },
            ParserEvent::BeginCommand(name, args) => {
                let pretty = if is_text(&name, "CompileC") || is_text(&name, "CompileXIB") {
                    "Compiling"
                } else if is_text(&name, "CpResource") || is_text(&name, "CopyStringsFile") {
                    "Copying"
                } else if is_text(&name, "ProcessPCH") {
                    "Precompiling"
                } else if is_text(&name, "Ld") {
                    "Linking"
                } else {
                    return text;
                };
                if args.len() == 0 {
                    return text;
                }
                match file {
                    Some(file) => {
                        self.enter();
                        text.append("\u{25B8} ");
                        text.append(pretty);
                        text.append(" ");
                        text.append(file.as_str());
                        text.append("\n");
                        assert(text@ =~= "\u{25B8} "@ + pretty@ + " "@ + file@ + "\n"@);
                    },
                    None => {},
                }
            },
            ParserEvent::EndCommand(_, _) => {
                self.leave();
            },
            ParserEvent::BeginSubCommand(_, _) => {
                self.enter();
            },
            ParserEvent::EndSubCommand(_, _) => {
                self.leave();
            },
            ParserEvent::BeginTarget(name) => {
                text.append("\u{1F6E0}  Building ");
                text.append(name.as_str());
                text.append("\n");
                assert(text@ =~= "\u{1F6E0}  Building "@ + name@ + "\n"@);
            },
        }
        text
    }
}

/// What the plain formatter does with events one after the other. `files`
/// holds, for each event, the file name that goes with it.
pub open spec fn plain_all(level: nat, events: Seq<Event>, files: Seq<Option<Text>>) -> Printed
    decreases events.len(),
{
    if events.len() == 0 {
        Printed { level, text: Seq::empty() }
    } else {
        let before = plain_all(level, events.drop_last(), files.drop_last());
        let last = plain_event(before.level, events.last(), files.last());
        Printed { level: last.level, text: before.text + last.text }
    }
}

/// Whether `files` can go with `events`: one entry for each event, and none
/// but `None` for the events that show no file.
pub open spec fn files_for(events: Seq<Event>, files: Seq<Option<Text>>) -> bool {
    &&& files.len() == events.len()
    &&& forall|i: int| 0 <= i < events.len() && !shows_file(events[i]) ==> #[trigger] files[i] is None
}

/// Whether the plain formatter, at nesting level `level`, can have written
/// `text` for `events` and ended at level `after`: it has, with some file
/// names that can go with the events.
pub open spec fn plain_printed(level: nat, events: Seq<Event>, after: nat, text: Text) -> bool {
    exists|files: Seq<Option<Text>>|
        {
            &&& files_for(events, files)
            &&& after == (#[trigger] plain_all(level, events, files)).level
            &&& text == plain_all(level, events, files).text
        }
}

/// Whether the plain formatter, at nesting level `level`, can have written
/// `text` for the result `r` and ended at level `after`: the lines for the
/// events of a result, the marker for a result without a match, and
/// nothing where the parser waits for more input.
pub open spec fn plain_formats(level: nat, r: Outcome, after: nat, text: Text) -> bool {
    match r {
        Outcome::Commands(events) => plain_printed(level, events, after, text),
        Outcome::Continue => after == level && text == Seq::<char>::empty(),
        Outcome::NoMatch => after == level && text == no_match_text(),
    }
}

impl PlainTextFormatter {
    /// The text for one event. Where the event shows a file, its name is
    /// asked of the platform.
    pub fn print_event(&mut self, event: ParserEvent) -> (text: String)
        ensures
            exists|file: Option<Text>|
                {
                    &&& !shows_file(event@) ==> file is None
                    &&& final(self)@ == (#[trigger] plain_event(old(self)@, event@, file)).level
                    &&& text@ == plain_event(old(self)@, event@, file).text
                },
    {
        let mut file: Option<String> = None;
        match &event {
            ParserEvent::BeginCommand(name, args) => {
                let shown = is_text(name, "CompileC") || is_text(name, "CompileXIB") || is_text(
                    name,
                    "CpResource",
                ) || is_text(name, "CopyStringsFile") || is_text(name, "ProcessPCH") || is_text(
                    name,
                    "Ld",
                );
                if shown && args.len() > 0 {
                    file = file_name(args[0].as_str());
                }
            },
            _ => {},
        }
        let ghost f = text_of(file);
        let text = self.render_event(event, file);
        assert(text@ == plain_event(old(self)@, event@, f).text);
        text
    }
}

impl Formatter for PlainTextFormatter {
    /// The lines for the events of a result, the marker for a result
    /// without a match, and nothing where the parser waits for more input.
    fn format(&mut self, r: ParserResult) -> (text: String)
        ensures
            plain_formats(old(self)@, r@, final(self)@, text@),
    {
        let mut text = String::new();
        match r {
            ParserResult::Commands(names) => {
                let ghost events = events_of(names@);
                let ghost mut files: Seq<Option<Text>> = Seq::empty();
                assert(events.take(0) =~= Seq::<Event>::empty());
                for name in it: names
                    invariant
                        it.seq() == names@,
                        events == events_of(names@),
                        files_for(events.take(it.index()), files),
                        self@ == plain_all(old(self)@, events.take(it.index()), files).level,
                        text@ == plain_all(old(self)@, events.take(it.index()), files).text,
                {
                    let ghost level = self@;
                    let ghost before = text@;
                    let ghost event = name@;
                    let line = self.print_event(name);
                    text.append(line.as_str());
                    proof {
                        let file = choose|file: Option<Text>|
                            {
                                &&& !shows_file(event) ==> file is None
                                &&& self@ == (#[trigger] plain_event(level, event, file)).level
                                &&& line@ == plain_event(level, event, file).text
                            };
                        let i = it.index();
                        assert(events.take(i + 1).drop_last() =~= events.take(i));
                        assert(files.push(file).drop_last() =~= files);
                        assert(events.take(i + 1).last() == event);
                        files = files.push(file);
                    }
                }
                assert(events.take(events.len() as int) =~= events);
                assert(files_for(events, files));
                assert(self@ == plain_all(old(self)@, events, files).level);
                assert(text@ == plain_all(old(self)@, events, files).text);
                assert(plain_printed(old(self)@, events, self@, text@));
            },
            ParserResult::Continue => {},
            ParserResult::NoMatch => {
                text.append("NoMatch\n");
                assert(text@ =~= no_match_text());
            },
        }
        text
    }

    /// Nothing is left to write.
    fn finalize(&mut self) -> (text: String)
        ensures
            final(self)@ == old(self)@,
            text@ == Seq::<char>::empty(),
    {
        String::new()
    }
}

/// What the counting formatters count: targets as one, diagnostics by
/// kind and commands by name.
#[derive(Debug, PartialEq, Eq)]
pub enum Counted {
    Target,
    Message(String),
    Command(String),
}

/// The mathematical value of a [`Counted`].
pub enum Tally {
    Target,
    Message(Text),
    Command(Text),
}

impl View for Counted {
    type V = Tally;

    open spec fn view(&self) -> Tally {
        match *self {
            Counted::Target => Tally::Target,
            Counted::Message(kind) => Tally::Message(kind@),
            Counted::Command(name) => Tally::Command(name@),
        }
    }
}

/// How a tally is written.
pub open spec fn tally_name(tally: Tally) -> Text {
    match tally {
        Tally::Target => "Target"@,
        Tally::Message(kind) => kind,
        Tally::Command(name) => name,
    }
}

impl Counted {
    /// Whether two things are counted as one.
    pub fn same(&self, other: &Counted) -> (same: bool)
        ensures
            same == (self@ == other@),
    {
        match (self, other) {
            (Counted::Target, Counted::Target) => true,
            (Counted::Message(a), Counted::Message(b)) => *a == *b,
            (Counted::Command(a), Counted::Command(b)) => *a == *b,
            _ => false,
        }
    }

    /// How this is written.
    pub fn name(&self) -> (text: &str)
        ensures
            text@ == tally_name(self@),
    {
        match self {
            Counted::Target => "Target",
            Counted::Message(kind) => kind.as_str(),
            Counted::Command(name) => name.as_str(),
        }
    }
}

/// A count for each tally, in the order in which the tallies first came.
pub type Counts = Seq<(Tally, nat)>;

/// Where `tally` stands in `counts`; the length of `counts` where it does
/// not stand there.
pub open spec fn tally_index(counts: Counts, tally: Tally) -> int
    decreases counts.len(),
{
    if counts.len() == 0 || counts[0].0 == tally {
        0
    } else {
        1 + tally_index(counts.drop_first(), tally)
    }
}

/// Whether each tally stands in `counts` once at most.
pub open spec fn distinct_tallies(counts: Counts) -> bool {
    forall|i: int, j: int|
        0 <= i < counts.len() && 0 <= j < counts.len() && i != j ==> counts[i].0 != counts[j].0
}

/// One more than `n`, as far as a count can go.
pub open spec fn one_more(n: nat) -> nat {
    if n < u32::MAX {
        n + 1
    } else {
        n
    }
}

/// `counts` with one more for `tally`: its count goes up where it stands
/// there, and it is added at the end with a count of one where it does not.
pub open spec fn bump(counts: Counts, tally: Tally) -> Counts {
    let i = tally_index(counts, tally);
    if i < counts.len() {
        counts.update(i, (tally, one_more(counts[i].1)))
    } else {
        counts.push((tally, 1))
    }
}

/// `counts` after an event: a new target, a diagnostic and the start of a
/// command are counted, other events are not.
pub open spec fn count_of(counts: Counts, event: Event) -> Counts {
    match event {
        Event::BeginTarget(_) => bump(counts, Tally::Target),
        Event::Message(kind, _) => bump(counts, Tally::Message(kind)),
        Event::BeginCommand(name, _) => bump(counts, Tally::Command(name)),
        _ => counts,
    }
}

/// `counts` after events one after the other.
pub open spec fn count_all(counts: Counts, events: Seq<Event>) -> Counts
    decreases events.len(),
{
    if events.len() == 0 {
        counts
    } else {
        count_of(count_all(counts, events.drop_last()), events.last())
    }
}

/// What clears the line that the cursor is on.
pub open spec fn clear_line() -> Text {
    "\u{1b}[0K"@
}

/// The line for one count: the line is cleared, then come the tally's name,
/// a colon, a space and the count.
pub open spec fn count_line(tally: Tally, count: nat) -> Text {
    clear_line() + tally_name(tally) + ": "@ + decimal(count) + "\n"@
}

/// The lines for all counts, in their order.
pub open spec fn count_lines(counts: Counts) -> Text
    decreases counts.len(),
{
    if counts.len() == 0 {
        Seq::empty()
    } else {
        count_lines(counts.drop_last()) + count_line(counts.last().0, counts.last().1)
    }
}

/// `tally_index` passes over the other tallies.
pub proof fn lemma_tally_index(counts: Counts, tally: Tally, i: int)
    requires
        0 <= i <= counts.len(),
        forall|j: int| 0 <= j < i ==> counts[j].0 != tally,
        i < counts.len() ==> counts[i].0 == tally,
    ensures
        tally_index(counts, tally) == i,
    decreases i,
{
    if i > 0 {
        assert(counts[0].0 != tally);
        lemma_tally_index(counts.drop_first(), tally, i - 1);
    }
}

/// Counting keeps each tally once.
pub proof fn lemma_bump_distinct(counts: Counts, tally: Tally)
    requires
        distinct_tallies(counts),
    ensures
        distinct_tallies(bump(counts, tally)),
{
    let i = tally_index(counts, tally);
    lemma_tally_index_found(counts, tally);
}

/// What `tally_index` finds: the tally, and not before that place.
pub proof fn lemma_tally_index_found(counts: Counts, tally: Tally)
    ensures
        0 <= tally_index(counts, tally) <= counts.len(),
        forall|j: int| 0 <= j < tally_index(counts, tally) ==> (#[trigger] counts[j]).0 != tally,
        tally_index(counts, tally) < counts.len() ==> counts[tally_index(counts, tally)].0
            == tally,
    decreases counts.len(),
{
    if counts.len() > 0 && counts[0].0 != tally {
        let rest = counts.drop_first();
        lemma_tally_index_found(rest, tally);
        assert forall|j: int| 0 <= j < tally_index(counts, tally) implies (#[trigger] counts[j]).0
            != tally by {
            if j > 0 {
                assert(counts[j] == rest[j - 1]);
            }
        }
    }
}

/// The counts of a counting formatter.
pub struct Counter {
    counts: Vec<(Counted, u32)>,
}

/// The values of the entries of a counter, one by one.
pub open spec fn counts_of(entries: Seq<(Counted, u32)>) -> Counts {
    Seq::new(entries.len(), |i: int| (entries[i].0@, entries[i].1 as nat))
}

impl View for Counter {
    type V = Counts;

    closed spec fn view(&self) -> Counts {
        counts_of(self.counts@)
    }
}

impl Counter {
    #[verifier::type_invariant]
    spec fn valid(self) -> bool {
        distinct_tallies(counts_of(self.counts@))
    }

    /// A counter that has counted nothing.
    pub fn new() -> (counter: Counter)
        ensures
            counter@ == Seq::<(Tally, nat)>::empty(),
    {
        let counter = Counter { counts: Vec::new() };
        assert(counter@ =~= Seq::<(Tally, nat)>::empty());
        counter
    }

    /// Counts what an event stands for.
    pub fn count_event(&mut self, event: ParserEvent)
        ensures
            distinct_tallies(old(self)@),
            distinct_tallies(final(self)@),
            final(self)@ == count_of(old(self)@, event@),
    {
        proof {
            use_type_invariant(&*self);
        }
        match event {
            ParserEvent::BeginTarget(_) => self.increment(Counted::Target),
            ParserEvent::Message(kind, _) => self.increment(Counted::Message(kind)),
            ParserEvent::BeginCommand(name, _) => self.increment(Counted::Command(name)),
            _ => {},
        }
    }

    /// One more for `key`.
    pub fn increment(&mut self, key: Counted)
        ensures
            final(self)@ == bump(old(self)@, key@),
            distinct_tallies(final(self)@),
    {
        proof {
            use_type_invariant(&*self);
            lemma_bump_distinct(self@, key@);
        }
        // the entries are worked on outside the counter and put back
        let mut counts: Vec<(Counted, u32)> = Vec::new();
        assert(counts_of(counts@) =~= Seq::<(Tally, nat)>::empty());
        core::mem::swap(&mut self.counts, &mut counts);
        let ghost before = counts_of(counts@);
        let mut i: usize = 0;
        while i < counts.len() && !counts[i].0.same(&key)
            invariant
                0 <= i <= counts.len(),
                before == counts_of(counts@),
                forall|j: int| 0 <= j < i ==> before[j].0 != key@,
            decreases counts.len() - i,
        {
            i += 1;
        }
        proof {
            lemma_tally_index(before, key@, i as int);
        }
        if i < counts.len() {
            let count = counts[i].1;
            let next = if count < u32::MAX {
                count + 1
            } else {
                count
            };
            counts.set(i, (key, next));
            assert(counts_of(counts@) =~= bump(before, key@));
        } else {
            counts.push((key, 1));
            assert(counts_of(counts@) =~= bump(before, key@));
        }
        core::mem::swap(&mut self.counts, &mut counts);
    }

    /// The lines for all counts, in the order in which the tallies first
    /// came.
    pub fn write_lines(&self) -> (text: String)
        ensures
            text@ == count_lines(self@),
    {
        let mut text = String::new();
        let mut i: usize = 0;
        assert(self@.take(0) =~= Seq::<(Tally, nat)>::empty());
        while i < self.counts.len()
            invariant
                0 <= i <= self.counts.len(),
                self@ == counts_of(self.counts@),
                text@ == count_lines(self@.take(i as int)),
            decreases self.counts.len() - i,
        {
            let ghost before = text@;
            text.append("\u{1b}[0K");
            text.append(self.counts[i].0.name());
            text.append(": ");
            push_decimal(&mut text, self.counts[i].1 as u64);
            text.append("\n");
            proof {
                assert(self@.take(i + 1).drop_last() =~= self@.take(i as int));
                assert(self@.take(i + 1).last() == self@[i as int]);
                assert(text@ =~= before + count_line(self@[i as int].0, self@[i as int].1));
            }
            i += 1;
        }
        assert(self@.take(i as int) =~= self@);
        text
    }

    /// How many tallies have a count.
    pub fn metrics_len(&self) -> (len: usize)
        ensures
            len == self@.len(),
    {
        self.counts.len()
    }
}

impl Counter {
    /// Counts events one after the other.
    fn count_events(&mut self, events: Vec<ParserEvent>)
        ensures
            final(self)@ == count_all(old(self)@, events_of(events@)),
    {
        let ghost all = events_of(events@);
        assert(all.take(0) =~= Seq::<Event>::empty());
        for event in it: events
            invariant
                it.seq() == events@,
                all == events_of(events@),
                self@ == count_all(old(self)@, all.take(it.index())),
        {
            proof {
                let i = it.index();
                assert(all.take(i + 1).drop_last() =~= all.take(i));
                assert(all.take(i + 1).last() == event@);
            }
            self.count_event(event);
        }
        assert(all.take(all.len() as int) =~= all);
    }
}

/// What moves the cursor up by `lines` lines; nothing for no lines.
pub open spec fn cursor_up(lines: nat) -> Text {
    if lines > 0 {
        "\u{1b}["@ + decimal(lines) + "A"@
    } else {
        Seq::empty()
    }
}

/// The mathematical value of a formatter that shows its counts as they
/// change: the counts, and how many lines it wrote the last time.
pub struct LiveCounts {
    pub counts: Counts,
    pub lines_printed: nat,
}

/// Whether the live counter of value `before` writes `text` for the result
/// `r` and has the value `after` then. Events are counted, and the counts
/// are written over the lines of the last time. The marker is written for a
/// result without a match, and nothing where the parser waits for more
/// input.
pub open spec fn live_formats(before: LiveCounts, r: Outcome, after: LiveCounts, text: Text) -> bool {
    match r {
        Outcome::Commands(events) => {
            let counts = count_all(before.counts, events);
            &&& after == (LiveCounts { counts, lines_printed: counts.len() })
            &&& text == cursor_up(before.lines_printed) + count_lines(counts)
        },
        Outcome::Continue => after == before && text == Seq::<char>::empty(),
        Outcome::NoMatch => after == before && text == no_match_text(),
    }
}

/// Whether the summary counter with the counts `before` writes `text` for
/// the result `r` and has the counts `after` then. Events are counted and
/// nothing is written for them. The marker is written for a result without
/// a match, and nothing where the parser waits for more input.
pub open spec fn summary_formats(before: Counts, r: Outcome, after: Counts, text: Text) -> bool {
    match r {
        Outcome::Commands(events) => after == count_all(before, events) && text == Seq::<
            char,
        >::empty(),
        Outcome::Continue => after == before && text == Seq::<char>::empty(),
        Outcome::NoMatch => after == before && text == no_match_text(),
    }
}

/// The formatter that keeps its counts on the screen, writing them over
/// what it wrote before.
pub struct LiveCounterFormatter {
    counter: Counter,
    lines_printed: usize,
}

impl View for LiveCounterFormatter {
    type V = LiveCounts;

    closed spec fn view(&self) -> LiveCounts {
        LiveCounts { counts: self.counter@, lines_printed: self.lines_printed as nat }
    }
}

impl LiveCounterFormatter {
    /// A formatter that has counted nothing and written nothing.
    pub fn new() -> (formatter: LiveCounterFormatter)
        ensures
            formatter@ == (LiveCounts { counts: Seq::empty(), lines_printed: 0 }),
    {
        LiveCounterFormatter { counter: Counter::new(), lines_printed: 0 }
    }

    /// Counts what an event stands for.
    pub fn update_for_event(&mut self, event: ParserEvent)
        ensures
            final(self)@.counts == count_of(old(self)@.counts, event@),
            final(self)@.lines_printed == old(self)@.lines_printed,
    {
        self.counter.count_event(event)
    }

    /// The counts, written over the lines of the last time.
    pub fn print(&mut self) -> (text: String)
        ensures
            final(self)@.counts == old(self)@.counts,
            final(self)@.lines_printed == old(self)@.counts.len(),
            text@ == cursor_up(old(self)@.lines_printed) + count_lines(old(self)@.counts),
    {
        let mut text = String::new();
        if self.lines_printed > 0 {
            text.append("\u{1b}[");
            push_decimal(&mut text, self.lines_printed as u64);
            text.append("A");
        }
        let ghost up = text@;
        assert(up =~= cursor_up(self@.lines_printed));
        let lines = self.counter.write_lines();
        text.append(lines.as_str());
        self.lines_printed = self.counter.metrics_len();
        text
    }
}

impl Formatter for LiveCounterFormatter {
    /// For events: they are counted, and the counts are written over the
    /// lines of the last time. The marker for a result without a match, and
    /// nothing where the parser waits for more input.
    fn format(&mut self, r: ParserResult) -> (text: String)
        ensures
            live_formats(old(self)@, r@, final(self)@, text@),
    {
        match r {
            ParserResult::Commands(names) => {
                self.counter.count_events(names);
                self.print()
            },
            ParserResult::Continue => String::new(),
            ParserResult::NoMatch => {
                let mut text = String::new();
                text.append("NoMatch\n");
                assert(text@ =~= no_match_text());
                text
            },
        }
    }

    /// Nothing is left to write.
    fn finalize(&mut self) -> (text: String)
        ensures
            final(self)@ == old(self)@,
            text@ == Seq::<char>::empty(),
    {
        String::new()
    }
}

/// The formatter that counts in silence and writes its counts at the end.
pub struct SummaryCounterFormatter {
    counter: Counter,
}

impl View for SummaryCounterFormatter {
    type V = Counts;

    closed spec fn view(&self) -> Counts {
        self.counter@
    }
}

impl SummaryCounterFormatter {
    /// A formatter that has counted nothing.
    pub fn new() -> (formatter: SummaryCounterFormatter)
        ensures
            formatter@ == Seq::<(Tally, nat)>::empty(),
    {
        SummaryCounterFormatter { counter: Counter::new() }
    }

    /// Counts what an event stands for.
    pub fn update_for_event(&mut self, event: ParserEvent)
        ensures
            final(self)@ == count_of(old(self)@, event@),
    {
        self.counter.count_event(event)
    }
}

impl Formatter for SummaryCounterFormatter {
    /// Events are counted and nothing is written for them. The marker for a
    /// result without a match, and nothing where the parser waits for more
    /// input.
    fn format(&mut self, r: ParserResult) -> (text: String)
        ensures
            summary_formats(old(self)@, r@, final(self)@, text@),
    {
        match r {
            ParserResult::Commands(names) => {
                self.counter.count_events(names);
                String::new()
            },
            ParserResult::Continue => String::new(),
            ParserResult::NoMatch => {
                let mut text = String::new();
                text.append("NoMatch\n");
                assert(text@ =~= no_match_text());
                text
            },
        }
    }

    /// The lines for all counts.
    fn finalize(&mut self) -> (text: String)
        ensures
            final(self)@ == old(self)@,
            text@ == count_lines(old(self)@),
    {
        self.counter.write_lines()
    }
}

/// The formatter that writes nothing.
pub struct NullFormatter {}

impl NullFormatter {
    /// A formatter that writes nothing.
    pub fn new() -> (formatter: NullFormatter) {
        NullFormatter {  }
    }
}

impl Formatter for NullFormatter {
    /// Nothing, whatever the result.
    fn format(&mut self, _event: ParserResult) -> (text: String)
        ensures
            text@ == Seq::<char>::empty(),
    {
        String::new()
    }

    /// Nothing.
    fn finalize(&mut self) -> (text: String)
        ensures
            text@ == Seq::<char>::empty(),
    {
        String::new()
    }
}

/// Any one of the formatters.
pub enum AnyFormatter {
    Plain(PlainTextFormatter),
    LiveCounter(LiveCounterFormatter),
    SummaryCounter(SummaryCounterFormatter),
    Null(NullFormatter),
}

/// The mathematical value of an [`AnyFormatter`]: which formatter it is,
/// with that formatter's value.
pub enum AnyFormat {
    Plain(nat),
    LiveCounter(LiveCounts),
    SummaryCounter(Counts),
    Null,
}

impl View for AnyFormatter {
    type V = AnyFormat;

    open spec fn view(&self) -> AnyFormat {
        match *self {
            AnyFormatter::Plain(formatter) => AnyFormat::Plain(formatter@),
            AnyFormatter::LiveCounter(formatter) => AnyFormat::LiveCounter(formatter@),
            AnyFormatter::SummaryCounter(formatter) => AnyFormat::SummaryCounter(formatter@),
            AnyFormatter::Null(_) => AnyFormat::Null,
        }
    }
}

/// Whether a formatter of value `before` writes `text` for the result `r`
/// and has the value `after` then: it stays the formatter that it is, and
/// does what that formatter does.
pub open spec fn any_formats(before: AnyFormat, r: Outcome, after: AnyFormat, text: Text) -> bool {
    match (before, after) {
        (AnyFormat::Plain(a), AnyFormat::Plain(b)) => plain_formats(a, r, b, text),
        (AnyFormat::LiveCounter(a), AnyFormat::LiveCounter(b)) => live_formats(a, r, b, text),
        (AnyFormat::SummaryCounter(a), AnyFormat::SummaryCounter(b)) => summary_formats(
            a,
            r,
            b,
            text,
        ),
        (AnyFormat::Null, AnyFormat::Null) => text == Seq::<char>::empty(),
        _ => false,
    }
}

/// What a formatter of value `before` writes when the input is over: the
/// summary counter writes its counts, the others write nothing.
pub open spec fn any_finalizes(before: AnyFormat) -> Text {
    match before {
        AnyFormat::SummaryCounter(counts) => count_lines(counts),
        _ => Seq::empty(),
    }
}

impl Formatter for AnyFormatter {
    /// What the formatter inside writes for `r`.
    fn format(&mut self, r: ParserResult) -> (text: String)
        ensures
            any_formats(old(self)@, r@, final(self)@, text@),
    {
        match self {
            AnyFormatter::Plain(formatter) => formatter.format(r),
            AnyFormatter::LiveCounter(formatter) => formatter.format(r),
            AnyFormatter::SummaryCounter(formatter) => formatter.format(r),
            AnyFormatter::Null(formatter) => formatter.format(r),
        }
    }

    /// What the formatter inside writes at the end.
    fn finalize(&mut self) -> (text: String)
        ensures
            final(self)@ == old(self)@,
            text@ == any_finalizes(old(self)@),
    {
        match self {
            AnyFormatter::Plain(formatter) => formatter.finalize(),
            AnyFormatter::LiveCounter(formatter) => formatter.finalize(),
            AnyFormatter::SummaryCounter(formatter) => formatter.finalize(),
            AnyFormatter::Null(formatter) => formatter.finalize(),
        }
    }
}

/// What is said of a name that stands for no formatter.
pub open spec fn unknown_formatter() -> Text {
    "Unknown formatter type"@
}

/// The formatter that `name` stands for, new: `plain`, `live-counter`,
/// `summary-counter` or `null`. Any other name is an error.
pub fn resolve_formatter(name: &str) -> (found: Result<AnyFormatter, &'static str>)
    ensures
        match found {
            Ok(formatter) => match formatter@ {
                AnyFormat::Plain(level) => name@ == "plain"@ && level == 0,
                AnyFormat::LiveCounter(live) => name@ == "live-counter"@ && live == (LiveCounts {
                    counts: Seq::empty(),
                    lines_printed: 0,
                }),
                AnyFormat::SummaryCounter(counts) => name@ == "summary-counter"@ && counts
                    == Seq::<(Tally, nat)>::empty(),
                AnyFormat::Null => name@ == "null"@,
            },
            Err(message) => {
                &&& message@ == unknown_formatter()
                &&& name@ != "plain"@
                &&& name@ != "live-counter"@
                &&& name@ != "summary-counter"@
                &&& name@ != "null"@
            },
        },
{
    if same_text(name, "plain") {
        Ok(AnyFormatter::Plain(PlainTextFormatter::new()))
    } else if same_text(name, "live-counter") {
        Ok(AnyFormatter::LiveCounter(LiveCounterFormatter::new()))
    } else if same_text(name, "summary-counter") {
        Ok(AnyFormatter::SummaryCounter(SummaryCounterFormatter::new()))
    } else if same_text(name, "null") {
        Ok(AnyFormatter::Null(NullFormatter::new()))
    } else {
        Err("Unknown formatter type")
    }
}

impl Default for Counter {
    /// A counter that has counted nothing.
    fn default() -> (counter: Counter)
        ensures
            counter@ == Seq::<(Tally, nat)>::empty(),
    {
        Counter::new()
    }
}

impl Default for LiveCounterFormatter {
    /// A formatter that has counted nothing and written nothing.
    fn default() -> (formatter: LiveCounterFormatter)
        ensures
            formatter@ == (LiveCounts { counts: Seq::empty(), lines_printed: 0 }),
    {
        LiveCounterFormatter::new()
    }
}

impl Default for SummaryCounterFormatter {
    /// A formatter that has counted nothing.
    fn default() -> (formatter: SummaryCounterFormatter)
        ensures
            formatter@ == Seq::<(Tally, nat)>::empty(),
    {
        SummaryCounterFormatter::new()
    }
}

impl Default for NullFormatter {
    /// A formatter that writes nothing.
    fn default() -> (formatter: NullFormatter) {
        NullFormatter::new()
    }
}

} // verus!
