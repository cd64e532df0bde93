//! The event model, the tree walker that produces it, and the incremental
//! parser.
//!
//! The walker turns a parse tree into events. It is given the targets that
//! have been announced and announces each new target once, before the first
//! command that names it.
//!
//! The parser keeps all the text it has received and an offset up to which
//! the text has been turned into events. Each new line goes to the end of the
//! text; the text behind the offset is then given to the grammar as a whole.
//! Where the grammar takes it, its trees are walked into events and the
//! offset moves to the end of the text; where it does not, the parser waits
//! for more.

use vstd::prelude::*;
use crate::grammar_parser::{grammar, parsed, NoMatch, XcodebuildGrammarParser};
use crate::laws::lemma_grammar_walkable;
use crate::runs::lemma_feed_grows;
use crate::text::{chars_of, string_of};
use crate::tree::{
    all_below, first_below, first_child, lemma_trees_of, text_of, texts_of, tree_of, trees_of,
    Node, Rule, Text, Tree,
};

verus! {

/// One thing that the build log reports.
#[derive(Debug, PartialEq, Eq)]
pub enum ParserEvent {
    /// A diagnostic: its kind (`note`, `warning`, `error`, ...) and what it
    /// says.
    Message(String, String),
    /// A target is named for the first time.
    BeginTarget(String),
    /// A top-level command starts: its name and its arguments in source
    /// order.
    BeginCommand(String, Vec<String>),
    /// A command inside another command starts.
    BeginSubCommand(String, Vec<String>),
    /// A command inside another command ends.
    EndSubCommand(String, Vec<String>),
    /// A top-level command ends.
    EndCommand(String, Vec<String>),
    /// A build action is over: the action, how it ended and, where the log
    /// gives it, how long it took.
    Status(String, String, Option<String>),
}

/// The mathematical value of a [`ParserEvent`].
pub enum Event {
    Message(Text, Text),
    BeginTarget(Text),
    BeginCommand(Text, Seq<Text>),
    BeginSubCommand(Text, Seq<Text>),
    EndSubCommand(Text, Seq<Text>),
    EndCommand(Text, Seq<Text>),
    Status(Text, Text, Option<Text>),
}

impl View for ParserEvent {
    type V = Event;

    open spec fn view(&self) -> Event {
        match *self {
            ParserEvent::Message(kind, contents) => Event::Message(kind@, contents@),
            ParserEvent::BeginTarget(name) => Event::BeginTarget(name@),
            ParserEvent::BeginCommand(name, args) => Event::BeginCommand(name@, texts_of(args@)),
            ParserEvent::BeginSubCommand(name, args) => Event::BeginSubCommand(
                name@,
                texts_of(args@),
            ),
            ParserEvent::EndSubCommand(name, args) => Event::EndSubCommand(
                name@,
                texts_of(args@),
            ),
            ParserEvent::EndCommand(name, args) => Event::EndCommand(name@, texts_of(args@)),
            ParserEvent::Status(action, outcome, duration) => Event::Status(
                action@,
                outcome@,
                text_of(duration),
            ),
        }
    }
}

/// The values of a sequence of events, one by one.
pub open spec fn events_of(es: Seq<ParserEvent>) -> Seq<Event> {
    Seq::new(es.len(), |i: int| es[i]@)
}

/// What one call of the parser hands to a formatter.
#[derive(Debug, PartialEq, Eq)]
pub enum ParserResult {
    /// The events of the text that was recognised, in source order.
    Commands(Vec<ParserEvent>),
    /// Nothing could be completed yet: more input is needed.
    Continue,
    /// The text belongs to nothing that the grammar knows.
    NoMatch,
}

/// The mathematical value of a [`ParserResult`].
pub enum Outcome {
    Commands(Seq<Event>),
    Continue,
    NoMatch,
}

impl View for ParserResult {
    type V = Outcome;

    open spec fn view(&self) -> Outcome {
        match *self {
            ParserResult::Commands(events) => Outcome::Commands(events_of(events@)),
            ParserResult::Continue => Outcome::Continue,
            ParserResult::NoMatch => Outcome::NoMatch,
        }
    }
}

/// The failure of a parser that cannot go on.
#[derive(Debug, PartialEq, Eq)]
pub struct ParserError {}

/// Something that turns lines of a log into events.
pub trait Parser {
    /// Takes the next line of the log, without its line terminator.
    fn read_line(&mut self, line: &str) -> Result<ParserResult, ParserError>;
}

/// What walking over trees gives: the events, and the target names that have
/// been announced once the walk is over.
pub struct Walked {
    pub events: Seq<Event>,
    pub seen: Seq<Text>,
}

/// Whether `t`, of kind `ToplevelCommand` or `NestedCommand`, holds what a
/// command event is made from: a child of kind `Command` with a name that is
/// not empty.
pub open spec fn has_command(t: Tree) -> bool {
    match first_child(t, Rule::Command) {
        Some(command) => match first_below(command, Rule::CommandName) {
            Some(name) => name.len() > 0,
            None => false,
        },
        None => false,
    }
}

/// Whether the walker knows what to do with `t`: its kind is one of those
/// that stand at the top of a parse or directly inside a full command, and
/// the parts that its event is made from are there.
pub open spec fn walkable(t: Tree) -> bool
    decreases t,
{
    match t.rule {
        Rule::Message => first_below(t, Rule::MessageType) is Some && first_below(
            t,
            Rule::MessageContents,
        ) is Some,
        Rule::BuildStatus => first_below(t, Rule::ActionName) is Some && first_below(
            t,
            Rule::BuildOutcome,
        ) is Some,
        Rule::FullCommand => forall|i: int|
            0 <= i < t.children.len() ==> walkable(#[trigger] t.children[i]),
        Rule::ToplevelCommand => has_command(t),
        Rule::NestedCommand => has_command(t),
        Rule::CommentyBits => true,
        _ => false,
    }
}

/// The name and the arguments of the command inside `t`.
pub open spec fn command_name(t: Tree) -> Text {
    first_below(first_child(t, Rule::Command).unwrap(), Rule::CommandName).unwrap()
}

/// The arguments of the command inside `t`, in source order.
pub open spec fn command_args(t: Tree) -> Seq<Text> {
    all_below(first_child(t, Rule::Command).unwrap(), Rule::Arg)
}

/// The events of one tree, given the target names announced so far.
///
/// A message and a status line give one event each. A full command gives the
/// events of its children, in order. A top-level command gives `BeginTarget`
/// if it names a target that is not in `seen`, then `BeginCommand`; a nested
/// command gives `BeginSubCommand`. Comments give nothing.
pub open spec fn walk(t: Tree, seen: Seq<Text>) -> Walked
    decreases t,
{
    match t.rule {
        Rule::Message => Walked {
            events: seq![
                Event::Message(
                    first_below(t, Rule::MessageType).unwrap(),
                    first_below(t, Rule::MessageContents).unwrap(),
                ),
            ],
            seen,
        },
        Rule::BuildStatus => Walked {
            events: seq![
                Event::Status(
                    first_below(t, Rule::ActionName).unwrap(),
                    first_below(t, Rule::BuildOutcome).unwrap(),
                    first_below(t, Rule::Duration),
                ),
            ],
            seen,
        },
        Rule::FullCommand => walk_all(t.children, seen),
        Rule::ToplevelCommand => {
            let begin = Event::BeginCommand(command_name(t), command_args(t));
            match first_below(t, Rule::TargetName) {
                Some(target) => if seen.contains(target) {
                    Walked { events: seq![begin], seen }
                } else {
                    Walked {
                        events: seq![Event::BeginTarget(target), begin],
                        seen: seen.push(target),
                    }
                },
                None => Walked { events: seq![begin], seen },
            }
        },
        Rule::NestedCommand => Walked {
            events: seq![Event::BeginSubCommand(command_name(t), command_args(t))],
            seen,
        },
        _ => Walked { events: Seq::empty(), seen },
    }
}

/// The events of a sequence of trees, one tree after the other: each is
/// walked with the target names that the trees before it have left.
pub open spec fn walk_all(ts: Seq<Tree>, seen: Seq<Text>) -> Walked
    decreases ts,
{
    if ts.len() == 0 {
        Walked { events: Seq::empty(), seen }
    } else {
        let before = walk_all(ts.drop_last(), seen);
        let last = walk(ts.last(), before.seen);
        Walked { events: before.events + last.events, seen: last.seen }
    }
}

/// The target names that have been announced, each once, in the order in
/// which they were announced.
pub struct SeenTargets {
    names: Vec<String>,
}

impl View for SeenTargets {
    type V = Seq<Text>;

    closed spec fn view(&self) -> Seq<Text> {
        texts_of(self.names@)
    }
}

impl SeenTargets {
    #[verifier::type_invariant]
    spec fn valid(self) -> bool {
        texts_of(self.names@).no_duplicates()
    }

    /// No target has been announced.
    pub fn new() -> (targets: SeenTargets)
        ensures
            targets@ == Seq::<Text>::empty(),
    {
        let targets = SeenTargets { names: Vec::new() };
        assert(targets@ =~= Seq::<Text>::empty());
        targets
    }

    /// How many targets have been announced.
    pub fn len(&self) -> (len: usize)
        ensures
            len == self@.len(),
    {
        self.names.len()
    }

    /// Whether the target `name` has been announced.
    pub fn contains(&self, name: &String) -> (found: bool)
        ensures
            found == self@.contains(name@),
            self@.no_duplicates(),
    {
        proof {
            use_type_invariant(self);
        }
        let mut i: usize = 0;
        while i < self.names.len()
            invariant
                0 <= i <= self.names.len(),
                self@ == texts_of(self.names@),
                self@.no_duplicates(),
                forall|j: int| 0 <= j < i ==> self@[j] != name@,
            decreases self.names.len() - i,
        {
            if self.names[i] == *name {
                assert(self@[i as int] == name@);
                return true;
            }
            i += 1;
        }
        false
    }

    /// Takes the target `name` in, unless it is there, and says whether it
    /// was new.
    pub fn insert(&mut self, name: String) -> (added: bool)
        ensures
            added == !old(self)@.contains(name@),
            final(self)@ == (if added {
                old(self)@.push(name@)
            } else {
                old(self)@
            }),
            old(self)@.no_duplicates(),
            final(self)@.no_duplicates(),
    {
        proof {
            use_type_invariant(&*self);
        }
        if self.contains(&name) {
            return false;
        }
        proof {
            lemma_push_new(self@, name@);
        }
        // the names are worked on outside their owner and put back
        let mut names: Vec<String> = Vec::new();
        assert(texts_of(names@) =~= Seq::<Text>::empty());
        core::mem::swap(&mut self.names, &mut names);
        let ghost before = texts_of(names@);
        names.push(name);
        assert(texts_of(names@) =~= before.push(name@));
        core::mem::swap(&mut self.names, &mut names);
        true
    }
}

/// One name more, which is not among the names, keeps each name once.
pub proof fn lemma_push_new(names: Seq<Text>, name: Text)
    requires
        names.no_duplicates(),
        !names.contains(name),
    ensures
        names.push(name).no_duplicates(),
{
    let after = names.push(name);
    assert forall|i: int, j: int|
        0 <= i < after.len() && 0 <= j < after.len() && i != j implies after[i] != after[j] by {
        if i < names.len() && j < names.len() {
        } else if i < names.len() {
            assert(names.contains(after[i]));
        } else {
            assert(names.contains(after[j]));
        }
    }
}

/// The mathematical value of a parser: all the text received so far, how
/// much of it has been turned into events, and the target names announced so
/// far, in the order in which they were announced.
pub struct ParserState {
    pub buffer: Text,
    pub consumed: nat,
    pub seen: Seq<Text>,
}

/// A parser's value after a call, with what the call returned.
pub struct Fed {
    pub state: ParserState,
    pub outcome: Outcome,
}

impl ParserState {
    /// The value of a parser that has received nothing.
    pub open spec fn initial() -> ParserState {
        ParserState { buffer: Seq::empty(), consumed: 0, seen: Seq::empty() }
    }

    /// What every parser's value meets: the consumed text is part of the
    /// buffer, and no target name is kept twice.
    pub open spec fn wf(self) -> bool {
        self.consumed <= self.buffer.len() && self.seen.no_duplicates()
    }

    /// The text that has not been turned into events yet.
    pub open spec fn pending(self) -> Text {
        self.buffer.skip(self.consumed as int)
    }

    /// The value of a parser that has received one line more: the line and
    /// its terminator stand at the end of the buffer.
    pub open spec fn with_line(self, line: Text) -> ParserState {
        ParserState {
            buffer: self.buffer + line + seq!['\n'],
            consumed: self.consumed,
            seen: self.seen,
        }
    }

    /// What an answer of the grammar to the pending text leads to. Where
    /// the grammar has recognised the text, the whole buffer counts as
    /// consumed and the events are those of the trees, walked in order with
    /// the target names announced so far. Where it has not, nothing changes
    /// and the result is `Continue`.
    pub open spec fn given(self, answer: Option<Seq<Tree>>) -> Fed {
        match answer {
            Some(trees) => Fed {
                state: ParserState {
                    buffer: self.buffer,
                    consumed: self.buffer.len(),
                    seen: walk_all(trees, self.seen).seen,
                },
                outcome: Outcome::Commands(walk_all(trees, self.seen).events),
            },
            None => Fed { state: self, outcome: Outcome::Continue },
        }
    }

    /// One try at the pending text: the grammar is asked, and its answer
    /// taken.
    pub open spec fn parse_pending(self) -> Fed {
        self.given(grammar(self.pending()))
    }

    /// One line more: the line is received, then the pending text is tried.
    pub open spec fn feed(self, line: Text) -> Fed {
        self.with_line(line).parse_pending()
    }
}

/// Whether the walker knows what to do with each of `trees`.
pub open spec fn all_walkable(trees: Seq<Tree>) -> bool {
    forall|i: int| 0 <= i < trees.len() ==> walkable(#[trigger] trees[i])
}

/// The incremental parser of `xcodebuild` output.
///
/// It keeps all the text it was given and remembers how much of it has been
/// turned into events. Each new line is added to the text; the part not yet
/// consumed is then parsed as a whole.
pub struct XcodebuildParser {
    buffer: Vec<char>,
    index: usize,
    targets: SeenTargets,
}

impl View for XcodebuildParser {
    type V = ParserState;

    closed spec fn view(&self) -> ParserState {
        ParserState {
            buffer: self.buffer@,
            consumed: self.index as nat,
            seen: self.targets@,
        }
    }
}

impl XcodebuildParser {
    #[verifier::type_invariant]
    spec fn valid(self) -> bool {
        self.index <= self.buffer.len()
    }

    /// A parser that has received nothing.
    pub fn new() -> (parser: XcodebuildParser)
        ensures
            parser@ == ParserState::initial(),
    {
        XcodebuildParser { buffer: Vec::new(), index: 0, targets: SeenTargets::new() }
    }

    /// Walks over the trees of the pending text, which then counts as
    /// consumed.
    fn consume(&mut self, nodes: Vec<Node>) -> (events: Vec<ParserEvent>)
        requires
            all_walkable(trees_of(nodes@)),
        ensures
            final(self)@ == old(self)@.given(Some(trees_of(nodes@))).state,
            Outcome::Commands(events_of(events@)) == old(self)@.given(
                Some(trees_of(nodes@)),
            ).outcome,
    {
        proof {
            use_type_invariant(&*self);
            use_type_invariant(&self.targets);
        }
        let ghost seen = self.targets@;
        self.index = self.buffer.len();
        // the names are worked on outside the parser and put back
        let mut targets = SeenTargets::new();
        core::mem::swap(&mut self.targets, &mut targets);
        let mut events: Vec<ParserEvent> = Vec::new();
        let mut i: usize = 0;
        proof {
            lemma_trees_of(nodes@);
            assert(trees_of(nodes@).take(0) =~= Seq::<Tree>::empty());
        }
        while i < nodes.len()
            invariant
                0 <= i <= nodes.len(),
                all_walkable(trees_of(nodes@)),
                forall|j: int| 0 <= j < nodes.len() ==> #[trigger] trees_of(nodes@)[j] == nodes[j]@,
                trees_of(nodes@).len() == nodes.len(),
                events_of(events@) == walk_all(trees_of(nodes@).take(i as int), seen).events,
                targets@ == walk_all(trees_of(nodes@).take(i as int), seen).seen,
            decreases nodes.len() - i,
        {
            let ghost before = events_of(events@);
            proof {
                assert(trees_of(nodes@).take(i + 1).drop_last() =~= trees_of(nodes@).take(
                    i as int,
                ));
                assert(walkable(trees_of(nodes@)[i as int]));
            }
            let mut more = Self::transform_pair(&nodes[i], &mut targets);
            let ghost added = events_of(more@);
            events.append(&mut more);
            assert(events_of(events@) =~= before + added);
            i += 1;
        }
        assert(trees_of(nodes@).take(i as int) =~= trees_of(nodes@));
        core::mem::swap(&mut self.targets, &mut targets);
        events
    }

    /// Whether the walker knows what to do with each of `nodes`.
    fn all_known(nodes: &Vec<Node>) -> (ok: bool)
        ensures
            ok == all_walkable(trees_of(nodes@)),
    {
        proof {
            lemma_trees_of(nodes@);
        }
        let mut i: usize = 0;
        while i < nodes.len()
            invariant
                0 <= i <= nodes.len(),
                forall|j: int| 0 <= j < nodes.len() ==> #[trigger] trees_of(nodes@)[j] == nodes[j]@,
                trees_of(nodes@).len() == nodes.len(),
                forall|j: int| 0 <= j < i ==> walkable(#[trigger] trees_of(nodes@)[j]),
            decreases nodes.len() - i,
        {
            if !Self::is_walkable(&nodes[i]) {
                assert(!walkable(trees_of(nodes@)[i as int]));
                return false;
            }
            i += 1;
        }
        true
    }

    /// Receives one line, without its terminator, and tries nothing yet.
    pub fn push_line(&mut self, line: &str)
        ensures
            old(self)@.wf(),
            final(self)@.wf(),
            final(self)@ == old(self)@.with_line(line@),
    {
        proof {
            use_type_invariant(&*self);
            use_type_invariant(&self.targets);
        }
        // the buffer is worked on outside the parser and put back
        let index = self.index;
        self.index = 0;
        let mut buffer: Vec<char> = Vec::new();
        core::mem::swap(&mut self.buffer, &mut buffer);
        let ghost before = buffer@;
        let chars = chars_of(line);
        let mut i: usize = 0;
        assert(buffer@ =~= before + chars@.take(0));
        while i < chars.len()
            invariant
                0 <= i <= chars.len(),
                buffer@ == before + chars@.take(i as int),
            decreases chars.len() - i,
        {
            buffer.push(chars[i]);
            assert(buffer@ =~= before + chars@.take(i + 1));
            i += 1;
        }
        buffer.push('\n');
        assert(buffer@ =~= before + line@ + seq!['\n']) by {
            assert(chars@.take(chars.len() as int) =~= chars@);
        }
        core::mem::swap(&mut self.buffer, &mut buffer);
        self.index = index;
    }

    /// The text that has not been turned into events yet.
    pub fn pending(&self) -> (text: String)
        ensures
            text@ == self@.pending(),
    {
        proof {
            use_type_invariant(self);
            use_type_invariant(&self.targets);
        }
        string_of(&self.buffer, self.index, self.buffer.len())
    }

    /// Takes an answer to the pending text, whoever gave it: the trees of
    /// the text, or `NoMatch`. Trees that the walker does not know are
    /// refused: the parser fails and nothing changes.
    pub fn accept(&mut self, answer: Result<Vec<Node>, NoMatch>) -> (result: Result<
        ParserResult,
        ParserError,
    >)
        ensures
            old(self)@.wf(),
            final(self)@.wf(),
            match result {
                Ok(r) => {
                    &&& parsed(answer) matches Some(trees) ==> all_walkable(trees)
                    &&& final(self)@ == old(self)@.given(parsed(answer)).state
                    &&& r@ == old(self)@.given(parsed(answer)).outcome
                },
                Err(_) => {
                    &&& parsed(answer) matches Some(trees) && !all_walkable(trees)
                    &&& final(self)@ == old(self)@
                },
            },
    {
        proof {
            use_type_invariant(&*self);
            use_type_invariant(&self.targets);
        }
        let result = match answer {
            Ok(nodes) => {
                if Self::all_known(&nodes) {
                    Ok(ParserResult::Commands(self.consume(nodes)))
                } else {
                    Err(ParserError {  })
                }
            },
            Err(_) => Ok(ParserResult::Continue),
        };
        proof {
            use_type_invariant(&*self);
            use_type_invariant(&self.targets);
        }
        result
    }

    /// Tries the pending text.
    pub fn parse_buffer(&mut self) -> (result: Result<ParserResult, ParserError>)
        ensures
            old(self)@.wf(),
            final(self)@.wf(),
            final(self)@ == old(self)@.parse_pending().state,
            result matches Ok(r) && r@ == old(self)@.parse_pending().outcome,
    {
        proof {
            use_type_invariant(&*self);
            use_type_invariant(&self.targets);
            lemma_grammar_walkable(self@.pending());
        }
        let result = match XcodebuildGrammarParser::parse_from(&self.buffer, self.index) {
            Ok(nodes) => Ok(ParserResult::Commands(self.consume(nodes))),
            Err(_) => Ok(ParserResult::Continue),
        };
        proof {
            use_type_invariant(&*self);
            use_type_invariant(&self.targets);
        }
        result
    }
}

impl XcodebuildParser {
    /// The command event parts of `pair`: the name of its command and the
    /// arguments in source order.
    fn command_parts(pair: &Node) -> (parts: (String, Vec<String>))
        requires
            has_command(pair@),
        ensures
            parts.0@ == command_name(pair@),
            texts_of(parts.1@) == command_args(pair@),
    {
        let command = pair.child(Rule::Command).unwrap();
        let name = command.find_first(Rule::CommandName).unwrap();
        let args = command.find_all(Rule::Arg);
        (name, args)
    }

    /// Whether `pair` holds the command that a command event is made from.
    fn holds_command(pair: &Node) -> (ok: bool)
        ensures
            ok == has_command(pair@),
    {
        match pair.child(Rule::Command) {
            Some(command) => match command.find_first(Rule::CommandName) {
                Some(name) => !name.as_str().is_empty(),
                None => false,
            },
            None => false,
        }
    }

    /// Whether the walker knows what to do with `pair`.
    pub fn is_walkable(pair: &Node) -> (ok: bool)
        ensures
            ok == walkable(pair@),
        decreases pair,
    {
        match pair.rule {
            Rule::Message => pair.find_first(Rule::MessageType).is_some() && pair.find_first(
                Rule::MessageContents,
            ).is_some(),
            Rule::BuildStatus => pair.find_first(Rule::ActionName).is_some() && pair.find_first(
                Rule::BuildOutcome,
            ).is_some(),
            Rule::FullCommand => {
                proof {
                    lemma_trees_of(pair.children@);
                }
                let mut i: usize = 0;
                while i < pair.children.len()
                    invariant
                        0 <= i <= pair.children.len(),
                        pair.rule == Rule::FullCommand,
                        pair@.children.len() == pair.children.len(),
                        forall|j: int|
                            0 <= j < pair.children.len() ==> #[trigger] pair@.children[j]
                                == tree_of(pair.children@[j]),
                        forall|j: int| 0 <= j < i ==> walkable(#[trigger] pair@.children[j]),
                    decreases pair.children.len() - i,
                {
                    if !Self::is_walkable(&pair.children[i]) {
                        assert(!walkable(pair@.children[i as int]));
                        return false;
                    }
                    i += 1;
                }
                true
            },
            Rule::ToplevelCommand => Self::holds_command(pair),
            Rule::NestedCommand => Self::holds_command(pair),
            Rule::CommentyBits => true,
            _ => false,
        }
    }

    /// Walks over one tree: returns its events in source order and adds to
    /// `targets` the target names that it announces.
    pub fn transform_pair(pair: &Node, targets: &mut SeenTargets) -> (events: Vec<ParserEvent>)
        requires
            walkable(pair@),
        ensures
            events_of(events@) == walk(pair@, old(targets)@).events,
            final(targets)@ == walk(pair@, old(targets)@).seen,
        decreases pair,
    {
        let ghost seen = targets@;
        let mut events: Vec<ParserEvent> = Vec::new();
        match pair.rule {
            Rule::Message => {
                let kind = pair.find_first(Rule::MessageType).unwrap();
                let contents = pair.find_first(Rule::MessageContents).unwrap();
                events.push(ParserEvent::Message(kind, contents));
            },
            Rule::BuildStatus => {
                let action = pair.find_first(Rule::ActionName).unwrap();
                let outcome = pair.find_first(Rule::BuildOutcome).unwrap();
                let duration = pair.find_first(Rule::Duration);
                events.push(ParserEvent::Status(action, outcome, duration));
            },
            Rule::FullCommand => {
                proof {
                    lemma_trees_of(pair.children@);
                    assert(pair@.children.take(0) =~= Seq::<Tree>::empty());
                }
                let mut i: usize = 0;
                while i < pair.children.len()
                    invariant
                        0 <= i <= pair.children.len(),
                        walkable(pair@),
                        pair.rule == Rule::FullCommand,
                        pair@.children.len() == pair.children.len(),
                        forall|j: int|
                            0 <= j < pair.children.len() ==> #[trigger] pair@.children[j] == tree_of(
                                pair.children@[j],
                            ),
                        events_of(events@) == walk_all(pair@.children.take(i as int), seen).events,
                        targets@ == walk_all(pair@.children.take(i as int), seen).seen,
                    decreases pair.children.len() - i,
                {
                    let ghost before = events_of(events@);
                    assert(walkable(pair@.children[i as int]));
                    let mut more = Self::transform_pair(&pair.children[i], targets);
                    let ghost added = events_of(more@);
                    events.append(&mut more);
                    proof {
                        assert(pair@.children.take(i + 1).drop_last() =~= pair@.children.take(
                            i as int,
                        ));
                        assert(events_of(events@) =~= before + added);
                    }
                    i += 1;
                }
                assert(pair@.children.take(i as int) =~= pair@.children);
            },
            Rule::ToplevelCommand => {
                let target = pair.find_first(Rule::TargetName);
                match target {
                    Some(name) => {
                        if targets.insert(name.clone()) {
                            events.push(ParserEvent::BeginTarget(name));
                        }
                    },
                    None => {},
                }
                let (name, args) = Self::command_parts(pair);
                events.push(ParserEvent::BeginCommand(name, args));
            },
            Rule::NestedCommand => {
                let (name, args) = Self::command_parts(pair);
                events.push(ParserEvent::BeginSubCommand(name, args));
            },
            _ => {},
        }
        assert(events_of(events@) =~= walk(pair@, seen).events);
        events
    }
}

impl XcodebuildParser {
    /// How many characters have been received, line terminators included.
    pub fn buffered(&self) -> (len: usize)
        ensures
            len == self@.buffer.len(),
    {
        self.buffer.len()
    }

    /// How many of the characters received have been turned into events.
    pub fn consumed_offset(&self) -> (offset: usize)
        ensures
            offset == self@.consumed,
            offset <= self@.buffer.len(),
    {
        proof {
            use_type_invariant(self);
            use_type_invariant(&self.targets);
        }
        self.index
    }

    /// Whether the target `name` has been announced.
    pub fn has_seen(&self, name: &String) -> (found: bool)
        ensures
            found == self@.seen.contains(name@),
    {
        self.targets.contains(name)
    }

    /// What is owed to the formatter when the input is over: the marker for
    /// text without a match where text is left that never became events,
    /// and nothing where all the text was consumed.
    pub fn end_of_input(&self) -> (owed: Option<ParserResult>)
        ensures
            match owed {
                Some(r) => r@ == Outcome::NoMatch && self@.pending().len() > 0,
                None => self@.pending().len() == 0,
            },
    {
        proof {
            use_type_invariant(self);
            use_type_invariant(&self.targets);
        }
        if self.index < self.buffer.len() {
            Some(ParserResult::NoMatch)
        } else {
            None
        }
    }
}

/// What goes to the formatter for one answer of a parser: the result where
/// there is one, and the marker for text without a match where the parser
/// failed.
pub fn surfaced(answer: Result<ParserResult, ParserError>) -> (r: ParserResult)
    ensures
        r@ == (match answer {
            Ok(result) => result@,
            Err(_) => Outcome::NoMatch,
        }),
{
    match answer {
        Ok(result) => result,
        Err(_) => ParserResult::NoMatch,
    }
}

impl Parser for XcodebuildParser {
    /// Takes the next line of the log, without its line terminator, and
    /// returns the events that it completes.
    fn read_line(&mut self, line: &str) -> (result: Result<ParserResult, ParserError>)
        ensures
            old(self)@.wf(),
            final(self)@.wf(),
            final(self)@ == old(self)@.feed(line@).state,
            result matches Ok(r) && r@ == old(self)@.feed(line@).outcome,
            final(self)@.consumed >= old(self)@.consumed,
            old(self)@.seen.is_prefix_of(final(self)@.seen),
    {
        proof {
            use_type_invariant(&*self);
            use_type_invariant(&self.targets);
            lemma_feed_grows(self@, line@);
        }
        self.push_line(line);
        self.parse_buffer()
    }
}

} // verus!
