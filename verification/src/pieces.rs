//! Text in pieces: what the grammar makes of a text does not depend on what
//! stands before it, and what it has recognised stays recognised when more
//! text follows.

use vstd::prelude::*;
use crate::grammar_parser::{
    block_end, block_text, block_tree, grammar, inner_ok, inner_trees, is_inner, lemma_block_end,
    lemma_line_end, line_end, line_tree, lines_from, units_from,
};
use crate::scan::{classify, Line};
use crate::tree::{Rule, Text, Tree};

verus! {

/// Where a line ends does not depend on what stands before it.
pub proof fn lemma_line_end_skip(text: Text, from: int, k: int)
    requires
        0 <= from,
        0 <= k,
        from + k <= text.len(),
    ensures
        line_end(text, from + k) == from + line_end(text.skip(from), k),
    decreases text.len() - from - k,
{
    if from + k < text.len() && text[from + k] != '\n' {
        lemma_line_end_skip(text, from, k + 1);
    }
}

/// The lines of a text do not depend on what stands before them.
pub proof fn lemma_lines_from_skip(text: Text, from: int, k: int)
    requires
        0 <= from,
        0 <= k,
        from + k <= text.len(),
    ensures
        lines_from(text, from + k) == lines_from(text.skip(from), k),
    decreases text.len() - from - k,
{
    if from + k < text.len() {
        let end = line_end(text, from + k);
        lemma_line_end_skip(text, from, k);
        lemma_line_end(text, from + k);
        if end < text.len() {
            lemma_lines_from_skip(text, from, end + 1 - from);
            assert(text.subrange(from + k, end) =~= text.skip(from).subrange(k, end - from));
        }
    }
}

/// `first`, then what follows, if anything does.
pub open spec fn and_then_lines(first: Seq<Text>, rest: Option<Seq<Text>>) -> Option<Seq<Text>> {
    match rest {
        Some(rest) => Some(first + rest),
        None => None,
    }
}

/// `first`, then what follows, if anything does.
pub open spec fn and_then_all(first: Seq<Tree>, rest: Option<Seq<Tree>>) -> Option<Seq<Tree>> {
    match rest {
        Some(rest) => Some(first + rest),
        None => None,
    }
}

/// A line that ends inside a text ends at the same place when more text
/// follows.
pub proof fn lemma_line_end_more(a: Text, b: Text, from: int)
    requires
        0 <= from <= a.len(),
        line_end(a, from) < a.len(),
    ensures
        line_end(a + b, from) == line_end(a, from),
    decreases a.len() - from,
{
    if from < a.len() && a[from] != '\n' {
        assert((a + b)[from] == a[from]);
        lemma_line_end_more(a, b, from + 1);
    } else {
        assert((a + b)[from] == a[from]);
    }
}

/// The lines of a text that is made of whole lines stay what they are when
/// more text follows, and the lines of that text follow them.
pub proof fn lemma_lines_more(a: Text, b: Text, from: int)
    requires
        0 <= from <= a.len(),
        lines_from(a, from) is Some,
    ensures
        lines_from(a + b, from) == and_then_lines(lines_from(a, from).unwrap(), lines_from(b, 0)),
    decreases a.len() - from,
{
    if from == a.len() {
        lemma_lines_from_skip(a + b, from, 0);
        assert((a + b).skip(from) =~= b);
        assert(lines_from(a, from).unwrap() =~= Seq::<Text>::empty());
        match lines_from(b, 0) {
            Some(lb) => {
                assert(Seq::<Text>::empty() + lb =~= lb);
            },
            None => {},
        }
    } else {
        let end = line_end(a, from);
        lemma_line_end(a, from);
        lemma_line_end_more(a, b, from);
        lemma_lines_more(a, b, end + 1);
        assert((a + b).subrange(from, end) =~= a.subrange(from, end));
        let first = seq![a.subrange(from, end)];
        let rest = lines_from(a, end + 1).unwrap();
        match lines_from(b, 0) {
            Some(lb) => {
                assert(first + (rest + lb) =~= (first + rest) + lb);
            },
            None => {},
        }
    }
}

/// Whether the lines `from..to` of `l1` are the lines of `l2` that stand
/// `shift` places further on.
pub open spec fn agree(l1: Seq<Text>, l2: Seq<Text>, from: int, to: int, shift: int) -> bool {
    &&& 0 <= from
    &&& to <= l1.len()
    &&& 0 <= from + shift
    &&& to + shift <= l2.len()
    &&& forall|i: int| from <= i < to ==> l1[i] == #[trigger] l2[i + shift]
}

/// Where lines agree, so do the trees inside a full command.
pub proof fn lemma_inner_trees_agree(l1: Seq<Text>, l2: Seq<Text>, from: int, to: int, shift: int)
    requires
        agree(l1, l2, from, to, shift),
    ensures
        inner_trees(l1, from, to) == inner_trees(l2, from + shift, to + shift),
        inner_ok(l1, from, to) == inner_ok(l2, from + shift, to + shift),
    decreases to - from,
{
    if from < to {
        lemma_inner_trees_agree(l1, l2, from, to - 1, shift);
        assert(l1[to - 1] == l2[to - 1 + shift]);
    }
    if inner_ok(l1, from, to) {
        assert forall|i: int| from + shift <= i < to + shift implies is_inner(
            classify(#[trigger] l2[i]),
        ) by {
            assert(l1[i - shift] == l2[(i - shift) + shift]);
        }
    }
    if inner_ok(l2, from + shift, to + shift) {
        assert forall|i: int| from <= i < to implies is_inner(classify(#[trigger] l1[i])) by {
            assert(l1[i] == l2[i + shift]);
        }
    }
}

/// Where lines agree, so does their text.
pub proof fn lemma_block_text_agree(l1: Seq<Text>, l2: Seq<Text>, from: int, to: int, shift: int)
    requires
        agree(l1, l2, from, to, shift),
    ensures
        block_text(l1, from, to) == block_text(l2, from + shift, to + shift),
    decreases to - from,
{
    if from < to {
        lemma_block_text_agree(l1, l2, from, to - 1, shift);
        assert(l1[to - 1] == l2[to - 1 + shift]);
    }
}

/// Where lines agree up to and with the first blank line, that line is the
/// first blank line in both.
pub proof fn lemma_block_end_agree(l1: Seq<Text>, l2: Seq<Text>, from: int, shift: int)
    requires
        0 <= from <= l1.len(),
        block_end(l1, from) < l1.len(),
        agree(l1, l2, from, block_end(l1, from) + 1, shift),
    ensures
        block_end(l2, from + shift) == block_end(l1, from) + shift,
    decreases l1.len() - from,
{
    lemma_block_end(l1, from);
    assert(l1[from] == l2[from + shift]);
    if l1[from].len() != 0 {
        lemma_block_end_agree(l1, l2, from + 1, shift);
    }
}

/// Where lines agree from the opening of a full command to its blank line,
/// the trees of the full command are the same.
pub proof fn lemma_block_tree_agree(l1: Seq<Text>, l2: Seq<Text>, from: int, end: int, shift: int)
    requires
        from <= end,
        agree(l1, l2, from, end + 1, shift),
    ensures
        block_tree(l1, from, end) == block_tree(l2, from + shift, end + shift),
{
    lemma_block_text_agree(l1, l2, from, end + 1, shift);
    lemma_inner_trees_agree(l1, l2, from + 1, end, shift);
    assert(l1[from] == l2[from + shift]);
}

/// The units of lines do not depend on the lines before them.
pub proof fn lemma_units_skip(lines: Seq<Text>, from: int, k: int)
    requires
        0 <= from,
        0 <= k,
        from + k <= lines.len(),
    ensures
        units_from(lines, from + k) == units_from(lines.skip(from), k),
    decreases lines.len() - from - k,
{
    let rest = lines.skip(from);
    if from + k < lines.len() {
        assert(rest[k] == lines[from + k]);
        match classify(lines[from + k]) {
            Line::Indented => {},
            Line::Unknown => {},
            Line::Header { .. } => {
                let end = block_end(rest, k + 1);
                lemma_block_end(rest, k + 1);
                lemma_block_end(lines, from + k + 1);
                if end < rest.len() {
                    assert(agree(rest, lines, k, end + 1, from));
                    lemma_block_end_agree(rest, lines, k + 1, from);
                    lemma_inner_trees_agree(rest, lines, k + 1, end, from);
                    lemma_block_tree_agree(rest, lines, k, end, from);
                    lemma_units_skip(lines, from, end + 1);
                } else {
                    // no blank line behind the opening, in `lines` neither
                    let other = block_end(lines, from + k + 1);
                    if other < lines.len() {
                        assert(rest[other - from] == lines[other]);
                        assert(rest[other - from].len() == 0);
                    }
                }
            },
            _ => {
                lemma_units_skip(lines, from, k + 1);
            },
        }
    }
}

/// The units of lines that are made of whole units stay what they are when
/// more lines follow, and the units of those lines follow them.
pub proof fn lemma_units_more(la: Seq<Text>, lb: Seq<Text>, from: int)
    requires
        0 <= from <= la.len(),
        units_from(la, from) is Some,
    ensures
        units_from(la + lb, from) == and_then_all(
            units_from(la, from).unwrap(),
            units_from(lb, 0),
        ),
    decreases la.len() - from,
{
    let all = la + lb;
    if from == la.len() {
        lemma_units_skip(all, from, 0);
        assert(all.skip(from) =~= lb);
        assert(units_from(la, from).unwrap() =~= Seq::<Tree>::empty());
        match units_from(lb, 0) {
            Some(tb) => {
                assert(Seq::<Tree>::empty() + tb =~= tb);
            },
            None => {},
        }
    } else {
        assert(all[from] == la[from]);
        let next = match classify(la[from]) {
            Line::Header { .. } => block_end(la, from + 1) + 1,
            _ => from + 1,
        };
        let first = match classify(la[from]) {
            Line::Header { .. } => block_tree(la, from, next - 1),
            _ => line_tree(la[from], Rule::ToplevelCommand),
        };
        lemma_block_end(la, from + 1);
        if classify(la[from]) is Header {
            assert(agree(la, all, from, next, 0));
            lemma_block_end_agree(la, all, from + 1, 0);
            lemma_inner_trees_agree(la, all, from + 1, next - 1, 0);
            lemma_block_tree_agree(la, all, from, next - 1, 0);
        }
        lemma_units_more(la, lb, next);
        let rest = units_from(la, next).unwrap();
        match units_from(lb, 0) {
            Some(tb) => {
                assert(seq![first] + (rest + tb) =~= (seq![first] + rest) + tb);
            },
            None => {},
        }
    }
}

/// What has been recognised stays recognised: where the grammar takes a
/// text, it takes the text with more text behind it if and only if it takes
/// that text alone, and the trees of the whole are the trees of the two
/// parts, one after the other.
pub proof fn lemma_grammar_more(a: Text, b: Text)
    requires
        grammar(a) is Some,
    ensures
        grammar(a + b) == and_then_all(grammar(a).unwrap(), grammar(b)),
{
    let la = lines_from(a, 0).unwrap();
    lemma_lines_more(a, b, 0);
    match lines_from(b, 0) {
        Some(lb) => {
            lemma_units_more(la, lb, 0);
        },
        None => {},
    }
}

/// A line ends where the first line break stands.
pub proof fn lemma_line_end_at(text: Text, from: int, end: int)
    requires
        0 <= from <= end <= text.len(),
        forall|i: int| from <= i < end ==> text[i] != '\n',
        end < text.len() ==> text[end] == '\n',
    ensures
        line_end(text, from) == end,
    decreases end - from,
{
    if from < end {
        lemma_line_end_at(text, from + 1, end);
    }
}

/// A line and its line break are one line.
pub proof fn lemma_one_line(line: Text)
    requires
        !line.contains('\n'),
    ensures
        lines_from(line + seq!['\n'], 0) == Some(seq![line]),
{
    let text = line + seq!['\n'];
    let n = line.len() as int;
    assert forall|i: int| 0 <= i < n implies text[i] != '\n' by {
        assert(text[i] == line[i]);
        assert(line.contains(line[i]));
    }
    lemma_line_end_at(text, 0, n);
    assert(text.subrange(0, n) =~= line);
    assert(lines_from(text, n + 1) == Some(Seq::<Text>::empty()));
    assert(seq![line] + Seq::<Text>::empty() =~= seq![line]);
}

/// Behind text that is made of whole lines, a line and its line break are
/// one line more.
pub proof fn lemma_one_line_more(text: Text, lines: Seq<Text>, line: Text)
    requires
        lines_from(text, 0) == Some(lines),
        !line.contains('\n'),
    ensures
        lines_from(text + line + seq!['\n'], 0) == Some(lines.push(line)),
{
    lemma_one_line(line);
    lemma_lines_more(text, line + seq!['\n'], 0);
    assert(text + line + seq!['\n'] =~= text + (line + seq!['\n']));
    assert(lines + seq![line] =~= lines.push(line));
}

/// Where no line is blank, there is no first blank line.
pub proof fn lemma_no_blank(lines: Seq<Text>, from: int)
    requires
        0 <= from <= lines.len(),
        forall|i: int| from <= i < lines.len() ==> (#[trigger] lines[i]).len() > 0,
    ensures
        block_end(lines, from) == lines.len(),
    decreases lines.len() - from,
{
    if from < lines.len() {
        lemma_no_blank(lines, from + 1);
    }
}

/// The first blank line is the one before which no line is blank.
pub proof fn lemma_block_end_at(lines: Seq<Text>, from: int, end: int)
    requires
        0 <= from <= end < lines.len(),
        forall|i: int| from <= i < end ==> (#[trigger] lines[i]).len() > 0,
        lines[end].len() == 0,
    ensures
        block_end(lines, from) == end,
    decreases end - from,
{
    if from < end {
        lemma_block_end_at(lines, from + 1, end);
    }
}

/// Text that ends with a line break is made of whole lines.
pub proof fn lemma_lines_end(text: Text, from: int)
    requires
        0 <= from <= text.len(),
        text.len() > 0,
        text.last() == '\n',
    ensures
        lines_from(text, from) is Some,
    decreases text.len() - from,
{
    if from < text.len() {
        lemma_line_end(text, from);
        lemma_lines_end(text, line_end(text, from) + 1);
    }
}

/// The text that a tree at the top of a parse stands for: a full command
/// holds its line breaks, the other units are one line without its line
/// break.
pub open spec fn unit_text(t: Tree) -> Text {
    if t.rule == Rule::FullCommand {
        t.text
    } else {
        t.text + seq!['\n']
    }
}

/// The text that the trees of a parse stand for, one after the other.
pub open spec fn units_text(ts: Seq<Tree>) -> Text
    decreases ts.len(),
{
    if ts.len() == 0 {
        Seq::empty()
    } else {
        unit_text(ts[0]) + units_text(ts.drop_first())
    }
}

/// The text of lines, in two parts.
pub proof fn lemma_block_text_split(lines: Seq<Text>, from: int, mid: int, to: int)
    requires
        from <= mid <= to,
    ensures
        block_text(lines, from, to) == block_text(lines, from, mid) + block_text(lines, mid, to),
    decreases to - mid,
{
    if mid < to {
        lemma_block_text_split(lines, from, mid, to - 1);
        assert(block_text(lines, from, to) =~= block_text(lines, from, mid) + block_text(
            lines,
            mid,
            to,
        ));
    } else {
        assert(block_text(lines, from, mid) + block_text(lines, mid, to) =~= block_text(
            lines,
            from,
            mid,
        ));
    }
}

/// The text of one line.
pub proof fn lemma_block_text_one(lines: Seq<Text>, at: int)
    ensures
        block_text(lines, at, at + 1) == lines[at] + seq!['\n'],
{
    assert(block_text(lines, at, at) =~= Seq::<char>::empty());
    assert(block_text(lines, at, at + 1) =~= lines[at] + seq!['\n']);
}

/// The lines of a text, each with its line break, are the text.
pub proof fn lemma_lines_text(text: Text, from: int)
    requires
        0 <= from <= text.len(),
        lines_from(text, from) is Some,
    ensures
        block_text(
            lines_from(text, from).unwrap(),
            0,
            lines_from(text, from).unwrap().len() as int,
        ) == text.skip(from),
    decreases text.len() - from,
{
    let lines = lines_from(text, from).unwrap();
    let n = lines.len() as int;
    if from < text.len() {
        let end = line_end(text, from);
        lemma_line_end(text, from);
        let rest = lines_from(text, end + 1).unwrap();
        lemma_lines_text(text, end + 1);
        lemma_block_text_split(lines, 0, 1, n);
        lemma_block_text_one(lines, 0);
        assert(agree(rest, lines, 0, rest.len() as int, 1));
        lemma_block_text_agree(rest, lines, 0, rest.len() as int, 1);
        assert(text.skip(from) =~= text.subrange(from, end) + seq!['\n'] + text.skip(end + 1));
    } else {
        assert(block_text(lines, 0, 0) =~= text.skip(from));
    }
}

/// The trees of the units of some lines stand for the text of those lines.
pub proof fn lemma_units_text(lines: Seq<Text>, from: int)
    requires
        0 <= from <= lines.len(),
        units_from(lines, from) is Some,
    ensures
        units_text(units_from(lines, from).unwrap()) == block_text(
            lines,
            from,
            lines.len() as int,
        ),
    decreases lines.len() - from,
{
    let n = lines.len() as int;
    let ts = units_from(lines, from).unwrap();
    if from < n {
        let next = match classify(lines[from]) {
            Line::Header { .. } => block_end(lines, from + 1) + 1,
            _ => from + 1,
        };
        lemma_block_end(lines, from + 1);
        lemma_units_text(lines, next);
        let rest = units_from(lines, next).unwrap();
        assert(ts.drop_first() =~= rest);
        lemma_block_text_split(lines, from, next, n);
        lemma_block_text_one(lines, from);
        assert(unit_text(ts[0]) == block_text(lines, from, next));
    } else {
        assert(block_text(lines, from, n) =~= Seq::<char>::empty());
    }
}

/// Nothing is lost and nothing is made up: the trees of a parse stand for
/// the whole text, in its order.
pub proof fn lemma_grammar_text(text: Text)
    requires
        grammar(text) is Some,
    ensures
        units_text(grammar(text).unwrap()) == text,
{
    lemma_lines_text(text, 0);
    lemma_units_text(lines_from(text, 0).unwrap(), 0);
    assert(text.skip(0) =~= text);
}

} // verus!
