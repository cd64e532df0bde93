//! The steps of a run: what is written for each line of input, and what is
//! written when the input is over.
//!
//! Reading the input and writing the text are the caller's part.

use vstd::prelude::*;
use vstd::string::StringExecFns;
use crate::common::{surfaced, Outcome, Parser, XcodebuildParser};
use crate::formatter::{
    any_finalizes, any_formats, no_match_text, AnyFormat, AnyFormatter, Formatter,
};
use crate::tree::Text;

verus! {

/// What a formatter of value `f` writes for text without a match: its
/// marker, and nothing for the formatter that writes nothing.
pub open spec fn any_no_match(f: AnyFormat) -> Text {
    match f {
        AnyFormat::Null => Seq::empty(),
        _ => no_match_text(),
    }
}

/// No formatter changes when it is given a result without a match, and each
/// writes for it what `any_no_match` says.
pub proof fn lemma_no_match_formats(before: AnyFormat, after: AnyFormat, text: Text)
    requires
        any_formats(before, Outcome::NoMatch, after, text),
    ensures
        after == before,
        text == any_no_match(before),
{
}

/// One line of input: the line goes to the parser, and what the parser
/// returns goes to the formatter. The result is the text to write.
pub fn step(parser: &mut XcodebuildParser, formatter: &mut AnyFormatter, line: &str) -> (text:
    String)
    ensures
        final(parser)@ == old(parser)@.feed(line@).state,
        any_formats(
            old(formatter)@,
            old(parser)@.feed(line@).outcome,
            final(formatter)@,
            text@,
        ),
{
    let answer = parser.read_line(line);
    formatter.format(surfaced(answer))
}

/// The end of the input. Where the parser holds text that never became
/// events, the formatter is given a result without a match; then the
/// formatter is asked for what is left to write. The result is the text to
/// write, and the formatter is as it was.
pub fn finish(parser: &XcodebuildParser, formatter: &mut AnyFormatter) -> (text: String)
    ensures
        final(formatter)@ == old(formatter)@,
        text@ == (if parser@.pending().len() > 0 {
            any_no_match(old(formatter)@)
        } else {
            Seq::<char>::empty()
        }) + any_finalizes(old(formatter)@),
{
    let mut text = String::new();
    let ghost before = formatter@;
    match parser.end_of_input() {
        Some(owed) => {
            let marker = formatter.format(owed);
            proof {
                lemma_no_match_formats(before, formatter@, marker@);
            }
            text.append(marker.as_str());
        },
        None => {},
    }
    let rest = formatter.finalize();
    text.append(rest.as_str());
    text
}

} // verus!
