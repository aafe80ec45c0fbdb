//! A parser that indexes sentences and nested bracketed segments of a text,
//! written as two pushdown automata that share one model.

pub mod automaton;
pub mod defs;
pub mod laws;
pub mod matching;
pub mod parser_nondet_pda;
pub mod parser_pda;
pub mod report;

use vstd::prelude::*;

use crate::automaton::{initial, little_parse, nondet_parse};
use crate::defs::{queue_order, ParserCtx};
use crate::report::report_line;

verus! {

/// A fresh deterministic parser: idle, at index 0, with nothing recognised.
pub fn create_parser_pda_instance() -> (r: crate::parser_pda::LittleParser)
    ensures
        r@ == initial(),
{
    crate::parser_pda::LittleParser::new(
        crate::parser_pda::LittleParserStates::Idle,
        ParserCtx { segments: Vec::new(), index: 0 },
    )
}

/// A fresh parser of the other kind: idle, at index 0, with nothing recognised.
pub fn create_parser_nondet_pda_instance() -> (r: crate::parser_nondet_pda::ParserNonDetPDA)
    ensures
        r@ == initial(),
{
    crate::parser_nondet_pda::ParserNonDetPDA::new(
        crate::parser_nondet_pda::ParserNonDetPDAStates::Idle,
        ParserCtx { segments: Vec::new(), index: 0 },
    )
}

/// Parses `text` with a fresh deterministic parser and gives the report of
/// every segment it found, first to last.
pub fn pda_report(text: &str) -> (r: Vec<String>)
    ensures
        r@.len() == queue_order(little_parse(initial(), text@).segments).len(),
        forall|i: int|
            0 <= i < r@.len() ==> #[trigger] r@[i]@ == report_line(
                text@,
                queue_order(little_parse(initial(), text@).segments)[i],
            ),
{
    // The count bounds the text's length, which `lemma_fresh_parse` needs.
    let _count = text.unicode_len();
    proof {
        crate::laws::lemma_fresh_parse(text@);
    }
    let mut parser = create_parser_pda_instance();
    parser.parse(text);
    parser.data_mut().report(text)
}

/// The same report from a fresh parser of the other kind.
pub fn nondet_pda_report(text: &str) -> (r: Vec<String>)
    ensures
        r@.len() == queue_order(nondet_parse(initial(), text@).segments).len(),
        forall|i: int|
            0 <= i < r@.len() ==> #[trigger] r@[i]@ == report_line(
                text@,
                queue_order(nondet_parse(initial(), text@).segments)[i],
            ),
{
    // The count bounds the text's length, which `lemma_fresh_parse` needs.
    let _count = text.unicode_len();
    proof {
        crate::laws::lemma_fresh_parse(text@);
    }
    let mut parser = create_parser_nondet_pda_instance();
    parser.parse(text);
    parser.data_mut().report(text)
}

} // verus!
