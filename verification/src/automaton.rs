use vstd::prelude::*;

use crate::defs::{PDAStackCtx, ParsedSegment, SegmentDelimSyms, SegmentTypes};

verus! {

/// The states that both automata go through.
pub enum Phase {
    Idle,
    NewSentence,
    PlainSegment,
    InvalidSegment,
}

/// The signals that both automata react to.
pub enum Input {
    Start,
    LeftBracket,
    RightBracket,
    EndOfSentence,
    EndOfInput,
    Letter(char),
}

/// What an automaton is, seen from outside: its state, the index of the
/// character being read, its stack (bottom first) and the segments it has
/// recognised (in the order it recognised them).
pub struct PdaModel {
    pub phase: Phase,
    pub index: usize,
    pub stack: Seq<PDAStackCtx>,
    pub segments: Seq<ParsedSegment>,
}

pub open spec fn entry(sym: SegmentDelimSyms, start: usize) -> PDAStackCtx {
    PDAStackCtx { sym, seg_start: start }
}

pub open spec fn segment(tp: SegmentTypes, start: usize, end: usize, rank: nat) -> ParsedSegment {
    ParsedSegment { tp, seg: (start, end), rank: rank as usize }
}

/// The stack is not empty and its top holds `sym`.
pub open spec fn top_is(stack: Seq<PDAStackCtx>, sym: SegmentDelimSyms) -> bool {
    stack.len() > 0 && stack.last().sym == sym
}

/// The kind of segment reported for a symbol left open when the stack is drained.
pub open spec fn unbalanced_kind(sym: SegmentDelimSyms) -> SegmentTypes {
    match sym {
        SegmentDelimSyms::Bracket => SegmentTypes::UnbalancedLeftBracket,
        SegmentDelimSyms::SegmentStart => SegmentTypes::UnbalancedRightSth,
        SegmentDelimSyms::SentenceStart => SegmentTypes::InvalidSentence,
    }
}

/// The segments reported when `stack` is emptied at `index`, top entry first;
/// each has as rank the depth it leaves behind.
pub open spec fn drained(stack: Seq<PDAStackCtx>, index: usize) -> Seq<ParsedSegment>
    decreases stack.len(),
{
    if stack.len() == 0 {
        Seq::empty()
    } else {
        seq![
            segment(
                unbalanced_kind(stack.last().sym),
                stack.last().seg_start,
                index,
                (stack.len() - 1) as nat,
            ),
        ] + drained(stack.drop_last(), index)
    }
}

/// The model with its stack emptied into its segments.
pub open spec fn drain_model(m: PdaModel) -> PdaModel {
    PdaModel { stack: Seq::empty(), segments: m.segments + drained(m.stack, m.index), ..m }
}

pub open spec fn with_phase(m: PdaModel, phase: Phase) -> PdaModel {
    PdaModel { phase, ..m }
}

/// The model after a sentence opens at the current index (the exit action of
/// `NewSentence`).
pub open spec fn open_sentence(m: PdaModel) -> PdaModel {
    PdaModel { stack: m.stack.push(entry(SegmentDelimSyms::SentenceStart, m.index)), ..m }
}

/// A left bracket read in `PlainSegment`: the plain text before it becomes a
/// segment unless a bracket is already open, and the bracket is pushed.
pub open spec fn plain_left_bracket(m: PdaModel) -> PdaModel {
    let top = m.stack.last();
    let segments = if top.sym == SegmentDelimSyms::SegmentStart || top.sym
        == SegmentDelimSyms::SentenceStart {
        m.segments.push(
            segment(SegmentTypes::Plain, top.seg_start, m.index, m.stack.len()),
        )
    } else {
        m.segments
    };
    PdaModel {
        phase: Phase::PlainSegment,
        stack: m.stack.push(entry(SegmentDelimSyms::Bracket, m.index)),
        segments,
        ..m
    }
}

/// A right bracket that closes the bracket on top of the stack.
pub open spec fn close_bracket(m: PdaModel) -> PdaModel {
    let top = m.stack.last();
    PdaModel {
        phase: Phase::PlainSegment,
        stack: m.stack.drop_last(),
        segments: m.segments.push(
            segment(
                SegmentTypes::Bracketed,
                (top.seg_start + 1) as usize,
                m.index,
                (m.stack.len() - 1) as nat,
            ),
        ),
        ..m
    }
}

/// A right bracket with no bracket open: the plain text before it becomes a
/// segment, and an unbalanced segment begins.
pub open spec fn stray_right_bracket(m: PdaModel) -> PdaModel {
    let top = m.stack.last();
    PdaModel {
        phase: Phase::InvalidSegment,
        stack: m.stack.push(entry(SegmentDelimSyms::SegmentStart, m.index)),
        segments: m.segments.push(
            segment(SegmentTypes::Plain, top.seg_start, m.index, m.stack.len()),
        ),
        ..m
    }
}

/// The top entry is popped and reported as a segment of kind `tp` that ends
/// at the current index.
pub open spec fn close_top(m: PdaModel, tp: SegmentTypes, phase: Phase) -> PdaModel {
    PdaModel {
        phase,
        stack: m.stack.drop_last(),
        segments: m.segments.push(
            segment(tp, m.stack.last().seg_start, m.index, (m.stack.len() - 1) as nat),
        ),
        ..m
    }
}

/// Entering `Idle` resets the index.
pub open spec fn enter_idle(m: PdaModel) -> PdaModel {
    PdaModel { phase: Phase::Idle, index: 0, ..m }
}

/// The transitions of the deterministic automaton (`LittleParser`), which
/// decides by peeking at its stack: more specific transitions are tried
/// first, then those from any state; any other signal leaves it unchanged.
pub open spec fn little_step(m: PdaModel, x: Input) -> PdaModel {
    match (m.phase, x) {
        (Phase::Idle, Input::Start) => with_phase(m, Phase::NewSentence),
        (Phase::NewSentence, Input::LeftBracket) => {
            let m1 = open_sentence(m);
            PdaModel {
                phase: Phase::PlainSegment,
                stack: m1.stack.push(entry(SegmentDelimSyms::Bracket, m.index)),
                ..m1
            }
        },
        (Phase::NewSentence, Input::RightBracket) => with_phase(
            open_sentence(m),
            Phase::InvalidSegment,
        ),
        (Phase::NewSentence, Input::Letter(_)) => with_phase(open_sentence(m), Phase::PlainSegment),
        (Phase::PlainSegment, Input::LeftBracket) => plain_left_bracket(m),
        (Phase::PlainSegment, Input::RightBracket) => {
            if top_is(m.stack, SegmentDelimSyms::Bracket) {
                close_bracket(m)
            } else {
                stray_right_bracket(m)
            }
        },
        (Phase::PlainSegment, Input::EndOfSentence) => {
            if top_is(m.stack, SegmentDelimSyms::SentenceStart) {
                close_top(m, SegmentTypes::Sentence, Phase::NewSentence)
            } else if top_is(m.stack, SegmentDelimSyms::SegmentStart) {
                close_top(m, SegmentTypes::Plain, Phase::NewSentence)
            } else {
                with_phase(drain_model(m), Phase::NewSentence)
            }
        },
        (_, Input::EndOfSentence) => with_phase(drain_model(m), Phase::NewSentence),
        (_, Input::EndOfInput) => {
            if top_is(m.stack, SegmentDelimSyms::SentenceStart) {
                enter_idle(close_top(m, SegmentTypes::Tail, Phase::Idle))
            } else {
                enter_idle(drain_model(m))
            }
        },
        _ => m,
    }
}

/// The transitions of the automaton that decides in its handlers
/// (`ParserNonDetPDA`).
pub open spec fn nondet_step(m: PdaModel, x: Input) -> PdaModel {
    match (m.phase, x) {
        (Phase::Idle, Input::Start) => with_phase(m, Phase::NewSentence),
        (Phase::NewSentence, Input::LeftBracket) => {
            let m1 = open_sentence(m);
            PdaModel {
                phase: Phase::PlainSegment,
                stack: m1.stack.push(entry(SegmentDelimSyms::Bracket, m.index)),
                ..m1
            }
        },
        (Phase::NewSentence, Input::RightBracket) => with_phase(
            open_sentence(m),
            Phase::InvalidSegment,
        ),
        (Phase::NewSentence, Input::Letter(_)) => with_phase(open_sentence(m), Phase::PlainSegment),
        (Phase::PlainSegment, Input::LeftBracket) => plain_left_bracket(m),
        (Phase::PlainSegment, Input::RightBracket) => {
            if top_is(m.stack, SegmentDelimSyms::Bracket) {
                close_bracket(m)
            } else {
                stray_right_bracket(m)
            }
        },
        (Phase::PlainSegment, Input::EndOfSentence) => {
            if m.stack.len() > 0 {
                if m.stack.last().sym == SegmentDelimSyms::SentenceStart {
                    close_top(m, SegmentTypes::Sentence, Phase::NewSentence)
                } else if m.stack.last().sym == SegmentDelimSyms::SegmentStart {
                    close_top(m, SegmentTypes::Plain, Phase::NewSentence)
                } else {
                    with_phase(drain_model(m), Phase::NewSentence)
                }
            } else {
                with_phase(m, Phase::NewSentence)
            }
        },
        (_, Input::EndOfSentence) => with_phase(drain_model(m), Phase::NewSentence),
        (_, Input::EndOfInput) => {
            if m.stack.len() > 0 {
                if m.stack.last().sym == SegmentDelimSyms::SentenceStart {
                    enter_idle(close_top(m, SegmentTypes::Tail, Phase::Idle))
                } else {
                    enter_idle(drain_model(m))
                }
            } else {
                enter_idle(m)
            }
        },
        _ => m,
    }
}

/// Either automaton can take signal `x` in `m` without failing:
/// a bracket read in `PlainSegment` needs a stack to look at, and closing a
/// bracket opened at the last possible index would overflow.
pub open spec fn signal_ok(m: PdaModel, x: Input) -> bool {
    &&& !(m.phase == Phase::PlainSegment && (x == Input::LeftBracket || x == Input::RightBracket)
        && m.stack.len() == 0)
    &&& !(m.phase == Phase::PlainSegment && x == Input::RightBracket && top_is(
        m.stack,
        SegmentDelimSyms::Bracket,
    ) && m.stack.last().seg_start == usize::MAX)
}

pub open spec fn advance(m: PdaModel) -> PdaModel {
    PdaModel { index: (m.index + 1) as usize, ..m }
}

/// The signal each character of a text is read as.
pub open spec fn input_of_char(c: char) -> Input {
    if c == '[' {
        Input::LeftBracket
    } else if c == ']' {
        Input::RightBracket
    } else if c == '.' {
        Input::EndOfSentence
    } else {
        Input::Letter(c)
    }
}

/// Reads the characters `text` one after another, each signal followed by a
/// step of the index.
pub open spec fn little_read(m: PdaModel, text: Seq<char>) -> PdaModel
    decreases text.len(),
{
    if text.len() == 0 {
        m
    } else {
        little_read(advance(little_step(m, input_of_char(text[0]))), text.drop_first())
    }
}

pub open spec fn nondet_read(m: PdaModel, text: Seq<char>) -> PdaModel
    decreases text.len(),
{
    if text.len() == 0 {
        m
    } else {
        nondet_read(advance(nondet_step(m, input_of_char(text[0]))), text.drop_first())
    }
}

/// Reading `text` from `m` fails nowhere (for either automaton, as they
/// take the same transitions).
pub open spec fn read_ok(m: PdaModel, text: Seq<char>) -> bool
    decreases text.len(),
{
    text.len() == 0 || {
        let x = input_of_char(text[0]);
        &&& signal_ok(m, x)
        &&& little_step(m, x).index < usize::MAX
        &&& read_ok(advance(little_step(m, x)), text.drop_first())
    }
}

/// A whole parse: start, read the text, end the input.
pub open spec fn little_parse(m: PdaModel, text: Seq<char>) -> PdaModel {
    little_step(little_read(little_step(m, Input::Start), text), Input::EndOfInput)
}

pub open spec fn nondet_parse(m: PdaModel, text: Seq<char>) -> PdaModel {
    nondet_step(nondet_read(nondet_step(m, Input::Start), text), Input::EndOfInput)
}

/// Well-formed states, a condition that every state the automata reach from a
/// fresh start meets (it also admits some states that are never reached;
/// `tight` in `laws` describes those between two characters more closely):
/// every stack entry began at or before the current index; in `Idle` and
/// `NewSentence` the stack is empty; in `PlainSegment` a sentence start lies
/// under open brackets; in `InvalidSegment` a sentence start lies alone, or
/// under open brackets and one unbalanced segment.
pub open spec fn wf(m: PdaModel) -> bool {
    let s = m.stack;
    &&& forall|k: int| 0 <= k < s.len() ==> #[trigger] s[k].seg_start <= m.index
    &&& match m.phase {
        Phase::Idle | Phase::NewSentence => s.len() == 0,
        Phase::PlainSegment => {
            &&& s.len() >= 1
            &&& s[0].sym == SegmentDelimSyms::SentenceStart
            &&& forall|k: int| 1 <= k < s.len() ==> #[trigger] s[k].sym == SegmentDelimSyms::Bracket
        },
        Phase::InvalidSegment => {
            &&& s.len() >= 1
            &&& s[0].sym == SegmentDelimSyms::SentenceStart
            &&& s.len() == 1 || {
                &&& s.last().sym == SegmentDelimSyms::SegmentStart
                &&& forall|k: int|
                    1 <= k < s.len() - 1 ==> #[trigger] s[k].sym == SegmentDelimSyms::Bracket
            }
        },
    }
}

/// A fresh automaton: idle, at index 0, with nothing stacked or recognised.
pub open spec fn initial() -> PdaModel {
    PdaModel { phase: Phase::Idle, index: 0, stack: Seq::empty(), segments: Seq::empty() }
}

} // verus!
