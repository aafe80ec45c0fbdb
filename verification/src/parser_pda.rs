use vstd::prelude::*;

use crate::automaton::{
    advance, drained, input_of_char, little_parse, little_read, read_ok, signal_ok,
    little_step, wf, Input, PdaModel, Phase,
};
use crate::defs::{PDAStackCtx, ParsedSegment, ParserCtx, SegmentDelimSyms, SegmentTypes};
use crate::laws::{lemma_advance_keeps_wf, lemma_end_of_input_closes_all, lemma_step_keeps_wf};

verus! {

/// The states of the automaton.
#[derive(PartialEq, Eq, Structural, Clone, Copy, Debug)]
pub enum LittleParserStates {
    Idle,
    NewSentence,
    PlainSegment,
    InvalidSegment,
}

/// The signals the automaton reacts to; a letter carries its character.
#[derive(PartialEq, Eq, Structural, Clone, Copy, Debug)]
pub enum LittleParserSignals {
    Start,
    LeftBracket,
    RightBracket,
    EndOfSentence,
    EndOfInput,
    Letter(char),
}

impl LittleParserStates {
    /// The state of the shared model that this state is.
    pub open spec fn phase(self) -> Phase {
        match self {
            LittleParserStates::Idle => Phase::Idle,
            LittleParserStates::NewSentence => Phase::NewSentence,
            LittleParserStates::PlainSegment => Phase::PlainSegment,
            LittleParserStates::InvalidSegment => Phase::InvalidSegment,
        }
    }
}

impl LittleParserSignals {
    /// The signal of the shared model that this signal is.
    pub open spec fn input(self) -> Input {
        match self {
            LittleParserSignals::Start => Input::Start,
            LittleParserSignals::LeftBracket => Input::LeftBracket,
            LittleParserSignals::RightBracket => Input::RightBracket,
            LittleParserSignals::EndOfSentence => Input::EndOfSentence,
            LittleParserSignals::EndOfInput => Input::EndOfInput,
            LittleParserSignals::Letter(c) => Input::Letter(c),
        }
    }
}

/// The pushdown automaton that decides each transition from its state, the
/// signal and a peek at the top of its stack.
pub struct LittleParser {
    state: LittleParserStates,
    data: ParserCtx,
    stack: Vec<PDAStackCtx>,
}

impl View for LittleParser {
    type V = PdaModel;

    closed spec fn view(&self) -> PdaModel {
        PdaModel {
            phase: self.state.phase(),
            index: self.data.index,
            stack: self.stack@,
            segments: self.data.segments@,
        }
    }
}

impl LittleParser {
    /// An automaton in `state`, with `data`, and an empty stack.
    pub fn new(state: LittleParserStates, data: ParserCtx) -> (r: Self)
        ensures
            r@ == (PdaModel {
                phase: state.phase(),
                index: data.index,
                stack: Seq::empty(),
                segments: data.segments@,
            }),
    {
        LittleParser { state, data, stack: Vec::new() }
    }

    /// The current state.
    pub fn state(&self) -> (r: &LittleParserStates)
        ensures
            r.phase() == self@.phase,
    {
        &self.state
    }

    /// The segments found so far and the current index.
    pub fn data(&self) -> (r: &ParserCtx)
        ensures
            r.index == self@.index,
            r.segments@ == self@.segments,
    {
        &self.data
    }

    /// Whether `signal` can be taken now without failing.
    pub fn can_take(&self, signal: &LittleParserSignals) -> (r: bool)
        ensures
            r == signal_ok(self@, signal.input()),
    {
        if self.state != LittleParserStates::PlainSegment {
            return true;
        }
        let n = self.stack.len();
        if n == 0 {
            return !(matches!(signal, LittleParserSignals::LeftBracket) || matches!(
                signal,
                LittleParserSignals::RightBracket
            ));
        }
        let top_bracket = SegmentDelimSyms::Bracket == self.stack[n - 1];
        let top_start = self.stack[n - 1].seg_start;
        let closes_last = matches!(signal, LittleParserSignals::RightBracket) && top_bracket
            && top_start == usize::MAX;
        !closes_last
    }

    /// The parse state, for taking out the segments found.
    pub fn data_mut(&mut self) -> (r: &mut ParserCtx)
        ensures
            r.index == old(self)@.index,
            r.segments@ == old(self)@.segments,
            final(self)@ == (PdaModel {
                index: final(r).index,
                segments: final(r).segments@,
                ..old(self)@
            }),
    {
        &mut self.data
    }

    /// Empties the stack, reporting each entry, top first, as a segment left
    /// open that ends at the current index.
    fn drain_unbalanced(data: &mut ParserCtx, stack: &mut Vec<PDAStackCtx>)
        ensures
            final(stack)@ == Seq::<PDAStackCtx>::empty(),
            final(data).index == old(data).index,
            final(data).segments@ == old(data).segments@ + drained(old(stack)@, old(data).index),
    {
        while stack.len() > 0
            invariant
                data.index == old(data).index,
                data.segments@ + drained(stack@, data.index) == old(data).segments@ + drained(
                    old(stack)@,
                    old(data).index,
                ),
            decreases stack.len(),
        {
            let ghost before = stack@;
            let ghost segs = data.segments@;
            let top = stack.pop().unwrap();
            let tp = if SegmentDelimSyms::Bracket == top {
                SegmentTypes::UnbalancedLeftBracket
            } else if SegmentDelimSyms::SegmentStart == top {
                SegmentTypes::UnbalancedRightSth
            } else {
                SegmentTypes::InvalidSentence
            };
            data.push_segment(tp, top.seg_start, data.index, stack.len());
            assert(before.drop_last() == stack@);
            assert(segs + drained(before, data.index) =~= data.segments@ + drained(
                stack@,
                data.index,
            ));
        }
        assert(drained(stack@, data.index) =~= Seq::<ParsedSegment>::empty());
        assert(data.segments@ + drained(stack@, data.index) =~= data.segments@);
    }

    /// Reacts to `signal`: takes the transition that the state, the signal and
    /// the top of the stack select, and runs its actions.
    pub fn signal(&mut self, signal: &LittleParserSignals)
        requires
            signal_ok(old(self)@, signal.input()),
        ensures
            final(self)@ == little_step(old(self)@, signal.input()),
            wf(old(self)@) ==> wf(final(self)@),
    {
        proof {
            if wf(old(self)@) {
                lemma_step_keeps_wf(old(self)@, signal.input());
            }
        }
        let index = self.data.index;
        match self.state {
            LittleParserStates::Idle => {
                if let LittleParserSignals::Start = signal {
                    self.state = LittleParserStates::NewSentence;
                    return ;
                }
            },
            LittleParserStates::NewSentence => {
                match signal {
                    LittleParserSignals::LeftBracket => {
                        self.stack.push(
                            PDAStackCtx { sym: SegmentDelimSyms::SentenceStart, seg_start: index },
                        );
                        self.stack.push(
                            PDAStackCtx { sym: SegmentDelimSyms::Bracket, seg_start: index },
                        );
                        self.state = LittleParserStates::PlainSegment;
                        return ;
                    },
                    LittleParserSignals::RightBracket => {
                        self.stack.push(
                            PDAStackCtx { sym: SegmentDelimSyms::SentenceStart, seg_start: index },
                        );
                        self.state = LittleParserStates::InvalidSegment;
                        return ;
                    },
                    LittleParserSignals::Letter(_) => {
                        self.stack.push(
                            PDAStackCtx { sym: SegmentDelimSyms::SentenceStart, seg_start: index },
                        );
                        self.state = LittleParserStates::PlainSegment;
                        return ;
                    },
                    _ => {},
                }
            },
            LittleParserStates::PlainSegment => {
                match signal {
                    LittleParserSignals::LeftBracket => {
                        let top = self.stack[self.stack.len() - 1];
                        if top.sym == SegmentDelimSyms::SegmentStart || top.sym
                            == SegmentDelimSyms::SentenceStart {
                            self.data.push_segment(
                                SegmentTypes::Plain,
                                top.seg_start,
                                index,
                                self.stack.len(),
                            );
                        }
                        self.stack.push(
                            PDAStackCtx { sym: SegmentDelimSyms::Bracket, seg_start: index },
                        );
                        return ;
                    },
                    LittleParserSignals::RightBracket => {
                        if self.stack.len() > 0 && SegmentDelimSyms::Bracket == self.stack[
                            self.stack.len() - 1
                        ] {
                            let top = self.stack.pop().unwrap();
                            self.data.push_segment(
                                SegmentTypes::Bracketed,
                                top.seg_start + 1,
                                index,
                                self.stack.len(),
                            );
                        } else {
                            let top = self.stack[self.stack.len() - 1];
                            self.data.push_segment(
                                SegmentTypes::Plain,
                                top.seg_start,
                                index,
                                self.stack.len(),
                            );
                            self.stack.push(
                                PDAStackCtx {
                                    sym: SegmentDelimSyms::SegmentStart,
                                    seg_start: index,
                                },
                            );
                            self.state = LittleParserStates::InvalidSegment;
                        }
                        return ;
                    },
                    LittleParserSignals::EndOfSentence => {
                        if self.stack.len() > 0 && SegmentDelimSyms::SentenceStart == self.stack[
                            self.stack.len() - 1
                        ] {
                            let top = self.stack.pop().unwrap();
                            self.data.push_segment(
                                SegmentTypes::Sentence,
                                top.seg_start,
                                index,
                                self.stack.len(),
                            );
                            self.state = LittleParserStates::NewSentence;
                            return ;
                        }
                        if self.stack.len() > 0 && SegmentDelimSyms::SegmentStart == self.stack[
                            self.stack.len() - 1
                        ] {
                            let top = self.stack.pop().unwrap();
                            self.data.push_segment(
                                SegmentTypes::Plain,
                                top.seg_start,
                                index,
                                self.stack.len(),
                            );
                            self.state = LittleParserStates::NewSentence;
                            return ;
                        }
                    },
                    _ => {},
                }
            },
            LittleParserStates::InvalidSegment => {},
        }
        match signal {
            LittleParserSignals::EndOfSentence => {
                Self::drain_unbalanced(&mut self.data, &mut self.stack);
                self.state = LittleParserStates::NewSentence;
            },
            LittleParserSignals::EndOfInput => {
                if self.stack.len() > 0 && SegmentDelimSyms::SentenceStart == self.stack[
                    self.stack.len() - 1
                ] {
                    let top = self.stack.pop().unwrap();
                    self.data.push_segment(
                        SegmentTypes::Tail,
                        top.seg_start,
                        index,
                        self.stack.len(),
                    );
                } else {
                    Self::drain_unbalanced(&mut self.data, &mut self.stack);
                }
                self.data.index = 0;
                self.state = LittleParserStates::Idle;
            },
            _ => {},
        }
    }

    /// Starts the automaton.
    pub fn start(&mut self)
        ensures
            final(self)@ == little_step(old(self)@, Input::Start),
    {
        self.signal(&LittleParserSignals::Start);
    }

    /// Reacts to the signal for the character at the current index, then
    /// moves the index past it.
    pub fn next(&mut self, signal: &LittleParserSignals)
        requires
            signal_ok(old(self)@, signal.input()),
            little_step(old(self)@, signal.input()).index < usize::MAX,
        ensures
            final(self)@ == advance(little_step(old(self)@, signal.input())),
            wf(old(self)@) ==> wf(final(self)@),
    {
        self.signal(signal);
        proof {
            if wf(old(self)@) {
                lemma_advance_keeps_wf(self@);
            }
        }
        self.data.index += 1;
    }

    /// Ends the input: reports what is still open and returns to `Idle`.
    pub fn stop(&mut self)
        ensures
            final(self)@ == little_step(old(self)@, Input::EndOfInput),
            wf(old(self)@) ==> final(self)@.stack.len() == 0,
    {
        proof {
            if wf(old(self)@) {
                lemma_end_of_input_closes_all(old(self)@);
            }
        }
        self.signal(&LittleParserSignals::EndOfInput);
    }

    /// Feeds every character of `text`, in order, to `next`.
    pub fn read(&mut self, text: &str)
        requires
            read_ok(old(self)@, text@),
        ensures
            final(self)@ == little_read(old(self)@, text@),
    {
        broadcast use vstd::string::axiom_spec_iter;

        let ghost goal = little_read(self@, text@);
        assert(text@.skip(0) =~= text@);
        for c in it: text.chars()
            invariant
                it.seq() == text@,
                0 <= it.index() <= text@.len(),
                little_read(self@, text@.skip(it.index() as int)) == goal,
                read_ok(self@, text@.skip(it.index() as int)),
        {
            let ghost rest = text@.skip(it.index() as int);
            assert(rest[0] == c);
            assert(rest.drop_first() =~= text@.skip(it.index() + 1));
            let sig = signal_of_char(c);
            self.next(&sig);
        }
        assert(text@.skip(text@.len() as int) =~= Seq::<char>::empty());
    }

    /// A whole parse of `text`: start, read every character, end the input.
    pub fn parse(&mut self, text: &str)
        requires
            read_ok(little_step(old(self)@, Input::Start), text@),
        ensures
            final(self)@ == little_parse(old(self)@, text@),
    {
        self.start();
        self.read(text);
        self.stop();
    }
}

/// The signal that a character of the text is read as.
pub fn signal_of_char(c: char) -> (r: LittleParserSignals)
    ensures
        r.input() == input_of_char(c),
{
    match c {
        '[' => LittleParserSignals::LeftBracket,
        ']' => LittleParserSignals::RightBracket,
        '.' => LittleParserSignals::EndOfSentence,
        ch => LittleParserSignals::Letter(ch),
    }
}

} // verus!
