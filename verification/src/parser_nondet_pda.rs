use vstd::prelude::*;

use crate::automaton::{
    advance, drained, input_of_char, little_parse, little_read, little_step, nondet_parse,
    nondet_read, nondet_step, read_ok, signal_ok, wf, Input, PdaModel, Phase,
};
use crate::defs::{PDAStackCtx, ParsedSegment, ParserCtx, SegmentDelimSyms, SegmentTypes};
use crate::laws::{
    lemma_advance_keeps_wf, lemma_end_of_input_closes_all, lemma_nondet_step_keeps_wf,
    lemma_same_parse, lemma_same_read, lemma_same_transition,
};

verus! {

/// The states of the automaton.
#[derive(PartialEq, Eq, Structural, Clone, Copy, Debug)]
pub enum ParserNonDetPDAStates {
    Idle,
    NewSentence,
    PlainSegment,
    InvalidSegment,
}

/// The signals the automaton reacts to; a letter carries its character.
#[derive(PartialEq, Eq, Structural, Clone, Copy, Debug)]
pub enum ParserNonDetPDASignals {
    Start,
    LeftBracket,
    RightBracket,
    EndOfSentence,
    EndOfInput,
    Letter(char),
}

impl ParserNonDetPDAStates {
    /// The state of the shared model that this state is.
    pub open spec fn phase(self) -> Phase {
        match self {
            ParserNonDetPDAStates::Idle => Phase::Idle,
            ParserNonDetPDAStates::NewSentence => Phase::NewSentence,
            ParserNonDetPDAStates::PlainSegment => Phase::PlainSegment,
            ParserNonDetPDAStates::InvalidSegment => Phase::InvalidSegment,
        }
    }
}

impl ParserNonDetPDASignals {
    /// The signal of the shared model that this signal is.
    pub open spec fn input(self) -> Input {
        match self {
            ParserNonDetPDASignals::Start => Input::Start,
            ParserNonDetPDASignals::LeftBracket => Input::LeftBracket,
            ParserNonDetPDASignals::RightBracket => Input::RightBracket,
            ParserNonDetPDASignals::EndOfSentence => Input::EndOfSentence,
            ParserNonDetPDASignals::EndOfInput => Input::EndOfInput,
            ParserNonDetPDASignals::Letter(c) => Input::Letter(c),
        }
    }
}

/// The pushdown automaton whose handlers decide, from the top of its stack,
/// how a right bracket, the end of a sentence and the end of the input end.
pub struct ParserNonDetPDA {
    state: ParserNonDetPDAStates,
    data: ParserCtx,
    stack: Vec<PDAStackCtx>,
}

impl View for ParserNonDetPDA {
    type V = PdaModel;

    closed spec fn view(&self) -> PdaModel {
        PdaModel {
            phase: self.state.phase(),
            index: self.data.index,
            stack: self.stack@,
            segments: self.data.segments@,
        }
    }
}

impl ParserNonDetPDA {
    /// An automaton in `state`, with `data`, and an empty stack.
    pub fn new(state: ParserNonDetPDAStates, data: ParserCtx) -> (r: Self)
        ensures
            r@ == (PdaModel {
                phase: state.phase(),
                index: data.index,
                stack: Seq::empty(),
                segments: data.segments@,
            }),
    {
        ParserNonDetPDA { state, data, stack: Vec::new() }
    }

    /// The current state.
    pub fn state(&self) -> (r: &ParserNonDetPDAStates)
        ensures
            r.phase() == self@.phase,
    {
        &self.state
    }

    /// The segments found so far and the current index.
    pub fn data(&self) -> (r: &ParserCtx)
        ensures
            r.index == self@.index,
            r.segments@ == self@.segments,
    {
        &self.data
    }

    /// Whether `signal` can be taken now without failing.
    pub fn can_take(&self, signal: &ParserNonDetPDASignals) -> (r: bool)
        ensures
            r == signal_ok(self@, signal.input()),
    {
        if self.state != ParserNonDetPDAStates::PlainSegment {
            return true;
        }
        let n = self.stack.len();
        if n == 0 {
            return !(matches!(signal, ParserNonDetPDASignals::LeftBracket) || matches!(
                signal,
                ParserNonDetPDASignals::RightBracket
            ));
        }
        let top_bracket = SegmentDelimSyms::Bracket == self.stack[n - 1];
        let top_start = self.stack[n - 1].seg_start;
        let closes_last = matches!(signal, ParserNonDetPDASignals::RightBracket) && top_bracket
            && top_start == usize::MAX;
        !closes_last
    }

    /// The parse state, for taking out the segments found.
    pub fn data_mut(&mut self) -> (r: &mut ParserCtx)
        ensures
            r.index == old(self)@.index,
            r.segments@ == old(self)@.segments,
            final(self)@ == (PdaModel {
                index: final(r).index,
                segments: final(r).segments@,
                ..old(self)@
            }),
    {
        &mut self.data
    }

    /// Empties the stack, reporting each entry, top first, as a segment left
    /// open that ends at the current index.
    fn drain_unbalanced(data: &mut ParserCtx, stack: &mut Vec<PDAStackCtx>)
        ensures
            final(stack)@ == Seq::<PDAStackCtx>::empty(),
            final(data).index == old(data).index,
            final(data).segments@ == old(data).segments@ + drained(old(stack)@, old(data).index),
    {
        while stack.len() > 0
            invariant
                data.index == old(data).index,
                data.segments@ + drained(stack@, data.index) == old(data).segments@ + drained(
                    old(stack)@,
                    old(data).index,
                ),
            decreases stack.len(),
        {
            let ghost before = stack@;
            let ghost segs = data.segments@;
            let top = stack.pop().unwrap();
            let tp = if SegmentDelimSyms::Bracket == top {
                SegmentTypes::UnbalancedLeftBracket
            } else if SegmentDelimSyms::SegmentStart == top {
                SegmentTypes::UnbalancedRightSth
            } else {
                SegmentTypes::InvalidSentence
            };
            data.push_segment(tp, top.seg_start, data.index, stack.len());
            assert(before.drop_last() == stack@);
            assert(segs + drained(before, data.index) =~= data.segments@ + drained(
                stack@,
                data.index,
            ));
        }
        assert(drained(stack@, data.index) =~= Seq::<ParsedSegment>::empty());
        assert(data.segments@ + drained(stack@, data.index) =~= data.segments@);
    }

    /// Reacts to `signal`: takes the transition that the state, the signal and
    /// the top of the stack select, and runs its actions.
    pub fn signal(&mut self, signal: &ParserNonDetPDASignals)
        requires
            signal_ok(old(self)@, signal.input()),
        ensures
            final(self)@ == nondet_step(old(self)@, signal.input()),
            final(self)@ == little_step(old(self)@, signal.input()),
            wf(old(self)@) ==> wf(final(self)@),
    {
        proof {
            lemma_same_transition(old(self)@, signal.input());
            if wf(old(self)@) {
                lemma_nondet_step_keeps_wf(old(self)@, signal.input());
            }
        }
        let index = self.data.index;
        match self.state {
            ParserNonDetPDAStates::Idle => {
                if let ParserNonDetPDASignals::Start = signal {
                    self.state = ParserNonDetPDAStates::NewSentence;
                    return ;
                }
            },
            ParserNonDetPDAStates::NewSentence => {
                match signal {
                    ParserNonDetPDASignals::LeftBracket => {
                        self.stack.push(
                            PDAStackCtx { sym: SegmentDelimSyms::SentenceStart, seg_start: index },
                        );
                        self.stack.push(
                            PDAStackCtx { sym: SegmentDelimSyms::Bracket, seg_start: index },
                        );
                        self.state = ParserNonDetPDAStates::PlainSegment;
                        return ;
                    },
                    ParserNonDetPDASignals::RightBracket => {
                        self.stack.push(
                            PDAStackCtx { sym: SegmentDelimSyms::SentenceStart, seg_start: index },
                        );
                        self.state = ParserNonDetPDAStates::InvalidSegment;
                        return ;
                    },
                    ParserNonDetPDASignals::Letter(_) => {
                        self.stack.push(
                            PDAStackCtx { sym: SegmentDelimSyms::SentenceStart, seg_start: index },
                        );
                        self.state = ParserNonDetPDAStates::PlainSegment;
                        return ;
                    },
                    _ => {},
                }
            },
            ParserNonDetPDAStates::PlainSegment => {
                match signal {
                    ParserNonDetPDASignals::LeftBracket => {
                        let top = self.stack[self.stack.len() - 1];
                        if top.sym == SegmentDelimSyms::SegmentStart || top.sym
                            == SegmentDelimSyms::SentenceStart {
                            self.data.push_segment(
                                SegmentTypes::Plain,
                                top.seg_start,
                                index,
                                self.stack.len(),
                            );
                        }
                        self.stack.push(
                            PDAStackCtx { sym: SegmentDelimSyms::Bracket, seg_start: index },
                        );
                        return ;
                    },
                    ParserNonDetPDASignals::RightBracket => {
                        self.state = if SegmentDelimSyms::Bracket == self.stack[self.stack.len()
                            - 1] {
                            let top = self.stack.pop().unwrap();
                            self.data.push_segment(
                                SegmentTypes::Bracketed,
                                top.seg_start + 1,
                                index,
                                self.stack.len(),
                            );
                            ParserNonDetPDAStates::PlainSegment
                        } else {
                            let top = self.stack[self.stack.len() - 1];
                            self.data.push_segment(
                                SegmentTypes::Plain,
                                top.seg_start,
                                index,
                                self.stack.len(),
                            );
                            self.stack.push(
                                PDAStackCtx {
                                    sym: SegmentDelimSyms::SegmentStart,
                                    seg_start: index,
                                },
                            );
                            ParserNonDetPDAStates::InvalidSegment
                        };
                        return ;
                    },
                    ParserNonDetPDASignals::EndOfSentence => {
                        if self.stack.len() > 0 {
                            let top = self.stack[self.stack.len() - 1];
                            if SegmentDelimSyms::SentenceStart == top {
                                self.stack.pop();
                                self.data.push_segment(
                                    SegmentTypes::Sentence,
                                    top.seg_start,
                                    index,
                                    self.stack.len(),
                                );
                            } else if SegmentDelimSyms::SegmentStart == top {
                                self.stack.pop();
                                self.data.push_segment(
                                    SegmentTypes::Plain,
                                    top.seg_start,
                                    index,
                                    self.stack.len(),
                                );
                            } else {
                                // A bracket is still open: the sentence is unbalanced.
                                Self::drain_unbalanced(&mut self.data, &mut self.stack);
                            }
                        }
                        self.state = ParserNonDetPDAStates::NewSentence;
                        return ;
                    },
                    _ => {},
                }
            },
            ParserNonDetPDAStates::InvalidSegment => {},
        }
        match signal {
            ParserNonDetPDASignals::EndOfSentence => {
                Self::drain_unbalanced(&mut self.data, &mut self.stack);
                self.state = ParserNonDetPDAStates::NewSentence;
            },
            ParserNonDetPDASignals::EndOfInput => {
                if self.stack.len() > 0 {
                    if SegmentDelimSyms::SentenceStart == self.stack[self.stack.len() - 1] {
                        let top = self.stack.pop().unwrap();
                        self.data.push_segment(
                            SegmentTypes::Tail,
                            top.seg_start,
                            index,
                            self.stack.len(),
                        );
                    } else {
                        Self::drain_unbalanced(&mut self.data, &mut self.stack);
                    }
                }
                self.data.index = 0;
                self.state = ParserNonDetPDAStates::Idle;
            },
            _ => {},
        }
    }

    /// Starts the automaton.
    pub fn start(&mut self)
        ensures
            final(self)@ == nondet_step(old(self)@, Input::Start),
            final(self)@ == little_step(old(self)@, Input::Start),
    {
        self.signal(&ParserNonDetPDASignals::Start);
    }

    /// Reacts to the signal for the character at the current index, then
    /// moves the index past it.
    pub fn next(&mut self, signal: &ParserNonDetPDASignals)
        requires
            signal_ok(old(self)@, signal.input()),
            little_step(old(self)@, signal.input()).index < usize::MAX,
        ensures
            final(self)@ == advance(nondet_step(old(self)@, signal.input())),
            final(self)@ == advance(little_step(old(self)@, signal.input())),
            wf(old(self)@) ==> wf(final(self)@),
    {
        self.signal(signal);
        proof {
            if wf(old(self)@) {
                lemma_advance_keeps_wf(self@);
            }
        }
        self.data.index += 1;
    }

    /// Ends the input: reports what is still open and returns to `Idle`.
    pub fn stop(&mut self)
        ensures
            final(self)@ == nondet_step(old(self)@, Input::EndOfInput),
            final(self)@ == little_step(old(self)@, Input::EndOfInput),
            wf(old(self)@) ==> final(self)@.stack.len() == 0,
    {
        proof {
            lemma_same_transition(old(self)@, Input::EndOfInput);
            if wf(old(self)@) {
                lemma_end_of_input_closes_all(old(self)@);
            }
        }
        self.signal(&ParserNonDetPDASignals::EndOfInput);
    }

    /// Feeds every character of `text`, in order, to `next`.
    pub fn read(&mut self, text: &str)
        requires
            read_ok(old(self)@, text@),
        ensures
            final(self)@ == nondet_read(old(self)@, text@),
            final(self)@ == little_read(old(self)@, text@),
    {
        broadcast use vstd::string::axiom_spec_iter;

        proof {
            lemma_same_read(old(self)@, text@);
        }
        let ghost goal = nondet_read(self@, text@);
        assert(text@.skip(0) =~= text@);
        for c in it: text.chars()
            invariant
                it.seq() == text@,
                0 <= it.index() <= text@.len(),
                nondet_read(self@, text@.skip(it.index() as int)) == goal,
                read_ok(self@, text@.skip(it.index() as int)),
        {
            let ghost rest = text@.skip(it.index() as int);
            proof {
                lemma_same_transition(self@, input_of_char(c));
            }
            assert(rest[0] == c);
            assert(rest.drop_first() =~= text@.skip(it.index() + 1));
            let sig = signal_of_char(c);
            self.next(&sig);
        }
        assert(text@.skip(text@.len() as int) =~= Seq::<char>::empty());
    }

    /// A whole parse of `text`: start, read every character, end the input.
    pub fn parse(&mut self, text: &str)
        requires
            read_ok(little_step(old(self)@, Input::Start), text@),
        ensures
            final(self)@ == nondet_parse(old(self)@, text@),
            final(self)@ == little_parse(old(self)@, text@),
    {
        proof {
            lemma_same_parse(old(self)@, text@);
        }
        self.start();
        self.read(text);
        self.stop();
    }
}

/// The signal that a character of the text is read as.
pub fn signal_of_char(c: char) -> (r: ParserNonDetPDASignals)
    ensures
        r.input() == input_of_char(c),
{
    match c {
        '[' => ParserNonDetPDASignals::LeftBracket,
        ']' => ParserNonDetPDASignals::RightBracket,
        '.' => ParserNonDetPDASignals::EndOfSentence,
        ch => ParserNonDetPDASignals::Letter(ch),
    }
}

} // verus!
