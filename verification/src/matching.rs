use vstd::prelude::*;

use crate::automaton::{
    advance, drained, entry, initial, input_of_char, little_parse, little_read, little_step, segment,
    unbalanced_kind, Input, PdaModel, Phase,
};
use crate::defs::{PDAStackCtx, ParsedSegment, SegmentDelimSyms, SegmentTypes};
use crate::laws::{lemma_drained_no_brackets, lemma_read_push, lemma_step_adds_at_index};

verus! {

/// Where the sentence that holds position `i` of `text` begins: just after the
/// last `.` before `i`, or at 0.
pub open spec fn sentence_start(text: Seq<char>, i: int) -> int
    decreases i,
{
    if i <= 0 {
        0
    } else if text[i - 1] == '.' {
        i
    } else {
        sentence_start(text, i - 1)
    }
}

/// How a character changes the number of open brackets.
pub open spec fn bracket_delta(c: char) -> int {
    if c == '[' {
        1
    } else if c == ']' {
        -1
    } else {
        0
    }
}

/// The number of `[` minus the number of `]` in `text[s..k)`.
pub open spec fn balance(text: Seq<char>, s: int, k: int) -> int
    decreases k - s,
{
    if k <= s {
        0
    } else {
        balance(text, s, k - 1) + bracket_delta(text[k - 1])
    }
}

/// No `]` in `text[s..k)` closes more brackets than were opened after `s`.
pub open spec fn no_stray(text: Seq<char>, s: int, k: int) -> bool {
    forall|q: int| s <= q <= k ==> #[trigger] balance(text, s, q) >= 0
}

/// The `[` at `i` and the `]` at `j` are a matched pair of the text: they lie
/// in one sentence, no stray `]` comes before `i` in it, and `j` is where the
/// count of open brackets first falls back to its value before `i`.
pub open spec fn matched(text: Seq<char>, i: int, j: int) -> bool {
    let s = sentence_start(text, i);
    &&& 0 <= i < j < text.len()
    &&& text[i] == '['
    &&& text[j] == ']'
    &&& no_stray(text, s, i)
    &&& forall|q: int| i < q < j ==> #[trigger] text[q] != '.'
    &&& forall|q: int| i < q <= j ==> #[trigger] balance(text, s, q) > balance(text, s, i)
    &&& balance(text, s, j + 1) == balance(text, s, i)
}

/// The depth at which the pair opened at `i` is reported: one for the
/// sentence, plus the brackets still open at `i`.
pub open spec fn pair_rank(text: Seq<char>, i: int) -> int {
    1 + balance(text, sentence_start(text, i), i)
}

/// The bracketed segments of `segs` are the matched pairs of `text` closed
/// before `n`, each once, with its depth.
pub open spec fn brackets_complete(segs: Seq<ParsedSegment>, text: Seq<char>, n: int) -> bool {
    &&& forall|k: int|
        0 <= k < segs.len() && (#[trigger] segs[k]).tp == SegmentTypes::Bracketed ==> {
            &&& segs[k].seg.1 < n
            &&& matched(text, segs[k].seg.0 - 1, segs[k].seg.1 as int)
            &&& segs[k].rank == pair_rank(text, segs[k].seg.0 - 1)
        }
    &&& forall|i: int, j: int|
        #[trigger] matched(text, i, j) && j < n ==> exists|k: int|
            0 <= k < segs.len() && #[trigger] segs[k] == segment(
                SegmentTypes::Bracketed,
                (i + 1) as usize,
                j as usize,
                pair_rank(text, i) as nat,
            )
}

/// The `]` at `k` is the first of its sentence, begun at `s`, to close a
/// bracket that was never opened.
pub open spec fn first_stray(text: Seq<char>, s: int, k: int) -> bool {
    &&& s <= k < text.len()
    &&& text[k] == ']'
    &&& balance(text, s, k) == 0
    &&& no_stray(text, s, k)
}

/// The `[` at `i` is still open at `n`, as the `k`-th open bracket.
pub open spec fn open_at(text: Seq<char>, s: int, n: int, i: int, k: int) -> bool {
    &&& s <= i < n
    &&& text[i] == '['
    &&& balance(text, s, i) == k - 1
    &&& forall|q: int| i < q <= n ==> #[trigger] balance(text, s, q) >= k
}

/// How the automaton's state reflects the first `n` characters of `text`.
pub open spec fn tracks(m: PdaModel, text: Seq<char>, n: int) -> bool {
    let s = sentence_start(text, n);
    &&& m.index == n
    &&& match m.phase {
        Phase::NewSentence => m.stack.len() == 0 && s == n,
        Phase::PlainSegment => {
            &&& s < n
            &&& no_stray(text, s, n)
            &&& m.stack.len() == 1 + balance(text, s, n)
            &&& m.stack[0] == entry(SegmentDelimSyms::SentenceStart, s as usize)
            &&& forall|k: int|
                1 <= k < m.stack.len() ==> (#[trigger] m.stack[k]).sym == SegmentDelimSyms::Bracket
                    && open_at(text, s, n, m.stack[k].seg_start as int, k)
        },
        Phase::InvalidSegment => {
            &&& s < n
            &&& !no_stray(text, s, n)
            &&& m.stack.len() >= 1
            &&& m.stack[0] == entry(SegmentDelimSyms::SentenceStart, s as usize)
            &&& m.stack.len() == 1 ==> first_stray(text, s, s)
            &&& m.stack.len() == 1 || (m.stack.len() == 2 && m.stack[1].sym
                == SegmentDelimSyms::SegmentStart && s < m.stack[1].seg_start && first_stray(
                text,
                s,
                m.stack[1].seg_start as int,
            ))
        },
        Phase::Idle => false,
    }
    &&& brackets_complete(m.segments, text, n)
}

proof fn lemma_sentence_start_bounds(text: Seq<char>, n: int)
    requires
        0 <= n <= text.len(),
    ensures
        0 <= sentence_start(text, n) <= n,
        forall|q: int| sentence_start(text, n) <= q < n ==> #[trigger] text[q] != '.',
        sentence_start(text, n) > 0 ==> text[sentence_start(text, n) - 1] == '.',
    decreases n,
{
    if n > 0 && text[n - 1] != '.' {
        lemma_sentence_start_bounds(text, n - 1);
    }
}

/// Positions of one sentence share its start.
proof fn lemma_same_sentence(text: Seq<char>, i: int, n: int)
    requires
        0 <= i <= n <= text.len(),
        forall|q: int| i <= q < n ==> #[trigger] text[q] != '.',
    ensures
        sentence_start(text, n) == sentence_start(text, i),
    decreases n - i,
{
    if i < n {
        assert(text[n - 1] != '.');
        lemma_same_sentence(text, i, n - 1);
    }
}

/// The balance of a longer prefix of the sentence, one character on.
proof fn lemma_balance_step(text: Seq<char>, s: int, n: int)
    requires
        s <= n,
    ensures
        balance(text, s, n + 1) == balance(text, s, n) + bracket_delta(text[n]),
{
}

proof fn lemma_balance_bound(text: Seq<char>, s: int, k: int)
    requires
        s <= k,
    ensures
        balance(text, s, k) <= k - s,
    decreases k - s,
{
    if k > s {
        lemma_balance_bound(text, s, k - 1);
    }
}

/// A pair closed at `n` is opened in the current sentence, and no pair closes
/// at `n` unless the current sentence has had no stray `]` up to `n`, a `]`
/// is read at `n`, and the pair is the innermost bracket open there.
proof fn lemma_pair_closing_at(text: Seq<char>, i: int, n: int)
    requires
        matched(text, i, n),
    ensures
        sentence_start(text, i) == sentence_start(text, n),
        sentence_start(text, n) <= i,
        no_stray(text, sentence_start(text, n), i),
{
    lemma_sentence_start_bounds(text, i);
    assert forall|q: int| i <= q < n implies #[trigger] text[q] != '.' by {
        if q == i {
            assert(text[i] == '[');
        }
    }
    lemma_same_sentence(text, i, n);
}

/// Reading the character at `n` keeps the state tracking the text.
proof fn lemma_tracks_step(m: PdaModel, text: Seq<char>, n: int)
    requires
        0 <= n < text.len(),
        text.len() <= usize::MAX,
        tracks(m, text, n),
    ensures
        tracks(advance(little_step(m, input_of_char(text[n]))), text, n + 1),
{
    let c = text[n];
    let x = input_of_char(c);
    let r = little_step(m, x);
    let a = advance(r);
    let s = sentence_start(text, n);
    let segs = m.segments;
    lemma_sentence_start_bounds(text, n);
    lemma_balance_step(text, s, n);
    lemma_balance_bound(text, s, n);
    lemma_step_adds_at_index(m, x);
    assert(sentence_start(text, n + 1) == if c == '.' {
        n + 1
    } else {
        s
    });
    let b = balance(text, s, n);
    let s2 = a.stack;
    // A pair newly closed at `n`, if any, is the innermost open bracket.
    let closes = m.phase == Phase::PlainSegment && c == ']' && m.stack.len() > 1;
    if m.stack.len() > 0 {
        assert(m.stack[m.stack.len() - 1] == m.stack.last());
    }
    if m.phase == Phase::PlainSegment {
        assert(no_stray(text, s, n));
        assert(balance(text, s, s) == 0);
    }
    // No segment but a bracketed one ending at `n` is new.
    assert forall|i: int| #[trigger] matched(text, i, n) implies closes && m.stack[m.stack.len()
        - 1].seg_start == i by {
        lemma_pair_closing_at(text, i, n);
        assert(text[n] == ']');
        assert(balance(text, s, n + 1) == balance(text, s, i));
        match m.phase {
            Phase::NewSentence => {},
            Phase::PlainSegment => {
                assert(balance(text, s, i) >= 0);
                let top = m.stack.len() - 1;
                if top == 0 {
                    assert(false);
                }
                let it = m.stack[top].seg_start as int;
                assert(open_at(text, s, n, it, top));
                if i < it {
                    assert(balance(text, s, it) > balance(text, s, i));
                } else if it < i {
                    assert(balance(text, s, i) >= top);
                }
            },
            Phase::InvalidSegment => {
                let q0 = choose|q: int| s <= q <= n && #[trigger] balance(text, s, q) < 0;
                if q0 <= i {
                    assert(balance(text, s, q0) >= 0);
                } else {
                    assert(balance(text, s, q0) > balance(text, s, i));
                }
            },
            Phase::Idle => {},
        }
    }
    // The bracketed segments after the step.
    assert forall|k: int|
        0 <= k < a.segments.len() && (#[trigger] a.segments[k]).tp
            == SegmentTypes::Bracketed implies {
        &&& a.segments[k].seg.1 < n + 1
        &&& matched(text, a.segments[k].seg.0 - 1, a.segments[k].seg.1 as int)
        &&& a.segments[k].rank == pair_rank(text, a.segments[k].seg.0 - 1)
    } by {
        if k >= segs.len() {
            // The only bracketed segment a step adds closes the innermost bracket.
            lemma_drained_no_brackets(m.stack, m.index);
            let d = crate::automaton::drained(m.stack, m.index);
            if r.segments == segs + d {
                assert(r.segments[k] == d[k - segs.len()]);
            }
            assert(m.phase == Phase::PlainSegment);
            assert(x == Input::RightBracket);
            if m.stack.len() == 1 {
                assert(m.stack.last() == m.stack[0]);
            }
            assert(closes);
            let top = m.stack.len() - 1;
            let it = m.stack[top].seg_start as int;
            assert(open_at(text, s, n, it, top));
            assert(a.segments[k] == segment(
                SegmentTypes::Bracketed,
                (it + 1) as usize,
                n as usize,
                top as nat,
            ));
            assert forall|q: int| it <= q < n implies #[trigger] text[q] != '.' by {}
            lemma_same_sentence(text, it, n);
            assert forall|q: int| s <= q <= it implies #[trigger] balance(text, s, q) >= 0 by {}
            assert forall|q: int| it < q <= n implies #[trigger] balance(text, s, q) > balance(
                text,
                s,
                it,
            ) by {}
            assert(matched(text, it, n as int));
            assert(a.segments[k].seg.0 - 1 == it);
            assert(a.segments[k].seg.1 == n);
            assert(pair_rank(text, it) == top);
            assert(a.segments[k].rank == top);
        } else {
            assert(a.segments[k] == segs[k]);
            assert(segs[k].tp == SegmentTypes::Bracketed);
        }
    }
    assert forall|i: int, j: int| #[trigger] matched(text, i, j) && j < n + 1 implies exists|k: int|
        0 <= k < a.segments.len() && #[trigger] a.segments[k] == segment(
            SegmentTypes::Bracketed,
            (i + 1) as usize,
            j as usize,
            pair_rank(text, i) as nat,
        ) by {
        if j < n {
            let k = choose|k: int|
                0 <= k < segs.len() && #[trigger] segs[k] == segment(
                    SegmentTypes::Bracketed,
                    (i + 1) as usize,
                    j as usize,
                    pair_rank(text, i) as nat,
                );
            assert(a.segments[k] == segs[k]);
        } else {
            let top = m.stack.len() - 1;
            let it = m.stack[top].seg_start as int;
            assert(open_at(text, s, n, it, top));
            lemma_pair_closing_at(text, i, n);
            assert(a.segments[segs.len() as int] == segment(
                SegmentTypes::Bracketed,
                (i + 1) as usize,
                j as usize,
                pair_rank(text, i) as nat,
            ));
        }
    }
    assert(brackets_complete(a.segments, text, n + 1));
    // The state after the step.
    match m.phase {
        Phase::NewSentence => {
            if c == '[' {
                assert(balance(text, s, n) == 0);
                assert(open_at(text, s, n + 1, n, 1));
                assert(no_stray(text, s, n + 1));
            } else if c == ']' {
                assert(balance(text, s, n + 1) < 0);
            } else if c != '.' {
                assert(no_stray(text, s, n + 1));
            }
        },
        Phase::PlainSegment => {
            if c == '[' {
                assert forall|k: int| 1 <= k < s2.len() implies (#[trigger] s2[k]).sym
                    == SegmentDelimSyms::Bracket && open_at(
                    text,
                    s,
                    n + 1,
                    s2[k].seg_start as int,
                    k,
                ) by {
                    if k < m.stack.len() {
                        assert(s2[k] == m.stack[k]);
                        assert(open_at(text, s, n, m.stack[k].seg_start as int, k));
                    }
                }
            } else if c == ']' {
                if m.stack.len() > 1 {
                    assert forall|k: int| 1 <= k < s2.len() implies (#[trigger] s2[k]).sym
                        == SegmentDelimSyms::Bracket && open_at(
                        text,
                        s,
                        n + 1,
                        s2[k].seg_start as int,
                        k,
                    ) by {
                        assert(s2[k] == m.stack[k]);
                        assert(open_at(text, s, n, m.stack[k].seg_start as int, k));
                    }
                    assert(s2[0] == m.stack[0]);
                } else {
                    assert(balance(text, s, n + 1) < 0);
                }
            } else if c != '.' {
                assert forall|k: int| 1 <= k < s2.len() implies (#[trigger] s2[k]).sym
                    == SegmentDelimSyms::Bracket && open_at(
                    text,
                    s,
                    n + 1,
                    s2[k].seg_start as int,
                    k,
                ) by {
                    assert(open_at(text, s, n, m.stack[k].seg_start as int, k));
                }
            } else {
                if m.stack.len() > 1 {
                    assert(m.stack[m.stack.len() - 1].sym == SegmentDelimSyms::Bracket);
                }
            }
        },
        Phase::InvalidSegment => {
            if c != '.' {
                let q0 = choose|q: int| s <= q <= n && #[trigger] balance(text, s, q) < 0;
                assert(!no_stray(text, s, n + 1)) by {
                    assert(balance(text, s, q0) < 0);
                }
            }
        },
        Phase::Idle => {},
    }
}

proof fn lemma_tracks_read(text: Seq<char>, n: int)
    requires
        0 <= n <= text.len(),
        text.len() <= usize::MAX,
    ensures
        tracks(little_read(little_step(initial(), Input::Start), text.take(n)), text, n),
    decreases n,
{
    let m0 = little_step(initial(), Input::Start);
    if n == 0 {
        assert(text.take(0) =~= Seq::<char>::empty());
        assert(little_read(m0, text.take(0)) == m0);
    } else {
        lemma_tracks_read(text, n - 1);
        let p = text.take(n - 1);
        assert(text.take(n) =~= p.push(text[n - 1]));
        assert(p.push(text[n - 1])[n - 1] == text[n - 1]);
        lemma_read_push(m0, p, text[n - 1]);
        lemma_tracks_step(little_read(m0, p), text, n - 1);
    }
}

/// Parsing a text from a fresh start indexes every matched pair of brackets:
/// for each `[` at `i` matched by the `]` at `j` (in one sentence, with no
/// stray `]` before `i` in it), exactly one segment `Bracketed [i+1, j)` is
/// reported, at depth one plus the brackets still open at `i`; and no other
/// bracketed segment is reported.
pub proof fn lemma_fresh_parse_brackets_complete(text: Seq<char>)
    requires
        text.len() <= usize::MAX,
    ensures
        brackets_complete(little_parse(initial(), text).segments, text, text.len() as int),
        forall|i: int, j: int|
            #[trigger] matched(text, i, j) ==> exists|k: int|
                0 <= k < little_parse(initial(), text).segments.len()
                    && #[trigger] little_parse(initial(), text).segments[k] == segment(
                    SegmentTypes::Bracketed,
                    (i + 1) as usize,
                    j as usize,
                    pair_rank(text, i) as nat,
                ),
        forall|k1: int, k2: int|
            0 <= k1 < k2 < little_parse(initial(), text).segments.len() && (#[trigger] little_parse(
                initial(),
                text,
            ).segments[k1]).tp == SegmentTypes::Bracketed && (#[trigger] little_parse(
                initial(),
                text,
            ).segments[k2]).tp == SegmentTypes::Bracketed ==> little_parse(initial(), text).segments[k1]
                != little_parse(initial(), text).segments[k2],
{
    let m0 = little_step(initial(), Input::Start);
    lemma_tracks_read(text, text.len() as int);
    assert(text.take(text.len() as int) =~= text);
    let r = little_read(m0, text);
    let e = little_step(r, Input::EndOfInput);
    lemma_step_adds_at_index(r, Input::EndOfInput);
    lemma_drained_no_brackets(r.stack, r.index);
    let d = crate::automaton::drained(r.stack, r.index);
    assert forall|k: int|
        r.segments.len() <= k < e.segments.len() implies (#[trigger] e.segments[k]).tp
        != SegmentTypes::Bracketed by {
        if e.segments == r.segments + d {
            assert(e.segments[k] == d[k - r.segments.len()]);
        }
    }
    assert forall|k: int|
        0 <= k < e.segments.len() && (#[trigger] e.segments[k]).tp
            == SegmentTypes::Bracketed implies {
        &&& e.segments[k].seg.1 < text.len()
        &&& matched(text, e.segments[k].seg.0 - 1, e.segments[k].seg.1 as int)
        &&& e.segments[k].rank == pair_rank(text, e.segments[k].seg.0 - 1)
    } by {
        assert(k < r.segments.len());
        assert(e.segments[k] == r.segments[k]);
    }
    assert forall|i: int, j: int| #[trigger] matched(text, i, j) implies exists|k: int|
        0 <= k < e.segments.len() && #[trigger] e.segments[k] == segment(
            SegmentTypes::Bracketed,
            (i + 1) as usize,
            j as usize,
            pair_rank(text, i) as nat,
        ) by {
        let k = choose|k: int|
            0 <= k < r.segments.len() && #[trigger] r.segments[k] == segment(
                SegmentTypes::Bracketed,
                (i + 1) as usize,
                j as usize,
                pair_rank(text, i) as nat,
            );
        assert(e.segments[k] == r.segments[k]);
    }
    crate::laws::lemma_fresh_parse_brackets(text);
}

/// Where the sentence that begins at `s` ends: at the next `.`, or at the
/// end of the text.
pub open spec fn sentence_end(text: Seq<char>, s: int) -> int
    decreases text.len() - s,
{
    if s >= text.len() {
        text.len() as int
    } else if text[s] == '.' {
        s
    } else {
        sentence_end(text, s + 1)
    }
}

/// `[s, e)` is a sentence of `text` with at least one character.
pub open spec fn is_sentence(text: Seq<char>, s: int, e: int) -> bool {
    &&& 0 <= s < e <= text.len()
    &&& sentence_start(text, s) == s
    &&& sentence_end(text, s) == e
}

/// A sentence `[s, e)` is balanced when every `]` in it closes a `[` opened
/// before it in the sentence and no `[` stays open.
pub open spec fn balanced(text: Seq<char>, s: int, e: int) -> bool {
    no_stray(text, s, e) && balance(text, s, e) == 0
}

/// The kind a sentence `[s, e)` is reported as. Ended by a `.`: a
/// `Sentence` when balanced, else an `InvalidSentence`. Ended by the end of
/// the text: a `Tail` when balanced or when it begins with a `]`, else an
/// `InvalidSentence`.
pub open spec fn sentence_kind(text: Seq<char>, s: int, e: int) -> SegmentTypes {
    if e < text.len() {
        if balanced(text, s, e) {
            SegmentTypes::Sentence
        } else {
            SegmentTypes::InvalidSentence
        }
    } else if balanced(text, s, e) || text[s] == ']' {
        SegmentTypes::Tail
    } else {
        SegmentTypes::InvalidSentence
    }
}

/// The segments at depth 0 of `segs` are the sentences of `text` that end
/// before `n`, each once, each of the kind that `sentence_kind` gives it.
pub open spec fn sentences_indexed(segs: Seq<ParsedSegment>, text: Seq<char>, n: int) -> bool {
    &&& forall|k: int|
        0 <= k < segs.len() && (#[trigger] segs[k]).rank == 0 ==> {
            &&& is_sentence(text, segs[k].seg.0 as int, segs[k].seg.1 as int)
            &&& segs[k].seg.1 < n
            &&& segs[k].tp == sentence_kind(text, segs[k].seg.0 as int, segs[k].seg.1 as int)
        }
    &&& forall|k1: int, k2: int|
        0 <= k1 < k2 < segs.len() && (#[trigger] segs[k1]).rank == 0 && (#[trigger] segs[k2]).rank
            == 0 ==> segs[k1].seg.0 != segs[k2].seg.0
    &&& forall|a: int, b: int|
        #[trigger] is_sentence(text, a, b) && b < n ==> exists|k: int|
            0 <= k < segs.len() && (#[trigger] segs[k]).seg == (a as usize, b as usize)
                && segs[k].rank == 0
}

/// While a sentence is open at `n`, its stack tells how it would be
/// reported if it ended there: one entry left in `PlainSegment` exactly when
/// it is balanced so far, one entry left in `InvalidSegment` exactly when it
/// began with a `]`.
proof fn lemma_open_sentence_kind(m: PdaModel, text: Seq<char>, n: int)
    requires
        0 <= n <= text.len(),
        tracks(m, text, n),
        m.phase != Phase::NewSentence,
    ensures
        (m.phase == Phase::PlainSegment && m.stack.len() == 1) <==> balanced(
            text,
            sentence_start(text, n),
            n,
        ),
        (m.phase == Phase::InvalidSegment && m.stack.len() == 1) <==> text[sentence_start(text, n)]
            == ']',
        m.stack.len() >= 1,
        m.stack[0].sym == SegmentDelimSyms::SentenceStart,
{
    let s = sentence_start(text, n);
    lemma_sentence_start_bounds(text, n);
    lemma_balance_step(text, s, s);
    assert(balance(text, s, s) == 0);
    if m.phase == Phase::PlainSegment {
        assert(balance(text, s, s + 1) >= 0);
    } else {
        if text[s] == ']' && m.stack.len() != 1 {
            assert(first_stray(text, s, s));
            lemma_first_stray_unique(text, s, s, m.stack[1].seg_start as int);
        }
    }
}

proof fn lemma_sentence_end_facts(text: Seq<char>, s: int)
    requires
        0 <= s <= text.len(),
    ensures
        s <= sentence_end(text, s) <= text.len(),
        forall|q: int| s <= q < sentence_end(text, s) ==> #[trigger] text[q] != '.',
        sentence_end(text, s) < text.len() ==> text[sentence_end(text, s)] == '.',
    decreases text.len() - s,
{
    if s < text.len() && text[s] != '.' {
        lemma_sentence_end_facts(text, s + 1);
    }
}

proof fn lemma_sentence_end_at(text: Seq<char>, s: int, e: int)
    requires
        0 <= s <= e <= text.len(),
        forall|q: int| s <= q < e ==> #[trigger] text[q] != '.',
        e == text.len() || text[e] == '.',
    ensures
        sentence_end(text, s) == e,
    decreases e - s,
{
    if s < e {
        assert(text[s] != '.');
        lemma_sentence_end_at(text, s + 1, e);
    }
}

/// The sentence that is open at `n` ends at `e` when the text has a `.`
/// at `e`, or ends there.
proof fn lemma_current_sentence(text: Seq<char>, n: int, e: int)
    requires
        0 <= sentence_start(text, n) < n <= e <= text.len(),
        forall|q: int| n <= q < e ==> #[trigger] text[q] != '.',
        e == text.len() || text[e] == '.',
    ensures
        is_sentence(text, sentence_start(text, n), e),
        forall|a: int| #[trigger] is_sentence(text, a, e) ==> a == sentence_start(text, n),
{
    let s = sentence_start(text, n);
    lemma_sentence_start_bounds(text, n);
    lemma_same_sentence(text, s, n);
    assert forall|q: int| s <= q < e implies #[trigger] text[q] != '.' by {
        if q >= n {
            assert(text[q] != '.');
        }
    }
    lemma_sentence_end_at(text, s, e);
    assert forall|a: int| #[trigger] is_sentence(text, a, e) implies a == s by {
        lemma_sentence_end_facts(text, a);
        lemma_sentence_start_bounds(text, a);
        if a < s {
            assert(text[s - 1] == '.');
        } else if a > s {
            assert(text[a - 1] == '.');
            assert(text[a - 1] != '.');
        }
    }
}

/// Emptying a stack reports its entries top first, each at the depth below it.
proof fn lemma_drained_shape(st: Seq<PDAStackCtx>, i: usize)
    requires
        st.len() <= usize::MAX + 1,
    ensures
        drained(st, i).len() == st.len(),
        forall|k: int|
            0 <= k < st.len() ==> #[trigger] drained(st, i)[k] == segment(
                unbalanced_kind(st[st.len() - 1 - k].sym),
                st[st.len() - 1 - k].seg_start,
                i,
                (st.len() - 1 - k) as nat,
            ),
    decreases st.len(),
{
    if st.len() > 0 {
        let t = st.drop_last();
        lemma_drained_shape(t, i);
        assert forall|k: int| 0 <= k < st.len() implies #[trigger] drained(st, i)[k] == segment(
            unbalanced_kind(st[st.len() - 1 - k].sym),
            st[st.len() - 1 - k].seg_start,
            i,
            (st.len() - 1 - k) as nat,
        ) by {
            if k == 0 {
                assert(st[st.len() - 1] == st.last());
            } else {
                assert(drained(st, i)[k] == drained(t, i)[k - 1]);
                assert(t[t.len() - 1 - (k - 1)] == st[st.len() - 1 - k]);
            }
        }
    }
}

/// Reading the character at `n` keeps the sentences indexed.
proof fn lemma_sentences_step(m: PdaModel, text: Seq<char>, n: int)
    requires
        0 <= n < text.len(),
        text.len() <= usize::MAX,
        tracks(m, text, n),
        sentences_indexed(m.segments, text, n),
    ensures
        sentences_indexed(advance(little_step(m, input_of_char(text[n]))).segments, text, n + 1),
{
    let c = text[n];
    let x = input_of_char(c);
    let r = little_step(m, x);
    let a = advance(r);
    let s = sentence_start(text, n);
    let segs = m.segments;
    let st = m.stack;
    let len = st.len();
    lemma_sentence_start_bounds(text, n);
    lemma_step_adds_at_index(m, x);
    if m.phase == Phase::PlainSegment {
        lemma_balance_bound(text, s, n);
    }
    assert(len <= n + 1);
    lemma_drained_shape(st, m.index);
    let d = drained(st, m.index);
    if len > 0 {
        assert(st[len - 1] == st.last());
    }
    if m.phase == Phase::PlainSegment && len > 1 {
        assert(st[len - 1].sym == SegmentDelimSyms::Bracket);
    }
    let closes_sentence = c == '.' && (m.phase == Phase::PlainSegment || m.phase
        == Phase::InvalidSegment);
    // Where a step adds a segment at depth 0.
    let w = if closes_sentence && len == 1 && m.phase == Phase::PlainSegment {
        segs.len() as int
    } else {
        segs.len() + len - 1
    };
    if closes_sentence {
        lemma_current_sentence(text, n, n);
        lemma_open_sentence_kind(m, text, n);
    }
    assert forall|k: int|
        segs.len() <= k < a.segments.len() && (#[trigger] a.segments[k]).rank == 0 implies k == w
        && closes_sentence && a.segments[k].seg == (s as usize, n as usize) && a.segments[k].tp == sentence_kind(text, s, n) by {
        if a.segments == segs + d {
            assert(a.segments[k] == d[k - segs.len()]);
        }
    }
    if closes_sentence {
        assert(0 <= w < a.segments.len());
        if !(len == 1 && m.phase == Phase::PlainSegment) {
            assert(a.segments == segs + d);
            assert(a.segments[w] == d[len - 1]);
        }
        assert(a.segments[w].rank == 0);
        assert(a.segments[w].seg == (s as usize, n as usize));
    }
    assert forall|k: int|
        0 <= k < a.segments.len() && (#[trigger] a.segments[k]).rank == 0 implies {
        &&& is_sentence(text, a.segments[k].seg.0 as int, a.segments[k].seg.1 as int)
        &&& a.segments[k].seg.1 < n + 1
        &&& a.segments[k].tp == sentence_kind(
            text,
            a.segments[k].seg.0 as int,
            a.segments[k].seg.1 as int,
        )
    } by {
        if k < segs.len() {
            assert(a.segments[k] == segs[k]);
        }
    }
    assert forall|k1: int, k2: int|
        0 <= k1 < k2 < a.segments.len() && (#[trigger] a.segments[k1]).rank == 0 && (
        #[trigger] a.segments[k2]).rank == 0 implies a.segments[k1].seg.0 != a.segments[k2].seg.0 by {
        if k2 < segs.len() {
            assert(a.segments[k1] == segs[k1] && a.segments[k2] == segs[k2]);
        } else if k1 < segs.len() {
            assert(a.segments[k1] == segs[k1]);
            lemma_sentence_end_facts(text, segs[k1].seg.0 as int);
        }
    }
    assert forall|p: int, q: int| #[trigger] is_sentence(text, p, q) && q < n + 1 implies exists|
        k: int,
    |
        0 <= k < a.segments.len() && (#[trigger] a.segments[k]).seg == (p as usize, q as usize)
            && a.segments[k].rank == 0 by {
        if q < n {
            let k = choose|k: int|
                0 <= k < segs.len() && (#[trigger] segs[k]).seg == (p as usize, q as usize)
                    && segs[k].rank == 0;
            assert(a.segments[k] == segs[k]);
        } else {
            lemma_sentence_end_facts(text, p);
            lemma_sentence_start_bounds(text, p);
            if m.phase == Phase::NewSentence {
                lemma_same_sentence(text, p, n);
            } else {
                lemma_current_sentence(text, n, n);
                assert(a.segments[w].seg == (p as usize, q as usize));
            }
        }
    }
}

proof fn lemma_sentences_read(text: Seq<char>, n: int)
    requires
        0 <= n <= text.len(),
        text.len() <= usize::MAX,
    ensures
        sentences_indexed(
            little_read(little_step(initial(), Input::Start), text.take(n)).segments,
            text,
            n,
        ),
    decreases n,
{
    let m0 = little_step(initial(), Input::Start);
    if n == 0 {
        assert(text.take(0) =~= Seq::<char>::empty());
        assert(little_read(m0, text.take(0)) == m0);
    } else {
        lemma_sentences_read(text, n - 1);
        lemma_tracks_read(text, n - 1);
        let p = text.take(n - 1);
        assert(text.take(n) =~= p.push(text[n - 1]));
        assert(p.push(text[n - 1])[n - 1] == text[n - 1]);
        lemma_read_push(m0, p, text[n - 1]);
        lemma_sentences_step(little_read(m0, p), text, n - 1);
    }
}

/// Parsing a text from a fresh start reports each sentence of the text (a
/// maximal run of characters without `.`, not empty) exactly once at depth 0,
/// covering exactly that run: as a `Sentence` when it ends at a `.` and is
/// balanced, as a `Tail` when it ends the text and is balanced or begins with
/// a `]`, and as an `InvalidSentence` otherwise; and it reports nothing else
/// at depth 0.
pub proof fn lemma_fresh_parse_sentences_indexed(text: Seq<char>)
    requires
        text.len() <= usize::MAX,
    ensures
        sentences_indexed(little_parse(initial(), text).segments, text, text.len() + 1int),
{
    let m0 = little_step(initial(), Input::Start);
    let n = text.len() as int;
    lemma_sentences_read(text, n);
    lemma_tracks_read(text, n);
    assert(text.take(n) =~= text);
    let r = little_read(m0, text);
    let e = little_step(r, Input::EndOfInput);
    let segs = r.segments;
    let st = r.stack;
    let len = st.len();
    let s = sentence_start(text, n);
    lemma_sentence_start_bounds(text, n);
    lemma_step_adds_at_index(r, Input::EndOfInput);
    if r.phase == Phase::PlainSegment {
        lemma_balance_bound(text, s, n);
    }
    lemma_drained_shape(st, r.index);
    let d = drained(st, r.index);
    if len > 0 {
        assert(st[len - 1] == st.last());
    }
    if r.phase == Phase::PlainSegment && len > 1 {
        assert(st[len - 1].sym == SegmentDelimSyms::Bracket);
    }
    let open = r.phase != Phase::NewSentence;
    let w = if len == 1 {
        segs.len() as int
    } else {
        segs.len() + len - 1
    };
    if open {
        lemma_current_sentence(text, n, n);
        lemma_open_sentence_kind(r, text, n);
    }
    assert forall|k: int|
        segs.len() <= k < e.segments.len() && (#[trigger] e.segments[k]).rank == 0 implies k == w
        && open && e.segments[k].seg == (s as usize, n as usize) && e.segments[k].tp == sentence_kind(text, s, n) by {
        if e.segments == segs + d {
            assert(e.segments[k] == d[k - segs.len()]);
        }
    }
    if open {
        if len != 1 {
            assert(e.segments == segs + d);
            assert(e.segments[w] == d[len - 1]);
        }
        assert(e.segments[w].rank == 0);
    }
    assert forall|k: int|
        0 <= k < e.segments.len() && (#[trigger] e.segments[k]).rank == 0 implies {
        &&& is_sentence(text, e.segments[k].seg.0 as int, e.segments[k].seg.1 as int)
        &&& e.segments[k].seg.1 < n + 1
        &&& e.segments[k].tp == sentence_kind(
            text,
            e.segments[k].seg.0 as int,
            e.segments[k].seg.1 as int,
        )
    } by {
        if k < segs.len() {
            assert(e.segments[k] == segs[k]);
        }
    }
    assert forall|k1: int, k2: int|
        0 <= k1 < k2 < e.segments.len() && (#[trigger] e.segments[k1]).rank == 0 && (
        #[trigger] e.segments[k2]).rank == 0 implies e.segments[k1].seg.0 != e.segments[k2].seg.0 by {
        if k2 < segs.len() {
            assert(e.segments[k1] == segs[k1] && e.segments[k2] == segs[k2]);
        } else if k1 < segs.len() {
            assert(e.segments[k1] == segs[k1]);
            lemma_sentence_end_facts(text, segs[k1].seg.0 as int);
        }
    }
    assert forall|p: int, q: int| #[trigger] is_sentence(text, p, q) && q < n + 1 implies exists|
        k: int,
    |
        0 <= k < e.segments.len() && (#[trigger] e.segments[k]).seg == (p as usize, q as usize)
            && e.segments[k].rank == 0 by {
        if q < n {
            let k = choose|k: int|
                0 <= k < segs.len() && (#[trigger] segs[k]).seg == (p as usize, q as usize)
                    && segs[k].rank == 0;
            assert(e.segments[k] == segs[k]);
        } else {
            lemma_sentence_start_bounds(text, p);
            lemma_sentence_end_facts(text, p);
            if r.phase == Phase::NewSentence {
                lemma_same_sentence(text, p, n);
            } else {
                assert(e.segments[w].seg == (p as usize, q as usize));
            }
        }
    }
}

/// The kinds of segment reported at the edges of brackets: plain text
/// before a bracket, and what is left unbalanced.
pub open spec fn edge_kind(tp: SegmentTypes) -> bool {
    tp == SegmentTypes::Plain || tp == SegmentTypes::UnbalancedRightSth || tp
        == SegmentTypes::UnbalancedLeftBracket
}

/// `x` is a segment of that kind that the text calls for, ending before `n`:
/// - the plain text of a sentence up to a `[` read while no bracket is open
///   and no stray `]` came before, or up to its first stray `]`;
/// - the rest of a sentence from its first stray `]` (not its first
///   character), unbalanced;
/// - the rest of a sentence without stray `]` from a `[` never closed in it,
///   unbalanced, at depth one plus the brackets open at that `[`.
pub open spec fn expected_edge(text: Seq<char>, x: ParsedSegment, n: int) -> bool {
    let a = x.seg.0 as int;
    let b = x.seg.1 as int;
    let sa = sentence_start(text, a);
    ||| {
        &&& x.tp == SegmentTypes::Plain
        &&& x.rank == 1
        &&& a < b < n
        &&& b < text.len()
        &&& sentence_start(text, b) == a
        &&& ((text[b] == '[' && balance(text, a, b) == 0 && no_stray(text, a, b)) || first_stray(
            text,
            a,
            b,
        ))
    }
    ||| {
        &&& x.tp == SegmentTypes::UnbalancedRightSth
        &&& x.rank == 1
        &&& b < n
        &&& sa < a
        &&& first_stray(text, sa, a)
        &&& b == sentence_end(text, sa)
    }
    ||| {
        &&& x.tp == SegmentTypes::UnbalancedLeftBracket
        &&& b < n
        &&& 0 <= a < text.len()
        &&& text[a] == '['
        &&& x.rank == 1 + balance(text, sa, a)
        &&& b == sentence_end(text, sa)
        &&& no_stray(text, sa, b)
        &&& forall|q: int| a < q <= b ==> #[trigger] balance(text, sa, q) > balance(text, sa, a)
    }
}

/// The segments of those kinds in `segs` are the ones the text calls for
/// before `n`, each once.
pub open spec fn edges_ok(segs: Seq<ParsedSegment>, text: Seq<char>, n: int) -> bool {
    &&& forall|k: int|
        0 <= k < segs.len() && edge_kind((#[trigger] segs[k]).tp) ==> expected_edge(
            text,
            segs[k],
            n,
        )
    &&& forall|x: ParsedSegment| #[trigger]
        expected_edge(text, x, n) ==> exists|k: int| 0 <= k < segs.len() && #[trigger] segs[k] == x
    &&& forall|k1: int, k2: int|
        0 <= k1 < k2 < segs.len() && edge_kind((#[trigger] segs[k1]).tp) ==> segs[k1]
            != #[trigger] segs[k2]
}

proof fn lemma_edges_extend(
    segs: Seq<ParsedSegment>,
    extra: Seq<ParsedSegment>,
    text: Seq<char>,
    n: int,
)
    requires
        edges_ok(segs, text, n),
        forall|j: int| 0 <= j < extra.len() ==> (#[trigger] extra[j]).seg.1 == n,
        forall|j: int|
            0 <= j < extra.len() && edge_kind((#[trigger] extra[j]).tp) ==> expected_edge(
                text,
                extra[j],
                n + 1,
            ),
        forall|x: ParsedSegment| #[trigger]
            expected_edge(text, x, n + 1) && x.seg.1 == n ==> exists|j: int|
                0 <= j < extra.len() && #[trigger] extra[j] == x,
        forall|j1: int, j2: int|
            0 <= j1 < j2 < extra.len() && edge_kind((#[trigger] extra[j1]).tp) ==> extra[j1]
                != #[trigger] extra[j2],
    ensures
        edges_ok(segs + extra, text, n + 1),
{
    let all = segs + extra;
    assert forall|k: int| 0 <= k < segs.len() implies #[trigger] all[k] == segs[k] by {}
    assert forall|j: int| 0 <= j < extra.len() implies #[trigger] all[segs.len() + j] == extra[j] by {}
    assert forall|k: int| 0 <= k < all.len() && edge_kind((#[trigger] all[k]).tp) implies expected_edge(
        text,
        all[k],
        n + 1,
    ) by {
        if k < segs.len() {
            assert(all[k] == segs[k]);
        } else {
            assert(all[k] == extra[k - segs.len()]);
        }
    }
    assert forall|x: ParsedSegment| #[trigger] expected_edge(text, x, n + 1) implies exists|k: int|
        0 <= k < all.len() && #[trigger] all[k] == x by {
        if x.seg.1 < n {
            assert(expected_edge(text, x, n));
            let k = choose|k: int| 0 <= k < segs.len() && #[trigger] segs[k] == x;
            assert(all[k] == segs[k]);
        } else {
            let j = choose|j: int| 0 <= j < extra.len() && #[trigger] extra[j] == x;
            assert(all[segs.len() + j] == extra[j]);
        }
    }
    assert forall|k1: int, k2: int|
        0 <= k1 < k2 < all.len() && edge_kind((#[trigger] all[k1]).tp) implies all[k1]
        != #[trigger] all[k2] by {
        if k2 < segs.len() {
            assert(all[k1] == segs[k1] && all[k2] == segs[k2]);
        } else if k1 < segs.len() {
            assert(all[k1] == segs[k1] && all[k2] == extra[k2 - segs.len()]);
            assert(expected_edge(text, segs[k1], n));
        } else {
            assert(all[k1] == extra[k1 - segs.len()] && all[k2] == extra[k2 - segs.len()]);
        }
    }
}

proof fn lemma_open_at_unique(text: Seq<char>, s: int, n: int, i1: int, i2: int, k: int)
    requires
        open_at(text, s, n, i1, k),
        open_at(text, s, n, i2, k),
    ensures
        i1 == i2,
{
    if i1 < i2 {
        assert(balance(text, s, i2) >= k);
    } else if i2 < i1 {
        assert(balance(text, s, i1) >= k);
    }
}

proof fn lemma_first_stray_unique(text: Seq<char>, s: int, k1: int, k2: int)
    requires
        first_stray(text, s, k1),
        first_stray(text, s, k2),
    ensures
        k1 == k2,
{
    if k1 < k2 {
        lemma_balance_step(text, s, k1);
        assert(balance(text, s, k1 + 1) >= 0);
    } else if k2 < k1 {
        lemma_balance_step(text, s, k2);
        assert(balance(text, s, k2 + 1) >= 0);
    }
}

/// What a called-for segment that ends at `n` tells: a plain one ends at a
/// bracket of the sentence open at `n`; an unbalanced one runs to the end
/// of that sentence, which is at `n`.
proof fn lemma_edge_ending_at(text: Seq<char>, x: ParsedSegment, n: int)
    requires
        expected_edge(text, x, n + 1),
        x.seg.1 == n,
        0 <= n <= text.len(),
    ensures
        x.tp == SegmentTypes::Plain ==> {
            &&& x.seg.0 == sentence_start(text, n)
            &&& x.seg.0 < n < text.len()
            &&& (text[n] == '[' || text[n] == ']')
        },
        x.tp != SegmentTypes::Plain ==> {
            &&& sentence_start(text, x.seg.0 as int) == sentence_start(text, n)
            &&& sentence_start(text, n) <= x.seg.0 < n
            &&& (n == text.len() || text[n] == '.')
        },
{
    let a = x.seg.0 as int;
    if x.tp != SegmentTypes::Plain {
        let sa = sentence_start(text, a);
        lemma_sentence_start_bounds(text, a);
        lemma_sentence_end_facts(text, sa);
        lemma_same_sentence(text, sa, a);
        if a >= n {
            if n < text.len() {
                assert(text[n] == '.');
                if a > n {
                    assert(text[n] != '.');
                }
            }
        }
        lemma_same_sentence(text, sa, n);
    }
}


/// Reading a character inside a sentence adds, of the edge kinds, exactly
/// the plain segment that the text calls for ending there, if any.
proof fn lemma_edges_inside(m: PdaModel, text: Seq<char>, n: int)
    requires
        0 <= n < text.len(),
        text.len() <= usize::MAX,
        text[n] != '.',
        tracks(m, text, n),
        edges_ok(m.segments, text, n),
    ensures
        edges_ok(little_step(m, input_of_char(text[n])).segments, text, n + 1),
{
    let c = text[n];
    let x = input_of_char(c);
    let r = little_step(m, x);
    let segs = m.segments;
    let st = m.stack;
    let len = st.len();
    let s = sentence_start(text, n);
    lemma_sentence_start_bounds(text, n);
    lemma_step_adds_at_index(m, x);
    let extra = r.segments.subrange(segs.len() as int, r.segments.len() as int);
    assert(r.segments =~= segs + extra);
    if len > 0 {
        assert(st[len - 1] == st.last());
    }
    if m.phase == Phase::PlainSegment && len > 1 {
        assert(st[len - 1].sym == SegmentDelimSyms::Bracket);
    }
    let adds_plain = m.phase == Phase::PlainSegment && len == 1 && (c == '[' || c == ']');
    let p = segment(SegmentTypes::Plain, s as usize, n as usize, 1);
    assert forall|j: int| 0 <= j < extra.len() && edge_kind((#[trigger] extra[j]).tp) implies adds_plain
        && extra[j] == p by {
        assert(extra[j] == r.segments[segs.len() + j]);
    }
    if adds_plain {
        assert(extra.len() == 1);
        assert(extra[0] == r.segments[segs.len() as int]);
        assert(extra[0] == p);
        assert(expected_edge(text, p, n + 1));
    }
    assert forall|y: ParsedSegment| #[trigger]
        expected_edge(text, y, n + 1) && y.seg.1 == n implies exists|j: int|
        0 <= j < extra.len() && #[trigger] extra[j] == y by {
        lemma_edge_ending_at(text, y, n);
        assert(y.tp == SegmentTypes::Plain);
        assert(m.phase == Phase::PlainSegment);
        assert(y == p);
        assert(extra[0] == p);
    }
    lemma_edges_extend(segs, extra, text, n);
}

/// Ending a sentence, by its `.` or by the end of the text, adds of the edge
/// kinds exactly the unbalanced segments that the text calls for there.
proof fn lemma_edges_at_end(m: PdaModel, text: Seq<char>, n: int, x: Input)
    requires
        0 <= n <= text.len(),
        text.len() <= usize::MAX,
        (n < text.len() && text[n] == '.' && x == Input::EndOfSentence) || (n == text.len() && x
            == Input::EndOfInput),
        tracks(m, text, n),
        edges_ok(m.segments, text, n),
    ensures
        edges_ok(little_step(m, x).segments, text, n + 1),
{
    let r = little_step(m, x);
    let segs = m.segments;
    let st = m.stack;
    let len = st.len();
    let s = sentence_start(text, n);
    lemma_sentence_start_bounds(text, n);
    lemma_step_adds_at_index(m, x);
    if m.phase == Phase::PlainSegment {
        lemma_balance_bound(text, s, n);
    }
    assert(len <= usize::MAX + 1) by {
        if m.phase == Phase::PlainSegment {
            assert(len <= n + 1);
        } else if m.phase == Phase::InvalidSegment {
            assert(len <= 2);
        }
    }
    lemma_drained_shape(st, m.index);
    let d = drained(st, m.index);
    let extra = r.segments.subrange(segs.len() as int, r.segments.len() as int);
    assert(r.segments =~= segs + extra);
    if len > 0 {
        assert(st[len - 1] == st.last());
    }
    if m.phase == Phase::PlainSegment && len > 1 {
        assert(st[len - 1].sym == SegmentDelimSyms::Bracket);
    }
    let drains = m.phase == Phase::NewSentence || (m.phase == Phase::PlainSegment && len > 1) || (
    m.phase == Phase::InvalidSegment && (len == 2 || x == Input::EndOfSentence));
    if drains {
        assert(r.segments == segs + d);
        assert forall|j: int| 0 <= j < extra.len() implies #[trigger] extra[j] == d[j] by {
            assert(extra[j] == r.segments[segs.len() + j]);
        }
    } else {
        assert(extra.len() <= 1);
    }
    if m.phase != Phase::NewSentence {
        lemma_sentence_end_at(text, s, n);
    }
    if m.phase == Phase::InvalidSegment && len == 2 {
        let a = st[1].seg_start as int;
        if a >= n {
            assert(no_stray(text, s, n));
        }
        lemma_same_sentence(text, a, n);
    }
    assert forall|j: int| 0 <= j < extra.len() && edge_kind((#[trigger] extra[j]).tp) implies expected_edge(
        text,
        extra[j],
        n + 1,
    ) by {
        assert(drains);
        assert(extra[j] == d[j]);
        let i = len - 1 - j;
        assert(i >= 1);
        if m.phase == Phase::PlainSegment {
            let a = st[i].seg_start as int;
            assert(open_at(text, s, n, a, i));
            lemma_same_sentence(text, a, n);
        }
    }
    assert forall|y: ParsedSegment| #[trigger]
        expected_edge(text, y, n + 1) && y.seg.1 == n implies exists|j: int|
        0 <= j < extra.len() && #[trigger] extra[j] == y by {
        lemma_edge_ending_at(text, y, n);
        let a = y.seg.0 as int;
        assert(y.tp != SegmentTypes::Plain);
        if y.tp == SegmentTypes::UnbalancedRightSth {
            assert(first_stray(text, s, a));
            lemma_balance_step(text, s, a);
            if m.phase == Phase::PlainSegment {
                assert(balance(text, s, a + 1) >= 0);
            }
            assert(m.phase == Phase::InvalidSegment);
            if len == 1 {
                lemma_first_stray_unique(text, s, s, a);
            }
            lemma_first_stray_unique(text, s, st[1].seg_start as int, a);
            assert(extra[0] == d[0]);
        } else {
            assert(no_stray(text, s, n));
            assert(m.phase == Phase::PlainSegment);
            let i = 1 + balance(text, s, a);
            assert(balance(text, s, n) > balance(text, s, a));
            assert(balance(text, s, a) >= 0);
            assert(1 <= i < len);
            assert(open_at(text, s, n, st[i].seg_start as int, i));
            lemma_open_at_unique(text, s, n, st[i].seg_start as int, a, i);
            assert(extra[len - 1 - i] == d[len - 1 - i]);
        }
    }
    assert forall|j1: int, j2: int|
        0 <= j1 < j2 < extra.len() && edge_kind((#[trigger] extra[j1]).tp) implies extra[j1]
        != #[trigger] extra[j2] by {
        assert(extra[j1] == d[j1] && extra[j2] == d[j2]);
    }
    lemma_edges_extend(segs, extra, text, n);
}

proof fn lemma_edges_read(text: Seq<char>, n: int)
    requires
        0 <= n <= text.len(),
        text.len() <= usize::MAX,
    ensures
        edges_ok(little_read(little_step(initial(), Input::Start), text.take(n)).segments, text, n),
    decreases n,
{
    let m0 = little_step(initial(), Input::Start);
    if n == 0 {
        assert(text.take(0) =~= Seq::<char>::empty());
        assert(little_read(m0, text.take(0)) == m0);
    } else {
        lemma_edges_read(text, n - 1);
        lemma_tracks_read(text, n - 1);
        let p = text.take(n - 1);
        let m = little_read(m0, p);
        assert(text.take(n) =~= p.push(text[n - 1]));
        assert(p.push(text[n - 1])[n - 1] == text[n - 1]);
        lemma_read_push(m0, p, text[n - 1]);
        if text[n - 1] == '.' {
            lemma_edges_at_end(m, text, n - 1, Input::EndOfSentence);
        } else {
            lemma_edges_inside(m, text, n - 1);
        }
    }
}

/// Parsing a text from a fresh start reports, of the plain and unbalanced
/// kinds, exactly these segments, each once; in a sentence `[s, e)`:
/// - `Plain [s, i)` at depth 1 for each `[` at `i > s` read while no bracket
///   is open and no stray `]` came before it in the sentence;
/// - where the first stray `]` of the sentence is at `k > s`:
///   `Plain [s, k)` and `UnbalancedRightSth [k, e)`, both at depth 1;
/// - where the sentence has no stray `]`: `UnbalancedLeftBracket [i, e)` for
///   each `[` at `i` that is never closed in it, at depth one plus the
///   brackets still open at `i`.
pub proof fn lemma_fresh_parse_edges(text: Seq<char>)
    requires
        text.len() <= usize::MAX,
    ensures
        edges_ok(little_parse(initial(), text).segments, text, text.len() + 1int),
{
    let m0 = little_step(initial(), Input::Start);
    let n = text.len() as int;
    lemma_edges_read(text, n);
    lemma_tracks_read(text, n);
    assert(text.take(n) =~= text);
    lemma_edges_at_end(little_read(m0, text), text, n, Input::EndOfInput);
}

/// From any state that a fresh parser reaches by reading a text, reading
/// one more character keeps every segment found so far, and each segment it
/// adds ends at the current index, starts no later, and lies no deeper than
/// the stack before the step.
pub proof fn lemma_fresh_char_adds_bounded(text: Seq<char>, c: char)
    requires
        text.len() < usize::MAX,
    ensures
        ({
            let m = little_read(little_step(initial(), Input::Start), text);
            let r = little_step(m, input_of_char(c));
            &&& m.index == text.len()
            &&& r.segments.len() >= m.segments.len()
            &&& forall|k: int|
                0 <= k < m.segments.len() ==> #[trigger] r.segments[k] == m.segments[k]
            &&& forall|k: int|
                m.segments.len() <= k < r.segments.len() ==> {
                    &&& (#[trigger] r.segments[k]).seg.1 == m.index
                    &&& r.segments[k].seg.0 <= r.segments[k].seg.1
                    &&& r.segments[k].rank <= m.stack.len()
                }
        }),
{
    let m0 = little_step(initial(), Input::Start);
    let n = text.len() as int;
    assert(crate::laws::settled(m0));
    crate::laws::lemma_read_settled(m0, text);
    lemma_tracks_read(text, n);
    assert(text.take(n) =~= text);
    let m = little_read(m0, text);
    let s = sentence_start(text, n);
    lemma_sentence_start_bounds(text, n);
    if m.phase == Phase::PlainSegment {
        lemma_balance_bound(text, s, n);
    }
    assert(m.stack.len() <= usize::MAX);
    crate::laws::lemma_char_adds_bounded(m, c);
}

} // verus!
