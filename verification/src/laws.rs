use vstd::prelude::*;

use crate::automaton::{
    advance, drained, entry, initial, input_of_char, little_parse, little_read, read_ok,
    signal_ok, little_step, nondet_parse, nondet_read,
    nondet_step, segment, wf, Input, PdaModel, Phase,
};
use crate::defs::{
    best_index, lemma_best_index_bounds, next_out, queue_order, PDAStackCtx, ParsedSegment,
    SegmentDelimSyms, SegmentTypes,
};

verus! {

/// Both automata take the same transition on every signal.
pub proof fn lemma_same_transition(m: PdaModel, x: Input)
    ensures
        little_step(m, x) == nondet_step(m, x),
{
    if m.stack.len() == 0 {
        assert(drained(m.stack, m.index) =~= Seq::<ParsedSegment>::empty());
        assert(m.segments + drained(m.stack, m.index) =~= m.segments);
        assert(m.stack =~= Seq::<PDAStackCtx>::empty());
    }
    assert(little_step(m, x) =~= nondet_step(m, x));
}

/// Reading a text, the two automata go through the same states.
pub proof fn lemma_same_read(m: PdaModel, text: Seq<char>)
    ensures
        little_read(m, text) == nondet_read(m, text),
    decreases text.len(),
{
    if text.len() > 0 {
        let x = input_of_char(text[0]);
        lemma_same_transition(m, x);
        lemma_same_read(advance(nondet_step(m, x)), text.drop_first());
    }
}

/// A whole parse gives the same result with either automaton.
pub proof fn lemma_same_parse(m: PdaModel, text: Seq<char>)
    ensures
        little_parse(m, text) == nondet_parse(m, text),
{
    lemma_same_transition(m, Input::Start);
    lemma_same_read(nondet_step(m, Input::Start), text);
    let r = nondet_read(nondet_step(m, Input::Start), text);
    lemma_same_transition(r, Input::EndOfInput);
}

/// Every transition of the deterministic automaton keeps it well-formed.
pub proof fn lemma_step_keeps_wf(m: PdaModel, x: Input)
    requires
        wf(m),
    ensures
        wf(little_step(m, x)),
{
    let r = little_step(m, x);
    if m.phase == Phase::PlainSegment || m.phase == Phase::InvalidSegment {
        assert(m.stack[m.stack.len() - 1] == m.stack.last());
    }
    if r.stack.len() == 0 {
        assert(r.stack =~= Seq::<PDAStackCtx>::empty());
    }
    assert forall|k: int| 0 <= k < r.stack.len() implies #[trigger] r.stack[k].seg_start
        <= r.index by {
        if k < m.stack.len() {
            assert(r.stack[k] == m.stack[k] || r.stack.len() == 0);
        }
    }
}

/// Moving the index forward keeps the automaton well-formed.
pub proof fn lemma_advance_keeps_wf(m: PdaModel)
    requires
        wf(m),
        m.index < usize::MAX,
    ensures
        wf(advance(m)),
{
}

/// So does every transition of the other automaton.
pub proof fn lemma_nondet_step_keeps_wf(m: PdaModel, x: Input)
    requires
        wf(m),
    ensures
        wf(nondet_step(m, x)),
{
    lemma_same_transition(m, x);
    lemma_step_keeps_wf(m, x);
}

/// In a well-formed state whose index can still move, no signal makes the
/// deterministic automaton fail.
pub proof fn lemma_wf_signal_ok(m: PdaModel, x: Input)
    requires
        wf(m),
        m.index < usize::MAX,
    ensures
        signal_ok(m, x),
{
    if m.stack.len() > 0 {
        assert(m.stack[m.stack.len() - 1] == m.stack.last());
    }
}

/// From a well-formed state, a text fits when the index has room for it: the
/// deterministic automaton reads it without failing, ends in a well-formed
/// state, and its index has moved by the text's length.
pub proof fn lemma_wf_read(m: PdaModel, text: Seq<char>)
    requires
        wf(m),
        m.index + text.len() <= usize::MAX,
    ensures
        read_ok(m, text),
        wf(little_read(m, text)),
        little_read(m, text).index == m.index + text.len(),
    decreases text.len(),
{
    if text.len() > 0 {
        let x = input_of_char(text[0]);
        lemma_wf_signal_ok(m, x);
        lemma_step_keeps_wf(m, x);
        lemma_advance_keeps_wf(little_step(m, x));
        lemma_wf_read(advance(little_step(m, x)), text.drop_first());
    }
}

/// Ending the input from a well-formed state leaves nothing open: the
/// automaton is idle, at index 0, with an empty stack.
pub proof fn lemma_end_of_input_closes_all(m: PdaModel)
    requires
        wf(m),
    ensures
        little_step(m, Input::EndOfInput).phase == Phase::Idle,
        little_step(m, Input::EndOfInput).index == 0,
        little_step(m, Input::EndOfInput).stack.len() == 0,
{
    if m.stack.len() > 0 {
        assert(m.stack[m.stack.len() - 1] == m.stack.last());
    }
}

/// A fresh automaton parses any text whose length fits the index, and ends
/// idle, at index 0, with nothing left on its stack.
pub proof fn lemma_fresh_parse(text: Seq<char>)
    requires
        text.len() <= usize::MAX,
    ensures
        read_ok(little_step(initial(), Input::Start), text),
        little_parse(initial(), text).phase == Phase::Idle,
        little_parse(initial(), text).index == 0,
        little_parse(initial(), text).stack.len() == 0,
{
    let m = little_step(initial(), Input::Start);
    lemma_step_keeps_wf(initial(), Input::Start);
    lemma_wf_read(m, text);
    lemma_end_of_input_closes_all(little_read(m, text));
}

/// Every segment covers a range `[start, end)` with `start <= end <= bound`.
pub open spec fn segments_within(segs: Seq<ParsedSegment>, bound: int) -> bool {
    forall|k: int|
        0 <= k < segs.len() ==> #[trigger] segs[k].seg.0 <= segs[k].seg.1 && segs[k].seg.1 <= bound
}

/// A well-formed state as it stands between two characters: every open
/// bracket was read before the current index, and every segment lies before
/// it. Every state a fresh start reaches between two characters is settled.
pub open spec fn settled(m: PdaModel) -> bool {
    &&& wf(m)
    &&& forall|k: int|
        0 <= k < m.stack.len() && #[trigger] m.stack[k].sym == SegmentDelimSyms::Bracket
            ==> m.stack[k].seg_start < m.index
    &&& segments_within(m.segments, m.index as int)
}

proof fn lemma_drained_within(s: Seq<PDAStackCtx>, i: usize)
    requires
        forall|k: int| 0 <= k < s.len() ==> #[trigger] s[k].seg_start <= i,
    ensures
        segments_within(drained(s, i), i as int),
    decreases s.len(),
{
    if s.len() > 0 {
        assert(s[s.len() - 1] == s.last());
        let t = s.drop_last();
        assert forall|k: int| 0 <= k < t.len() implies #[trigger] t[k].seg_start <= i by {
            assert(t[k] == s[k]);
        }
        lemma_drained_within(t, i);
        let d = drained(s, i);
        assert forall|k: int| 0 <= k < d.len() implies #[trigger] d[k].seg.0 <= d[k].seg.1
            && d[k].seg.1 <= i by {
            if k > 0 {
                assert(d[k] == drained(t, i)[k - 1]);
            }
        }
    }
}

proof fn lemma_within_append(a: Seq<ParsedSegment>, b: Seq<ParsedSegment>, n: int)
    requires
        segments_within(a, n),
        segments_within(b, n),
    ensures
        segments_within(a + b, n),
{
    assert forall|k: int| 0 <= k < (a + b).len() implies #[trigger] (a + b)[k].seg.0 <= (a
        + b)[k].seg.1 && (a + b)[k].seg.1 <= n by {
        if k < a.len() {
            assert((a + b)[k] == a[k]);
        } else {
            assert((a + b)[k] == b[k - a.len()]);
        }
    }
}

proof fn lemma_within_push(a: Seq<ParsedSegment>, s: ParsedSegment, n: int)
    requires
        segments_within(a, n),
        s.seg.0 <= s.seg.1 <= n,
    ensures
        segments_within(a.push(s), n),
{
    assert forall|k: int| 0 <= k < a.push(s).len() implies #[trigger] a.push(s)[k].seg.0 <= a.push(
        s,
    )[k].seg.1 && a.push(s)[k].seg.1 <= n by {
        if k < a.len() {
            assert(a.push(s)[k] == a[k]);
        }
    }
}

proof fn lemma_within_grow(a: Seq<ParsedSegment>, n: int, m: int)
    requires
        segments_within(a, n),
        n <= m,
    ensures
        segments_within(a, m),
{
}

/// Reading one character keeps a settled state settled.
pub proof fn lemma_read_char_settled(m: PdaModel, c: char)
    requires
        settled(m),
        m.index < usize::MAX,
    ensures
        settled(advance(little_step(m, input_of_char(c)))),
{
    let x = input_of_char(c);
    let r = little_step(m, x);
    lemma_step_keeps_wf(m, x);
    lemma_advance_keeps_wf(r);
    if m.stack.len() > 0 {
        assert(m.stack[m.stack.len() - 1] == m.stack.last());
    }
    lemma_drained_within(m.stack, m.index);
    lemma_within_append(m.segments, drained(m.stack, m.index), m.index as int);
    if m.stack.len() > 0 {
        let top = m.stack.last();
        assert(top.seg_start <= m.index);
        if top.sym == SegmentDelimSyms::Bracket {
            assert(top.seg_start < m.index);
        }
        let i = m.index;
        let n = m.stack.len();
        lemma_within_push(m.segments, segment(SegmentTypes::Plain, top.seg_start, i, n), i as int);
        lemma_within_push(
            m.segments,
            segment(SegmentTypes::Sentence, top.seg_start, i, (n - 1) as nat),
            i as int,
        );
        lemma_within_push(
            m.segments,
            segment(SegmentTypes::Plain, top.seg_start, i, (n - 1) as nat),
            i as int,
        );
        if top.sym == SegmentDelimSyms::Bracket {
            lemma_within_push(
                m.segments,
                segment(SegmentTypes::Bracketed, (top.seg_start + 1) as usize, i, (n - 1) as nat),
                i as int,
            );
        }
    }
    assert(segments_within(r.segments, m.index as int));
    lemma_within_grow(r.segments, m.index as int, m.index + 1);
    let a = advance(r);
    assert forall|k: int|
        0 <= k < a.stack.len() && #[trigger] a.stack[k].sym == SegmentDelimSyms::Bracket
            implies a.stack[k].seg_start < a.index by {
        assert(a.stack[k].seg_start <= m.index);
    }
}

/// Reading a text keeps a settled state settled, and moves the index by the
/// text's length.
pub proof fn lemma_read_settled(m: PdaModel, text: Seq<char>)
    requires
        settled(m),
        m.index + text.len() <= usize::MAX,
    ensures
        settled(little_read(m, text)),
        little_read(m, text).index == m.index + text.len(),
    decreases text.len(),
{
    if text.len() > 0 {
        lemma_read_char_settled(m, text[0]);
        lemma_read_settled(advance(little_step(m, input_of_char(text[0]))), text.drop_first());
    }
}

/// Parsing a text from a fresh start, every segment reported covers a range
/// `[start, end)` of the text's characters: `start <= end <= text.len()`.
pub proof fn lemma_fresh_parse_segments_in_text(text: Seq<char>)
    requires
        text.len() <= usize::MAX,
    ensures
        segments_within(little_parse(initial(), text).segments, text.len() as int),
{
    let m = little_step(initial(), Input::Start);
    assert(settled(m));
    lemma_read_settled(m, text);
    let r = little_read(m, text);
    lemma_drained_within(r.stack, r.index);
    lemma_within_append(r.segments, drained(r.stack, r.index), r.index as int);
    if r.stack.len() > 0 {
        let top = r.stack.last();
        assert(r.stack[r.stack.len() - 1] == top);
        lemma_within_push(
            r.segments,
            segment(SegmentTypes::Tail, top.seg_start, r.index, (r.stack.len() - 1) as nat),
            r.index as int,
        );
    }
    assert(segments_within(little_step(r, Input::EndOfInput).segments, r.index as int));
}

/// The scan's choice among the first `n` segments: none of them comes
/// before it, and it comes before every one scanned ahead of it.
pub proof fn lemma_best_index_is_first_maximal(s: Seq<ParsedSegment>, n: int)
    requires
        1 <= n <= s.len(),
    ensures
        0 <= best_index(s, n) < n,
        forall|j: int| 0 <= j < n ==> !(#[trigger] s[j]).precedes(s[best_index(s, n)]),
        forall|j: int| 0 <= j < best_index(s, n) ==> s[best_index(s, n)].precedes(#[trigger] s[j]),
    decreases n,
{
    lemma_best_index_bounds(s, n);
    if n > 1 {
        lemma_best_index_is_first_maximal(s, n - 1);
    }
}

/// Taking segments out of the queue one by one yields each of them exactly
/// once.
pub proof fn lemma_queue_order_is_permutation(s: Seq<ParsedSegment>)
    ensures
        queue_order(s).to_multiset() == s.to_multiset(),
    decreases s.len(),
{
    broadcast use vstd::multiset::group_multiset_axioms;
    broadcast use vstd::seq_lib::group_to_multiset_ensures;

    if s.len() > 0 {
        let k = next_out(s);
        lemma_best_index_bounds(s, s.len() as int);
        let t = s.remove(k);
        lemma_queue_order_is_permutation(t);
        vstd::seq_lib::lemma_multiset_commutative(seq![s[k]], queue_order(t));
        vstd::seq_lib::to_multiset_remove(s, k);
        let one = vstd::multiset::Multiset::<ParsedSegment>::empty().insert(s[k]);
        assert(seq![s[k]].to_multiset() =~= one) by {
            assert(seq![s[k]] =~= Seq::<ParsedSegment>::empty().push(s[k]));
            vstd::seq_lib::to_multiset_build(Seq::<ParsedSegment>::empty(), s[k]);
        }
        assert(s.contains(s[k]));
        assert(queue_order(s).to_multiset() =~= s.to_multiset());
    }
}

/// Segments leave the queue in order: no segment comes out after one that it
/// precedes.
pub proof fn lemma_queue_order_is_sorted(s: Seq<ParsedSegment>)
    ensures
        forall|i: int, j: int|
            0 <= i < j < queue_order(s).len() ==> !(#[trigger] queue_order(s)[j]).precedes(
                #[trigger] queue_order(s)[i],
            ),
    decreases s.len(),
{
    broadcast use vstd::seq_lib::group_to_multiset_ensures;

    if s.len() > 0 {
        let k = next_out(s);
        lemma_best_index_is_first_maximal(s, s.len() as int);
        let t = s.remove(k);
        lemma_queue_order_is_sorted(t);
        lemma_queue_order_is_permutation(t);
        let q = queue_order(s);
        let qt = queue_order(t);
        assert forall|i: int, j: int| 0 <= i < j < q.len() implies !(#[trigger] q[j]).precedes(
            #[trigger] q[i],
        ) by {
            assert(q[j] == qt[j - 1]);
            if i == 0 {
                assert(qt.contains(qt[j - 1]));
                assert(qt.to_multiset().count(qt[j - 1]) > 0);
                assert(t.contains(qt[j - 1]));
                let w = choose|w: int| 0 <= w < t.len() && t[w] == qt[j - 1];
                if w < k {
                    assert(t[w] == s[w]);
                } else {
                    assert(t[w] == s[w + 1]);
                }
            } else {
                assert(q[i] == qt[i - 1]);
            }
        }
    }
}

/// Segments leave the queue by their positions in the text: each starts no
/// later than every segment that leaves after it, and among segments that
/// start at the same index, the one that ends later leaves first.
pub proof fn lemma_queue_order_by_position(s: Seq<ParsedSegment>)
    ensures
        forall|i: int, j: int|
            0 <= i < j < queue_order(s).len() ==> {
                ||| (#[trigger] queue_order(s)[i]).seg.0 < (#[trigger] queue_order(s)[j]).seg.0
                ||| (queue_order(s)[i].seg.0 == queue_order(s)[j].seg.0 && queue_order(s)[i].seg.1
                    >= queue_order(s)[j].seg.1)
            },
{
    lemma_queue_order_is_sorted(s);
}

/// Reading one more character is one more step after reading the rest.
pub proof fn lemma_read_push(m: PdaModel, text: Seq<char>, c: char)
    ensures
        little_read(m, text.push(c)) == advance(
            little_step(little_read(m, text), input_of_char(c)),
        ),
    decreases text.len(),
{
    let t = text.push(c);
    if text.len() == 0 {
        let n = advance(little_step(m, input_of_char(c)));
        assert(t[0] == c);
        assert(t.drop_first() =~= Seq::<char>::empty());
        assert(little_read(n, t.drop_first()) == n);
        assert(little_read(m, text) == m);
    } else {
        let n = advance(little_step(m, input_of_char(text[0])));
        assert(t[0] == text[0]);
        assert(t.drop_first() =~= text.drop_first().push(c));
        lemma_read_push(n, text.drop_first(), c);
        assert(little_read(m, t) == little_read(n, t.drop_first()));
        assert(little_read(m, text) == little_read(n, text.drop_first()));
    }
}

/// The brackets of a bracketed segment, with the segment between them.
pub open spec fn opening(x: ParsedSegment) -> int {
    x.seg.0 - 1
}

/// Two bracketed segments lie apart, or one lies inside the other, brackets
/// included.
pub open spec fn disjoint_or_nested(x: ParsedSegment, y: ParsedSegment) -> bool {
    ||| x.seg.1 < opening(y)
    ||| y.seg.1 < opening(x)
    ||| (opening(x) < opening(y) && y.seg.1 < x.seg.1)
    ||| (opening(y) < opening(x) && x.seg.1 < y.seg.1)
}

/// Every bracketed segment lies between a `[` and the `]` that closes it.
pub open spec fn brackets_delimited(segs: Seq<ParsedSegment>, text: Seq<char>) -> bool {
    forall|k: int|
        0 <= k < segs.len() && (#[trigger] segs[k]).tp == SegmentTypes::Bracketed ==> {
            &&& 0 <= opening(segs[k]) < segs[k].seg.1 < text.len()
            &&& text[opening(segs[k])] == '['
            &&& text[segs[k].seg.1 as int] == ']'
        }
}

/// Any two bracketed segments lie apart or nest.
pub open spec fn brackets_nested(segs: Seq<ParsedSegment>) -> bool {
    forall|i: int, j: int|
        0 <= i < j < segs.len() && (#[trigger] segs[i]).tp == SegmentTypes::Bracketed && (
        #[trigger] segs[j]).tp == SegmentTypes::Bracketed ==> disjoint_or_nested(segs[i], segs[j])
}

/// The open brackets on a stack were read at increasing indices, each at a `[`.
pub open spec fn open_brackets_ok(s: Seq<PDAStackCtx>, text: Seq<char>) -> bool {
    &&& forall|k: int|
        0 <= k < s.len() && (#[trigger] s[k]).sym == SegmentDelimSyms::Bracket ==> s[k].seg_start
            < text.len() && text[s[k].seg_start as int] == '['
    &&& forall|k1: int, k2: int|
        0 <= k1 < k2 < s.len() && (#[trigger] s[k1]).sym == SegmentDelimSyms::Bracket && (
        #[trigger] s[k2]).sym == SegmentDelimSyms::Bracket ==> s[k1].seg_start < s[k2].seg_start
}

/// Every bracketed segment lies apart from every bracket still open, or
/// inside it.
pub open spec fn apart_from_open(s: Seq<PDAStackCtx>, segs: Seq<ParsedSegment>) -> bool {
    forall|k: int, j: int|
        0 <= k < s.len() && 0 <= j < segs.len() && (#[trigger] s[k]).sym
            == SegmentDelimSyms::Bracket && (#[trigger] segs[j]).tp == SegmentTypes::Bracketed ==> (
        opening(segs[j]) > s[k].seg_start || segs[j].seg.1 < s[k].seg_start)
}

/// What holds after reading `text` from a fresh start.
pub open spec fn bracket_inv(m: PdaModel, text: Seq<char>) -> bool {
    &&& settled(m)
    &&& m.index == text.len()
    &&& open_brackets_ok(m.stack, text)
    &&& brackets_delimited(m.segments, text)
    &&& brackets_nested(m.segments)
    &&& apart_from_open(m.stack, m.segments)
}

/// No segment of `segs` is a bracketed one.
pub open spec fn no_brackets(segs: Seq<ParsedSegment>) -> bool {
    forall|k: int| 0 <= k < segs.len() ==> (#[trigger] segs[k]).tp != SegmentTypes::Bracketed
}

pub proof fn lemma_drained_no_brackets(s: Seq<PDAStackCtx>, i: usize)
    ensures
        no_brackets(drained(s, i)),
    decreases s.len(),
{
    if s.len() > 0 {
        lemma_drained_no_brackets(s.drop_last(), i);
        let d = drained(s, i);
        assert forall|k: int| 0 <= k < d.len() implies (#[trigger] d[k]).tp
            != SegmentTypes::Bracketed by {
            if k > 0 {
                assert(d[k] == drained(s.drop_last(), i)[k - 1]);
            }
        }
    }
}

proof fn lemma_text_grows(s: Seq<PDAStackCtx>, segs: Seq<ParsedSegment>, text: Seq<char>, c: char)
    requires
        open_brackets_ok(s, text),
        brackets_delimited(segs, text),
    ensures
        open_brackets_ok(s, text.push(c)),
        brackets_delimited(segs, text.push(c)),
{
    let t = text.push(c);
    assert forall|k: int|
        0 <= k < s.len() && (#[trigger] s[k]).sym == SegmentDelimSyms::Bracket implies
            s[k].seg_start < t.len() && t[s[k].seg_start as int] == '[' by {
        assert(t[s[k].seg_start as int] == text[s[k].seg_start as int]);
    }
    assert forall|k: int|
        0 <= k < segs.len() && (#[trigger] segs[k]).tp == SegmentTypes::Bracketed implies {
            &&& 0 <= opening(segs[k]) < segs[k].seg.1 < t.len()
            &&& t[opening(segs[k])] == '['
            &&& t[segs[k].seg.1 as int] == ']'
        } by {
        assert(t[opening(segs[k])] == text[opening(segs[k])]);
        assert(t[segs[k].seg.1 as int] == text[segs[k].seg.1 as int]);
    }
}

proof fn lemma_add_unbracketed(
    s: Seq<PDAStackCtx>,
    segs: Seq<ParsedSegment>,
    extra: Seq<ParsedSegment>,
    text: Seq<char>,
)
    requires
        no_brackets(extra),
        brackets_delimited(segs, text),
        brackets_nested(segs),
        apart_from_open(s, segs),
    ensures
        brackets_delimited(segs + extra, text),
        brackets_nested(segs + extra),
        apart_from_open(s, segs + extra),
{
    let all = segs + extra;
    assert forall|k: int| 0 <= k < all.len() && k >= segs.len() implies (#[trigger] all[k]).tp
        != SegmentTypes::Bracketed by {
        assert(all[k] == extra[k - segs.len()]);
    }
    assert forall|k: int| 0 <= k < segs.len() implies #[trigger] all[k] == segs[k] by {}
}

proof fn lemma_shrink_stack(
    s: Seq<PDAStackCtx>,
    s2: Seq<PDAStackCtx>,
    segs: Seq<ParsedSegment>,
    text: Seq<char>,
)
    requires
        open_brackets_ok(s, text),
        apart_from_open(s, segs),
        s2.len() <= s.len(),
        forall|k: int| 0 <= k < s2.len() ==> s2[k] == s[k],
    ensures
        open_brackets_ok(s2, text),
        apart_from_open(s2, segs),
{
    assert forall|k: int| 0 <= k < s2.len() implies #[trigger] s2[k] == s[k] by {}
}

proof fn lemma_push_entry(
    s: Seq<PDAStackCtx>,
    e: PDAStackCtx,
    segs: Seq<ParsedSegment>,
    text: Seq<char>,
)
    requires
        open_brackets_ok(s, text),
        apart_from_open(s, segs),
        brackets_delimited(segs, text),
        e.sym == SegmentDelimSyms::Bracket ==> {
            &&& e.seg_start < text.len()
            &&& text[e.seg_start as int] == '['
            &&& forall|k: int|
                0 <= k < s.len() && (#[trigger] s[k]).sym == SegmentDelimSyms::Bracket
                    ==> s[k].seg_start < e.seg_start
            &&& forall|j: int|
                0 <= j < segs.len() && (#[trigger] segs[j]).tp == SegmentTypes::Bracketed
                    ==> segs[j].seg.1 < e.seg_start
        },
    ensures
        open_brackets_ok(s.push(e), text),
        apart_from_open(s.push(e), segs),
{
    let s2 = s.push(e);
    assert forall|k: int| 0 <= k < s.len() implies #[trigger] s2[k] == s[k] by {}
    assert(s2[s.len() as int] == e);
}

/// A right bracket closes the bracket on top of the stack.
proof fn lemma_close_top_bracket(
    s: Seq<PDAStackCtx>,
    segs: Seq<ParsedSegment>,
    text: Seq<char>,
    i: usize,
    rank: nat,
)
    requires
        s.len() > 0,
        s.last().sym == SegmentDelimSyms::Bracket,
        s.last().seg_start < i,
        i < text.len(),
        text[i as int] == ']',
        open_brackets_ok(s, text),
        apart_from_open(s, segs),
        brackets_delimited(segs, text),
        brackets_nested(segs),
        forall|j: int|
            0 <= j < segs.len() && (#[trigger] segs[j]).tp == SegmentTypes::Bracketed
                ==> segs[j].seg.1 < i,
    ensures
        ({
            let x = segment(SegmentTypes::Bracketed, (s.last().seg_start + 1) as usize, i, rank);
            &&& open_brackets_ok(s.drop_last(), text)
            &&& apart_from_open(s.drop_last(), segs.push(x))
            &&& brackets_delimited(segs.push(x), text)
            &&& brackets_nested(segs.push(x))
        }),
{
    let top = s.last();
    let x = segment(SegmentTypes::Bracketed, (top.seg_start + 1) as usize, i, rank);
    let n = segs.push(x);
    let s2 = s.drop_last();
    assert(s[s.len() - 1] == top);
    lemma_shrink_stack(s, s2, segs, text);
    assert forall|j: int| 0 <= j < segs.len() implies #[trigger] n[j] == segs[j] by {}
    assert(n[segs.len() as int] == x);
    assert forall|j: int|
        0 <= j < segs.len() && (#[trigger] segs[j]).tp
            == SegmentTypes::Bracketed implies disjoint_or_nested(segs[j], x) by {
        assert(s[s.len() - 1].sym == SegmentDelimSyms::Bracket);
    }
    assert forall|k: int|
        0 <= k < s2.len() && (#[trigger] s2[k]).sym
            == SegmentDelimSyms::Bracket implies s2[k].seg_start < top.seg_start by {
        assert(s2[k] == s[k]);
        assert(s[s.len() - 1].sym == SegmentDelimSyms::Bracket);
    }
    assert(brackets_nested(n));
    assert(apart_from_open(s2, n));
}

proof fn lemma_drain_keeps_brackets(
    s: Seq<PDAStackCtx>,
    segs: Seq<ParsedSegment>,
    text: Seq<char>,
    i: usize,
)
    requires
        open_brackets_ok(s, text),
        apart_from_open(s, segs),
        brackets_delimited(segs, text),
        brackets_nested(segs),
    ensures
        open_brackets_ok(Seq::<PDAStackCtx>::empty(), text),
        apart_from_open(Seq::<PDAStackCtx>::empty(), segs + drained(s, i)),
        brackets_delimited(segs + drained(s, i), text),
        brackets_nested(segs + drained(s, i)),
{
    lemma_drained_no_brackets(s, i);
    lemma_add_unbracketed(s, segs, drained(s, i), text);
    lemma_shrink_stack(s, Seq::<PDAStackCtx>::empty(), segs + drained(s, i), text);
}

proof fn lemma_add_one_unbracketed(
    s: Seq<PDAStackCtx>,
    segs: Seq<ParsedSegment>,
    x: ParsedSegment,
    text: Seq<char>,
)
    requires
        x.tp != SegmentTypes::Bracketed,
        brackets_delimited(segs, text),
        brackets_nested(segs),
        apart_from_open(s, segs),
    ensures
        brackets_delimited(segs.push(x), text),
        brackets_nested(segs.push(x)),
        apart_from_open(s, segs.push(x)),
{
    assert(segs.push(x) =~= segs + seq![x]);
    lemma_add_unbracketed(s, segs, seq![x], text);
}

/// Reading one more character keeps what holds after reading a text.
proof fn lemma_bracket_step(m: PdaModel, text: Seq<char>, c: char)
    requires
        bracket_inv(m, text),
        m.index < usize::MAX,
    ensures
        bracket_inv(advance(little_step(m, input_of_char(c))), text.push(c)),
{
    let x = input_of_char(c);
    let t = text.push(c);
    let i = m.index;
    let s = m.stack;
    let segs = m.segments;
    lemma_read_char_settled(m, c);
    lemma_text_grows(s, segs, text, c);
    assert(t[i as int] == c);
    assert forall|j: int|
        0 <= j < segs.len() && (#[trigger] segs[j]).tp
            == SegmentTypes::Bracketed implies segs[j].seg.1 < i by {}
    assert forall|k: int|
        0 <= k < s.len() && (#[trigger] s[k]).sym
            == SegmentDelimSyms::Bracket implies s[k].seg_start < i by {}
    if s.len() > 0 {
        assert(s[s.len() - 1] == s.last());
    }
    let ss = entry(SegmentDelimSyms::SentenceStart, i);
    let br = entry(SegmentDelimSyms::Bracket, i);
    match m.phase {
        Phase::NewSentence => {
            if x == Input::LeftBracket {
                lemma_push_entry(s, ss, segs, t);
                lemma_push_entry(s.push(ss), br, segs, t);
            } else if x == Input::RightBracket || x is Letter {
                lemma_push_entry(s, ss, segs, t);
            } else if x == Input::EndOfSentence {
                lemma_drain_keeps_brackets(s, segs, t, i);
            }
        },
        Phase::PlainSegment => {
            let top = s.last();
            let n = s.len();
            if x == Input::LeftBracket {
                let p = segment(SegmentTypes::Plain, top.seg_start, i, n);
                lemma_add_one_unbracketed(s, segs, p, t);
                lemma_push_entry(s, br, segs, t);
                lemma_push_entry(s, br, segs.push(p), t);
            } else if x == Input::RightBracket {
                if top.sym == SegmentDelimSyms::Bracket {
                    lemma_close_top_bracket(s, segs, t, i, (n - 1) as nat);
                } else {
                    let p = segment(SegmentTypes::Plain, top.seg_start, i, n);
                    lemma_add_one_unbracketed(s, segs, p, t);
                    lemma_push_entry(
                        s,
                        entry(SegmentDelimSyms::SegmentStart, i),
                        segs.push(p),
                        t,
                    );
                }
            } else if x == Input::EndOfSentence {
                if top.sym == SegmentDelimSyms::SentenceStart || top.sym
                    == SegmentDelimSyms::SegmentStart {
                    let tp = if top.sym == SegmentDelimSyms::SentenceStart {
                        SegmentTypes::Sentence
                    } else {
                        SegmentTypes::Plain
                    };
                    let p = segment(tp, top.seg_start, i, (n - 1) as nat);
                    lemma_add_one_unbracketed(s, segs, p, t);
                    lemma_shrink_stack(s, s.drop_last(), segs.push(p), t);
                } else {
                    lemma_drain_keeps_brackets(s, segs, t, i);
                }
            }
        },
        _ => {
            if x == Input::EndOfSentence {
                lemma_drain_keeps_brackets(s, segs, t, i);
            }
        },
    }
}

proof fn lemma_bracket_read(text: Seq<char>, n: int)
    requires
        0 <= n <= text.len(),
        text.len() <= usize::MAX,
    ensures
        bracket_inv(little_read(little_step(initial(), Input::Start), text.take(n)), text.take(n)),
    decreases n,
{
    let m0 = little_step(initial(), Input::Start);
    if n == 0 {
        assert(text.take(0) =~= Seq::<char>::empty());
        assert(little_read(m0, text.take(0)) == m0);
    } else {
        lemma_bracket_read(text, n - 1);
        let p = text.take(n - 1);
        assert(text.take(n) =~= p.push(text[n - 1]));
        lemma_read_push(m0, p, text[n - 1]);
        lemma_bracket_step(little_read(m0, p), p, text[n - 1]);
    }
}

/// Parsing a text from a fresh start, every bracketed segment lies between a
/// `[` of the text and the `]` that closes it, and any two bracketed segments
/// lie apart or one inside the other.
pub proof fn lemma_fresh_parse_brackets(text: Seq<char>)
    requires
        text.len() <= usize::MAX,
    ensures
        brackets_delimited(little_parse(initial(), text).segments, text),
        brackets_nested(little_parse(initial(), text).segments),
{
    let m0 = little_step(initial(), Input::Start);
    lemma_bracket_read(text, text.len() as int);
    assert(text.take(text.len() as int) =~= text);
    let r = little_read(m0, text);
    if r.stack.len() > 0 {
        let top = r.stack.last();
        assert(r.stack[r.stack.len() - 1] == top);
        lemma_add_one_unbracketed(
            r.stack,
            r.segments,
            segment(SegmentTypes::Tail, top.seg_start, r.index, (r.stack.len() - 1) as nat),
            text,
        );
    }
    lemma_drain_keeps_brackets(r.stack, r.segments, text, r.index);
}

/// Every sentence segment ends at a `.` of the text.
pub open spec fn sentences_end_at_stops(segs: Seq<ParsedSegment>, text: Seq<char>) -> bool {
    forall|k: int|
        0 <= k < segs.len() && (#[trigger] segs[k]).tp == SegmentTypes::Sentence ==> {
            &&& segs[k].seg.1 < text.len()
            &&& text[segs[k].seg.1 as int] == '.'
        }
}

proof fn lemma_drained_ends(s: Seq<PDAStackCtx>, i: usize)
    ensures
        forall|k: int|
            0 <= k < drained(s, i).len() ==> (#[trigger] drained(s, i)[k]).seg.1 == i
                && drained(s, i)[k].tp != SegmentTypes::Sentence,
    decreases s.len(),
{
    if s.len() > 0 {
        lemma_drained_ends(s.drop_last(), i);
        let d = drained(s, i);
        assert forall|k: int| 0 <= k < d.len() implies (#[trigger] d[k]).seg.1 == i && d[k].tp
            != SegmentTypes::Sentence by {
            if k > 0 {
                assert(d[k] == drained(s.drop_last(), i)[k - 1]);
            }
        }
    }
}

/// A step keeps the segments found so far and adds segments that end at the
/// current index; it adds a sentence segment only at the end of a sentence.
pub proof fn lemma_step_adds_at_index(m: PdaModel, x: Input)
    ensures
        ({
            let r = little_step(m, x);
            &&& r.segments.len() >= m.segments.len()
            &&& forall|k: int|
                0 <= k < m.segments.len() ==> #[trigger] r.segments[k] == m.segments[k]
            &&& forall|k: int|
                m.segments.len() <= k < r.segments.len() ==> (#[trigger] r.segments[k]).seg.1
                    == m.index && (r.segments[k].tp == SegmentTypes::Sentence ==> x
                    == Input::EndOfSentence)
        }),
{
    let r = little_step(m, x);
    let segs = m.segments;
    lemma_drained_ends(m.stack, m.index);
    let d = drained(m.stack, m.index);
    assert forall|k: int| 0 <= k < segs.len() implies #[trigger] (segs + d)[k] == segs[k] by {}
    assert forall|k: int| segs.len() <= k < (segs + d).len() implies #[trigger] (segs + d)[k]
        == d[k - segs.len()] by {}
    assert forall|k: int| 0 <= k < segs.len() implies #[trigger] r.segments[k] == segs[k] by {
        if r.segments.len() == segs.len() + 1 {
            assert(r.segments[k] == segs[k]);
        }
    }
}

proof fn lemma_sentence_step(m: PdaModel, text: Seq<char>, c: char)
    requires
        m.index == text.len(),
        sentences_end_at_stops(m.segments, text),
    ensures
        sentences_end_at_stops(advance(little_step(m, input_of_char(c))).segments, text.push(c)),
{
    let t = text.push(c);
    let r = little_step(m, input_of_char(c));
    lemma_step_adds_at_index(m, input_of_char(c));
    assert(t[text.len() as int] == c);
    assert forall|k: int|
        0 <= k < r.segments.len() && (#[trigger] r.segments[k]).tp
            == SegmentTypes::Sentence implies r.segments[k].seg.1 < t.len()
            && t[r.segments[k].seg.1 as int] == '.' by {
        if k < m.segments.len() {
            assert(m.segments[k].tp == SegmentTypes::Sentence);
            assert(t[r.segments[k].seg.1 as int] == text[m.segments[k].seg.1 as int]);
        }
    }
}

proof fn lemma_sentence_read(text: Seq<char>, n: int)
    requires
        0 <= n <= text.len(),
        text.len() <= usize::MAX,
    ensures
        sentences_end_at_stops(
            little_read(little_step(initial(), Input::Start), text.take(n)).segments,
            text.take(n),
        ),
    decreases n,
{
    let m0 = little_step(initial(), Input::Start);
    if n == 0 {
        assert(text.take(0) =~= Seq::<char>::empty());
        assert(little_read(m0, text.take(0)) == m0);
    } else {
        lemma_sentence_read(text, n - 1);
        let p = text.take(n - 1);
        assert(text.take(n) =~= p.push(text[n - 1]));
        lemma_read_push(m0, p, text[n - 1]);
        lemma_step_keeps_wf(initial(), Input::Start);
        lemma_wf_read(m0, p);
        lemma_sentence_step(little_read(m0, p), p, text[n - 1]);
    }
}

/// Parsing a text from a fresh start, every sentence segment ends at a `.`
/// of the text.
pub proof fn lemma_fresh_parse_sentences(text: Seq<char>)
    requires
        text.len() <= usize::MAX,
    ensures
        sentences_end_at_stops(little_parse(initial(), text).segments, text),
{
    let m0 = little_step(initial(), Input::Start);
    lemma_sentence_read(text, text.len() as int);
    assert(text.take(text.len() as int) =~= text);
    let r = little_read(m0, text);
    lemma_step_adds_at_index(r, Input::EndOfInput);
    let e = little_step(r, Input::EndOfInput);
    assert forall|k: int|
        0 <= k < e.segments.len() && (#[trigger] e.segments[k]).tp
            == SegmentTypes::Sentence implies e.segments[k].seg.1 < text.len()
            && text[e.segments[k].seg.1 as int] == '.' by {
        assert(k < r.segments.len());
        assert(r.segments[k].tp == SegmentTypes::Sentence);
    }
}

proof fn lemma_drained_ranks(s: Seq<PDAStackCtx>, i: usize)
    requires
        s.len() <= usize::MAX,
    ensures
        forall|k: int| 0 <= k < drained(s, i).len() ==> (#[trigger] drained(s, i)[k]).rank < s.len(),
    decreases s.len(),
{
    if s.len() > 0 {
        lemma_drained_ranks(s.drop_last(), i);
        let d = drained(s, i);
        assert forall|k: int| 0 <= k < d.len() implies (#[trigger] d[k]).rank < s.len() by {
            if k > 0 {
                assert(d[k] == drained(s.drop_last(), i)[k - 1]);
            }
        }
    }
}

/// Reading a character in a settled state keeps every segment found so far,
/// and each segment it adds ends at the current index, starts no later, and
/// lies no deeper than the stack before the step.
pub proof fn lemma_char_adds_bounded(m: PdaModel, c: char)
    requires
        settled(m),
        m.index < usize::MAX,
        m.stack.len() <= usize::MAX,
    ensures
        ({
            let r = little_step(m, input_of_char(c));
            &&& r.segments.len() >= m.segments.len()
            &&& forall|k: int|
                0 <= k < m.segments.len() ==> #[trigger] r.segments[k] == m.segments[k]
            &&& forall|k: int|
                m.segments.len() <= k < r.segments.len() ==> {
                    &&& (#[trigger] r.segments[k]).seg.1 == m.index
                    &&& r.segments[k].seg.0 <= r.segments[k].seg.1
                    &&& r.segments[k].rank <= m.stack.len()
                }
        }),
{
    let x = input_of_char(c);
    let r = little_step(m, x);
    lemma_step_adds_at_index(m, x);
    lemma_read_char_settled(m, c);
    lemma_drained_ranks(m.stack, m.index);
    let d = drained(m.stack, m.index);
    assert forall|k: int| m.segments.len() <= k < r.segments.len() implies (
    #[trigger] r.segments[k]).rank <= m.stack.len() by {
        if r.segments == m.segments + d {
            assert(r.segments[k] == d[k - m.segments.len()]);
        }
    }
    assert forall|k: int| m.segments.len() <= k < r.segments.len() implies (
    #[trigger] r.segments[k]).seg.0 <= r.segments[k].seg.1 by {
        assert(advance(r).segments[k] == r.segments[k]);
    }
}

/// A closer description of the states reached between two characters from a
/// fresh start: well-formed, with every stack entry begun before the index
/// and in the order read, and an unbalanced segment only ever right on a
/// sentence start.
pub open spec fn tight(m: PdaModel) -> bool {
    let s = m.stack;
    &&& wf(m)
    &&& forall|k: int| 0 <= k < s.len() ==> #[trigger] s[k].seg_start < m.index
    &&& forall|k1: int, k2: int|
        0 <= k1 < k2 < s.len() ==> #[trigger] s[k1].seg_start <= #[trigger] s[k2].seg_start
    &&& m.phase == Phase::InvalidSegment ==> (s.len() == 1 || (s.len() == 2 && s[1].sym
        == SegmentDelimSyms::SegmentStart))
}

/// Reading a character keeps that tighter description.
pub proof fn lemma_char_keeps_tight(m: PdaModel, c: char)
    requires
        tight(m),
        m.index < usize::MAX,
    ensures
        tight(advance(little_step(m, input_of_char(c)))),
{
    let x = input_of_char(c);
    let r = little_step(m, x);
    let a = advance(r);
    lemma_step_keeps_wf(m, x);
    lemma_advance_keeps_wf(r);
    let s = m.stack;
    if s.len() > 0 {
        assert(s[s.len() - 1] == s.last());
    }
    if s.len() > 1 && m.phase == Phase::PlainSegment {
        assert(s[s.len() - 1].sym == SegmentDelimSyms::Bracket);
    }
    let t = a.stack;
    assert forall|k: int| 0 <= k < t.len() implies #[trigger] t[k].seg_start < a.index by {
        if k < s.len() {
            assert(t[k] == s[k]);
        }
    }
    assert forall|k1: int, k2: int|
        0 <= k1 < k2 < t.len() implies #[trigger] t[k1].seg_start <= #[trigger] t[k2].seg_start by {
        if k2 < s.len() {
            assert(t[k1] == s[k1] && t[k2] == s[k2]);
        } else if k1 < s.len() {
            assert(t[k1] == s[k1]);
        }
    }
}

/// A fresh start is tight, and reading any text that fits the index keeps it
/// tight.
pub proof fn lemma_fresh_read_tight(text: Seq<char>)
    requires
        text.len() < usize::MAX,
    ensures
        tight(little_read(little_step(initial(), Input::Start), text)),
    decreases text.len(),
{
    let m0 = little_step(initial(), Input::Start);
    if text.len() == 0 {
        assert(little_read(m0, text) == m0);
    } else {
        let p = text.drop_last();
        lemma_fresh_read_tight(p);
        assert(text =~= p.push(text.last()));
        lemma_read_push(m0, p, text.last());
        lemma_step_keeps_wf(initial(), Input::Start);
        lemma_wf_read(m0, p);
        lemma_char_keeps_tight(little_read(m0, p), text.last());
    }
}

} // verus!
