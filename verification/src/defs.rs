use vstd::prelude::*;

verus! {

/// The symbols that the automata keep on their stack: where a sentence began,
/// where an unbalanced segment began, and where a bracket was opened.
#[derive(Clone, Copy, Debug)]
pub enum SegmentDelimSyms {
    SentenceStart,
    SegmentStart,
    Bracket,
}

impl PartialEq for SegmentDelimSyms {
    fn eq(&self, other: &Self) -> (r: bool) {
        match (self, other) {
            (SegmentDelimSyms::SentenceStart, SegmentDelimSyms::SentenceStart) => true,
            (SegmentDelimSyms::SegmentStart, SegmentDelimSyms::SegmentStart) => true,
            (SegmentDelimSyms::Bracket, SegmentDelimSyms::Bracket) => true,
            _ => false,
        }
    }
}

impl vstd::std_specs::cmp::PartialEqSpecImpl for SegmentDelimSyms {
    open spec fn obeys_eq_spec() -> bool {
        true
    }

    open spec fn eq_spec(&self, other: &Self) -> bool {
        *self == *other
    }
}

/// One entry of an automaton's stack: a symbol and the index at which it was pushed.
#[derive(Clone, Copy, Debug)]
pub struct PDAStackCtx {
    pub sym: SegmentDelimSyms,
    pub seg_start: usize,
}

/// A symbol equals a stack entry when the entry holds that symbol.
impl PartialEq<PDAStackCtx> for SegmentDelimSyms {
    fn eq(&self, other: &PDAStackCtx) -> (r: bool) {
        *self == other.sym
    }
}

impl vstd::std_specs::cmp::PartialEqSpecImpl<PDAStackCtx> for SegmentDelimSyms {
    open spec fn obeys_eq_spec() -> bool {
        true
    }

    open spec fn eq_spec(&self, other: &PDAStackCtx) -> bool {
        *self == other.sym
    }
}

/// Two stack entries are equal when they hold the same symbol, wherever they began.
impl PartialEq for PDAStackCtx {
    fn eq(&self, other: &PDAStackCtx) -> (r: bool) {
        self.sym == other.sym
    }
}

impl vstd::std_specs::cmp::PartialEqSpecImpl for PDAStackCtx {
    open spec fn obeys_eq_spec() -> bool {
        true
    }

    open spec fn eq_spec(&self, other: &PDAStackCtx) -> bool {
        self.sym == other.sym
    }
}

/// The kinds of segments that the automata report.
#[derive(Clone, Copy, Debug, PartialEq, Eq, Structural)]
pub enum SegmentTypes {
    Sentence,
    Tail,
    Plain,
    Bracketed,
    InvalidSentence,
    UnbalancedLeftBracket,
    UnbalancedRightSth,
}

impl SegmentTypes {
    /// The name of each kind, as the report prints it.
    pub open spec fn kind_name(self) -> Seq<char> {
        match self {
            SegmentTypes::Sentence => "Sentence"@,
            SegmentTypes::Tail => "Tail"@,
            SegmentTypes::Plain => "Plain"@,
            SegmentTypes::Bracketed => "Bracketed"@,
            SegmentTypes::InvalidSentence => "InvalidSentence"@,
            SegmentTypes::UnbalancedLeftBracket => "UnbalancedLeftBracket"@,
            SegmentTypes::UnbalancedRightSth => "UnbalancedRightSth"@,
        }
    }

    /// The name of this kind.
    pub fn name(&self) -> (r: &'static str)
        ensures
            r@ == self.kind_name(),
    {
        match self {
            SegmentTypes::Sentence => "Sentence",
            SegmentTypes::Tail => "Tail",
            SegmentTypes::Plain => "Plain",
            SegmentTypes::Bracketed => "Bracketed",
            SegmentTypes::InvalidSentence => "InvalidSentence",
            SegmentTypes::UnbalancedLeftBracket => "UnbalancedLeftBracket",
            SegmentTypes::UnbalancedRightSth => "UnbalancedRightSth",
        }
    }
}

/// A recognised segment: its kind, the half-open range `[seg.0, seg.1)` of
/// character indices it covers, and its nesting depth.
#[derive(Clone, Copy, Debug)]
pub struct ParsedSegment {
    pub tp: SegmentTypes,
    pub seg: (usize, usize),
    pub rank: usize,
}

/// Two segments are equal when they cover the same range at the same depth.
impl PartialEq for ParsedSegment {
    fn eq(&self, other: &Self) -> (r: bool) {
        self.seg.0 == other.seg.0 && self.seg.1 == other.seg.1 && self.rank == other.rank
    }
}

impl vstd::std_specs::cmp::PartialEqSpecImpl for ParsedSegment {
    open spec fn obeys_eq_spec() -> bool {
        true
    }

    open spec fn eq_spec(&self, other: &Self) -> bool {
        self.seg.0 == other.seg.0 && self.seg.1 == other.seg.1 && self.rank == other.rank
    }
}

impl Eq for ParsedSegment {}

impl ParsedSegment {
    /// `self` leaves a segment queue before `other`: it starts earlier, or it
    /// starts at the same index and ends later.
    pub open spec fn precedes(self, other: Self) -> bool {
        self.seg.0 < other.seg.0 || (self.seg.0 == other.seg.0 && self.seg.1 > other.seg.1)
    }

    /// Whether `self` leaves a segment queue before `other`.
    pub fn outranks(&self, other: &Self) -> (r: bool)
        ensures
            r == self.precedes(*other),
            r <==> self.seg.0 < other.seg.0 || (self.seg.0 == other.seg.0 && self.seg.1
                > other.seg.1),
    {
        self.seg.0 < other.seg.0 || (self.seg.0 == other.seg.0 && self.seg.1 > other.seg.1)
    }
}

/// Segments are ordered by the queue: the one that precedes the other is the
/// greater, and segments that cover the same range compare equal.
impl PartialOrd for ParsedSegment {
    fn partial_cmp(&self, other: &Self) -> (r: Option<core::cmp::Ordering>) {
        if self.seg.0 < other.seg.0 {
            Some(core::cmp::Ordering::Greater)
        } else if self.seg.0 > other.seg.0 {
            Some(core::cmp::Ordering::Less)
        } else if self.seg.1 < other.seg.1 {
            Some(core::cmp::Ordering::Less)
        } else if self.seg.1 > other.seg.1 {
            Some(core::cmp::Ordering::Greater)
        } else {
            Some(core::cmp::Ordering::Equal)
        }
    }
}

impl vstd::std_specs::cmp::PartialOrdSpecImpl for ParsedSegment {
    open spec fn obeys_partial_cmp_spec() -> bool {
        true
    }

    open spec fn partial_cmp_spec(&self, other: &Self) -> Option<core::cmp::Ordering> {
        if self.precedes(*other) {
            Some(core::cmp::Ordering::Greater)
        } else if other.precedes(*self) {
            Some(core::cmp::Ordering::Less)
        } else {
            Some(core::cmp::Ordering::Equal)
        }
    }
}

/// How two segments compare, by their positions in the text: the greater
/// starts earlier, or starts at the same index and ends later; segments that
/// cover the same range compare equal.
pub proof fn lemma_partial_cmp_by_position(a: ParsedSegment, b: ParsedSegment)
    ensures
        vstd::std_specs::cmp::PartialOrdSpec::partial_cmp_spec(&a, &b) == Some(
            core::cmp::Ordering::Greater,
        ) <==> (a.seg.0 < b.seg.0 || (a.seg.0 == b.seg.0 && a.seg.1 > b.seg.1)),
        vstd::std_specs::cmp::PartialOrdSpec::partial_cmp_spec(&a, &b) == Some(
            core::cmp::Ordering::Less,
        ) <==> (b.seg.0 < a.seg.0 || (a.seg.0 == b.seg.0 && a.seg.1 < b.seg.1)),
        vstd::std_specs::cmp::PartialOrdSpec::partial_cmp_spec(&a, &b) == Some(
            core::cmp::Ordering::Equal,
        ) <==> a.seg == b.seg,
{
}

impl ParsedSegment {
    /// The total order of the queue, as `partial_cmp` gives it.
    pub fn cmp(&self, other: &Self) -> (r: core::cmp::Ordering)
        ensures
            Some(r) == vstd::std_specs::cmp::PartialOrdSpec::partial_cmp_spec(self, other),
    {
        if self.outranks(other) {
            core::cmp::Ordering::Greater
        } else if other.outranks(self) {
            core::cmp::Ordering::Less
        } else {
            core::cmp::Ordering::Equal
        }
    }
}

/// Where the queue's scan settles among the first `n` segments: the first
/// segment that no other of them precedes.
pub open spec fn best_index(s: Seq<ParsedSegment>, n: int) -> int
    decreases n,
{
    if n <= 1 {
        0
    } else {
        let b = best_index(s, n - 1);
        if s[n - 1].precedes(s[b]) {
            n - 1
        } else {
            b
        }
    }
}

/// The segment that leaves the queue next.
pub open spec fn next_out(s: Seq<ParsedSegment>) -> int {
    best_index(s, s.len() as int)
}

/// The order in which every segment of `s` leaves the queue.
pub open spec fn queue_order(s: Seq<ParsedSegment>) -> Seq<ParsedSegment>
    decreases s.len(),
{
    if s.len() == 0 {
        Seq::empty()
    } else {
        proof {
            lemma_best_index_bounds(s, s.len() as int);
        }
        seq![s[next_out(s)]] + queue_order(s.remove(next_out(s)))
    }
}

pub proof fn lemma_best_index_bounds(s: Seq<ParsedSegment>, n: int)
    requires
        1 <= n,
    ensures
        0 <= best_index(s, n) < n,
    decreases n,
{
    if n > 1 {
        lemma_best_index_bounds(s, n - 1);
    }
}

/// The state of a parse: the segments recognised so far, and the index of the
/// character being read.
pub struct ParserCtx {
    pub segments: Vec<ParsedSegment>,
    pub index: usize,
}

impl ParserCtx {
    /// Records a segment found.
    pub(crate) fn push_segment(&mut self, tp: SegmentTypes, start: usize, end: usize, rank: usize)
        ensures
            final(self).index == old(self).index,
            final(self).segments@ == old(self).segments@.push(
                ParsedSegment { tp, seg: (start, end), rank },
            ),
    {
        self.segments.push(ParsedSegment { tp, seg: (start, end), rank });
    }

    /// Takes out the segment that comes first: the one that starts earliest,
    /// and among those the one that ends latest; among equal ranges, the one
    /// that was recognised first.
    pub fn pop_segment(&mut self) -> (r: Option<ParsedSegment>)
        ensures
            final(self).index == old(self).index,
            old(self).segments@.len() == 0 ==> r is None && final(self).segments@ == old(
                self,
            ).segments@,
            old(self).segments@.len() > 0 ==> {
                let k = next_out(old(self).segments@);
                &&& r == Some(old(self).segments@[k])
                &&& final(self).segments@ == old(self).segments@.remove(k)
            },
            forall|j: int|
                0 <= j < old(self).segments@.len() && r is Some ==> {
                    let x = #[trigger] old(self).segments@[j];
                    let t = r->0;
                    ||| t.seg.0 < x.seg.0
                    ||| (t.seg.0 == x.seg.0 && t.seg.1 >= x.seg.1)
                },
    {
        let n = self.segments.len();
        if n == 0 {
            return None;
        }
        let mut b: usize = 0;
        let mut i: usize = 1;
        while i < n
            invariant
                1 <= i <= n,
                n == self.segments@.len(),
                b == best_index(self.segments@, i as int),
                b < i,
            decreases n - i,
        {
            if self.segments[i].outranks(&self.segments[b]) {
                b = i;
            }
            i = i + 1;
        }
        proof {
            crate::laws::lemma_best_index_is_first_maximal(self.segments@, n as int);
        }
        let r = self.segments.remove(b);
        Some(r)
    }
}

} // verus!
