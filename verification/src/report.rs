use vstd::prelude::*;

use substring::Substring;

use crate::defs::{lemma_best_index_bounds, next_out, queue_order, ParsedSegment, ParserCtx};

verus! {

/// The characters of `text` from index `start` up to `end`, counted in
/// characters, cut at the end of the text; nothing when `end <= start`.
pub open spec fn char_range(text: Seq<char>, start: int, end: int) -> Seq<char> {
    if end <= start {
        Seq::empty()
    } else {
        let len = text.len() as int;
        let a = if start < len {
            start
        } else {
            len
        };
        let b = if end < len {
            end
        } else {
            len
        };
        text.subrange(a, b)
    }
}

/// `Substring::substring` of the `substring` crate, on `str`: the slice of
/// `text` from the `start`-th character up to the `end`-th, each index cut to
/// the text's length, and the empty slice when `end <= start`.
#[verifier::external_body]
fn substring_of<'a>(text: &'a str, start: usize, end: usize) -> (r: &'a str)
    ensures
        r@ == char_range(text@, start as int, end as int),
{
    text.substring(start, end)
}

pub open spec fn digit_char(d: nat) -> char {
    if d == 0 {
        '0'
    } else if d == 1 {
        '1'
    } else if d == 2 {
        '2'
    } else if d == 3 {
        '3'
    } else if d == 4 {
        '4'
    } else if d == 5 {
        '5'
    } else if d == 6 {
        '6'
    } else if d == 7 {
        '7'
    } else if d == 8 {
        '8'
    } else {
        '9'
    }
}

/// The decimal digits of `n`, most significant first.
pub open spec fn decimal(n: nat) -> Seq<char>
    decreases n,
{
    if n < 10 {
        seq![digit_char(n)]
    } else {
        decimal(n / 10).push(digit_char(n % 10))
    }
}

/// `n` tab characters.
pub open spec fn tabs(n: nat) -> Seq<char> {
    Seq::new(n, |i: int| '\t')
}

/// The report line of a segment of `text`: one tab per level of nesting, the
/// segment's kind, its range, and the characters it covers, as in
/// `\t\t Bracketed[32 37) -> chest`.
pub open spec fn report_line(text: Seq<char>, s: ParsedSegment) -> Seq<char> {
    tabs(s.rank as nat) + " "@ + s.tp.kind_name() + "["@ + decimal(s.seg.0 as nat) + " "@
        + decimal(s.seg.1 as nat) + ") -> "@ + char_range(text, s.seg.0 as int, s.seg.1 as int)
}

/// The number that the decimal digits `d` stand for, most significant first.
pub open spec fn digits_value(d: Seq<char>) -> int
    decreases d.len(),
{
    if d.len() == 0 {
        0
    } else {
        digits_value(d.drop_last()) * 10 + (d.last() as int - '0' as int)
    }
}

/// `d` writes `n` in decimal: at least one digit, digits only, no leading
/// zero, and the digits stand for `n`.
pub open spec fn writes_decimal(d: Seq<char>, n: int) -> bool {
    &&& d.len() >= 1
    &&& forall|i: int| 0 <= i < d.len() ==> '0' as int <= #[trigger] d[i] as int <= '9' as int
    &&& d.len() > 1 ==> d[0] != '0'
    &&& digits_value(d) == n
}

proof fn lemma_digit_char(d: nat)
    requires
        d < 10,
    ensures
        digit_char(d) as int - '0' as int == d,
{
}

/// The decimal digits of `n` write `n` in decimal, with no leading zero.
pub proof fn lemma_decimal_writes(n: nat)
    ensures
        writes_decimal(decimal(n), n as int),
        n > 0 ==> decimal(n)[0] != '0',
    decreases n,
{
    if n < 10 {
        lemma_digit_char(n);
        let d = decimal(n);
        assert(d.drop_last() =~= Seq::<char>::empty());
        assert(digits_value(d.drop_last()) == 0);
        assert(d.last() == digit_char(n));
        assert(digits_value(d) == n);
        assert(d.len() == 1);
        assert('0' as int <= d[0] as int <= '9' as int);
    } else {
        lemma_decimal_writes(n / 10);
        lemma_digit_char(n % 10);
        let d = decimal(n);
        assert(d.drop_last() =~= decimal(n / 10));
        assert(d[0] == decimal(n / 10)[0]);
        assert forall|i: int| 0 <= i < d.len() implies '0' as int <= #[trigger] d[i] as int
            <= '9' as int by {
            if i < d.len() - 1 {
                assert(d[i] == decimal(n / 10)[i]);
            }
        }
        assert(digits_value(d) == n);
        assert(d.len() > 1);
    }
}

/// A report line is laid out as: exactly `rank` tabs, a space, the kind's
/// name, `[`, the start written in decimal, a space, the end written in
/// decimal, `) -> `, and the characters of the text from the start up to the
/// end (cut at the end of the text; none when the end is not after the
/// start).
pub proof fn lemma_report_line_layout(text: Seq<char>, s: ParsedSegment)
    ensures
        report_line(text, s) == Seq::new(s.rank as nat, |i: int| '\t') + " "@ + s.tp.kind_name()
            + "["@ + decimal(s.seg.0 as nat) + " "@ + decimal(s.seg.1 as nat) + ") -> "@
            + char_range(text, s.seg.0 as int, s.seg.1 as int),
        report_line(text, s).len() > s.rank,
        report_line(text, s).take(s.rank as int) == Seq::new(s.rank as nat, |i: int| '\t'),
        report_line(text, s)[s.rank as int] == ' ',
        writes_decimal(decimal(s.seg.0 as nat), s.seg.0 as int),
        writes_decimal(decimal(s.seg.1 as nat), s.seg.1 as int),
        s.seg.0 < s.seg.1 ==> char_range(text, s.seg.0 as int, s.seg.1 as int).len() == (if s.seg.1
            < text.len() {
            s.seg.1 as int
        } else {
            text.len() as int
        }) - (if s.seg.0 < text.len() {
            s.seg.0 as int
        } else {
            text.len() as int
        }),
        s.seg.0 < s.seg.1 ==> forall|i: int|
            0 <= i < char_range(text, s.seg.0 as int, s.seg.1 as int).len() ==> #[trigger] char_range(
                text,
                s.seg.0 as int,
                s.seg.1 as int,
            )[i] == text[s.seg.0 + i],
        s.seg.1 <= s.seg.0 ==> char_range(text, s.seg.0 as int, s.seg.1 as int).len() == 0,
{
    reveal_strlit(" ");
    lemma_decimal_writes(s.seg.0 as nat);
    lemma_decimal_writes(s.seg.1 as nat);
    let t = Seq::new(s.rank as nat, |i: int| '\t');
    assert(tabs(s.rank as nat) =~= t);
    let line = report_line(text, s);
    let rest = " "@ + s.tp.kind_name() + "["@ + decimal(s.seg.0 as nat) + " "@ + decimal(
        s.seg.1 as nat,
    ) + ") -> "@ + char_range(text, s.seg.0 as int, s.seg.1 as int);
    assert(line =~= t + rest);
    assert(rest[0] == ' ');
    assert(line.take(s.rank as int) =~= t);
    assert(line[s.rank as int] == rest[0]);
}

fn digit_str(d: usize) -> (r: &'static str)
    requires
        d < 10,
    ensures
        r@ == seq![digit_char(d as nat)],
{
    if d == 0 {
        proof {
            reveal_strlit("0");
        }
        "0"
    } else if d == 1 {
        proof {
            reveal_strlit("1");
        }
        "1"
    } else if d == 2 {
        proof {
            reveal_strlit("2");
        }
        "2"
    } else if d == 3 {
        proof {
            reveal_strlit("3");
        }
        "3"
    } else if d == 4 {
        proof {
            reveal_strlit("4");
        }
        "4"
    } else if d == 5 {
        proof {
            reveal_strlit("5");
        }
        "5"
    } else if d == 6 {
        proof {
            reveal_strlit("6");
        }
        "6"
    } else if d == 7 {
        proof {
            reveal_strlit("7");
        }
        "7"
    } else if d == 8 {
        proof {
            reveal_strlit("8");
        }
        "8"
    } else {
        proof {
            reveal_strlit("9");
        }
        "9"
    }
}

/// Appends the decimal digits of `n` to `out`.
fn append_decimal(out: &mut String, n: usize)
    ensures
        final(out)@ == old(out)@ + decimal(n as nat),
    decreases n,
{
    let ghost start = out@;
    if n >= 10 {
        append_decimal(out, n / 10);
    }
    out.append(digit_str(n % 10));
    proof {
        if n >= 10 {
            assert(start + decimal(n as nat) =~= start + decimal((n / 10) as nat) + seq![
                digit_char((n % 10) as nat),
            ]);
        } else {
            assert(decimal(n as nat) == seq![digit_char(n as nat)]);
        }
    }
}

/// The report line of `seg`, a segment of `text`.
pub fn render_segment(text: &str, seg: &ParsedSegment) -> (r: String)
    ensures
        r@ == report_line(text@, *seg),
        r@.len() > seg.rank,
        r@.take(seg.rank as int) == Seq::new(seg.rank as nat, |i: int| '\t'),
        r@[seg.rank as int] == ' ',
{
    proof {
        lemma_report_line_layout(text@, *seg);
    }
    let mut out = String::new();
    let mut k: usize = 0;
    while k < seg.rank
        invariant
            k <= seg.rank,
            out@ == tabs(k as nat),
        decreases seg.rank - k,
    {
        out.append("\t");
        proof {
            reveal_strlit("\t");
        }
        k = k + 1;
        assert(out@ =~= tabs(k as nat));
    }
    out.append(" ");
    out.append(seg.tp.name());
    out.append("[");
    append_decimal(&mut out, seg.seg.0);
    out.append(" ");
    append_decimal(&mut out, seg.seg.1);
    out.append(") -> ");
    out.append(substring_of(text, seg.seg.0, seg.seg.1));
    out
}

impl ParserCtx {
    /// Takes every segment out, first to last, and gives the report line of
    /// each, as a segment of `text`.
    pub fn report(&mut self, text: &str) -> (r: Vec<String>)
        ensures
            final(self).index == old(self).index,
            final(self).segments@.len() == 0,
            r@.len() == queue_order(old(self).segments@).len(),
            forall|i: int|
                0 <= i < r@.len() ==> #[trigger] r@[i]@ == report_line(
                    text@,
                    queue_order(old(self).segments@)[i],
                ),
    {
        let ghost all = queue_order(self.segments@);
        let mut lines: Vec<String> = Vec::new();
        while self.segments.len() > 0
            invariant
                self.index == old(self).index,
                all == queue_order(old(self).segments@),
                all.len() == lines@.len() + queue_order(self.segments@).len(),
                forall|i: int| 0 <= i < lines@.len() ==> #[trigger] lines@[i]@ == report_line(
                    text@,
                    all[i],
                ),
                forall|i: int|
                    0 <= i < queue_order(self.segments@).len() ==> all[lines@.len() + i]
                        == #[trigger] queue_order(self.segments@)[i],
            decreases self.segments@.len(),
        {
            let ghost before = self.segments@;
            let seg = self.pop_segment().unwrap();
            proof {
                lemma_best_index_bounds(before, before.len() as int);
                let q = queue_order(before);
                assert(q == seq![before[next_out(before)]] + queue_order(self.segments@));
                assert(q[0] == seg);
                assert forall|i: int| 0 <= i < queue_order(self.segments@).len() implies all[
                    lines@.len() + 1 + i] == #[trigger] queue_order(self.segments@)[i] by {
                    assert(q[i + 1] == queue_order(self.segments@)[i]);
                }
            }
            let line = render_segment(text, &seg);
            lines.push(line);
        }
        lines
    }
}

} // verus!
