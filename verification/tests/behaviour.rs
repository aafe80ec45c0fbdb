use pda_parser::create_parser_nondet_pda_instance;
use pda_parser::create_parser_pda_instance;
use pda_parser::defs::{PDAStackCtx, ParsedSegment, ParserCtx, SegmentDelimSyms, SegmentTypes};
use pda_parser::nondet_pda_report;
use pda_parser::parser_nondet_pda::{ParserNonDetPDASignals, ParserNonDetPDAStates};
use pda_parser::parser_pda::{signal_of_char, LittleParserSignals, LittleParserStates};
use pda_parser::pda_report;
use pda_parser::report::render_segment;

fn seg(tp: SegmentTypes, start: usize, end: usize, rank: usize) -> ParsedSegment {
    ParsedSegment { tp, seg: (start, end), rank }
}

#[test]
fn both_automata_report_the_same() {
    let texts = [
        "",
        "a.",
        "One. Two [three]. Four",
        "x]y. [[a] b]. ]].",
        "no end [here",
        "a [b] c [[d]] e. f [g [h] i] j.",
        "[]",
        "].",
        "a [b.",
        "x [y [z] w. v [[u.",
    ];
    for t in texts.iter() {
        assert_eq!(pda_report(t), nondet_pda_report(t), "text {:?}", t);
    }
}

#[test]
fn sentence_ending_inside_a_bracket_is_unbalanced() {
    let lines = pda_report("[a.");
    assert_eq!(
        lines,
        vec![
            "\t UnbalancedLeftBracket[0 2) -> [a".to_string(),
            " InvalidSentence[0 2) -> [a".to_string(),
        ]
    );
}

#[test]
fn stop_closes_everything_and_resets_the_index() {
    let mut p = create_parser_pda_instance();
    p.start();
    assert!(*p.state() == LittleParserStates::NewSentence);
    p.next(&LittleParserSignals::Letter('a'));
    p.next(&LittleParserSignals::LeftBracket);
    p.next(&LittleParserSignals::Letter('b'));
    assert!(*p.state() == LittleParserStates::PlainSegment);
    assert_eq!(p.data().index, 3);
    p.stop();
    assert!(*p.state() == LittleParserStates::Idle);
    assert_eq!(p.data().index, 0);
    let d = p.data_mut();
    assert_eq!(
        d.pop_segment().map(|s| (s.tp, s.seg, s.rank)),
        Some((SegmentTypes::InvalidSentence, (0, 3), 0))
    );
    assert_eq!(d.pop_segment().map(|s| (s.tp, s.seg, s.rank)), Some((SegmentTypes::Plain, (0, 1), 1)));
    assert_eq!(
        d.pop_segment().map(|s| (s.tp, s.seg, s.rank)),
        Some((SegmentTypes::UnbalancedLeftBracket, (1, 3), 1))
    );
    assert!(d.pop_segment().is_none());
}

#[test]
fn text_without_end_of_sentence_is_a_tail() {
    assert_eq!(pda_report("ab"), vec![" Tail[0 2) -> ab".to_string()]);
}

#[test]
fn stray_right_bracket_makes_an_unbalanced_segment() {
    assert_eq!(
        pda_report("ab]c."),
        vec![
            " InvalidSentence[0 4) -> ab]c".to_string(),
            "\t Plain[0 2) -> ab".to_string(),
            "\t UnbalancedRightSth[2 4) -> ]c".to_string(),
        ]
    );
}

#[test]
fn invalid_segment_ignores_letters_and_brackets() {
    let mut p = create_parser_pda_instance();
    p.start();
    p.next(&LittleParserSignals::RightBracket);
    assert!(*p.state() == LittleParserStates::InvalidSegment);
    p.next(&LittleParserSignals::Letter('q'));
    p.next(&LittleParserSignals::LeftBracket);
    p.next(&LittleParserSignals::RightBracket);
    assert!(*p.state() == LittleParserStates::InvalidSegment);
    assert_eq!(p.data().index, 4);
    assert!(p.data().segments.is_empty());
}

#[test]
fn signal_does_not_move_the_index() {
    let mut p = create_parser_pda_instance();
    p.signal(&LittleParserSignals::Start);
    p.signal(&LittleParserSignals::Letter('z'));
    assert_eq!(p.data().index, 0);
    assert!(*p.state() == LittleParserStates::PlainSegment);
    p.signal(&LittleParserSignals::EndOfSentence);
    assert!(*p.state() == LittleParserStates::NewSentence);
    let s = p.data_mut().pop_segment().unwrap();
    assert_eq!((s.tp, s.seg, s.rank), (SegmentTypes::Sentence, (0, 0), 0));
}

#[test]
fn idle_reacts_only_to_start_and_the_ends() {
    let mut p = create_parser_pda_instance();
    p.next(&LittleParserSignals::Letter('a'));
    assert!(*p.state() == LittleParserStates::Idle);
    p.next(&LittleParserSignals::EndOfSentence);
    assert!(*p.state() == LittleParserStates::NewSentence);
    assert_eq!(p.data().index, 2);
}

#[test]
fn nondet_parser_follows_the_same_transitions() {
    let mut p = create_parser_nondet_pda_instance();
    p.start();
    p.next(&ParserNonDetPDASignals::LeftBracket);
    p.next(&ParserNonDetPDASignals::Letter('x'));
    p.next(&ParserNonDetPDASignals::RightBracket);
    assert!(*p.state() == ParserNonDetPDAStates::PlainSegment);
    p.next(&ParserNonDetPDASignals::RightBracket);
    assert!(*p.state() == ParserNonDetPDAStates::InvalidSegment);
    p.next(&ParserNonDetPDASignals::EndOfSentence);
    assert!(*p.state() == ParserNonDetPDAStates::NewSentence);
    p.stop();
    assert!(*p.state() == ParserNonDetPDAStates::Idle);
    assert_eq!(p.data().index, 0);
    let lines = p.data_mut().report("[x]].");
    assert_eq!(
        lines,
        vec![
            " InvalidSentence[0 4) -> [x]]".to_string(),
            "\t Plain[0 3) -> [x]".to_string(),
            "\t Bracketed[1 2) -> x".to_string(),
            "\t UnbalancedRightSth[3 4) -> ]".to_string(),
        ]
    );
}

#[test]
fn queue_gives_earliest_start_then_latest_end() {
    let mut ctx = ParserCtx {
        segments: vec![
            seg(SegmentTypes::Plain, 5, 6, 0),
            seg(SegmentTypes::Plain, 0, 3, 1),
            seg(SegmentTypes::Sentence, 0, 9, 0),
            seg(SegmentTypes::Bracketed, 2, 2, 2),
            seg(SegmentTypes::Tail, 0, 9, 3),
        ],
        index: 7,
    };
    let order: Vec<(SegmentTypes, usize, usize)> =
        std::iter::from_fn(|| ctx.pop_segment().map(|s| (s.tp, s.seg.0, s.seg.1))).collect();
    assert_eq!(
        order,
        vec![
            (SegmentTypes::Sentence, 0, 9),
            (SegmentTypes::Tail, 0, 9),
            (SegmentTypes::Plain, 0, 3),
            (SegmentTypes::Bracketed, 2, 2),
            (SegmentTypes::Plain, 5, 6),
        ]
    );
    assert_eq!(ctx.index, 7);
}

#[test]
fn segment_order_and_equality() {
    let a = seg(SegmentTypes::Plain, 0, 3, 1);
    let b = seg(SegmentTypes::Bracketed, 1, 2, 1);
    let c = seg(SegmentTypes::Sentence, 0, 5, 1);
    let d = seg(SegmentTypes::Tail, 0, 3, 1);
    let e = seg(SegmentTypes::Plain, 0, 3, 2);
    assert_eq!(a.partial_cmp(&b), Some(std::cmp::Ordering::Greater));
    assert_eq!(b.partial_cmp(&a), Some(std::cmp::Ordering::Less));
    assert_eq!(a.partial_cmp(&c), Some(std::cmp::Ordering::Less));
    assert_eq!(a.cmp(&d), std::cmp::Ordering::Equal);
    assert!(a.outranks(&b) && !b.outranks(&a) && !a.outranks(&d));
    assert!(a == d);
    assert!(a != e);
    assert!(a < c && b < a);
}

#[test]
fn symbols_compare_with_stack_entries() {
    let e = PDAStackCtx { sym: SegmentDelimSyms::Bracket, seg_start: 4 };
    let f = PDAStackCtx { sym: SegmentDelimSyms::Bracket, seg_start: 9 };
    let g = PDAStackCtx { sym: SegmentDelimSyms::SentenceStart, seg_start: 4 };
    assert!(SegmentDelimSyms::Bracket == e);
    assert!(SegmentDelimSyms::SegmentStart != e);
    assert!(e == f);
    assert!(e != g);
    assert!(SegmentDelimSyms::SentenceStart == SegmentDelimSyms::SentenceStart);
    assert!(SegmentDelimSyms::SentenceStart != SegmentDelimSyms::Bracket);
}

#[test]
fn report_line_counts_characters_and_cuts_at_the_end() {
    let text = "fõøbα®";
    assert_eq!(render_segment(text, &seg(SegmentTypes::Plain, 2, 5, 0)), " Plain[2 5) -> øbα");
    assert_eq!(render_segment(text, &seg(SegmentTypes::Tail, 3, 100, 1)), "\t Tail[3 100) -> bα®");
    assert_eq!(render_segment(text, &seg(SegmentTypes::Bracketed, 4, 2, 0)), " Bracketed[4 2) -> ");
    assert_eq!(render_segment(text, &seg(SegmentTypes::Plain, 9, 12, 0)), " Plain[9 12) -> ");
    assert_eq!(
        render_segment("abc", &seg(SegmentTypes::UnbalancedRightSth, 1234567, 10000000, 3)),
        "\t\t\t UnbalancedRightSth[1234567 10000000) -> "
    );
}

#[test]
fn kind_names() {
    assert_eq!(SegmentTypes::Sentence.name(), "Sentence");
    assert_eq!(SegmentTypes::InvalidSentence.name(), "InvalidSentence");
    assert_eq!(SegmentTypes::UnbalancedLeftBracket.name(), "UnbalancedLeftBracket");
}

#[test]
fn characters_map_to_signals() {
    assert!(signal_of_char('[') == LittleParserSignals::LeftBracket);
    assert!(signal_of_char(']') == LittleParserSignals::RightBracket);
    assert!(signal_of_char('.') == LittleParserSignals::EndOfSentence);
    assert!(signal_of_char('é') == LittleParserSignals::Letter('é'));
}

#[test]
fn parse_runs_start_read_stop() {
    let mut p = create_parser_pda_instance();
    p.parse("a [b].");
    assert!(*p.state() == LittleParserStates::Idle);
    assert_eq!(p.data().index, 0);
    assert_eq!(
        p.data_mut().report("a [b]."),
        vec![
            " Sentence[0 5) -> a [b]".to_string(),
            "\t Plain[0 2) -> a ".to_string(),
            "\t Bracketed[3 4) -> b".to_string(),
        ]
    );
}

fn segments_of(text: &str) -> Vec<ParsedSegment> {
    let mut p = create_parser_pda_instance();
    p.parse(text);
    let d = p.data_mut();
    std::iter::from_fn(|| d.pop_segment()).collect()
}

const SAMPLES: [&str; 6] = [
    "Fif[teen] men on a dead man's [[chest]]. []]Yo [[ho [[ho. And [the [bottle] ]of [[[RUM]]] ",
    "a [b [c] d] e. [f]] g [h",
    "]]][[[...",
    "x [y.] z [[w]] [",
    "plain text only",
    "[a][b][[c][d]]. e",
];

#[test]
fn segments_lie_within_the_text() {
    for text in SAMPLES.iter() {
        let n = text.chars().count();
        for s in segments_of(text) {
            assert!(s.seg.0 <= s.seg.1 && s.seg.1 <= n, "{:?} in {:?}", s, text);
        }
    }
}

#[test]
fn bracketed_segments_are_delimited_and_nested() {
    for text in SAMPLES.iter() {
        let chars: Vec<char> = text.chars().collect();
        let brackets: Vec<(usize, usize)> = segments_of(text)
            .into_iter()
            .filter(|s| s.tp == SegmentTypes::Bracketed)
            .map(|s| (s.seg.0 - 1, s.seg.1))
            .collect();
        for &(open, close) in brackets.iter() {
            assert_eq!(chars[open], '[');
            assert_eq!(chars[close], ']');
        }
        for (i, &(a0, a1)) in brackets.iter().enumerate() {
            for &(b0, b1) in brackets[i + 1..].iter() {
                let apart = a1 < b0 || b1 < a0;
                let nested = (a0 < b0 && b1 < a1) || (b0 < a0 && a1 < b1);
                assert!(apart || nested, "{:?} {:?} in {:?}", (a0, a1), (b0, b1), text);
            }
        }
    }
}

#[test]
fn sentences_end_at_full_stops() {
    for text in SAMPLES.iter() {
        let chars: Vec<char> = text.chars().collect();
        for s in segments_of(text) {
            if s.tp == SegmentTypes::Sentence {
                assert_eq!(chars[s.seg.1], '.', "{:?} in {:?}", s, text);
            }
        }
    }
}

#[test]
fn nondet_sentence_ending_inside_a_bracket_drains() {
    let mut q = create_parser_nondet_pda_instance();
    q.start();
    q.next(&ParserNonDetPDASignals::Letter('a'));
    q.next(&ParserNonDetPDASignals::LeftBracket);
    q.next(&ParserNonDetPDASignals::Letter('b'));
    q.next(&ParserNonDetPDASignals::EndOfSentence);
    assert!(*q.state() == ParserNonDetPDAStates::NewSentence);
    assert_eq!(q.data().index, 4);
    let got: Vec<(SegmentTypes, (usize, usize), usize)> =
        q.data().segments.iter().map(|s| (s.tp, s.seg, s.rank)).collect();
    assert_eq!(
        got,
        vec![
            (SegmentTypes::Plain, (0, 1), 1),
            (SegmentTypes::UnbalancedLeftBracket, (1, 3), 1),
            (SegmentTypes::InvalidSentence, (0, 3), 0),
        ]
    );
}

/// The matched pairs of a text, found sentence by sentence: each `[` closed
/// by the first `]` that brings the count of open brackets back, up to the
/// first stray `]` of the sentence; with the depth each pair is reported at.
fn matched_pairs(text: &str) -> Vec<(usize, usize, usize)> {
    let chars: Vec<char> = text.chars().collect();
    let mut pairs = Vec::new();
    let mut open: Vec<usize> = Vec::new();
    let mut stray = false;
    for (k, &c) in chars.iter().enumerate() {
        match c {
            '.' => {
                open.clear();
                stray = false;
            }
            '[' if !stray => open.push(k),
            ']' if !stray => match open.pop() {
                Some(i) => pairs.push((i + 1, k, open.len() + 1)),
                None => stray = true,
            },
            _ => {}
        }
    }
    pairs.sort();
    pairs
}

#[test]
fn every_matched_pair_is_indexed_once() {
    for text in SAMPLES.iter() {
        let mut got: Vec<(usize, usize, usize)> = segments_of(text)
            .into_iter()
            .filter(|s| s.tp == SegmentTypes::Bracketed)
            .map(|s| (s.seg.0, s.seg.1, s.rank))
            .collect();
        got.sort();
        assert_eq!(got, matched_pairs(text), "in {:?}", text);
    }
}

/// The sentences of a text: the maximal runs without `.` that are not empty.
fn sentences(text: &str) -> Vec<(usize, usize)> {
    let chars: Vec<char> = text.chars().collect();
    let mut out = Vec::new();
    let mut s = 0;
    while s <= chars.len() {
        let e = (s..chars.len()).find(|&q| chars[q] == '.').unwrap_or(chars.len());
        if e > s {
            out.push((s, e));
        }
        s = e + 1;
    }
    out
}

/// The plain and unbalanced segments each sentence calls for, worked out
/// from its characters alone.
fn expected_edges(text: &str) -> Vec<(String, usize, usize, usize)> {
    let chars: Vec<char> = text.chars().collect();
    let mut out = Vec::new();
    for (s, e) in sentences(text) {
        let mut open: Vec<usize> = Vec::new();
        let mut stray = None;
        for q in s..e {
            if chars[q] == '[' {
                if open.is_empty() && q > s {
                    out.push(("Plain".to_string(), s, q, 1));
                }
                open.push(q);
            } else if chars[q] == ']' && open.pop().is_none() {
                stray = Some(q);
                break;
            }
        }
        match stray {
            Some(k) => {
                if k > s {
                    out.push(("Plain".to_string(), s, k, 1));
                    out.push(("UnbalancedRightSth".to_string(), k, e, 1));
                }
            }
            None => {
                for (d, &i) in open.iter().enumerate() {
                    out.push(("UnbalancedLeftBracket".to_string(), i, e, d + 1));
                }
            }
        }
    }
    out.sort();
    out
}

#[test]
fn plain_and_unbalanced_segments_are_the_ones_each_sentence_calls_for() {
    for text in SAMPLES.iter().chain(["a [b [c", "x]y]z. [", "]a", "ab]"].iter()) {
        let mut got: Vec<(String, usize, usize, usize)> = segments_of(text)
            .into_iter()
            .filter(|s| {
                s.tp == SegmentTypes::Plain
                    || s.tp == SegmentTypes::UnbalancedRightSth
                    || s.tp == SegmentTypes::UnbalancedLeftBracket
            })
            .map(|s| (format!("{:?}", s.tp), s.seg.0, s.seg.1, s.rank))
            .collect();
        got.sort();
        assert_eq!(got, expected_edges(text), "in {:?}", text);
    }
}

#[test]
fn plain_segments_before_brackets_and_strays() {
    let mut got: Vec<(String, usize, usize, usize)> = segments_of("a [b [c")
        .into_iter()
        .filter(|s| s.rank > 0 && s.tp != SegmentTypes::Bracketed)
        .map(|s| (format!("{:?}", s.tp), s.seg.0, s.seg.1, s.rank))
        .collect();
    got.sort();
    assert_eq!(
        got,
        vec![
            ("Plain".to_string(), 0, 2, 1),
            ("UnbalancedLeftBracket".to_string(), 2, 7, 1),
            ("UnbalancedLeftBracket".to_string(), 5, 7, 2),
        ]
    );
}

#[test]
fn each_sentence_is_indexed_once_at_depth_zero() {
    for text in SAMPLES.iter().chain(["", ".", "a..b", "[x.]"].iter()) {
        let top: Vec<ParsedSegment> =
            segments_of(text).into_iter().filter(|s| s.rank == 0).collect();
        for s in top.iter() {
            assert!(
                s.tp == SegmentTypes::Sentence
                    || s.tp == SegmentTypes::Tail
                    || s.tp == SegmentTypes::InvalidSentence,
                "{:?} in {:?}",
                s,
                text
            );
        }
        let mut got: Vec<(usize, usize)> = top.iter().map(|s| s.seg).collect();
        got.sort();
        assert_eq!(got, sentences(text), "in {:?}", text);
    }
}

#[test]
fn each_step_adds_segments_ending_at_the_index() {
    for text in SAMPLES.iter() {
        let mut p = create_parser_pda_instance();
        p.start();
        for c in text.chars() {
            let before: Vec<ParsedSegment> = p.data().segments.clone();
            let index = p.data().index;
            p.next(&signal_of_char(c));
            let after = &p.data().segments;
            assert!(after.len() >= before.len());
            for (k, s) in before.iter().enumerate() {
                assert_eq!(after[k], *s);
            }
            for s in after[before.len()..].iter() {
                assert_eq!(s.seg.1, index, "{:?} in {:?}", s, text);
                assert!(s.seg.0 <= s.seg.1, "{:?} in {:?}", s, text);
            }
            assert_eq!(p.data().index, index + 1);
        }
    }
}

/// The kind each sentence is reported as, worked out from its characters.
fn expected_sentence_kind(text: &str, s: usize, e: usize) -> SegmentTypes {
    let chars: Vec<char> = text.chars().collect();
    let mut depth: i64 = 0;
    let mut stray = false;
    for &c in chars[s..e].iter() {
        if c == '[' {
            depth += 1;
        } else if c == ']' {
            depth -= 1;
            if depth < 0 {
                stray = true;
            }
        }
    }
    let balanced = !stray && depth == 0;
    if e < chars.len() {
        if balanced {
            SegmentTypes::Sentence
        } else {
            SegmentTypes::InvalidSentence
        }
    } else if balanced || chars[s] == ']' {
        SegmentTypes::Tail
    } else {
        SegmentTypes::InvalidSentence
    }
}

#[test]
fn each_sentence_gets_the_kind_its_brackets_call_for() {
    let extra = ["]ab[", "]ab.", "ab.", "a[b", "a]b", "[a]b", "[a]b.x]y. ]z."];
    for text in SAMPLES.iter().chain(extra.iter()) {
        for s in segments_of(text).into_iter().filter(|s| s.rank == 0) {
            assert!(
                s.tp == expected_sentence_kind(text, s.seg.0, s.seg.1),
                "{:?} in {:?}",
                s,
                text
            );
        }
    }
}

#[test]
fn unended_sentence_beginning_with_a_stray_bracket_is_a_tail() {
    let top: Vec<(String, (usize, usize))> = segments_of("]ab[")
        .into_iter()
        .filter(|s| s.rank == 0)
        .map(|s| (format!("{:?}", s.tp), s.seg))
        .collect();
    assert_eq!(top, vec![("Tail".to_string(), (0, 4))]);
    let top: Vec<(String, (usize, usize))> = segments_of("]ab.")
        .into_iter()
        .filter(|s| s.rank == 0)
        .map(|s| (format!("{:?}", s.tp), s.seg))
        .collect();
    assert_eq!(top, vec![("InvalidSentence".to_string(), (0, 3))]);
}
