use pda_parser::nondet_pda_report;
use pda_parser::pda_report;

const TEXT: &str =
    "Fif[teen] men on a dead man's [[chest]]. []]Yo [[ho [[ho. And [the [bottle] ]of [[[RUM]]] ";

fn line(rank: usize, kind: &str, start: usize, end: usize, covered: &str) -> String {
    format!("{} {}[{} {}) -> {}", "\t".repeat(rank), kind, start, end, covered)
}

fn expected_readme_report() -> Vec<String> {
    vec![
        line(0, "Sentence", 0, 39, "Fif[teen] men on a dead man's [[chest]]"),
        line(1, "Plain", 0, 30, "Fif[teen] men on a dead man's "),
        line(1, "Plain", 0, 3, "Fif"),
        line(1, "Bracketed", 4, 8, "teen"),
        line(1, "Bracketed", 31, 38, "[chest]"),
        line(2, "Bracketed", 32, 37, "chest"),
        line(0, "InvalidSentence", 40, 56, " []]Yo [[ho [[ho"),
        line(1, "Plain", 40, 43, " []"),
        line(1, "Plain", 40, 41, " "),
        line(1, "Bracketed", 42, 42, ""),
        line(1, "UnbalancedRightSth", 43, 56, "]Yo [[ho [[ho"),
        line(0, "Tail", 57, 90, " And [the [bottle] ]of [[[RUM]]] "),
        line(1, "Plain", 57, 80, " And [the [bottle] ]of "),
        line(1, "Plain", 57, 62, " And "),
        line(1, "Bracketed", 63, 76, "the [bottle] "),
        line(2, "Bracketed", 68, 74, "bottle"),
        line(1, "Bracketed", 81, 88, "[[RUM]]"),
        line(2, "Bracketed", 82, 87, "[RUM]"),
        line(3, "Bracketed", 83, 86, "RUM"),
    ]
}

#[test]
fn parser_pda_test() {
    assert_eq!(pda_report(TEXT), expected_readme_report());
}

#[test]
fn parser_nondet_pda_test() {
    assert_eq!(nondet_pda_report(TEXT), expected_readme_report());
}

#[test]
fn nondet_parser_closes_a_sentence_ending_in_a_bracket() {
    let expected = vec![
        " InvalidSentence[0 4) -> a [b".to_string(),
        "\t Plain[0 2) -> a ".to_string(),
        "\t UnbalancedLeftBracket[2 4) -> [b".to_string(),
    ];
    assert_eq!(pda_report("a [b."), expected);
    assert_eq!(nondet_pda_report("a [b."), expected);
}
