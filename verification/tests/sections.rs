use clip_cli::sections::{answer_lines, match_section_line, section_candidates};

fn fields(response: &str) -> Vec<(String, String, String)> {
    section_candidates(response).into_iter().map(|f| (f.start, f.end, f.reason)).collect()
}

fn triple(a: &str, b: &str, c: &str) -> (String, String, String) {
    (a.to_string(), b.to_string(), c.to_string())
}

#[test]
fn section_lines_give_their_fields() {
    let response = "12.5 - 45.0 | Main introduction\n120.0 - 185.5 | Key demo\n";
    assert_eq!(
        fields(response),
        vec![triple("12.5", "45.0", "Main introduction"), triple("120.0", "185.5", "Key demo")]
    );
}

#[test]
fn preamble_and_garbage_are_skipped() {
    let response = "Here are the sections:\n\n12.5 - 45.0 | Introduction\nSome garbage\n50.0 - 80.0 | Conclusion\n";
    assert_eq!(
        fields(response),
        vec![triple("12.5", "45.0", "Introduction"), triple("50.0", "80.0", "Conclusion")]
    );
}

#[test]
fn numbered_lines_and_spacing() {
    let response = "  1. 10 - 30.5 |   First  \r\n2.\t40.-50 |x";
    assert_eq!(fields(response), vec![triple("10", "30.5", "First"), triple("40.", "50", "x")]);
}

#[test]
fn lines_are_kept_in_answer_order() {
    let response = "50.0 - 30.0 | Reversed\n0.5 - 1.0 | Too short\n";
    assert_eq!(
        fields(response),
        vec![triple("50.0", "30.0", "Reversed"), triple("0.5", "1.0", "Too short")]
    );
    assert_eq!(fields("no numbers here"), vec![]);
    assert_eq!(fields("10 - 20 |"), vec![]);
}

#[test]
fn blank_lines_are_dropped_and_others_trimmed() {
    let lines: Vec<String> = answer_lines("\n a \n\n\tb\r\n  \n").into_iter().map(|l| l.into_iter().collect()).collect();
    assert_eq!(lines, vec!["a".to_string(), "b".to_string()]);
    assert!(answer_lines("").is_empty());
}

#[test]
fn list_numbers_in_other_scripts_are_accepted() {
    // Arabic-Indic list number, as `\d` accepts it.
    assert_eq!(fields("\u{661}. 10 - 20 | x"), vec![triple("10", "20", "x")]);
    // Digits of other scripts are kept as text in the fields.
    assert_eq!(fields("\u{966}\u{967} - 5 | y"), vec![triple("\u{966}\u{967}", "5", "y")]);
}

#[test]
fn a_list_number_is_used_only_when_the_rest_matches() {
    assert_eq!(fields("1. - 20 | x"), vec![triple("1.", "20", "x")]);
    assert_eq!(fields("3. 4 - 5 | z"), vec![triple("4", "5", "z")]);
}

const PATTERN: &str = r"^\s*(?:\d+\.\s+)?(\d+\.?\d*)\s*-\s*(\d+\.?\d*)\s*\|\s*(.+)$";

fn by_regex(re: &regex::Regex, line: &str) -> Option<(String, String, String)> {
    re.captures(line).map(|c| (c[1].to_string(), c[2].to_string(), c[3].to_string()))
}

fn by_library(line: &str) -> Option<(String, String, String)> {
    let chars: Vec<char> = line.chars().collect();
    match_section_line(&chars).map(|f| (f.start, f.end, f.reason))
}

#[test]
fn line_matching_agrees_with_the_regular_expression() {
    let re = regex::Regex::new(PATTERN).unwrap();
    let alphabet = ['1', '.', ' ', '-', '|', 'x', '\u{661}', '\n'];
    let mut lines: Vec<String> = vec![String::new()];
    let mut frontier: Vec<String> = vec![String::new()];
    for _ in 0..6 {
        let mut next = Vec::new();
        for p in &frontier {
            for c in alphabet {
                let mut q = p.clone();
                q.push(c);
                next.push(q);
            }
        }
        lines.extend(next.iter().cloned());
        frontier = next;
    }
    for line in &lines {
        assert_eq!(by_library(line), by_regex(&re, line), "line {line:?}");
    }
    for line in [
        "12.5 - 45.0 | Main introduction",
        "  1. 10 - 30.5 |   First  ",
        "2.\t40.-50 |x",
        "10 - 20 |\u{a0}",
        "10 - 20 |\u{a0}\n",
        "7 -8|  a | b ",
        "1.2.3 - 4 | q",
        "\u{661}\u{662}. 3 - 4 | \u{3000}",
    ] {
        assert_eq!(by_library(line), by_regex(&re, line), "line {line:?}");
    }
}
