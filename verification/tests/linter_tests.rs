use minitools::linter::{split_lines, Linter, Violation};
use minitools::rules::{trim_lines, white_space, LintFixer, LintRule, MAX_LINE_BYTES};

fn program_linter() -> Linter<LintRule, LintFixer> {
    let mut l = Linter::new();
    l.add_rule(LintRule::TrailingWhitespace);
    l.add_rule(LintRule::LineTooLong);
    l.add_rule(LintRule::HardTab);
    l.add_rule(LintRule::TodoMarker);
    l.add_fixer(LintFixer::TrimTrailingWhitespace);
    l
}

fn pairs(vs: &[Violation]) -> Vec<(usize, String)> {
    vs.iter().map(|v| (v.line, v.message.clone())).collect()
}

#[test]
fn lines_match_std() {
    for text in ["", "a", "a\n", "a\nb", "a\r\nb\r\n", "\n", "\n\n", "a\r", "a\r\r\n", "x\ry\nz", "é\n\tü  "] {
        let ours: Vec<String> = split_lines(text).into_iter().map(|l| l.into_iter().collect()).collect();
        let std: Vec<String> = text.lines().map(|l| l.to_string()).collect();
        assert_eq!(ours, std, "lines of {:?}", text);
    }
}

#[test]
fn white_space_matches_std() {
    for c in (0u32..=0x10FFFF).filter_map(char::from_u32) {
        assert_eq!(white_space(c), c.is_whitespace(), "{:?}", c);
    }
}

#[test]
fn trim_lines_matches_program_fixer() {
    for text in ["", "a  \nb\t\n", "a \r\nb ", "x\n  ", "\n", "  \n  \n", "ok", "a\u{3000}\n"] {
        let mut expected = text.lines().map(|l| l.trim_end()).collect::<Vec<_>>().join("\n");
        if text.ends_with('\n') {
            expected.push('\n');
        }
        assert_eq!(trim_lines(text), expected, "{:?}", text);
    }
}

#[test]
fn check_reports_by_line_and_rule() {
    let l = program_linter();
    let long = "x".repeat(81);
    let text = format!("fine\ntrailing \n\tTODO: tabs\n{}\nFIXME  \n", long);
    let vs = l.check(&text);
    assert_eq!(
        pairs(&vs),
        vec![
            (2, "Trailing whitespace".to_string()),
            (3, "Hard tab detected, use spaces".to_string()),
            (3, "Contains TODO or FIXME marker".to_string()),
            (4, "Line too long (81 characters)".to_string()),
            (5, "Trailing whitespace".to_string()),
            (5, "Contains TODO or FIXME marker".to_string()),
        ]
    );
}

#[test]
fn line_length_counts_bytes() {
    let l = program_linter();
    let line = "é".repeat(41);
    assert_eq!(line.len(), 82);
    assert_eq!(pairs(&l.check(&line)), vec![(1, "Line too long (82 characters)".to_string())]);
    assert!(l.check(&"x".repeat(MAX_LINE_BYTES)).is_empty());
}

#[test]
fn clean_text_has_no_violations() {
    let l = program_linter();
    assert!(l.check("let x = 1;\nlet y = 2;\n").is_empty());
    assert!(l.check("").is_empty());
}

#[test]
fn fix_trims_and_counts() {
    let l = program_linter();
    let mut content = String::from("a  \nb\t\r\nc\n");
    assert_eq!(l.fix(&mut content), 1);
    assert_eq!(content, "a\nb\nc\n");
    assert_eq!(l.fix(&mut content), 0);
    assert_eq!(content, "a\nb\nc\n");
}

#[test]
fn fixed_text_passes_trailing_whitespace_rule() {
    let l = program_linter();
    for text in ["a \n b \n", "x\n  ", "\t\n\t", "ok  "] {
        let mut content = text.to_string();
        l.fix(&mut content);
        assert!(l.check(&content).iter().all(|v| v.message != "Trailing whitespace"), "{:?}", content);
        let once = content.clone();
        assert_eq!(l.fix(&mut content), 0);
        assert_eq!(content, once);
    }
}

#[test]
fn linter_without_rules_or_fixers() {
    let l: Linter<LintRule, LintFixer> = Linter::new();
    assert!(l.check("a \n\tTODO\n").is_empty());
    let mut content = String::from("a \n");
    assert_eq!(l.fix(&mut content), 0);
    assert_eq!(content, "a \n");
}

#[test]
fn check_on_joined_texts_shifts_line_numbers() {
    let l = program_linter();
    let a = "ok\ntrailing \n";
    let b = "\tTODO\nfine \n";
    let joined = format!("{}{}", a, b);
    let mut expected = pairs(&l.check(a));
    let shift = a.lines().count();
    expected.extend(pairs(&l.check(b)).into_iter().map(|(n, m)| (n + shift, m)));
    assert_eq!(pairs(&l.check(&joined)), expected);
    assert_eq!(pairs(&l.check(&format!("{}{}", "", b))), pairs(&l.check(b)));
}
