use fastbrackets::{brackets_paint, styles_accepted, Highlight};

fn no_styles() -> Vec<(String, String)> {
    Vec::new()
}

fn styles(entries: &[(&str, &str)]) -> Vec<(String, String)> {
    entries.iter().map(|(k, v)| (k.to_string(), v.to_string())).collect()
}

fn triples(hs: &[Highlight]) -> Vec<(usize, usize, String)> {
    hs.iter().map(|h| (h.start, h.end, h.style.clone())).collect()
}

fn t(start: usize, end: usize, style: &str) -> (usize, usize, String) {
    (start, end, style.to_string())
}

#[test]
fn simple_bracket() {
    let hs = brackets_paint(8, "[]", 0, "lol", &no_styles());
    assert_eq!(triples(&hs), vec![t(0, 1, ""), t(1, 2, ""), t(1, 2, "")]);
}

#[test]
fn cursor_bracket() {
    let hs = brackets_paint(3, ": ((( )))", 2, "no", &no_styles());
    // six brackets, all matched, then the partner of the bracket at 2
    assert_eq!(hs.len(), 7);
    assert_eq!((hs[6].start, hs[6].end), (8, 9));
}

#[test]
fn unmatched_bracket() {
    let hs = brackets_paint(3, "[]]", 0, "", &no_styles());
    assert_eq!(triples(&hs), vec![t(0, 1, ""), t(1, 2, ""), t(2, 3, ""), t(1, 2, "")]);
}

#[test]
fn crazy_buffer() {
    let hs = brackets_paint(3, ",  []())sdfs$ ,,sdfsdf -.", 0, "", &no_styles());
    let starts: Vec<usize> = hs.iter().map(|h| h.start).collect();
    assert_eq!(starts, vec![3, 4, 5, 6, 7]);
}

#[test]
fn large_buffer() {
    let data = &[b'a'; 30_000];
    let buf = std::str::from_utf8(data).unwrap();
    let hs = brackets_paint(3, &buf, 0, "", &no_styles());
    assert!(hs.is_empty());
}

fn sample_styles() -> Vec<(String, String)> {
    styles(&[
        ("bracket-error", "fg=red"),
        ("bracket-level-1", "fg=blue"),
        ("bracket-level-2", "fg=green"),
        ("cursor-matchingbracket", "standout"),
        ("main", "none"),
    ])
}

#[test]
fn levels_cycle_and_errors() {
    let st = sample_styles();
    assert!(styles_accepted(&st));
    let hs = brackets_paint(2, "(a[b]c)]", 0, "zle-line-init", &st);
    assert_eq!(
        triples(&hs),
        vec![
            t(0, 1, "fg=blue"),
            t(2, 3, "fg=green"),
            t(4, 5, "fg=green"),
            t(6, 7, "fg=blue"),
            t(7, 8, "fg=red"),
            t(6, 7, "standout"),
        ]
    );
}

#[test]
fn level_three_wraps_to_first_style() {
    let hs = brackets_paint(2, "((()))", 5, "x", &sample_styles());
    let styles: Vec<String> = hs.iter().map(|h| h.style.clone()).collect();
    assert_eq!(styles, vec!["fg=blue", "fg=green", "fg=blue", "fg=blue", "fg=green", "fg=blue", "standout"]);
    assert_eq!(hs[6].start, 0);
}

#[test]
fn kinds_must_agree() {
    let hs = brackets_paint(2, "(]", 1, "x", &sample_styles());
    assert_eq!(triples(&hs), vec![t(0, 1, "fg=red"), t(1, 2, "fg=red")]);
}

#[test]
fn early_close_swallows_next_open() {
    let hs = brackets_paint(2, "]()", 1, "x", &sample_styles());
    assert_eq!(triples(&hs), vec![t(0, 1, "fg=red"), t(1, 2, "fg=red"), t(2, 3, "fg=red")]);
}

#[test]
fn no_level_styles_highlights_only_errors_and_cursor() {
    let hs = brackets_paint(0, "()(", 0, "x", &sample_styles());
    assert_eq!(triples(&hs), vec![t(2, 3, "fg=red"), t(1, 2, "standout")]);
}

#[test]
fn line_finish_has_no_cursor_highlight() {
    let hs = brackets_paint(1, "()", 0, "zle-line-finish", &sample_styles());
    assert_eq!(triples(&hs), vec![t(0, 1, "fg=blue"), t(1, 2, "fg=blue")]);
}

#[test]
fn cursor_off_bracket_has_no_cursor_highlight() {
    let hs = brackets_paint(1, "(a)", 1, "x", &sample_styles());
    assert_eq!(hs.len(), 2);
}

#[test]
fn cursor_counts_characters_not_bytes() {
    let hs = brackets_paint(1, "é(x)", 1, "x", &sample_styles());
    assert_eq!(triples(&hs), vec![t(1, 2, "fg=blue"), t(3, 4, "fg=blue"), t(3, 4, "standout")]);
}

#[test]
fn unset_level_style_is_empty() {
    let hs = brackets_paint(5, "()", 9, "x", &styles(&[("bracket-level-1", "bold")]));
    assert_eq!(triples(&hs), vec![t(0, 1, "bold"), t(1, 2, "bold")]);
    let hs = brackets_paint(5, "(())", 9, "x", &styles(&[("bracket-level-1", "bold")]));
    assert_eq!(hs[1].style, "");
}

#[test]
fn later_style_entry_wins() {
    let st = styles(&[("bracket-error", "a"), ("bracket-error", "b")]);
    let hs = brackets_paint(1, ")", 0, "x", &st);
    assert_eq!(triples(&hs), vec![t(0, 1, "b")]);
}

#[test]
fn level_keys_out_of_order_are_refused() {
    assert!(!styles_accepted(&styles(&[("bracket-level-3", "a"), ("bracket-level-1", "b")])));
    assert!(styles_accepted(&styles(&[("bracket-level-1", "a"), ("bracket-level-3", "b")])));
    assert!(styles_accepted(&styles(&[("bracket-level-2", "a"), ("bracket-level-2", "b")])));
    assert!(!styles_accepted(&styles(&[("bracket-level-x", "a")])));
    assert!(styles_accepted(&styles(&[("bracket-levels", "a"), ("other", "b")])));
}

#[test]
fn crossing_pairs_do_not_match() {
    let hs = brackets_paint(2, "([)]", 0, "x", &sample_styles());
    assert_eq!(
        triples(&hs),
        vec![t(0, 1, "fg=red"), t(1, 2, "fg=red"), t(2, 3, "fg=red"), t(3, 4, "fg=red")]
    );
}

#[test]
fn nested_pairs_share_their_level_style() {
    let hs = brackets_paint(3, "{[()]}", 3, "x", &styles(&[
        ("bracket-level-1", "one"),
        ("bracket-level-2", "two"),
        ("bracket-level-3", "three"),
        ("cursor-matchingbracket", "cur"),
    ]));
    assert_eq!(
        triples(&hs),
        vec![
            t(0, 1, "one"),
            t(1, 2, "two"),
            t(2, 3, "three"),
            t(3, 4, "three"),
            t(4, 5, "two"),
            t(5, 6, "one"),
            t(2, 3, "cur"),
        ]
    );
}
