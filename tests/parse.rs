use ucd_parse::fields::UCDLineIter;
use ucd_parse::lines::{line_is_significant, UCDLine, UCD};
use ucd_parse::text::{count_leading_ws, is_white_space_char, trim_str};

fn fields_of_text(text: &str) -> Vec<Vec<&str>> {
    let mut lines = UCD::new(text).ucd_lines();
    let mut out = Vec::new();
    while let Some(line) = lines.next() {
        let mut it: UCDLineIter = line.into_iter();
        out.push(it.collect_fields());
    }
    out
}

#[test]
fn blocks_example() {
    let ucd = UCD::new(
        "
## Comment

0000..007F ; Basic Latin # Basic Latin
## Comment
3040..309F ; Hiragana

30A0..30FF ; Katakana

## Comment
",
    );
    let mut lines = ucd.ucd_lines();
    let line = lines.next().unwrap().into_iter().collect_fields();
    assert_eq!(line, vec!["0000..007F", "Basic Latin"]);
    let line = lines.next().unwrap().into_iter().collect_fields();
    assert_eq!(line, vec!["3040..309F", "Hiragana"]);
    let line = lines.next().unwrap().into_iter().collect_fields();
    assert_eq!(line, vec!["30A0..30FF", "Katakana"]);
    assert!(lines.next().is_none());
    assert!(lines.next().is_none());
}

#[test]
fn three_significant_lines() {
    let text = "0000..007F ; Basic Latin # Basic Latin\n## Comment\n3040..309F ; Hiragana\n\n30A0..30FF ; Katakana\n\n## Comment\n";
    assert_eq!(
        fields_of_text(text),
        vec![
            vec!["0000..007F", "Basic Latin"],
            vec!["3040..309F", "Hiragana"],
            vec!["30A0..30FF", "Katakana"],
        ]
    );
}

#[test]
fn whitespace_only_line_skipped() {
    let mut lines = UCD::new("   ").ucd_lines();
    assert!(lines.next().is_none());
    assert!(!line_is_significant("   "));
    assert!(!line_is_significant("\t \u{3000}"));
}

#[test]
fn full_comment_line_skipped() {
    let mut lines = UCD::new("# full comment").ucd_lines();
    assert!(lines.next().is_none());
    assert!(!line_is_significant("  # indented comment"));
}

#[test]
fn trailing_delimiter_adds_nothing() {
    assert_eq!(fields_of_text("A;B;"), vec![vec!["A", "B"]]);
}

#[test]
fn stops_at_first_empty_field() {
    assert_eq!(fields_of_text("a ; ; b"), vec![vec!["a"]]);
}

#[test]
fn stopped_iterator_stays_stopped() {
    let mut it = UCD::new("a ; ; b").ucd_lines().next().unwrap().into_iter();
    assert_eq!(it.next(), Some("a"));
    assert_eq!(it.next(), None);
    assert_eq!(it.next(), None);
    assert_eq!(it.next(), None);
}

#[test]
fn comment_text_never_in_fields() {
    assert_eq!(fields_of_text("x ; y # z ; w"), vec![vec!["x", "y"]]);
    assert_eq!(fields_of_text("x;y#"), vec![vec!["x", "y"]]);
    assert_eq!(fields_of_text("x #;y"), vec![vec!["x"]]);
}

#[test]
fn pipeline_twice_same_fields() {
    let text = "1;2\n# c\n\n3 ; 4 ; \n  5#6\n";
    let first = fields_of_text(text);
    let second = fields_of_text(text);
    assert_eq!(first, second);
    assert_eq!(first, vec![vec!["1", "2"], vec!["3", "4"], vec!["5"]]);
}

#[test]
fn empty_input_yields_nothing() {
    let mut lines = UCD::new("").ucd_lines();
    assert!(lines.next().is_none());
    assert_eq!(fields_of_text("\n\n\n"), Vec::<Vec<&str>>::new());
}

#[test]
fn carriage_returns_are_line_endings() {
    assert_eq!(fields_of_text("a;b\r\nc ; d\r\n"), vec![vec!["a", "b"], vec!["c", "d"]]);
    assert_eq!(fields_of_text("# x\r\n\r\ne\r\n"), vec![vec!["e"]]);
}

#[test]
fn last_line_without_newline() {
    assert_eq!(fields_of_text("a\nb ; c"), vec![vec!["a"], vec!["b", "c"]]);
}

#[test]
fn line_with_only_delimiters_has_no_fields() {
    assert_eq!(fields_of_text(";;"), vec![Vec::<&str>::new()]);
    assert_eq!(fields_of_text(" ; a"), vec![Vec::<&str>::new()]);
}

#[test]
fn unicode_white_space_is_trimmed() {
    assert_eq!(fields_of_text("\u{3000}a\u{00A0};\u{2003}b\u{2028}"), vec![vec!["a", "b"]]);
    assert_eq!(trim_str("\u{205F} x y \u{85}"), "x y");
    assert_eq!(trim_str("   "), "");
    assert_eq!(trim_str("é"), "é");
}

#[test]
fn white_space_matches_std() {
    let mut c: u32 = 0;
    while c < 0x3100 {
        if let Some(ch) = char::from_u32(c) {
            assert_eq!(is_white_space_char(ch), ch.is_whitespace(), "{:x}", c);
        }
        c += 1;
    }
    assert!(!is_white_space_char('\u{180E}'));
    assert!(!is_white_space_char('\u{FEFF}'));
}

#[test]
fn leading_white_space_counted_in_chars() {
    assert_eq!(count_leading_ws("  \u{3000}x "), 3);
    assert_eq!(count_leading_ws("x"), 0);
    assert_eq!(count_leading_ws(""), 0);
}

#[test]
fn owned_line_from_stream() {
    assert!(UCDLine::from_line(String::from("")).is_none());
    assert!(UCDLine::from_line(String::from("  ")).is_none());
    assert!(UCDLine::from_line(String::from("#x;y")).is_none());
    let line = UCDLine::from_line(String::from(" 0041 ; LATIN # A")).unwrap();
    assert_eq!(line.as_str(), " 0041 ; LATIN # A");
    let fields = line.into_iter().collect_fields();
    assert_eq!(fields, vec!["0041", "LATIN"]);
}

#[test]
fn source_is_kept() {
    let ucd = UCD::new("abc");
    assert_eq!(ucd.into_source(), "abc");
}

#[test]
fn non_ascii_fields_are_whole() {
    assert_eq!(fields_of_text("ア ; イ;ウ # エ"), vec![vec!["ア", "イ", "ウ"]]);
}
