use journal_rs::codec;
use journal_rs::markdown::{escape_base, hide_all, lines, restore, Line, Span};

fn spans(line: &Line) -> Vec<(String, bool, bool, bool)> {
    line.spans.iter().map(|s: &Span| (s.text.clone(), s.bold, s.italic, s.strike)).collect()
}

fn plain(t: &str) -> (String, bool, bool, bool) {
    (t.to_string(), false, false, false)
}

#[test]
fn block_kinds_are_recognised() {
    let ls = lines("# Title\n- item\n1. first\n> quote\nplain");
    let kinds: Vec<&str> = ls.iter().map(|l| l.kind).collect();
    assert_eq!(kinds, vec!["body", "bullet", "ordered", "quote", "body"]);
    assert_eq!(spans(&ls[0]), vec![("Title".to_string(), true, false, false)]);
    assert_eq!(spans(&ls[1]), vec![plain("item")]);
    assert_eq!(spans(&ls[2]), vec![plain("first")]);
    assert_eq!(spans(&ls[3]), vec![plain("quote")]);
    assert_eq!(spans(&ls[4]), vec![plain("plain")]);
}

#[test]
fn rules_vanish_and_fences_keep_text_literal() {
    let ls = lines("above\n---\n```\n**x**\n```\nbelow");
    let kinds: Vec<&str> = ls.iter().map(|l| l.kind).collect();
    assert_eq!(kinds, vec!["body", "body", "body"]);
    assert_eq!(spans(&ls[1]), vec![plain("**x**")]);
}

#[test]
fn emphasis_becomes_styled_spans() {
    let ls = lines("**b** *i* ~~s~~");
    assert_eq!(
        spans(&ls[0]),
        vec![
            ("b".to_string(), true, false, false),
            plain(" "),
            ("i".to_string(), false, true, false),
            plain(" "),
            ("s".to_string(), false, false, true),
        ]
    );
    let both = lines("***both***");
    assert_eq!(spans(&both[0]), vec![("both".to_string(), true, true, false)]);
}

#[test]
fn escapes_and_code_stay_literal() {
    assert_eq!(spans(&lines("\\*not italic\\*")[0]), vec![plain("*not italic*")]);
    assert_eq!(spans(&lines("`literal **stars**`")[0]), vec![plain("`literal **stars**`")]);
    assert_eq!(spans(&lines("snake_case_name")[0]), vec![plain("snake_case_name")]);
}

#[test]
fn links_keep_label_and_address() {
    assert_eq!(spans(&lines("[site](https://example.com)")[0]), vec![plain("site (https://example.com)")]);
    assert_eq!(spans(&lines("[https://x.y](https://x.y)")[0]), vec![plain("https://x.y")]);
    assert_eq!(spans(&lines("![img](a.png)")[0]), vec![plain("![img](a.png)")]);
}

#[test]
fn carriage_returns_split_lines() {
    assert_eq!(lines("a\r\nb\rc").len(), 3);
    assert_eq!(lines("").len(), 1);
}

#[test]
fn inline_text_joins_lines_with_spaces() {
    assert_eq!(journal_rs::markdown::inline("# 回顧\n\n- **coffee**\n- *walk*"), "# 回顧  - coffee - walk");
    assert_eq!(codec::inline("  **Bold**  "), "Bold");
}

#[test]
fn private_use_characters_survive_escaping() {
    let line = "\u{e000}\u{e005} \\*kept\\* \u{e011}";
    assert_eq!(spans(&lines(line)[0]), vec![plain("\u{e000}\u{e005} *kept* \u{e011}")]);
}

#[test]
fn render_sample_heading_bullets_and_code_span() {
    let md = "# 回顧\n\n- **coffee**\n- *walk*\n\n`literal **stars**`";
    let ls = lines(md);
    let kinds: Vec<&str> = ls.iter().map(|l| l.kind).collect();
    assert_eq!(kinds, vec!["body", "body", "bullet", "bullet", "body", "body"]);
    assert_eq!(spans(&ls[0]), vec![("回顧".to_string(), true, false, false)]);
    assert!(ls[1].spans.is_empty());
    assert_eq!(spans(&ls[2]), vec![("coffee".to_string(), true, false, false)]);
    assert_eq!(spans(&ls[3]), vec![("walk".to_string(), false, true, false)]);
    assert!(ls[4].spans.is_empty());
    assert_eq!(spans(&ls[5]), vec![plain("`literal **stars**`")]);
}

#[test]
fn a_line_without_markup_is_one_plain_span() {
    let line: Vec<char> = "Tea at 5, then a walk — 散歩 (ok!)".chars().collect();
    let got = journal_rs::markdown::spans(&line, false);
    assert_eq!(got.len(), 1);
    assert_eq!(got[0].text, "Tea at 5, then a walk — 散歩 (ok!)");
    assert!(!got[0].bold && !got[0].italic && !got[0].strike);
    let forced = journal_rs::markdown::spans(&line, true);
    assert_eq!(forced.len(), 1);
    assert!(forced[0].bold);
    assert!(journal_rs::markdown::spans(&Vec::new(), true).is_empty());
}

#[test]
fn hidden_characters_are_restored() {
    let line: Vec<char> = "a*b_c`d\\e [x] ~~".chars().collect();
    let base = escape_base(&line);
    let hidden = hide_all(&line, base);
    assert!(hidden.iter().all(|c| !"*_`\\[]~".contains(*c)));
    assert_eq!(restore(&hidden, base), line);
    let plain: Vec<char> = "nothing hidden".chars().collect();
    assert_eq!(restore(&plain, base), plain);
}
