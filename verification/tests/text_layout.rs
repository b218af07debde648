use facade_text::hyphen::{hyphenate, hyphenate_word};
use facade_text::layout::{centering_offsets, layout_lines, split_underline_runs};
use facade_text::pdf_name::add_pdf_extension;
use facade_text::serialize::html_tokens_to_string;
use facade_text::tokenizer::tokenize_html;
use facade_text::tokens::HtmlToken;
use facade_text::wrap::wrap_html_tokens;

fn word(s: &str) -> HtmlToken {
    HtmlToken::Word(s.to_string())
}

fn tag(name: &str, is_closing: bool) -> HtmlToken {
    HtmlToken::HtmlTag {
        name: name.to_string(),
        is_closing,
    }
}

#[test]
fn tokenize_words_and_spaces() {
    assert_eq!(
        tokenize_html("hello world"),
        vec![word("hello"), HtmlToken::Space, word("world")]
    );
}

#[test]
fn tokenize_each_whitespace_char_is_one_space() {
    assert_eq!(
        tokenize_html("a \t b"),
        vec![
            word("a"),
            HtmlToken::Space,
            HtmlToken::Space,
            HtmlToken::Space,
            word("b")
        ]
    );
}

#[test]
fn tokenize_tags() {
    assert_eq!(
        tokenize_html("<b>x</b>"),
        vec![tag("b", false), word("x"), tag("b", true)]
    );
}

#[test]
fn tokenize_backslash_closing_marker() {
    assert_eq!(tokenize_html("<\\b>"), vec![tag("b", true)]);
}

#[test]
fn tokenize_empty_tag_name_is_dropped() {
    assert_eq!(
        tokenize_html("a <> b"),
        vec![
            word("a"),
            HtmlToken::Space,
            HtmlToken::Space,
            word("b")
        ]
    );
}

#[test]
fn tokenize_whitespace_inside_tag_is_skipped() {
    assert_eq!(tokenize_html("<b r>"), vec![tag("br", false)]);
}

#[test]
fn tokenize_self_closing_slash() {
    assert_eq!(tokenize_html("<br/>"), vec![tag("br", false)]);
}

#[test]
fn tokenize_empty_input() {
    assert_eq!(tokenize_html(""), Vec::<HtmlToken>::new());
}

#[test]
fn serialize_round_trip_plain() {
    let s = "a <b>c</b>";
    assert_eq!(html_tokens_to_string(tokenize_html(s)), s);
}

#[test]
fn serialize_normalizes_whitespace_and_tags() {
    assert_eq!(html_tokens_to_string(tokenize_html("a\tb")), "a b");
    assert_eq!(
        html_tokens_to_string(tokenize_html("<u  >x<\\u>")),
        "<u>x</u>"
    );
}

#[test]
fn hyphenate_word_short_is_identity() {
    assert_eq!(
        hyphenate_word(&"abc".to_string(), 5),
        vec!["abc".to_string()]
    );
}

#[test]
fn hyphenate_word_splits_with_trailing_hyphens() {
    assert_eq!(
        hyphenate_word(&"abcdefghij".to_string(), 3),
        vec![
            "abc-".to_string(),
            "def-".to_string(),
            "ghi-".to_string(),
            "j".to_string()
        ]
    );
    assert_eq!(
        hyphenate_word(&"abcd".to_string(), 2),
        vec!["ab-".to_string(), "cd".to_string()]
    );
}

#[test]
fn hyphenate_word_fragment_count_is_ceiling() {
    let w = "abcdefghij".to_string(); // length 10
    let max = 3;
    let frags = hyphenate_word(&w, max);
    assert_eq!(frags.len(), (w.len() + max - 1) / max);
    for f in &frags {
        assert!(f.chars().count() <= max + 1);
    }
    let rejoined: String = frags
        .iter()
        .enumerate()
        .map(|(i, f)| {
            if i + 1 < frags.len() {
                f[..f.len() - 1].to_string()
            } else {
                f.clone()
            }
        })
        .collect();
    assert_eq!(rejoined, w);
}

#[test]
fn hyphenate_rewrites_only_oversized_words() {
    let mut tokens = tokenize_html("hi hello");
    hyphenate(&mut tokens, 2);
    assert_eq!(
        tokens,
        vec![
            word("hi"),
            HtmlToken::Space,
            word("he-"),
            word("ll-"),
            word("o")
        ]
    );
}

#[test]
fn wrap_packs_words_to_width() {
    let tokens = tokenize_html("aa bb cc");
    let lines = wrap_html_tokens(&tokens, 5).unwrap();
    let rendered: Vec<String> = lines.into_iter().map(html_tokens_to_string).collect();
    assert_eq!(rendered, vec!["aa bb".to_string(), " cc".to_string()]);
}

#[test]
fn wrap_overlong_word_stands_alone() {
    let tokens = tokenize_html("xx aaaaaaa");
    let lines = wrap_html_tokens(&tokens, 5).unwrap();
    let rendered: Vec<String> = lines.into_iter().map(html_tokens_to_string).collect();
    assert_eq!(rendered, vec!["xx".to_string(), "aaaaaaa".to_string()]);
}

#[test]
fn wrap_reopens_and_closes_spanning_tags() {
    let tokens = tokenize_html("<b>one two</b>");
    let lines = wrap_html_tokens(&tokens, 4).unwrap();
    let rendered: Vec<String> = lines.into_iter().map(html_tokens_to_string).collect();
    assert_eq!(
        rendered,
        vec!["<b>one</b>".to_string(), "<b>two</b>".to_string()]
    );
}

#[test]
fn wrap_unmatched_closing_tag_fails_with_no_lines() {
    let tokens = tokenize_html("hello </b> world");
    assert_eq!(wrap_html_tokens(&tokens, 20), None);
}

#[test]
fn wrap_mismatched_tag_name_fails() {
    let tokens = tokenize_html("<a>hello </b> world");
    assert_eq!(wrap_html_tokens(&tokens, 20), None);
}

#[test]
fn wrap_without_words_gives_no_lines() {
    let tokens = tokenize_html("<b></b> ");
    assert_eq!(wrap_html_tokens(&tokens, 5), Some(Vec::new()));
}

#[test]
fn wrap_fails_when_no_token_fits() {
    // a tag whose next word never fits: no token can be placed at all
    let tokens = vec![tag("b", false), word("toolong")];
    assert_eq!(wrap_html_tokens(&tokens, 3), None);
    // zero width with a word pending
    assert_eq!(wrap_html_tokens(&[word("a")], 0), None);
}

#[test]
fn layout_empty_input_gives_zero_lines() {
    assert_eq!(layout_lines("", 10), Some(Vec::new()));
}

#[test]
fn layout_unmatched_closing_tag_fails() {
    assert_eq!(layout_lines("oops </u> here", 12), None);
}

#[test]
fn layout_hyphenates_and_wraps() {
    assert_eq!(
        layout_lines("abcdefghij", 3),
        Some(vec![
            "abc-".to_string(),
            "def-".to_string(),
            "ghi-".to_string(),
            "j".to_string()
        ])
    );
}

#[test]
fn layout_underlined_break_keeps_lines_balanced() {
    let lines = layout_lines("a very long <u>underlined</u> word", 10).unwrap();
    assert!(lines.len() >= 2);
    for line in &lines {
        assert_eq!(line.matches("<u>").count(), line.matches("</u>").count());
    }
    assert_eq!(
        lines,
        vec![
            "a very".to_string(),
            "long".to_string(),
            "<u>underlined</u>".to_string(),
            "<u></u> word".to_string()
        ]
    );
}

#[test]
fn centering_offsets_sum_to_half_steps() {
    assert_eq!(centering_offsets(0), Vec::<i64>::new());
    assert_eq!(centering_offsets(1), vec![0]);
    assert_eq!(centering_offsets(4), vec![-3, 2, 2, 2]);
    let offs = centering_offsets(7);
    assert_eq!(offs.iter().sum::<i64>(), 6);
}

#[test]
fn centering_offsets_match_millimeter_formula() {
    // with a line height of 2.0 mm, each half-step is 1.0 mm
    let n = 5;
    let line_height_mm = 2.0_f64;
    let dys: Vec<f64> = centering_offsets(n)
        .into_iter()
        .map(|h| h as f64 * (line_height_mm / 2.0))
        .collect();
    assert_eq!(dys[0], -((n as f64 - 1.0) * line_height_mm / 2.0));
    for dy in &dys[1..] {
        assert_eq!(*dy, line_height_mm);
    }
    let total: f64 = dys.iter().sum();
    assert_eq!(total, (n as f64 - 1.0) * line_height_mm / 2.0);
}

#[test]
fn underline_runs_split_at_markers() {
    assert_eq!(
        split_underline_runs("ab<u>cd</u>ef"),
        vec![
            ("ab".to_string(), false),
            ("cd".to_string(), true),
            ("ef".to_string(), false)
        ]
    );
}

#[test]
fn underline_runs_without_markers() {
    assert_eq!(
        split_underline_runs("no tags"),
        vec![("no tags".to_string(), false)]
    );
}

#[test]
fn underline_runs_only_exact_markers_count() {
    assert_eq!(
        split_underline_runs("<b>x</b>"),
        vec![("<b>x</b>".to_string(), false)]
    );
    assert_eq!(split_underline_runs("</u>"), Vec::new());
    assert_eq!(split_underline_runs("x<u>"), vec![("x".to_string(), false)]);
}

#[test]
fn pdf_extension_added_only_when_missing() {
    assert_eq!(add_pdf_extension("file"), "file.pdf");
    assert_eq!(add_pdf_extension("file.pdf"), "file.pdf");
    assert_eq!(add_pdf_extension("file.PDF"), "file.PDF");
    assert_eq!(add_pdf_extension(".pdf"), ".pdf.pdf");
    assert_eq!(add_pdf_extension("a.xpdf"), "a.xpdf.pdf");
}

#[test]
fn tokenize_inverts_serialize_on_well_formed_tokens() {
    let tokens = vec![
        tag("u", false),
        word("deux"),
        HtmlToken::Space,
        word("mots"),
        tag("u", true),
    ];
    assert_eq!(
        tokenize_html(&html_tokens_to_string(tokens.clone())),
        tokens
    );
}

#[test]
fn wrap_preserves_words_in_order() {
    let tokens = tokenize_html("<b>one two</b> three");
    let lines = wrap_html_tokens(&tokens, 5).unwrap();
    let words: Vec<String> = lines
        .iter()
        .flatten()
        .filter_map(|t| match t {
            HtmlToken::Word(w) => Some(w.clone()),
            _ => None,
        })
        .collect();
    assert_eq!(words, vec!["one", "two", "three"]);
}
