use reader_core::tts_text::{
    find_sentence_for_offset, insert_html_highlight, normalize_text, precompute_text_highlights,
    test_tts_text_module, SentenceSpan,
};

#[test]
fn precompute_empty_text_yields_empty_data() {
    let data = precompute_text_highlights("".to_string());
    assert!(data.words.is_empty());
    assert!(data.sentences.is_empty());
    assert_eq!(data.normalized_text, "".to_string());
    let blank = precompute_text_highlights(" \t\n ".to_string());
    assert!(blank.words.is_empty());
    assert!(blank.sentences.is_empty());
    assert_eq!(blank.normalized_text, "".to_string());
}

#[test]
fn precompute_two_sentence_sample() {
    let data = precompute_text_highlights("Hello world. This is a test.".to_string());
    assert_eq!(data.normalized_text, "Hello world. This is a test.".to_string());
    // Two sentences with strictly increasing, non-overlapping ranges whose
    // substrings are the sentences without boundary white space.
    assert_eq!(data.sentences.len(), 2);
    let s0 = &data.sentences[0];
    let s1 = &data.sentences[1];
    assert!(s0.start < s0.end && s0.end <= s1.start && s1.start < s1.end);
    let norm: Vec<char> = data.normalized_text.chars().collect();
    let sub = |a: u32, b: u32| -> String { norm[a as usize..b as usize].iter().collect() };
    assert_eq!(sub(s0.start, s0.end), "Hello world.".to_string());
    assert_eq!(sub(s1.start, s1.end), "This is a test.".to_string());
    // Every boundary-delimited unit that is not purely white space gets a
    // word span, sentence-ending punctuation included.
    let texts: Vec<&str> = data.words.iter().map(|w| w.text.as_str()).collect();
    assert_eq!(texts, vec!["Hello", "world", ".", "This", "is", "a", "test", "."]);
    for w in &data.words {
        assert!(w.start < w.end);
        assert_eq!(sub(w.start, w.end), w.text);
    }
    for pair in data.words.windows(2) {
        assert!(pair[0].end <= pair[1].start);
    }
}

#[test]
fn normalize_collapses_and_trims() {
    assert_eq!(normalize_text("  a\t\n b  "), "a b".to_string());
    assert_eq!(normalize_text("a\u{00A0}b"), "a b".to_string());
    assert_eq!(normalize_text("a\u{200B}b"), "ab".to_string());
    assert_eq!(normalize_text(""), "".to_string());
    // A zero-width space splits a white-space run in two: each side
    // collapses separately before the zero-width space is stripped.
    assert_eq!(normalize_text("a \u{200B} b"), "a  b".to_string());
}

#[test]
fn normalize_is_idempotent_without_zero_width_spaces() {
    for s in ["  Hello\t\u{00A0}world \n", "", "a b", "x", " \u{3000} mixed\u{2003}ws "] {
        let once = normalize_text(s);
        let twice = normalize_text(once.as_str());
        assert_eq!(once, twice);
    }
}

#[test]
fn find_sentence_handles_hits_gaps_and_past_end() {
    let sentences = vec![
        SentenceSpan { start: 0, end: 5 },
        SentenceSpan { start: 6, end: 10 },
    ];
    assert_eq!(
        find_sentence_for_offset(&sentences, 3),
        Some(SentenceSpan { start: 0, end: 5 })
    );
    assert_eq!(
        find_sentence_for_offset(&sentences, 6),
        Some(SentenceSpan { start: 6, end: 10 })
    );
    // A gap offset falls through to the last sentence, like one past the end.
    assert_eq!(
        find_sentence_for_offset(&sentences, 5),
        Some(SentenceSpan { start: 6, end: 10 })
    );
    assert_eq!(
        find_sentence_for_offset(&sentences, 999),
        Some(SentenceSpan { start: 6, end: 10 })
    );
    assert_eq!(find_sentence_for_offset(&[], 0), None);
}

#[test]
fn module_summary_reports_counts() {
    assert_eq!(
        test_tts_text_module(),
        "Words: 8, Sentences: 2, Normalized: 'Hello world. This is a test.'".to_string()
    );
}

#[test]
fn highlight_wraps_first_occurrence() {
    let html = "<body>Hello world. This is a test.</body>".to_string();
    let out = insert_html_highlight(html.clone(), 0, 5, "mark".to_string());
    assert_eq!(out, "<body><mark>Hello</mark> world. This is a test.</body>".to_string());
    // An empty or out-of-range request leaves the HTML unchanged.
    assert_eq!(insert_html_highlight(html.clone(), 5, 5, "mark".to_string()), html);
    assert_eq!(insert_html_highlight(html.clone(), 100, 200, "mark".to_string()), html);
}
