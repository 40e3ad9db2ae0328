use rmd::app::create_plain_line;
use rmd::layout::{
    count_wrapped_lines, source_to_wrapped_offset, wrap_line_fragments, wrap_window,
    wrapped_count,
};
use rmd::markdown::RenderedLine;
use rmd::render::render_markdown;

#[test]
fn short_line_is_one_fragment() {
    let line = create_plain_line("short");
    let frags = wrap_line_fragments(&line, Some(80));
    assert_eq!(frags, vec!["short".to_string()]);
}

#[test]
fn greedy_wrap_splits_on_words() {
    let line = create_plain_line("aa bb cc dd");
    let frags = wrap_line_fragments(&line, Some(5));
    assert_eq!(frags, vec!["aa bb".to_string(), "cc dd".to_string()]);
}

#[test]
fn wrap_covers_every_word() {
    let line = create_plain_line("one two three four five six seven");
    let frags = wrap_line_fragments(&line, Some(9));
    let rejoined: Vec<String> =
        frags.iter().flat_map(|f| f.split_whitespace().map(|w| w.to_string())).collect();
    let original: Vec<String> =
        "one two three four five six seven".split_whitespace().map(|w| w.to_string()).collect();
    assert_eq!(rejoined, original);
}

#[test]
fn overlong_word_gets_its_own_fragment() {
    let line = create_plain_line("abcdefgh xy");
    let frags = wrap_line_fragments(&line, Some(4));
    assert_eq!(frags, vec!["abcdefgh".to_string(), "xy".to_string()]);
}

#[test]
fn inline_code_counts_its_backticks() {
    let doc = render_markdown("`abc` def");
    assert_eq!(doc.len(), 1);
    let frags = wrap_line_fragments(&doc[0], Some(5));
    assert_eq!(frags, vec!["`abc`".to_string(), "def".to_string()]);
}

#[test]
fn no_wrap_keeps_one_fragment() {
    let line = create_plain_line("one two three four five six seven eight nine ten");
    assert_eq!(count_wrapped_lines(&line, None), 1);
    assert!(count_wrapped_lines(&line, Some(10)) > 1);
}

#[test]
fn empty_line_is_one_empty_fragment() {
    let line = RenderedLine::new_empty();
    let frags = wrap_line_fragments(&line, Some(10));
    assert_eq!(frags, vec![String::new()]);
}

#[test]
fn table_rows_never_wrap() {
    let doc = render_markdown(
        "| a very long header cell that would wrap | second column here too |\n| --- | --- |\n| a | b |",
    );
    for line in &doc {
        assert_eq!(count_wrapped_lines(line, Some(10)), 1);
    }
}

#[test]
fn wrapped_count_is_monotone_in_width() {
    let text = "This paragraph is deliberately long enough that it will need to wrap at \
                eighty columns and again at one hundred and twenty columns, so the counts \
                can be compared across the three policies the viewer offers.\n\nShort line.";
    let doc = render_markdown(text);
    let c80 = wrapped_count(&doc, Some(80));
    let c120 = wrapped_count(&doc, Some(120));
    let cnone = wrapped_count(&doc, None);
    assert!(c80 >= c120);
    assert!(c120 >= cnone);
    assert_eq!(cnone, doc.len());
}

#[test]
fn offsets_grow_by_fragment_counts() {
    let text = "one two three four five six seven eight nine ten eleven twelve\n\nshort";
    let doc = render_markdown(text);
    let w = Some(20usize);
    let mut expected = 0;
    for i in 0..doc.len() {
        assert_eq!(source_to_wrapped_offset(&doc, w, i), expected);
        let c = count_wrapped_lines(&doc[i], w);
        assert!(c >= 1);
        expected += c;
    }
    assert_eq!(source_to_wrapped_offset(&doc, w, doc.len()), expected);
    assert_eq!(expected, wrapped_count(&doc, w));
}

#[test]
fn window_selects_the_requested_rows() {
    let doc = render_markdown("alpha\n\nbeta\n\ngamma");
    assert_eq!(doc.len(), 5);
    let frags = wrap_window(&doc, Some(80), 0, 100);
    assert_eq!(frags.len(), 5);
    assert_eq!(frags[0].text, "alpha");
    assert_eq!(frags[0].source_index, 0);
    assert!(frags[0].first);
    assert_eq!(frags[4].text, "gamma");
    assert_eq!(frags[4].source_index, 4);

    let tail = wrap_window(&doc, Some(80), 3, 10);
    assert_eq!(tail.len(), 2);
    assert_eq!(tail[1].text, "gamma");

    let beyond = wrap_window(&doc, Some(80), 50, 10);
    assert_eq!(beyond.len(), 0);
}

#[test]
fn window_marks_continuation_rows() {
    let doc = vec![create_plain_line("aa bb cc dd")];
    let frags = wrap_window(&doc, Some(5), 0, 10);
    assert_eq!(frags.len(), 2);
    assert!(frags[0].first);
    assert!(!frags[1].first);
    assert_eq!(frags[1].source_index, 0);
}
