use rmd::markdown::{RenderedLine, TextSegment};
use rmd::render::render_markdown;

fn plain_text(line: &RenderedLine) -> String {
    line.to_plain_string()
}

fn seg_matches(a: &TextSegment, b: &TextSegment) -> bool {
    match (a, b) {
        (TextSegment::Plain(x), TextSegment::Plain(y)) => x == y,
        (TextSegment::Code(x), TextSegment::Code(y)) => x == y,
        (
            TextSegment::Link { text: xt, url: xu },
            TextSegment::Link { text: yt, url: yu },
        ) => xt == yt && xu == yu,
        (TextSegment::Emphasis(x), TextSegment::Emphasis(y)) => x == y,
        (TextSegment::Strong(x), TextSegment::Strong(y)) => x == y,
        _ => false,
    }
}

fn lines_equal(a: &[RenderedLine], b: &[RenderedLine]) -> bool {
    if a.len() != b.len() {
        return false;
    }
    for (la, lb) in a.iter().zip(b.iter()) {
        if la.heading_level != lb.heading_level
            || la.is_code_block != lb.is_code_block
            || la.is_blockquote != lb.is_blockquote
            || la.is_list_item != lb.is_list_item
            || la.is_horizontal_rule != lb.is_horizontal_rule
            || la.is_table_row != lb.is_table_row
            || la.is_table_separator != lb.is_table_separator
            || la.segments.len() != lb.segments.len()
        {
            return false;
        }
        for (sa, sb) in la.segments.iter().zip(lb.segments.iter()) {
            if !seg_matches(sa, sb) {
                return false;
            }
        }
    }
    true
}

#[test]
fn render_is_deterministic() {
    let input = "# Title\n\nSome *styled* **text** with `code` and a [link](http://x).\n\n- one\n- two\n";
    let first = render_markdown(input);
    let second = render_markdown(input);
    assert!(lines_equal(&first, &second));
}

#[test]
fn render_never_empty() {
    assert!(render_markdown("").len() >= 1);
    assert!(render_markdown("plain").len() >= 1);
    assert!(render_markdown("\n\n\n").len() >= 1);
    assert!(render_markdown("# \n").len() >= 1);
}

#[test]
fn empty_input_yields_placeholder() {
    let lines = render_markdown("");
    assert_eq!(lines.len(), 1);
    assert_eq!(plain_text(&lines[0]), "(Empty file)");
    assert_eq!(lines[0].heading_level, 0);
}

#[test]
fn title_and_paragraph() {
    let lines = render_markdown("# Title\n\nHello world");
    assert_eq!(lines.len(), 3);
    assert_eq!(plain_text(&lines[0]), "# Title");
    assert_eq!(lines[0].heading_level, 1);
    assert_eq!(lines[1].segments.len(), 0);
    assert_eq!(plain_text(&lines[2]), "Hello world");
    assert_eq!(lines[2].heading_level, 0);
}

#[test]
fn heading_levels_carry_their_markers() {
    let lines = render_markdown("## Two\n\n### Three");
    assert_eq!(plain_text(&lines[0]), "## Two");
    assert_eq!(lines[0].heading_level, 2);
    assert_eq!(plain_text(&lines[2]), "### Three");
    assert_eq!(lines[2].heading_level, 3);
}

#[test]
fn heading_levels_stay_within_six() {
    let lines = render_markdown("###### six\n\n####### seven hashes is no heading");
    assert!(lines.iter().all(|l| l.heading_level <= 6));
    assert_eq!(lines[0].heading_level, 6);
}

#[test]
fn two_column_table_renders_borders_and_padded_rows() {
    let lines = render_markdown("| a | bb |\n| --- | --- |\n| ccc | d |");
    let texts: Vec<String> = lines.iter().map(plain_text).collect();
    assert_eq!(
        texts,
        vec![
            "┌─────┬────┐".to_string(),
            "│ a   │ bb │".to_string(),
            "├─────┼────┤".to_string(),
            "│ ccc │ d  │".to_string(),
            "└─────┴────┘".to_string(),
        ]
    );
    for line in &lines {
        assert!(line.is_table_row);
    }
    assert!(lines[0].is_table_separator);
    assert!(!lines[1].is_table_separator);
    assert!(lines[2].is_table_separator);
    assert!(!lines[3].is_table_separator);
    assert!(lines[4].is_table_separator);
}

#[test]
fn inline_styles_become_segments() {
    let lines = render_markdown("mix *em* **st** `cd` [lnk](http://e) end");
    assert_eq!(lines.len(), 1);
    let segs = &lines[0].segments;
    assert!(matches!(&segs[0], TextSegment::Plain(s) if s == "mix "));
    assert!(matches!(&segs[1], TextSegment::Emphasis(s) if s == "em"));
    assert!(matches!(&segs[3], TextSegment::Strong(s) if s == "st"));
    assert!(matches!(&segs[5], TextSegment::Code(s) if s == "cd"));
    assert!(
        matches!(&segs[7], TextSegment::Link { text, url } if text == "lnk" && url == "http://e")
    );
    assert_eq!(plain_text(&lines[0]), "mix em st `cd` lnk end");
}

#[test]
fn bullet_list_items() {
    let lines = render_markdown("- alpha\n- beta");
    assert_eq!(plain_text(&lines[0]), "• alpha");
    assert!(lines[0].is_list_item);
    assert_eq!(plain_text(&lines[1]), "• beta");
}

#[test]
fn ordered_list_counts_from_start() {
    let lines = render_markdown("3. alpha\n4. beta");
    assert_eq!(plain_text(&lines[0]), "3. alpha");
    assert_eq!(plain_text(&lines[1]), "4. beta");
}

#[test]
fn nested_list_indents() {
    let lines = render_markdown("- top\n  - inner");
    assert_eq!(plain_text(&lines[0]), "• top");
    assert_eq!(plain_text(&lines[1]), "  • inner");
}

#[test]
fn fenced_code_block() {
    let lines = render_markdown("```rust\nlet x = 1;\n```");
    let texts: Vec<String> = lines.iter().map(plain_text).collect();
    assert_eq!(texts, vec!["```rust", "  let x = 1;", "```"]);
    assert!(lines.iter().all(|l| l.is_code_block));
}

#[test]
fn blockquote_lines_carry_a_bar() {
    let lines = render_markdown("> quoted");
    assert_eq!(plain_text(&lines[0]), "│ quoted");
    assert!(lines[0].is_blockquote);
}

#[test]
fn horizontal_rule_is_full_width() {
    let lines = render_markdown("---");
    assert_eq!(lines.len(), 1);
    assert!(lines[0].is_horizontal_rule);
    assert_eq!(plain_text(&lines[0]).chars().count(), 40);
}

#[test]
fn hard_break_splits_a_paragraph() {
    let lines = render_markdown("first  \nsecond");
    assert_eq!(plain_text(&lines[0]), "first");
    assert_eq!(plain_text(&lines[1]), "second");
}

#[test]
fn image_title_or_placeholder() {
    let lines = render_markdown("![alt](http://img \"ttl\") and ![alt2](http://img2)");
    let segs = &lines[0].segments;
    assert!(
        matches!(&segs[0], TextSegment::Link { text, url } if text == "ttl" && url == "http://img")
    );
    assert!(
        matches!(&segs[2], TextSegment::Link { text, url } if text == "[image]" && url == "http://img2")
    );
}

#[test]
fn search_text_drops_decoration() {
    let lines = render_markdown("a `b` [c](http://d)");
    assert_eq!(lines[0].to_search_string(), "a b c");
    assert_eq!(lines[0].to_plain_string(), "a `b` c");
}
