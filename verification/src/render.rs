use vstd::prelude::*;
use crate::markdown::{
    LineView, RenderedLine, SegView, empty_line_view, line_push_plain, lines_view,
    plain_line_view,
};
use crate::parse::{MdEvent, events_of, heading_levels_ok, parse_events};
use crate::text::{dec_str, lines_of, repeat_text, str_lines, str_repeat, u64_to_string};

verus! {

/// The transducer's abstract state: the lines already emitted, the line and
/// inline text under construction, the open block and inline contexts, and
/// the pending table.
#[verifier::ext_equal]
pub struct TransView {
    pub lines: Seq<LineView>,
    pub cur: LineView,
    pub text: Seq<char>,
    pub in_code_block: bool,
    pub list_depth: nat,
    pub counters: Seq<u64>,
    pub in_blockquote: bool,
    pub in_link: bool,
    pub link_url: Seq<char>,
    pub link_text: Seq<char>,
    pub in_emphasis: bool,
    pub emphasis_text: Seq<char>,
    pub in_strong: bool,
    pub strong_text: Seq<char>,
    pub in_table: bool,
    pub row_cells: Seq<Seq<char>>,
    pub cell_text: Seq<char>,
    pub rows: Seq<Seq<Seq<char>>>,
}

pub open spec fn tv_init() -> TransView {
    TransView {
        lines: Seq::empty(),
        cur: empty_line_view(),
        text: Seq::empty(),
        in_code_block: false,
        list_depth: 0,
        counters: Seq::empty(),
        in_blockquote: false,
        in_link: false,
        link_url: Seq::empty(),
        link_text: Seq::empty(),
        in_emphasis: false,
        emphasis_text: Seq::empty(),
        in_strong: false,
        strong_text: Seq::empty(),
        in_table: false,
        row_cells: Seq::empty(),
        cell_text: Seq::empty(),
        rows: Seq::empty(),
    }
}

/// A line carrying only the code-block flag.
pub open spec fn code_flag_line() -> LineView {
    LineView { is_code_block: true, ..empty_line_view() }
}

/// A line carrying only the blockquote flag.
pub open spec fn quote_flag_line() -> LineView {
    LineView { is_blockquote: true, ..empty_line_view() }
}

/// A line carrying only the horizontal-rule flag.
pub open spec fn rule_flag_line() -> LineView {
    LineView { is_horizontal_rule: true, ..empty_line_view() }
}

/// A line carrying only the table-row flag.
pub open spec fn table_row_flags() -> LineView {
    LineView { is_table_row: true, ..empty_line_view() }
}

/// A border or header separator line of a table: both table flags set.
pub open spec fn table_sep_flags() -> LineView {
    LineView { is_table_row: true, is_table_separator: true, ..empty_line_view() }
}

/// The fence line that opens or closes a code block: three backticks and
/// the language name, if any.
pub open spec fn code_marker(lang: Seq<char>) -> LineView {
    line_push_plain(code_flag_line(), seq!['`', '`', '`'] + lang)
}

/// One line of code-block content: the raw line behind a two-space indent.
pub open spec fn code_content_line(l: Seq<char>) -> LineView {
    line_push_plain(code_flag_line(), seq![' ', ' '] + l)
}

/// One line of blockquote content behind a quote bar.
pub open spec fn quote_content_line(l: Seq<char>) -> LineView {
    line_push_plain(quote_flag_line(), seq!['│', ' '] + l)
}

/// The full-width horizontal rule line.
pub open spec fn rule_line() -> LineView {
    line_push_plain(rule_flag_line(), repeat_text(seq!['─'], 40))
}

/// Move the pending inline text, if any, into the line under construction.
pub open spec fn tv_flush_text(s: TransView) -> TransView {
    TransView { cur: line_push_plain(s.cur, s.text), text: Seq::empty(), ..s }
}

/// Flush the pending text and, if the line under construction has any
/// segments, emit it and start a fresh one.
pub open spec fn tv_break_line(s: TransView) -> TransView {
    let s1 = tv_flush_text(s);
    if s1.cur.segments.len() > 0 {
        TransView { lines: s1.lines.push(s1.cur), cur: empty_line_view(), ..s1 }
    } else {
        s1
    }
}

/// A counter one higher, stopping at the largest value instead of wrapping.
pub open spec fn u64_inc_sat(n: u64) -> u64 {
    if n < u64::MAX {
        (n + 1) as u64
    } else {
        n
    }
}

/// A depth one higher, stopping at the largest value instead of wrapping.
pub open spec fn nat_inc_sat(n: nat) -> nat {
    if n < usize::MAX as nat {
        n + 1
    } else {
        n
    }
}

/// A depth one lower, stopping at zero.
pub open spec fn nat_dec_sat(n: nat) -> nat {
    if n > 0 {
        (n - 1) as nat
    } else {
        0
    }
}

pub open spec fn tv_heading_start(s: TransView, n: u8) -> TransView {
    let s1 = tv_break_line(s);
    TransView {
        cur: LineView { heading_level: n, ..s1.cur },
        text: s1.text + repeat_text(seq!['#'], n as nat) + seq![' '],
        ..s1
    }
}

pub open spec fn tv_code_start(s: TransView, lang: Seq<char>) -> TransView {
    let s1 = tv_break_line(s);
    TransView { in_code_block: true, lines: s1.lines.push(code_marker(lang)), ..s1 }
}

pub open spec fn tv_list_start(s: TransView, start: Option<u64>) -> TransView {
    let s1 = tv_break_line(s);
    TransView {
        list_depth: nat_inc_sat(s1.list_depth),
        counters: s1.counters.push(
            match start {
                Some(n) => n,
                None => 0,
            },
        ),
        ..s1
    }
}

/// The two-space indent of a list item at the current depth.
pub open spec fn item_indent(depth: nat) -> Seq<char> {
    repeat_text(seq![' ', ' '], nat_dec_sat(depth))
}

/// The marker a list item gets in front of its text: its indent and either
/// the next ordinal or a bullet, appended to the pending text.
pub open spec fn tv_item_marker(s2: TransView) -> TransView {
    if s2.counters.len() > 0 {
        let idx = s2.counters.last();
        if idx > 0 {
            TransView {
                text: s2.text + item_indent(s2.list_depth) + dec_str(idx as nat)
                    + seq!['.', ' '],
                counters: s2.counters.update(s2.counters.len() - 1, u64_inc_sat(idx)),
                ..s2
            }
        } else {
            TransView { text: s2.text + item_indent(s2.list_depth) + seq!['•', ' '], ..s2 }
        }
    } else {
        s2
    }
}

pub open spec fn tv_item_start(s: TransView) -> TransView {
    let s1 = tv_break_line(s);
    tv_item_marker(TransView { cur: LineView { is_list_item: true, ..s1.cur }, ..s1 })
}

pub open spec fn tv_quote_start(s: TransView) -> TransView {
    let s1 = tv_break_line(s);
    TransView { in_blockquote: true, ..s1 }
}

pub open spec fn tv_emphasis_start(s: TransView) -> TransView {
    let s1 = tv_flush_text(s);
    TransView { in_emphasis: true, emphasis_text: Seq::empty(), ..s1 }
}

pub open spec fn tv_strong_start(s: TransView) -> TransView {
    let s1 = tv_flush_text(s);
    TransView { in_strong: true, strong_text: Seq::empty(), ..s1 }
}

pub open spec fn tv_link_start(s: TransView, url: Seq<char>) -> TransView {
    let s1 = tv_flush_text(s);
    TransView { in_link: true, link_url: url, link_text: Seq::empty(), ..s1 }
}

pub open spec fn tv_image(s: TransView, url: Seq<char>, title: Seq<char>) -> TransView {
    let s1 = tv_flush_text(s);
    let display = if title.len() > 0 {
        title
    } else {
        "[image]"@
    };
    TransView {
        cur: LineView {
            segments: s1.cur.segments.push(SegView::Link { text: display, url: url }),
            ..s1.cur
        },
        ..s1
    }
}

pub open spec fn tv_table_start(s: TransView) -> TransView {
    let s1 = tv_break_line(s);
    TransView { in_table: true, rows: Seq::empty(), ..s1 }
}

pub open spec fn tv_row_start(s: TransView) -> TransView {
    TransView { row_cells: Seq::empty(), ..s }
}

pub open spec fn tv_cell_start(s: TransView) -> TransView {
    TransView { cell_text: Seq::empty(), ..s }
}

pub open spec fn tv_heading_end(s: TransView) -> TransView {
    let s1 = tv_flush_text(s);
    TransView {
        lines: s1.lines.push(s1.cur).push(empty_line_view()),
        cur: empty_line_view(),
        ..s1
    }
}

pub open spec fn tv_paragraph_end(s: TransView) -> TransView {
    tv_heading_end(s)
}

pub open spec fn tv_code_end(s: TransView) -> TransView {
    TransView {
        in_code_block: false,
        lines: s.lines.push(code_marker(Seq::empty())).push(empty_line_view()),
        ..s
    }
}

pub open spec fn tv_list_end(s: TransView) -> TransView {
    let d = nat_dec_sat(s.list_depth);
    let cs = if s.counters.len() > 0 {
        s.counters.drop_last()
    } else {
        s.counters
    };
    TransView {
        list_depth: d,
        counters: cs,
        lines: if d == 0 {
            s.lines.push(empty_line_view())
        } else {
            s.lines
        },
        ..s
    }
}

pub open spec fn tv_item_end(s: TransView) -> TransView {
    let s1 = tv_flush_text(s);
    TransView { lines: s1.lines.push(s1.cur), cur: empty_line_view(), ..s1 }
}

pub open spec fn tv_quote_end(s: TransView) -> TransView {
    let s1 = tv_flush_text(s);
    TransView {
        in_blockquote: false,
        lines: s1.lines.push(s1.cur).push(empty_line_view()),
        cur: empty_line_view(),
        ..s1
    }
}

pub open spec fn tv_emphasis_end(s: TransView) -> TransView {
    TransView {
        cur: LineView {
            segments: s.cur.segments.push(SegView::Emphasis(s.emphasis_text)),
            ..s.cur
        },
        emphasis_text: Seq::empty(),
        in_emphasis: false,
        ..s
    }
}

pub open spec fn tv_strong_end(s: TransView) -> TransView {
    TransView {
        cur: LineView {
            segments: s.cur.segments.push(SegView::Strong(s.strong_text)),
            ..s.cur
        },
        strong_text: Seq::empty(),
        in_strong: false,
        ..s
    }
}

pub open spec fn tv_link_end(s: TransView) -> TransView {
    TransView {
        cur: LineView {
            segments: s.cur.segments.push(
                SegView::Link { text: s.link_text, url: s.link_url },
            ),
            ..s.cur
        },
        link_text: Seq::empty(),
        link_url: Seq::empty(),
        in_link: false,
        ..s
    }
}

/// The number of columns of a pending table: the longest row's cell count.
pub open spec fn ncols(rows: Seq<Seq<Seq<char>>>) -> nat
    decreases rows.len(),
{
    if rows.len() == 0 {
        0
    } else {
        let r = ncols(rows.drop_last());
        let l = rows.last().len();
        if l > r {
            l
        } else {
            r
        }
    }
}

/// The length of cell `i` of a row, or 0 when the row is shorter.
pub open spec fn cell_len(row: Seq<Seq<char>>, i: int) -> nat {
    if 0 <= i < row.len() {
        row[i].len()
    } else {
        0
    }
}

/// The width of column `i`: the longest cell in that column over all rows.
pub open spec fn colw(rows: Seq<Seq<Seq<char>>>, i: int) -> nat
    decreases rows.len(),
{
    if rows.len() == 0 {
        0
    } else {
        let r = colw(rows.drop_last(), i);
        let c = cell_len(rows.last(), i);
        if c > r {
            c
        } else {
            r
        }
    }
}

/// The column widths of a pending table.
pub open spec fn table_widths(rows: Seq<Seq<Seq<char>>>) -> Seq<nat> {
    Seq::new(ncols(rows), |i: int| colw(rows, i))
}

/// A column's stretch of a border: box-drawing dashes over the column
/// width plus two padding cells.
pub open spec fn dash_run(w: nat) -> Seq<char> {
    repeat_text(seq!['─'], w + 2)
}

/// The middle part of a border: one dash run per column, joined by the
/// given junction character.
pub open spec fn border_mids(ws: Seq<nat>, mid: char) -> Seq<char>
    decreases ws.len(),
{
    if ws.len() == 0 {
        Seq::empty()
    } else if ws.len() == 1 {
        dash_run(ws[0])
    } else {
        dash_run(ws[0]) + seq![mid] + border_mids(ws.drop_first(), mid)
    }
}

/// A full border line's text.
pub open spec fn border_text(ws: Seq<nat>, l: char, m: char, r: char) -> Seq<char> {
    seq![l] + border_mids(ws, m) + seq![r]
}

/// The text of a row after the leading bar: every cell padded to its
/// column's width, between single spaces, each closed by a bar.
pub open spec fn row_cells_text(row: Seq<Seq<char>>, ws: Seq<nat>) -> Seq<char>
    decreases row.len(),
{
    if row.len() == 0 {
        Seq::empty()
    } else {
        let w = if ws.len() > 0 {
            ws[0]
        } else {
            row[0].len()
        };
        let pad = if w >= row[0].len() {
            (w - row[0].len()) as nat
        } else {
            0
        };
        let ws2 = if ws.len() > 0 {
            ws.drop_first()
        } else {
            ws
        };
        seq![' '] + row[0] + repeat_text(seq![' '], pad) + seq![' ', '│']
            + row_cells_text(row.drop_first(), ws2)
    }
}

/// A rendered table row line.
pub open spec fn table_row_line(row: Seq<Seq<char>>, ws: Seq<nat>) -> LineView {
    line_push_plain(table_row_flags(), seq!['│'] + row_cells_text(row, ws))
}

/// A border or separator line of a table.
pub open spec fn table_sep_line(t: Seq<char>) -> LineView {
    line_push_plain(table_sep_flags(), t)
}

/// The rendered rows of a table: the first row, then the header/body
/// separator, then the remaining rows.
pub open spec fn table_body(rows: Seq<Seq<Seq<char>>>, ws: Seq<nat>) -> Seq<LineView> {
    if rows.len() == 0 {
        Seq::empty()
    } else {
        seq![
            table_row_line(rows[0], ws),
            table_sep_line(border_text(ws, '├', '┼', '┤')),
        ] + rows.drop_first().map_values(|r: Seq<Seq<char>>| table_row_line(r, ws))
    }
}

pub open spec fn tv_table_end(s: TransView) -> TransView {
    let ws = table_widths(s.rows);
    TransView {
        lines: s.lines.push(table_sep_line(border_text(ws, '┌', '┬', '┐')))
            + table_body(s.rows, ws)
            + seq![table_sep_line(border_text(ws, '└', '┴', '┘')), empty_line_view()],
        in_table: false,
        ..s
    }
}

/// The table block, as one statement: closing a pending table appends, in
/// order, the top border, the first (header) row, the header/body
/// separator, the remaining rows in order, the bottom border, and one
/// blank line — borders and the separator carry both table flags, rows
/// only `is_table_row`, and every cell is rendered padded to its column's
/// width (`table_row_line` over `table_widths`).
pub proof fn lemma_table_block_shape(s: TransView)
    ensures
        ({
            let ws = table_widths(s.rows);
            let out = tv_table_end(s).lines;
            let base = s.lines.len() as int;
            &&& out.len() == base + (if s.rows.len() == 0 {
                3int
            } else {
                s.rows.len() as int + 4
            })
            &&& forall|i: int| 0 <= i < base ==> out[i] == s.lines[i]
            &&& out[base] == table_sep_line(border_text(ws, '┌', '┬', '┐'))
            &&& s.rows.len() > 0 ==> out[base + 1] == table_row_line(s.rows[0], ws)
            &&& s.rows.len() > 0 ==> out[base + 2] == table_sep_line(
                border_text(ws, '├', '┼', '┤'),
            )
            &&& forall|k: int|
                1 <= k < s.rows.len() ==> out[base + 2 + k] == table_row_line(s.rows[k], ws)
            &&& out[out.len() - 2] == table_sep_line(border_text(ws, '└', '┴', '┘'))
            &&& out[out.len() - 1] == empty_line_view()
            &&& tv_table_end(s).in_table == false
        }),
{
    let ws = table_widths(s.rows);
    let out = tv_table_end(s).lines;
    let base = s.lines.len() as int;
    assert forall|k: int| 1 <= k < s.rows.len() implies out[base + 2 + k] == table_row_line(
        s.rows[k],
        ws,
    ) by {
        assert(table_body(s.rows, ws)[2 + (k - 1)] == s.rows.drop_first().map_values(
            |r: Seq<Seq<char>>| table_row_line(r, ws),
        )[k - 1]);
        assert(s.rows.drop_first()[k - 1] == s.rows[k]);
    }
}

/// A rendered row carries the table-row flag alone; a border or the
/// header separator carries both table flags; neither is a heading.
pub proof fn lemma_table_line_flags(row: Seq<Seq<char>>, ws: Seq<nat>, t: Seq<char>)
    ensures
        table_row_line(row, ws).is_table_row,
        !table_row_line(row, ws).is_table_separator,
        table_row_line(row, ws).heading_level == 0,
        table_sep_line(t).is_table_row,
        table_sep_line(t).is_table_separator,
        table_sep_line(t).heading_level == 0,
{
}

pub open spec fn tv_row_end(s: TransView) -> TransView {
    TransView { rows: s.rows.push(s.row_cells), row_cells: Seq::empty(), ..s }
}

pub open spec fn tv_cell_end(s: TransView) -> TransView {
    TransView { row_cells: s.row_cells.push(s.cell_text), cell_text: Seq::empty(), ..s }
}

pub open spec fn tv_text(s: TransView, t: Seq<char>) -> TransView {
    if s.in_table {
        TransView { cell_text: s.cell_text + t, ..s }
    } else if s.in_code_block {
        TransView {
            lines: s.lines + lines_of(t).map_values(|l: Seq<char>| code_content_line(l)),
            ..s
        }
    } else if s.in_blockquote {
        TransView {
            lines: s.lines + lines_of(t).map_values(|l: Seq<char>| quote_content_line(l)),
            ..s
        }
    } else if s.in_link {
        TransView { link_text: s.link_text + t, ..s }
    } else if s.in_emphasis {
        TransView { emphasis_text: s.emphasis_text + t, ..s }
    } else if s.in_strong {
        TransView { strong_text: s.strong_text + t, ..s }
    } else {
        TransView { text: s.text + t, ..s }
    }
}

pub open spec fn tv_inline_code(s: TransView, c: Seq<char>) -> TransView {
    if s.in_table {
        TransView { cell_text: s.cell_text + seq!['`'] + c + seq!['`'], ..s }
    } else {
        let s1 = tv_flush_text(s);
        TransView {
            cur: LineView { segments: s1.cur.segments.push(SegView::Code(c)), ..s1.cur },
            ..s1
        }
    }
}

pub open spec fn tv_soft_break(s: TransView) -> TransView {
    if s.in_link {
        TransView { link_text: s.link_text + seq![' '], ..s }
    } else if s.in_emphasis {
        TransView { emphasis_text: s.emphasis_text + seq![' '], ..s }
    } else if s.in_strong {
        TransView { strong_text: s.strong_text + seq![' '], ..s }
    } else {
        TransView { text: s.text + seq![' '], ..s }
    }
}

pub open spec fn tv_hard_break(s: TransView) -> TransView {
    let s1 = tv_flush_text(s);
    TransView { lines: s1.lines.push(s1.cur), cur: empty_line_view(), ..s1 }
}

pub open spec fn tv_rule(s: TransView) -> TransView {
    let s1 = tv_break_line(s);
    TransView { lines: s1.lines.push(rule_line()).push(empty_line_view()), ..s1 }
}

/// The transition of the transducer on one event.
pub open spec fn tv_step(s: TransView, ev: MdEvent) -> TransView {
    match ev {
        MdEvent::HeadingStart(n) => tv_heading_start(s, n),
        MdEvent::ParagraphStart => tv_break_line(s),
        MdEvent::CodeBlockStart(lang) => tv_code_start(s, lang@),
        MdEvent::ListStart(start) => tv_list_start(s, start),
        MdEvent::ItemStart => tv_item_start(s),
        MdEvent::QuoteStart => tv_quote_start(s),
        MdEvent::EmphasisStart => tv_emphasis_start(s),
        MdEvent::StrongStart => tv_strong_start(s),
        MdEvent::LinkStart(url) => tv_link_start(s, url@),
        MdEvent::ImageStart(url, title) => tv_image(s, url@, title@),
        MdEvent::TableStart => tv_table_start(s),
        MdEvent::RowStart => tv_row_start(s),
        MdEvent::CellStart => tv_cell_start(s),
        MdEvent::HeadingEnd => tv_heading_end(s),
        MdEvent::ParagraphEnd => tv_paragraph_end(s),
        MdEvent::CodeBlockEnd => tv_code_end(s),
        MdEvent::ListEnd => tv_list_end(s),
        MdEvent::ItemEnd => tv_item_end(s),
        MdEvent::QuoteEnd => tv_quote_end(s),
        MdEvent::EmphasisEnd => tv_emphasis_end(s),
        MdEvent::StrongEnd => tv_strong_end(s),
        MdEvent::LinkEnd => tv_link_end(s),
        MdEvent::TableEnd => tv_table_end(s),
        MdEvent::RowEnd => tv_row_end(s),
        MdEvent::CellEnd => tv_cell_end(s),
        MdEvent::Text(t) => tv_text(s, t@),
        MdEvent::InlineCode(c) => tv_inline_code(s, c@),
        MdEvent::SoftBreak => tv_soft_break(s),
        MdEvent::HardBreak => tv_hard_break(s),
        MdEvent::Rule => tv_rule(s),
        MdEvent::Ignore => s,
    }
}

/// The state after running the transducer over a whole event sequence.
pub open spec fn tv_run(evs: Seq<MdEvent>) -> TransView
    decreases evs.len(),
{
    if evs.len() == 0 {
        tv_init()
    } else {
        tv_step(tv_run(evs.drop_last()), evs.last())
    }
}

/// Trailing lines with no segments, removed.
pub open spec fn strip_trailing_blanks(ls: Seq<LineView>) -> Seq<LineView>
    decreases ls.len(),
{
    if ls.len() > 0 && ls.last().segments.len() == 0 {
        strip_trailing_blanks(ls.drop_last())
    } else {
        ls
    }
}

/// The finishing pass at the end of the stream: flush pending text and the
/// pending line, strip trailing blanks, and fall back to the placeholder
/// line when nothing is left.
pub open spec fn tv_finish(s: TransView) -> Seq<LineView> {
    let s1 = tv_flush_text(s);
    let ls = if s1.cur.segments.len() > 0 {
        s1.lines.push(s1.cur)
    } else {
        s1.lines
    };
    let stripped = strip_trailing_blanks(ls);
    if stripped.len() == 0 {
        seq![plain_line_view("(Empty file)"@)]
    } else {
        stripped
    }
}

/// The document the transducer produces for an event sequence.
pub open spec fn render_spec(evs: Seq<MdEvent>) -> Seq<LineView> {
    tv_finish(tv_run(evs))
}

/// The transducer never yields an empty document.
pub proof fn lemma_render_nonempty(evs: Seq<MdEvent>)
    ensures
        render_spec(evs).len() >= 1,
{
}

/// Rendering is deterministic: any two line sequences produced for the
/// same event stream are identical.
pub proof fn lemma_render_deterministic(a: Seq<LineView>, b: Seq<LineView>, evs: Seq<MdEvent>)
    requires
        a == render_spec(evs),
        b == render_spec(evs),
    ensures
        a == b,
{
}

/// Every emitted line, and the line under construction, carries a heading
/// level of at most 6.
pub open spec fn tv_levels_ok(s: TransView) -> bool {
    &&& forall|i: int| 0 <= i < s.lines.len() ==> (#[trigger] s.lines[i]).heading_level <= 6
    &&& s.cur.heading_level <= 6
}

proof fn lemma_table_body_levels(rows: Seq<Seq<Seq<char>>>, ws: Seq<nat>)
    ensures
        forall|k: int|
            0 <= k < table_body(rows, ws).len() ==> (#[trigger] table_body(rows, ws)[
                k
            ]).heading_level <= 6,
{
    let body = table_body(rows, ws);
    assert forall|k: int| 0 <= k < body.len() implies (#[trigger] body[k]).heading_level
        <= 6 by {
        if rows.len() > 0 && k >= 2 {
            assert(body[k] == rows.drop_first().map_values(
                |r: Seq<Seq<char>>| table_row_line(r, ws),
            )[k - 2]);
        }
    }
}

/// One step keeps every heading level bounded, provided a heading event's
/// own level is.
proof fn lemma_step_levels(s: TransView, ev: MdEvent)
    requires
        tv_levels_ok(s),
        ev matches MdEvent::HeadingStart(n) ==> 1 <= n <= 6,
    ensures
        tv_levels_ok(tv_step(s, ev)),
{
    assert(tv_levels_ok(tv_flush_text(s)));
    assert(tv_levels_ok(tv_break_line(s)));
    match ev {
        MdEvent::TableEnd => {
            lemma_table_body_levels(s.rows, table_widths(s.rows));
            assert(tv_levels_ok(tv_step(s, ev)));
        }
        MdEvent::Text(t) => {
            if !s.in_table && s.in_code_block {
                let mapped = lines_of(t@).map_values(|l: Seq<char>| code_content_line(l));
                assert forall|k: int| 0 <= k < mapped.len() implies (#[trigger] mapped[
                    k
                ]).heading_level <= 6 by {
                    assert(mapped[k] == code_content_line(lines_of(t@)[k]));
                }
            } else if !s.in_table && s.in_blockquote {
                let mapped = lines_of(t@).map_values(|l: Seq<char>| quote_content_line(l));
                assert forall|k: int| 0 <= k < mapped.len() implies (#[trigger] mapped[
                    k
                ]).heading_level <= 6 by {
                    assert(mapped[k] == quote_content_line(lines_of(t@)[k]));
                }
            }
            assert(tv_levels_ok(tv_step(s, ev)));
        }
        _ => {
            assert(tv_levels_ok(tv_step(s, ev)));
        }
    }
}

proof fn lemma_run_levels(evs: Seq<MdEvent>)
    requires
        heading_levels_ok(evs),
    ensures
        tv_levels_ok(tv_run(evs)),
    decreases evs.len(),
{
    if evs.len() == 0 {
        assert(tv_levels_ok(tv_init()));
    } else {
        assert forall|i: int| 0 <= i < evs.drop_last().len() implies (
        #[trigger] evs.drop_last()[i] matches MdEvent::HeadingStart(n) ==> 1 <= n <= 6) by {
            assert(evs.drop_last()[i] == evs[i]);
        }
        assert(heading_levels_ok(evs.drop_last()));
        lemma_run_levels(evs.drop_last());
        assert(evs.last() == evs[evs.len() - 1]);
        lemma_step_levels(tv_run(evs.drop_last()), evs.last());
    }
}

/// Stripping trailing blanks keeps a prefix of the lines.
proof fn lemma_strip_prefix(ls: Seq<LineView>)
    ensures
        strip_trailing_blanks(ls).len() <= ls.len(),
        forall|i: int|
            0 <= i < strip_trailing_blanks(ls).len() ==> #[trigger] strip_trailing_blanks(ls)[i]
                == ls[i],
    decreases ls.len(),
{
    if ls.len() > 0 && ls.last().segments.len() == 0 {
        lemma_strip_prefix(ls.drop_last());
        assert forall|i: int| 0 <= i < strip_trailing_blanks(ls).len() implies
            #[trigger] strip_trailing_blanks(ls)[i] == ls[i] by {
            assert(strip_trailing_blanks(ls)[i] == ls.drop_last()[i]);
        }
    }
}

/// The heading-level invariant of the line model: when every heading event
/// carries a level in 1 to 6 — as the parser guarantees — every rendered
/// line's `heading_level` is at most 6.
pub proof fn lemma_render_heading_levels(evs: Seq<MdEvent>)
    requires
        heading_levels_ok(evs),
    ensures
        forall|i: int|
            0 <= i < render_spec(evs).len() ==> (#[trigger] render_spec(evs)[i]).heading_level
                <= 6,
{
    lemma_run_levels(evs);
    let s = tv_run(evs);
    let s1 = tv_flush_text(s);
    let ls = if s1.cur.segments.len() > 0 {
        s1.lines.push(s1.cur)
    } else {
        s1.lines
    };
    assert(forall|i: int| 0 <= i < ls.len() ==> (#[trigger] ls[i]).heading_level <= 6);
    lemma_strip_prefix(ls);
}

proof fn lemma_lines_view_push(v: Seq<RenderedLine>, l: RenderedLine)
    ensures
        lines_view(v.push(l)) == lines_view(v).push(l@),
{
    assert(lines_view(v.push(l)) =~= lines_view(v).push(l@));
}

/// The markdown transducer: the concrete state machine behind `TransView`.
pub struct Transducer {
    pub lines: Vec<RenderedLine>,
    pub cur: RenderedLine,
    pub text: String,
    pub in_code_block: bool,
    pub list_depth: usize,
    pub counters: Vec<u64>,
    pub in_blockquote: bool,
    pub in_link: bool,
    pub link_url: String,
    pub link_text: String,
    pub in_emphasis: bool,
    pub emphasis_text: String,
    pub in_strong: bool,
    pub strong_text: String,
    pub in_table: bool,
    pub row_cells: Vec<String>,
    pub cell_text: String,
    pub rows: Vec<Vec<String>>,
}

impl View for Transducer {
    type V = TransView;

    open spec fn view(&self) -> TransView {
        TransView {
            lines: lines_view(self.lines@),
            cur: self.cur@,
            text: self.text@,
            in_code_block: self.in_code_block,
            list_depth: self.list_depth as nat,
            counters: self.counters@,
            in_blockquote: self.in_blockquote,
            in_link: self.in_link,
            link_url: self.link_url@,
            link_text: self.link_text@,
            in_emphasis: self.in_emphasis,
            emphasis_text: self.emphasis_text@,
            in_strong: self.in_strong,
            strong_text: self.strong_text@,
            in_table: self.in_table,
            row_cells: self.row_cells.deep_view(),
            cell_text: self.cell_text@,
            rows: self.rows.deep_view(),
        }
    }
}

/// The column widths of the buffered rows, as a vector.
fn compute_widths(rows: &Vec<Vec<String>>) -> (w: Vec<usize>)
    ensures
        w@.map_values(|x: usize| x as nat) == table_widths(rows.deep_view()),
{
    let ghost dv = rows.deep_view();
    let mut n: usize = 0;
    let mut k: usize = 0;
    proof {
        assert(dv.take(0) =~= Seq::<Seq<Seq<char>>>::empty());
    }
    while k < rows.len()
        invariant
            k <= rows.len(),
            dv == rows.deep_view(),
            dv.len() == rows@.len(),
            n as nat == ncols(dv.take(k as int)),
        decreases rows.len() - k,
    {
        proof {
            assert(dv.take(k + 1).drop_last() =~= dv.take(k as int));
            assert(dv.take(k + 1).last() == dv[k as int]);
            assert(dv[k as int].len() == rows@[k as int]@.len());
        }
        if rows[k].len() > n {
            n = rows[k].len();
        }
        k = k + 1;
    }
    proof {
        assert(dv.take(rows@.len() as int) =~= dv);
    }
    let mut w: Vec<usize> = Vec::new();
    let mut i: usize = 0;
    while i < n
        invariant
            i <= n,
            dv == rows.deep_view(),
            dv.len() == rows@.len(),
            n as nat == ncols(dv),
            w@.len() == i,
            forall|t: int| 0 <= t < i ==> #[trigger] w@[t] as nat == colw(dv, t),
        decreases n - i,
    {
        let mut m: usize = 0;
        let mut k2: usize = 0;
        proof {
            assert(dv.take(0) =~= Seq::<Seq<Seq<char>>>::empty());
        }
        while k2 < rows.len()
            invariant
                k2 <= rows.len(),
                dv == rows.deep_view(),
                dv.len() == rows@.len(),
                m as nat == colw(dv.take(k2 as int), i as int),
            decreases rows.len() - k2,
        {
            proof {
                assert(dv.take(k2 + 1).drop_last() =~= dv.take(k2 as int));
                assert(dv.take(k2 + 1).last() == dv[k2 as int]);
                assert(dv[k2 as int].len() == rows@[k2 as int]@.len());
                if (i as int) < dv[k2 as int].len() {
                    assert(dv[k2 as int][i as int] == rows@[k2 as int]@[i as int]@);
                }
            }
            let c: usize = if i < rows[k2].len() {
                rows[k2][i].as_str().unicode_len()
            } else {
                0
            };
            if c > m {
                m = c;
            }
            k2 = k2 + 1;
        }
        proof {
            assert(dv.take(rows@.len() as int) =~= dv);
        }
        w.push(m);
        i = i + 1;
    }
    proof {
        assert(w@.map_values(|x: usize| x as nat) =~= table_widths(dv));
    }
    w
}

/// The middle of a border line, from column `i` on.
fn border_tail(widths: &Vec<usize>, i: usize, m: &str) -> (res: String)
    requires
        i <= widths@.len(),
        m@.len() == 1,
    ensures
        res@ == border_mids(widths@.map_values(|w: usize| w as nat).skip(i as int), m@[0]),
    decreases widths@.len() - i,
{
    let ghost ws = widths@.map_values(|w: usize| w as nat).skip(i as int);
    if i == widths.len() {
        let res = String::new();
        proof {
            assert(ws =~= Seq::<nat>::empty());
        }
        res
    } else {
        let mut res = str_repeat("─", widths[i]);
        res.append("──");
        proof {
            reveal_strlit("─");
            reveal_strlit("──");
            assert("─"@ =~= seq!['─']);
            assert("──"@ =~= seq!['─', '─']);
            let d = seq!['─'];
            let wn = widths@[i as int] as nat;
            assert(repeat_text(d, wn + 2) == repeat_text(d, wn + 1) + d);
            assert(repeat_text(d, wn + 1) == repeat_text(d, wn) + d);
            assert(res@ =~= dash_run(wn));
            assert(ws[0] == wn);
        }
        if i + 1 < widths.len() {
            res.append(m);
            let rest = border_tail(widths, i + 1, m);
            res.append(rest.as_str());
            proof {
                assert(ws.drop_first() =~= widths@.map_values(|w: usize| w as nat).skip(
                    i as int + 1,
                ));
                assert(m@ =~= seq![m@[0]]);
                assert(res@ =~= border_mids(ws, m@[0]));
            }
            res
        } else {
            proof {
                assert(ws.len() == 1);
                assert(res@ =~= border_mids(ws, m@[0]));
            }
            res
        }
    }
}

/// One full border line of a table.
fn make_border(widths: &Vec<usize>, l: &str, m: &str, r: &str) -> (res: String)
    requires
        l@.len() == 1,
        m@.len() == 1,
        r@.len() == 1,
    ensures
        res@ == border_text(
            widths@.map_values(|w: usize| w as nat),
            l@[0],
            m@[0],
            r@[0],
        ),
{
    let mut res = l.to_owned();
    let mids = border_tail(widths, 0, m);
    res.append(mids.as_str());
    res.append(r);
    proof {
        let ws = widths@.map_values(|w: usize| w as nat);
        assert(ws.skip(0) =~= ws);
        assert(l@ =~= seq![l@[0]]);
        assert(r@ =~= seq![r@[0]]);
        assert(res@ =~= border_text(ws, l@[0], m@[0], r@[0]));
    }
    res
}

/// The text of a table row from cell `i` on, consuming widths from `j` on.
fn row_tail(row: &Vec<String>, widths: &Vec<usize>, i: usize, j: usize) -> (res: String)
    requires
        i <= row@.len(),
        j <= widths@.len(),
    ensures
        res@ == row_cells_text(
            row.deep_view().skip(i as int),
            widths@.map_values(|w: usize| w as nat).skip(j as int),
        ),
    decreases row@.len() - i,
{
    let ghost rv = row.deep_view().skip(i as int);
    let ghost ws = widths@.map_values(|w: usize| w as nat).skip(j as int);
    if i == row.len() {
        let res = String::new();
        proof {
            assert(rv =~= Seq::<Seq<char>>::empty());
        }
        res
    } else {
        let clen = row[i].as_str().unicode_len();
        let w: usize = if j < widths.len() {
            widths[j]
        } else {
            clen
        };
        let pad: usize = if w >= clen {
            w - clen
        } else {
            0
        };
        let mut res = " ".to_owned();
        res.append(row[i].as_str());
        let sp = str_repeat(" ", pad);
        res.append(sp.as_str());
        res.append(" │");
        let j2 = if j < widths.len() {
            j + 1
        } else {
            j
        };
        let rest = row_tail(row, widths, i + 1, j2);
        res.append(rest.as_str());
        proof {
            reveal_strlit(" ");
            reveal_strlit(" │");
            assert(" "@ =~= seq![' ']);
            assert(" │"@ =~= seq![' ', '│']);
            assert(rv[0] == row@[i as int]@);
            assert(rv.drop_first() =~= row.deep_view().skip(i as int + 1));
            if j < widths.len() {
                assert(ws[0] == widths@[j as int] as nat);
                assert(ws.drop_first() =~= widths@.map_values(|w: usize| w as nat).skip(
                    j as int + 1,
                ));
            } else {
                assert(ws =~= Seq::<nat>::empty());
            }
            assert(res@ =~= row_cells_text(rv, ws));
        }
        res
    }
}

/// One rendered row of a table, behind its leading bar.
fn make_row(row: &Vec<String>, widths: &Vec<usize>) -> (res: String)
    ensures
        res@ == seq!['│'] + row_cells_text(
            row.deep_view(),
            widths@.map_values(|w: usize| w as nat),
        ),
{
    let mut res = "│".to_owned();
    let cells = row_tail(row, widths, 0, 0);
    res.append(cells.as_str());
    proof {
        reveal_strlit("│");
        assert("│"@ =~= seq!['│']);
        assert(row.deep_view().skip(0) =~= row.deep_view());
        let ws = widths@.map_values(|w: usize| w as nat);
        assert(ws.skip(0) =~= ws);
        assert(res@ =~= seq!['│'] + row_cells_text(row.deep_view(), ws));
    }
    res
}

/// The prefix of a table's rendered rows after `k` rows have been emitted.
pub open spec fn body_prefix(rows: Seq<Seq<Seq<char>>>, ws: Seq<nat>, k: int) -> Seq<LineView> {
    if k == 0 {
        Seq::empty()
    } else {
        seq![
            table_row_line(rows[0], ws),
            table_sep_line(border_text(ws, '├', '┼', '┤')),
        ] + rows.subrange(1, k).map_values(|r: Seq<Seq<char>>| table_row_line(r, ws))
    }
}

/// All the lines a finished table renders to: top border, rows with the
/// header separator after the first, bottom border, and a trailing blank.
fn table_lines(rows: &Vec<Vec<String>>) -> (r: Vec<RenderedLine>)
    ensures
        lines_view(r@) == seq![
            table_sep_line(border_text(table_widths(rows.deep_view()), '┌', '┬', '┐')),
        ] + table_body(rows.deep_view(), table_widths(rows.deep_view()))
            + seq![
            table_sep_line(border_text(table_widths(rows.deep_view()), '└', '┴', '┘')),
            empty_line_view(),
        ],
{
    let ghost dv = rows.deep_view();
    let ghost ws = table_widths(dv);
    proof {
        reveal_strlit("┌");
        reveal_strlit("┬");
        reveal_strlit("┐");
        reveal_strlit("├");
        reveal_strlit("┼");
        reveal_strlit("┤");
        reveal_strlit("└");
        reveal_strlit("┴");
        reveal_strlit("┘");
    }
    let widths = compute_widths(rows);
    let mut r: Vec<RenderedLine> = Vec::new();
    let top = make_border(&widths, "┌", "┬", "┐");
    let mut top_line = RenderedLine::new();
    top_line.is_table_row = true;
    top_line.is_table_separator = true;
    top_line.push_plain(top);
    r.push(top_line);
    proof {
        reveal_strlit("┌");
        reveal_strlit("┬");
        reveal_strlit("┐");
        assert(top_line@ =~= table_sep_line(border_text(ws, '┌', '┬', '┐')));
        lemma_lines_view_push(Seq::empty(), top_line);
        assert(lines_view(Seq::<RenderedLine>::empty()) =~= Seq::<LineView>::empty());
        assert(lines_view(r@) =~= seq![table_sep_line(border_text(ws, '┌', '┬', '┐'))]
            + body_prefix(dv, ws, 0));
    }
    let mut k: usize = 0;
    while k < rows.len()
        invariant
            k <= rows.len(),
            dv == rows.deep_view(),
            dv.len() == rows@.len(),
            widths@.map_values(|x: usize| x as nat) == ws,
            ws == table_widths(dv),
            lines_view(r@) == seq![table_sep_line(border_text(ws, '┌', '┬', '┐'))]
                + body_prefix(dv, ws, k as int),
        decreases rows.len() - k,
    {
        proof {
            reveal_strlit("├");
            reveal_strlit("┼");
            reveal_strlit("┤");
        }
        let rtxt = make_row(&rows[k], &widths);
        let mut rl = RenderedLine::new();
        rl.is_table_row = true;
        rl.push_plain(rtxt);
        let ghost before = r@;
        r.push(rl);
        proof {
            assert(dv[k as int] == rows@[k as int].deep_view());
            assert(rl@ =~= table_row_line(dv[k as int], ws));
            lemma_lines_view_push(before, rl);
        }
        if k == 0 {
            let sep = make_border(&widths, "├", "┼", "┤");
            let mut sl = RenderedLine::new();
            sl.is_table_row = true;
            sl.is_table_separator = true;
            sl.push_plain(sep);
            let ghost before2 = r@;
            r.push(sl);
            proof {
                reveal_strlit("├");
                reveal_strlit("┼");
                reveal_strlit("┤");
                assert(sl@ =~= table_sep_line(border_text(ws, '├', '┼', '┤')));
                lemma_lines_view_push(before2, sl);
                assert(dv.subrange(1, 1) =~= Seq::<Seq<Seq<char>>>::empty());
                assert(lines_view(r@) =~= seq![table_sep_line(border_text(ws, '┌', '┬', '┐'))]
                    + body_prefix(dv, ws, 1));
            }
        } else {
            proof {
                assert(dv.subrange(1, k + 1) =~= dv.subrange(1, k as int).push(dv[k as int]));
                assert(dv.subrange(1, k + 1).map_values(
                    |rr: Seq<Seq<char>>| table_row_line(rr, ws),
                ) =~= dv.subrange(1, k as int).map_values(
                    |rr: Seq<Seq<char>>| table_row_line(rr, ws),
                ).push(table_row_line(dv[k as int], ws)));
                assert(lines_view(r@) =~= seq![table_sep_line(border_text(ws, '┌', '┬', '┐'))]
                    + body_prefix(dv, ws, k + 1));
            }
        }
        k = k + 1;
    }
    let bot = make_border(&widths, "└", "┴", "┘");
    let mut bot_line = RenderedLine::new();
    bot_line.is_table_row = true;
    bot_line.is_table_separator = true;
    bot_line.push_plain(bot);
    let ghost before3 = r@;
    r.push(bot_line);
    let blank = RenderedLine::new();
    let ghost before4 = r@;
    r.push(blank);
    proof {
        reveal_strlit("└");
        reveal_strlit("┴");
        reveal_strlit("┘");
        assert(bot_line@ =~= table_sep_line(border_text(ws, '└', '┴', '┘')));
        lemma_lines_view_push(before3, bot_line);
        lemma_lines_view_push(before4, blank);
        if dv.len() == 0 {
            assert(body_prefix(dv, ws, 0) =~= table_body(dv, ws));
        } else {
            assert(dv.subrange(1, dv.len() as int) =~= dv.drop_first());
            assert(body_prefix(dv, ws, dv.len() as int) =~= table_body(dv, ws));
        }
        assert(lines_view(r@) =~= seq![table_sep_line(border_text(ws, '┌', '┬', '┐'))]
            + table_body(dv, ws) + seq![
            table_sep_line(border_text(ws, '└', '┴', '┘')),
            empty_line_view(),
        ]);
    }
    r
}

impl Transducer {
    /// The initial state: nothing emitted, nothing open.
    pub fn new() -> (r: Self)
        ensures
            r@ == tv_init(),
    {
        let r = Transducer {
            lines: Vec::new(),
            cur: RenderedLine::new(),
            text: String::new(),
            in_code_block: false,
            list_depth: 0,
            counters: Vec::new(),
            in_blockquote: false,
            in_link: false,
            link_url: String::new(),
            link_text: String::new(),
            in_emphasis: false,
            emphasis_text: String::new(),
            in_strong: false,
            strong_text: String::new(),
            in_table: false,
            row_cells: Vec::new(),
            cell_text: String::new(),
            rows: Vec::new(),
        };
        proof {
            assert(r@ =~~= tv_init());
        }
        r
    }

    /// Move the pending inline text, if any, into the line under
    /// construction.
    fn flush_text(&mut self)
        ensures
            final(self)@ == tv_flush_text(old(self)@),
    {
        let mut t = String::new();
        core::mem::swap(&mut self.text, &mut t);
        self.cur.push_plain(t);
        proof {
            assert(self@ =~~= tv_flush_text(old(self)@));
        }
    }

    /// Flush pending text and, if the current line holds any segments,
    /// emit it and start a fresh one.
    fn break_line(&mut self)
        ensures
            final(self)@ == tv_break_line(old(self)@),
    {
        self.flush_text();
        if self.cur.segments.len() > 0 {
            let mut c = RenderedLine::new();
            core::mem::swap(&mut self.cur, &mut c);
            let ghost before = self.lines@;
            self.lines.push(c);
            proof {
                lemma_lines_view_push(before, c);
                assert(self@ =~~= tv_break_line(old(self)@));
            }
        } else {
            proof {
                assert(self@ =~~= tv_break_line(old(self)@));
            }
        }
    }

    fn on_heading_start(&mut self, n: u8)
        ensures
            final(self)@ == tv_heading_start(old(self)@, n),
    {
        self.break_line();
        self.cur.heading_level = n;
        let mut t = str_repeat("#", n as usize);
        t.append(" ");
        let ghost mid = self@;
        self.text = t;
        proof {
            reveal_strlit("#");
            reveal_strlit(" ");
            assert("#"@ =~= seq!['#']);
            assert(" "@ =~= seq![' ']);
            assert(t@ =~= mid.text + repeat_text(seq!['#'], n as nat) + seq![' ']);
            assert(self@ =~~= tv_heading_start(old(self)@, n));
        }
    }

    fn on_code_start(&mut self, lang: &String)
        ensures
            final(self)@ == tv_code_start(old(self)@, lang@),
    {
        self.break_line();
        self.in_code_block = true;
        let mut t = "```".to_owned();
        t.append(lang.as_str());
        let mut marker = RenderedLine::new();
        marker.is_code_block = true;
        marker.push_plain(t);
        let ghost before = self.lines@;
        self.lines.push(marker);
        proof {
            reveal_strlit("```");
            assert("```"@ =~= seq!['`', '`', '`']);
            assert(marker@ =~= code_marker(lang@));
            lemma_lines_view_push(before, marker);
            assert(self@ =~~= tv_code_start(old(self)@, lang@));
        }
    }

    fn on_list_start(&mut self, start: &Option<u64>)
        ensures
            final(self)@ == tv_list_start(old(self)@, *start),
    {
        self.break_line();
        if self.list_depth < usize::MAX {
            self.list_depth = self.list_depth + 1;
        }
        match start {
            Some(n) => self.counters.push(*n),
            None => self.counters.push(0),
        }
        proof {
            assert(self@ =~~= tv_list_start(old(self)@, *start));
        }
    }

    /// Put the list-item marker in front of the pending text.
    fn item_marker(&mut self)
        ensures
            final(self)@ == tv_item_marker(old(self)@),
    {
        let depth_m1: usize = if self.list_depth > 0 {
            self.list_depth - 1
        } else {
            0
        };
        if self.counters.len() > 0 {
            let idx = self.counters[self.counters.len() - 1];
            let indent = str_repeat("  ", depth_m1);
            proof {
                reveal_strlit("  ");
                assert("  "@ =~= seq![' ', ' ']);
                assert(indent@ == item_indent(old(self)@.list_depth));
            }
            if idx > 0 {
                self.text.append(indent.as_str());
                let num = u64_to_string(idx);
                self.text.append(num.as_str());
                self.text.append(". ");
                let newv: u64 = if idx < u64::MAX {
                    idx + 1
                } else {
                    idx
                };
                let ghost cs = self.counters@;
                self.counters.pop();
                self.counters.push(newv);
                proof {
                    reveal_strlit(". ");
                    assert(". "@ =~= seq!['.', ' ']);
                    assert(self.counters@ =~= cs.update(cs.len() - 1, u64_inc_sat(idx)));
                    assert(self.text@ =~= old(self).text@ + item_indent(old(self)@.list_depth)
                        + dec_str(idx as nat) + seq!['.', ' ']);
                    assert(self@ =~~= tv_item_marker(old(self)@));
                }
            } else {
                self.text.append(indent.as_str());
                self.text.append("• ");
                proof {
                    reveal_strlit("• ");
                    assert("• "@ =~= seq!['•', ' ']);
                    assert(self.text@ =~= old(self).text@ + item_indent(old(self)@.list_depth)
                        + seq!['•', ' ']);
                    assert(self@ =~~= tv_item_marker(old(self)@));
                }
            }
        } else {
            proof {
                assert(self@ =~~= tv_item_marker(old(self)@));
            }
        }
    }

    fn on_item_start(&mut self)
        ensures
            final(self)@ == tv_item_start(old(self)@),
    {
        self.break_line();
        self.cur.is_list_item = true;
        proof {
            assert(self@ =~~= (TransView {
                cur: LineView { is_list_item: true, ..tv_break_line(old(self)@).cur },
                ..tv_break_line(old(self)@)
            }));
        }
        self.item_marker();
    }

    fn on_image(&mut self, url: &String, title: &String)
        ensures
            final(self)@ == tv_image(old(self)@, url@, title@),
    {
        self.flush_text();
        let display = if !title.as_str().is_empty() {
            title.clone()
        } else {
            "[image]".to_owned()
        };
        self.cur.push_link(display, url.clone());
        proof {
            assert(self@ =~~= tv_image(old(self)@, url@, title@));
        }
    }

    fn on_table_end(&mut self)
        ensures
            final(self)@ == tv_table_end(old(self)@),
    {
        let mut tl = table_lines(&self.rows);
        let ghost tlv = tl@;
        let ghost before = self.lines@;
        self.lines.append(&mut tl);
        self.in_table = false;
        proof {
            assert(lines_view(before + tlv) =~= lines_view(before) + lines_view(tlv));
            assert(self@.lines =~= tv_table_end(old(self)@).lines);
            assert(self@ =~~= tv_table_end(old(self)@));
        }
    }

    fn on_text(&mut self, t: &String)
        ensures
            final(self)@ == tv_text(old(self)@, t@),
    {
        if self.in_table {
            self.cell_text.append(t.as_str());
            proof {
                assert(self@ =~~= tv_text(old(self)@, t@));
            }
        } else if self.in_code_block {
            let ls = str_lines(t.as_str());
            let mut i: usize = 0;
            proof {
                assert(lines_of(t@).take(0).map_values(|l: Seq<char>| code_content_line(l))
                    =~= Seq::<LineView>::empty());
                assert(lines_view(self.lines@) =~= lines_view(old(self).lines@)
                    + lines_of(t@).take(0).map_values(|l: Seq<char>| code_content_line(l)));
            }
            while i < ls.len()
                invariant
                    i <= ls.len(),
                    ls.deep_view() == lines_of(t@),
                    ls@.len() == lines_of(t@).len(),
                    lines_view(self.lines@) == lines_view(old(self).lines@)
                        + lines_of(t@).take(i as int).map_values(
                        |l: Seq<char>| code_content_line(l),
                    ),
                    self.cur == old(self).cur,
                    self.text == old(self).text,
                    self.in_code_block == old(self).in_code_block,
                    self.list_depth == old(self).list_depth,
                    self.counters == old(self).counters,
                    self.in_blockquote == old(self).in_blockquote,
                    self.in_link == old(self).in_link,
                    self.link_url == old(self).link_url,
                    self.link_text == old(self).link_text,
                    self.in_emphasis == old(self).in_emphasis,
                    self.emphasis_text == old(self).emphasis_text,
                    self.in_strong == old(self).in_strong,
                    self.strong_text == old(self).strong_text,
                    self.in_table == old(self).in_table,
                    self.row_cells == old(self).row_cells,
                    self.cell_text == old(self).cell_text,
                    self.rows == old(self).rows,
                decreases ls.len() - i,
            {
                let mut line = RenderedLine::new();
                line.is_code_block = true;
                let mut txt = "  ".to_owned();
                txt.append(ls[i].as_str());
                line.push_plain(txt);
                let ghost before = self.lines@;
                self.lines.push(line);
                proof {
                    reveal_strlit("  ");
                    assert("  "@ =~= seq![' ', ' ']);
                    assert(ls.deep_view()[i as int] == ls@[i as int]@);
                    assert(line@ =~= code_content_line(lines_of(t@)[i as int]));
                    lemma_lines_view_push(before, line);
                    assert(lines_of(t@).take(i + 1) =~= lines_of(t@).take(i as int).push(
                        lines_of(t@)[i as int],
                    ));
                    assert(lines_of(t@).take(i + 1).map_values(
                        |l: Seq<char>| code_content_line(l),
                    ) =~= lines_of(t@).take(i as int).map_values(
                        |l: Seq<char>| code_content_line(l),
                    ).push(code_content_line(lines_of(t@)[i as int])));
                }
                i = i + 1;
            }
            proof {
                assert(lines_of(t@).take(lines_of(t@).len() as int) =~= lines_of(t@));
                assert(self@ =~~= tv_text(old(self)@, t@));
            }
        } else if self.in_blockquote {
            let ls = str_lines(t.as_str());
            let mut i: usize = 0;
            proof {
                assert(lines_of(t@).take(0).map_values(|l: Seq<char>| quote_content_line(l))
                    =~= Seq::<LineView>::empty());
                assert(lines_view(self.lines@) =~= lines_view(old(self).lines@)
                    + lines_of(t@).take(0).map_values(|l: Seq<char>| quote_content_line(l)));
            }
            while i < ls.len()
                invariant
                    i <= ls.len(),
                    ls.deep_view() == lines_of(t@),
                    ls@.len() == lines_of(t@).len(),
                    lines_view(self.lines@) == lines_view(old(self).lines@)
                        + lines_of(t@).take(i as int).map_values(
                        |l: Seq<char>| quote_content_line(l),
                    ),
                    self.cur == old(self).cur,
                    self.text == old(self).text,
                    self.in_code_block == old(self).in_code_block,
                    self.list_depth == old(self).list_depth,
                    self.counters == old(self).counters,
                    self.in_blockquote == old(self).in_blockquote,
                    self.in_link == old(self).in_link,
                    self.link_url == old(self).link_url,
                    self.link_text == old(self).link_text,
                    self.in_emphasis == old(self).in_emphasis,
                    self.emphasis_text == old(self).emphasis_text,
                    self.in_strong == old(self).in_strong,
                    self.strong_text == old(self).strong_text,
                    self.in_table == old(self).in_table,
                    self.row_cells == old(self).row_cells,
                    self.cell_text == old(self).cell_text,
                    self.rows == old(self).rows,
                decreases ls.len() - i,
            {
                let mut line = RenderedLine::new();
                line.is_blockquote = true;
                let mut txt = "│ ".to_owned();
                txt.append(ls[i].as_str());
                line.push_plain(txt);
                let ghost before = self.lines@;
                self.lines.push(line);
                proof {
                    reveal_strlit("│ ");
                    assert("│ "@ =~= seq!['│', ' ']);
                    assert(ls.deep_view()[i as int] == ls@[i as int]@);
                    assert(line@ =~= quote_content_line(lines_of(t@)[i as int]));
                    lemma_lines_view_push(before, line);
                    assert(lines_of(t@).take(i + 1) =~= lines_of(t@).take(i as int).push(
                        lines_of(t@)[i as int],
                    ));
                    assert(lines_of(t@).take(i + 1).map_values(
                        |l: Seq<char>| quote_content_line(l),
                    ) =~= lines_of(t@).take(i as int).map_values(
                        |l: Seq<char>| quote_content_line(l),
                    ).push(quote_content_line(lines_of(t@)[i as int])));
                }
                i = i + 1;
            }
            proof {
                assert(lines_of(t@).take(lines_of(t@).len() as int) =~= lines_of(t@));
                assert(self@ =~~= tv_text(old(self)@, t@));
            }
        } else if self.in_link {
            self.link_text.append(t.as_str());
            proof {
                assert(self@ =~~= tv_text(old(self)@, t@));
            }
        } else if self.in_emphasis {
            self.emphasis_text.append(t.as_str());
            proof {
                assert(self@ =~~= tv_text(old(self)@, t@));
            }
        } else if self.in_strong {
            self.strong_text.append(t.as_str());
            proof {
                assert(self@ =~~= tv_text(old(self)@, t@));
            }
        } else {
            self.text.append(t.as_str());
            proof {
                assert(self@ =~~= tv_text(old(self)@, t@));
            }
        }
    }

    fn on_inline_code(&mut self, c: &String)
        ensures
            final(self)@ == tv_inline_code(old(self)@, c@),
    {
        if self.in_table {
            self.cell_text.append("`");
            self.cell_text.append(c.as_str());
            self.cell_text.append("`");
            proof {
                reveal_strlit("`");
                assert("`"@ =~= seq!['`']);
                assert(self@ =~~= tv_inline_code(old(self)@, c@));
            }
        } else {
            self.flush_text();
            self.cur.push_code(c.clone());
            proof {
                assert(self@ =~~= tv_inline_code(old(self)@, c@));
            }
        }
    }

    fn on_soft_break(&mut self)
        ensures
            final(self)@ == tv_soft_break(old(self)@),
    {
        proof {
            reveal_strlit(" ");
            assert(" "@ =~= seq![' ']);
        }
        if self.in_link {
            self.link_text.append(" ");
        } else if self.in_emphasis {
            self.emphasis_text.append(" ");
        } else if self.in_strong {
            self.strong_text.append(" ");
        } else {
            self.text.append(" ");
        }
        proof {
            assert(self@ =~~= tv_soft_break(old(self)@));
        }
    }

    fn on_hard_break(&mut self)
        ensures
            final(self)@ == tv_hard_break(old(self)@),
    {
        self.flush_text();
        let mut c = RenderedLine::new();
        core::mem::swap(&mut self.cur, &mut c);
        let ghost before = self.lines@;
        self.lines.push(c);
        proof {
            lemma_lines_view_push(before, c);
            assert(self@ =~~= tv_hard_break(old(self)@));
        }
    }

    fn on_rule(&mut self)
        ensures
            final(self)@ == tv_rule(old(self)@),
    {
        self.break_line();
        let mut line = RenderedLine::new();
        line.is_horizontal_rule = true;
        let dashes = str_repeat("─", 40);
        line.push_plain(dashes);
        let ghost before = self.lines@;
        self.lines.push(line);
        let blank = RenderedLine::new();
        let ghost before2 = self.lines@;
        self.lines.push(blank);
        proof {
            reveal_strlit("─");
            assert("─"@ =~= seq!['─']);
            assert(line@ =~= rule_line());
            lemma_lines_view_push(before, line);
            lemma_lines_view_push(before2, blank);
            assert(self@ =~~= tv_rule(old(self)@));
        }
    }

    /// Emit the pending line followed by a blank separator: the closing
    /// move of a heading, a paragraph, and a blockquote.
    fn emit_line_and_blank(&mut self)
        ensures
            final(self)@ == tv_heading_end(old(self)@),
    {
        self.flush_text();
        let mut c = RenderedLine::new();
        core::mem::swap(&mut self.cur, &mut c);
        let ghost before = self.lines@;
        self.lines.push(c);
        let blank = RenderedLine::new();
        let ghost before2 = self.lines@;
        self.lines.push(blank);
        proof {
            lemma_lines_view_push(before, c);
            lemma_lines_view_push(before2, blank);
            assert(self@ =~~= tv_heading_end(old(self)@));
        }
    }

    fn on_code_end(&mut self)
        ensures
            final(self)@ == tv_code_end(old(self)@),
    {
        self.in_code_block = false;
        let mut marker = RenderedLine::new();
        marker.is_code_block = true;
        marker.push_plain("```".to_owned());
        let ghost before = self.lines@;
        self.lines.push(marker);
        let blank = RenderedLine::new();
        let ghost before2 = self.lines@;
        self.lines.push(blank);
        proof {
            reveal_strlit("```");
            assert("```"@ =~= seq!['`', '`', '`']);
            assert(seq!['`', '`', '`'] + Seq::<char>::empty() =~= seq!['`', '`', '`']);
            assert(marker@ =~= code_marker(Seq::empty()));
            lemma_lines_view_push(before, marker);
            lemma_lines_view_push(before2, blank);
            assert(self@ =~~= tv_code_end(old(self)@));
        }
    }

    fn on_list_end(&mut self)
        ensures
            final(self)@ == tv_list_end(old(self)@),
    {
        if self.list_depth > 0 {
            self.list_depth = self.list_depth - 1;
        }
        self.counters.pop();
        if self.list_depth == 0 {
            let blank = RenderedLine::new();
            let ghost before = self.lines@;
            self.lines.push(blank);
            proof {
                lemma_lines_view_push(before, blank);
            }
        }
        proof {
            assert(self@ =~~= tv_list_end(old(self)@));
        }
    }

    fn on_item_end(&mut self)
        ensures
            final(self)@ == tv_item_end(old(self)@),
    {
        self.flush_text();
        let mut c = RenderedLine::new();
        core::mem::swap(&mut self.cur, &mut c);
        let ghost before = self.lines@;
        self.lines.push(c);
        proof {
            lemma_lines_view_push(before, c);
            assert(self@ =~~= tv_item_end(old(self)@));
        }
    }

    fn on_quote_end(&mut self)
        ensures
            final(self)@ == tv_quote_end(old(self)@),
    {
        self.in_blockquote = false;
        self.emit_line_and_blank();
        proof {
            assert(self@ =~~= tv_quote_end(old(self)@));
        }
    }

    fn on_emphasis_end(&mut self)
        ensures
            final(self)@ == tv_emphasis_end(old(self)@),
    {
        let mut t = String::new();
        core::mem::swap(&mut self.emphasis_text, &mut t);
        self.cur.push_emphasis(t);
        self.in_emphasis = false;
        proof {
            assert(self@ =~~= tv_emphasis_end(old(self)@));
        }
    }

    fn on_strong_end(&mut self)
        ensures
            final(self)@ == tv_strong_end(old(self)@),
    {
        let mut t = String::new();
        core::mem::swap(&mut self.strong_text, &mut t);
        self.cur.push_strong(t);
        self.in_strong = false;
        proof {
            assert(self@ =~~= tv_strong_end(old(self)@));
        }
    }

    fn on_link_end(&mut self)
        ensures
            final(self)@ == tv_link_end(old(self)@),
    {
        let mut t = String::new();
        core::mem::swap(&mut self.link_text, &mut t);
        let mut u = String::new();
        core::mem::swap(&mut self.link_url, &mut u);
        self.cur.push_link(t, u);
        self.in_link = false;
        proof {
            assert(self@ =~~= tv_link_end(old(self)@));
        }
    }

    fn on_row_end(&mut self)
        ensures
            final(self)@ == tv_row_end(old(self)@),
    {
        let mut cells: Vec<String> = Vec::new();
        core::mem::swap(&mut self.row_cells, &mut cells);
        let ghost rv = self.rows.deep_view();
        let ghost cv = cells.deep_view();
        self.rows.push(cells);
        proof {
            assert(self.rows.deep_view() =~= rv.push(cv));
            assert(self.row_cells.deep_view() =~= Seq::<Seq<char>>::empty());
            assert(self@ =~~= tv_row_end(old(self)@));
        }
    }

    fn on_cell_end(&mut self)
        ensures
            final(self)@ == tv_cell_end(old(self)@),
    {
        let mut t = String::new();
        core::mem::swap(&mut self.cell_text, &mut t);
        let ghost rv = self.row_cells.deep_view();
        self.row_cells.push(t);
        proof {
            assert(self.row_cells.deep_view() =~= rv.push(t@));
            assert(self@ =~~= tv_cell_end(old(self)@));
        }
    }

    /// One transition of the transducer.
    pub fn step(&mut self, ev: &MdEvent)
        ensures
            final(self)@ == tv_step(old(self)@, *ev),
    {
        match ev {
            MdEvent::HeadingStart(n) => self.on_heading_start(*n),
            MdEvent::ParagraphStart => self.break_line(),
            MdEvent::CodeBlockStart(lang) => self.on_code_start(lang),
            MdEvent::ListStart(start) => self.on_list_start(start),
            MdEvent::ItemStart => self.on_item_start(),
            MdEvent::QuoteStart => {
                self.break_line();
                self.in_blockquote = true;
                proof {
                    assert(self@ =~~= tv_quote_start(old(self)@));
                }
            }
            MdEvent::EmphasisStart => {
                self.flush_text();
                self.in_emphasis = true;
                self.emphasis_text = String::new();
                proof {
                    assert(self@ =~~= tv_emphasis_start(old(self)@));
                }
            }
            MdEvent::StrongStart => {
                self.flush_text();
                self.in_strong = true;
                self.strong_text = String::new();
                proof {
                    assert(self@ =~~= tv_strong_start(old(self)@));
                }
            }
            MdEvent::LinkStart(url) => {
                self.flush_text();
                self.in_link = true;
                self.link_url = url.clone();
                self.link_text = String::new();
                proof {
                    assert(self@ =~~= tv_link_start(old(self)@, url@));
                }
            }
            MdEvent::ImageStart(url, title) => self.on_image(url, title),
            MdEvent::TableStart => {
                self.break_line();
                self.in_table = true;
                self.rows = Vec::new();
                proof {
                    assert(self.rows.deep_view() =~= Seq::<Seq<Seq<char>>>::empty());
                    assert(self@ =~~= tv_table_start(old(self)@));
                }
            }
            MdEvent::RowStart => {
                self.row_cells = Vec::new();
                proof {
                    assert(self.row_cells.deep_view() =~= Seq::<Seq<char>>::empty());
                    assert(self@ =~~= tv_row_start(old(self)@));
                }
            }
            MdEvent::CellStart => {
                self.cell_text = String::new();
                proof {
                    assert(self@ =~~= tv_cell_start(old(self)@));
                }
            }
            MdEvent::HeadingEnd => self.emit_line_and_blank(),
            MdEvent::ParagraphEnd => self.emit_line_and_blank(),
            MdEvent::CodeBlockEnd => self.on_code_end(),
            MdEvent::ListEnd => self.on_list_end(),
            MdEvent::ItemEnd => self.on_item_end(),
            MdEvent::QuoteEnd => self.on_quote_end(),
            MdEvent::EmphasisEnd => self.on_emphasis_end(),
            MdEvent::StrongEnd => self.on_strong_end(),
            MdEvent::LinkEnd => self.on_link_end(),
            MdEvent::TableEnd => self.on_table_end(),
            MdEvent::RowEnd => self.on_row_end(),
            MdEvent::CellEnd => self.on_cell_end(),
            MdEvent::Text(t) => self.on_text(t),
            MdEvent::InlineCode(c) => self.on_inline_code(c),
            MdEvent::SoftBreak => self.on_soft_break(),
            MdEvent::HardBreak => self.on_hard_break(),
            MdEvent::Rule => self.on_rule(),
            MdEvent::Ignore => {}
        }
    }

    /// The finishing pass: flush whatever is pending, strip trailing blank
    /// lines, and fall back to the placeholder line when nothing is left.
    pub fn finish(self) -> (r: Vec<RenderedLine>)
        ensures
            lines_view(r@) == tv_finish(self@),
            r@.len() >= 1,
    {
        let mut t = self;
        let ghost s0 = t@;
        t.flush_text();
        if t.cur.segments.len() > 0 {
            let mut c = RenderedLine::new();
            core::mem::swap(&mut t.cur, &mut c);
            let ghost before = t.lines@;
            t.lines.push(c);
            proof {
                lemma_lines_view_push(before, c);
            }
        }
        let ghost ls = lines_view(t.lines@);
        proof {
            assert(ls == if tv_flush_text(s0).cur.segments.len() > 0 {
                tv_flush_text(s0).lines.push(tv_flush_text(s0).cur)
            } else {
                tv_flush_text(s0).lines
            });
        }
        let mut done = false;
        while !done
            invariant
                strip_trailing_blanks(lines_view(t.lines@)) == strip_trailing_blanks(ls),
                done ==> t.lines@.len() == 0 || t.lines@.last()@.segments.len() > 0,
            decreases t.lines@.len() + (if done { 0int } else { 1int }),
        {
            let n = t.lines.len();
            if n == 0 {
                done = true;
            } else if t.lines[n - 1].segments.len() > 0 {
                done = true;
                proof {
                    assert(lines_view(t.lines@).last() == t.lines@.last()@);
                }
            } else {
                let ghost before = t.lines@;
                t.lines.pop();
                proof {
                    assert(lines_view(before).last() == before.last()@);
                    assert(lines_view(before).last().segments.len() == 0);
                    assert(lines_view(before).len() > 0);
                    assert(lines_view(t.lines@) =~= lines_view(before).drop_last());
                    assert(strip_trailing_blanks(lines_view(before))
                        == strip_trailing_blanks(lines_view(before).drop_last()));
                }
            }
        }
        proof {
            if t.lines@.len() > 0 {
                assert(lines_view(t.lines@).last() == t.lines@.last()@);
            }
            assert(strip_trailing_blanks(lines_view(t.lines@)) == lines_view(t.lines@));
        }
        if t.lines.len() == 0 {
            let mut sentinel = RenderedLine::new();
            sentinel.push_plain("(Empty file)".to_owned());
            let mut r: Vec<RenderedLine> = Vec::new();
            r.push(sentinel);
            proof {
                assert(sentinel@ == plain_line_view("(Empty file)"@));
                lemma_lines_view_push(Seq::empty(), sentinel);
                assert(lines_view(Seq::<RenderedLine>::empty()) =~= Seq::<LineView>::empty());
                assert(lines_view(r@) =~= tv_finish(s0));
                reveal_strlit("(Empty file)");
            }
            r
        } else {
            proof {
                assert(lines_view(t.lines@) =~= tv_finish(s0));
            }
            t.lines
        }
    }
}

/// Run the transducer over a whole event sequence and finish: the verified
/// heart of `render_markdown`, reachable with any event sequence.
pub fn lines_of_events(events: &Vec<MdEvent>) -> (r: Vec<RenderedLine>)
    ensures
        lines_view(r@) == render_spec(events@),
        r@.len() >= 1,
        heading_levels_ok(events@) ==> forall|i: int|
            0 <= i < r@.len() ==> (#[trigger] lines_view(r@)[i]).heading_level <= 6,
{
    proof {
        if heading_levels_ok(events@) {
            lemma_render_heading_levels(events@);
        }
    }
    let mut t = Transducer::new();
    let mut i: usize = 0;
    proof {
        assert(events@.take(0) =~= Seq::<MdEvent>::empty());
    }
    while i < events.len()
        invariant
            i <= events.len(),
            t@ == tv_run(events@.take(i as int)),
        decreases events.len() - i,
    {
        t.step(&events[i]);
        proof {
            assert(events@.take(i + 1).drop_last() =~= events@.take(i as int));
            assert(events@.take(i + 1).last() == events@[i as int]);
        }
        i = i + 1;
    }
    proof {
        assert(events@.take(events@.len() as int) =~= events@);
    }
    t.finish()
}

/// Render a markup text to its line model. The result is a function of the
/// text alone; it is never empty.
pub fn render_markdown(content: &str) -> (r: Vec<RenderedLine>)
    ensures
        lines_view(r@) == render_spec(events_of(content@)),
        r@.len() >= 1,
        forall|i: int| 0 <= i < r@.len() ==> (#[trigger] lines_view(r@)[i]).heading_level <= 6,
{
    let events = parse_events(content);
    lines_of_events(&events)
}

} // verus!
