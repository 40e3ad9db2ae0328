use vstd::prelude::*;
use pulldown_cmark::{CodeBlockKind, Event, Tag, TagEnd};

verus! {

/// One event of the markup stream, reduced to plain values: the block and
/// inline constructs the line model cares about, with everything else
/// collapsed into `Ignore`.
#[derive(Debug, Clone)]
pub enum MdEvent {
    HeadingStart(u8),
    ParagraphStart,
    CodeBlockStart(String),
    ListStart(Option<u64>),
    ItemStart,
    QuoteStart,
    EmphasisStart,
    StrongStart,
    LinkStart(String),
    ImageStart(String, String),
    TableStart,
    RowStart,
    CellStart,
    HeadingEnd,
    ParagraphEnd,
    CodeBlockEnd,
    ListEnd,
    ItemEnd,
    QuoteEnd,
    EmphasisEnd,
    StrongEnd,
    LinkEnd,
    TableEnd,
    RowEnd,
    CellEnd,
    Text(String),
    InlineCode(String),
    SoftBreak,
    HardBreak,
    Rule,
    Ignore,
}

#[verifier::external_type_specification]
#[verifier::external_body]
pub struct ExEvent<'a>(Event<'a>);

#[verifier::external_type_specification]
#[verifier::external_body]
pub struct ExTag<'a>(Tag<'a>);

#[verifier::external_type_specification]
#[verifier::external_body]
pub struct ExTagEnd(TagEnd);

/// The event stream that the markup parser yields for a text, with tables
/// enabled, reduced to `MdEvent` values. It is a function of the text
/// alone.
pub uninterp spec fn events_of(s: Seq<char>) -> Seq<MdEvent>;

/// Every heading event of a stream carries a level between 1 and 6.
pub open spec fn heading_levels_ok(evs: Seq<MdEvent>) -> bool {
    forall|i: int|
        0 <= i < evs.len() ==> (#[trigger] evs[i] matches MdEvent::HeadingStart(n) ==> 1 <= n
            <= 6)
}

/// Relies on the shape of pulldown_cmark::Tag: one arm for each opening
/// tag the line model reacts to. `HeadingLevel` is declared `H1 = 1`, so
/// the cast yields 1 to 6. A table's header and its body rows open a row
/// alike.
#[verifier::external_body]
fn conv_start<'a>(t: Tag<'a>) -> MdEvent {
    match t {
        Tag::Heading { level, .. } => MdEvent::HeadingStart(level as u8),
        Tag::Paragraph => MdEvent::ParagraphStart,
        Tag::CodeBlock(CodeBlockKind::Fenced(l)) => MdEvent::CodeBlockStart(l.to_string()),
        Tag::CodeBlock(CodeBlockKind::Indented) => MdEvent::CodeBlockStart(String::new()),
        Tag::List(start) => MdEvent::ListStart(start),
        Tag::Item => MdEvent::ItemStart,
        Tag::BlockQuote(_) => MdEvent::QuoteStart,
        Tag::Table(_) => MdEvent::TableStart,
        Tag::TableHead | Tag::TableRow => MdEvent::RowStart,
        Tag::TableCell => MdEvent::CellStart,
        _ => conv_start_inline(t),
    }
}

/// Relies on the shape of pulldown_cmark::Tag: the inline (span-level)
/// opening tags, with every tag the line model ignores mapped to `Ignore`.
#[verifier::external_body]
fn conv_start_inline<'a>(t: Tag<'a>) -> MdEvent {
    match t {
        Tag::Emphasis => MdEvent::EmphasisStart,
        Tag::Strong => MdEvent::StrongStart,
        Tag::Link { dest_url, .. } => MdEvent::LinkStart(dest_url.to_string()),
        Tag::Image { dest_url, title, .. } => MdEvent::ImageStart(dest_url.to_string(), title.to_string()),
        _ => MdEvent::Ignore,
    }
}

/// Relies on the shape of pulldown_cmark::TagEnd: one arm for each closing
/// tag the line model reacts to. The end of the table head and the end of
/// a table row both close a row.
#[verifier::external_body]
fn conv_end(t: TagEnd) -> MdEvent {
    match t {
        TagEnd::Heading(_) => MdEvent::HeadingEnd,
        TagEnd::Paragraph => MdEvent::ParagraphEnd,
        TagEnd::CodeBlock => MdEvent::CodeBlockEnd,
        TagEnd::List(_) => MdEvent::ListEnd,
        TagEnd::Item => MdEvent::ItemEnd,
        TagEnd::BlockQuote(_) => MdEvent::QuoteEnd,
        TagEnd::Emphasis => MdEvent::EmphasisEnd,
        TagEnd::Strong => MdEvent::StrongEnd,
        TagEnd::Link => MdEvent::LinkEnd,
        TagEnd::Table => MdEvent::TableEnd,
        TagEnd::TableHead | TagEnd::TableRow => MdEvent::RowEnd,
        TagEnd::TableCell => MdEvent::CellEnd,
        _ => MdEvent::Ignore,
    }
}

/// Relies on the shape of pulldown_cmark::Event: tags go through
/// `conv_start` and `conv_end`; text, inline code and breaks carry over;
/// the rest is `Ignore`.
#[verifier::external_body]
fn conv_event<'a>(e: Event<'a>) -> MdEvent {
    match e {
        Event::Start(t) => conv_start(t),
        Event::End(t) => conv_end(t),
        Event::Text(s) => MdEvent::Text(s.to_string()),
        Event::Code(s) => MdEvent::InlineCode(s.to_string()),
        Event::SoftBreak => MdEvent::SoftBreak,
        Event::HardBreak => MdEvent::HardBreak,
        Event::Rule => MdEvent::Rule,
        _ => MdEvent::Ignore,
    }
}

/// Relies on pulldown_cmark::Parser::new_ext: the event stream it yields
/// for a text, with the tables extension enabled, depends on the text
/// alone. Every heading level lies in 1 to 6, because `HeadingLevel` is
/// declared `H1 = 1` through `H6` and `conv_start` casts it directly.
#[verifier::external_body]
pub fn parse_events(content: &str) -> (r: Vec<MdEvent>)
    ensures
        r@ == events_of(content@),
        heading_levels_ok(r@),
{
    pulldown_cmark::Parser::new_ext(content, pulldown_cmark::Options::ENABLE_TABLES)
        .map(conv_event)
        .collect()
}

} // verus!
