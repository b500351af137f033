//! The Markdown events that rendering reads, and the parser that produces them
//! (`pulldown-cmark`, with tables, task lists and strikethrough enabled).

use pulldown_cmark::{Alignment, CodeBlockKind, Event, HeadingLevel, Options, Parser, Tag, TagEnd};
use vstd::prelude::*;

verus! {

#[verifier::external_type_specification]
#[verifier::external_body]
pub struct ExOptions(Options);

#[verifier::external_type_specification]
#[verifier::external_body]
pub struct ExHeadingLevel(HeadingLevel);

#[verifier::external_type_specification]
#[verifier::external_body]
pub struct ExAlignment(Alignment);

#[verifier::external_type_specification]
#[verifier::external_body]
pub struct ExTagEnd(TagEnd);

#[verifier::external_type_specification]
#[verifier::external_body]
pub struct ExTag<'a>(Tag<'a>);

#[verifier::external_type_specification]
#[verifier::external_body]
pub struct ExEvent<'a>(Event<'a>);

/// The alignment of a table column.
#[derive(Clone, Copy, PartialEq, Eq, Debug, Structural)]
pub enum ColumnAlign {
    Default,
    Left,
    Center,
    Right,
}

/// The start of an element.
#[derive(Clone, PartialEq, Eq, Debug)]
pub enum MdTag {
    Paragraph,
    /// A heading of level 1 to 6.
    Heading(u8),
    BlockQuote,
    /// A code block, with the info text after its opening fence (none when indented).
    CodeBlock(Option<String>),
    /// A list; ordered lists carry their first number.
    List(Option<u64>),
    Item,
    Table(Vec<ColumnAlign>),
    TableRow,
    TableCell,
    Emphasis,
    Strong,
    Strikethrough,
    /// A link, with its destination.
    Link(String),
    /// Any other element (table head, image, HTML block, footnote, ...).
    Other,
}

/// The end of an element.
#[derive(Clone, Copy, PartialEq, Eq, Debug, Structural)]
pub enum MdTagEnd {
    Paragraph,
    Heading,
    BlockQuote,
    CodeBlock,
    List,
    Item,
    Table,
    TableHead,
    TableRow,
    TableCell,
    Emphasis,
    Strong,
    Strikethrough,
    Link,
    Other,
}

/// One parser event.
#[derive(Clone, PartialEq, Eq, Debug)]
pub enum MdEvent {
    Start(MdTag),
    End(MdTagEnd),
    Text(String),
    Code(String),
    Html(String),
    InlineHtml(String),
    SoftBreak,
    HardBreak,
    Rule,
    TaskListMarker(bool),
    /// Any other event (math, footnote reference).
    Other,
}

/// The events that `pulldown-cmark` produces for a document with this crate's options.
pub uninterp spec fn markdown_events(md: Seq<char>) -> Seq<MdEvent>;

/// Every ordered list starts below 10^9 (the parser reads at most nine digits).
pub open spec fn list_starts_bounded(evs: Seq<MdEvent>) -> bool {
    forall|i: int| 0 <= i < evs.len() ==> (#[trigger] evs[i] matches MdEvent::Start(MdTag::List(Some(n))) ==> n < 1_000_000_000)
}

/// The parser options: tables, task lists and strikethrough (`Options::empty`
/// followed by `Options::insert` of each); the value is opaque here.
#[verifier::external_body]
pub fn options() -> Options {
    let mut o = Options::empty();
    o.insert(Options::ENABLE_TABLES);
    o.insert(Options::ENABLE_TASKLISTS);
    o.insert(Options::ENABLE_STRIKETHROUGH);
    o
}

/// The level of a heading as a number (`HeadingLevel` as 1 to 6).
#[verifier::external_body]
fn heading_num(level: HeadingLevel) -> (n: u8)
    ensures
        1 <= n <= 6,
{
    match level {
        HeadingLevel::H1 => 1,
        HeadingLevel::H2 => 2,
        HeadingLevel::H3 => 3,
        HeadingLevel::H4 => 4,
        HeadingLevel::H5 => 5,
        HeadingLevel::H6 => 6,
    }
}

/// Converts an `Alignment` to the variant of the same name.
#[verifier::external_body]
fn convert_align(a: Alignment) -> ColumnAlign {
    match a {
        Alignment::None => ColumnAlign::Default,
        Alignment::Left => ColumnAlign::Left,
        Alignment::Center => ColumnAlign::Center,
        Alignment::Right => ColumnAlign::Right,
    }
}

/// Converts a `Tag` to the `MdTag` variant of the same name, moving its fields.
#[verifier::external_body]
fn convert_tag(t: Tag) -> MdTag {
    match t {
        Tag::Paragraph => MdTag::Paragraph,
        Tag::Heading { level, .. } => MdTag::Heading(heading_num(level)),
        Tag::BlockQuote(_) => MdTag::BlockQuote,
        Tag::CodeBlock(CodeBlockKind::Fenced(info)) => MdTag::CodeBlock(Some(info.to_string())),
        Tag::CodeBlock(CodeBlockKind::Indented) => MdTag::CodeBlock(None),
        Tag::List(start) => MdTag::List(start), Tag::Item => MdTag::Item,
        Tag::Table(a) => MdTag::Table(a.into_iter().map(convert_align).collect()),
        Tag::TableRow => MdTag::TableRow, Tag::TableCell => MdTag::TableCell,
        Tag::Emphasis => MdTag::Emphasis, Tag::Strong => MdTag::Strong, Tag::Strikethrough => MdTag::Strikethrough,
        Tag::Link { dest_url, .. } => MdTag::Link(dest_url.to_string()),
        _ => MdTag::Other,
    }
}

/// Converts a `TagEnd` to the `MdTagEnd` variant of the same name.
#[verifier::external_body]
fn convert_tag_end(t: TagEnd) -> MdTagEnd {
    match t {
        TagEnd::Paragraph => MdTagEnd::Paragraph,
        TagEnd::Heading(_) => MdTagEnd::Heading,
        TagEnd::BlockQuote(_) => MdTagEnd::BlockQuote,
        TagEnd::CodeBlock => MdTagEnd::CodeBlock,
        TagEnd::List(_) => MdTagEnd::List,
        TagEnd::Item => MdTagEnd::Item,
        TagEnd::Table => MdTagEnd::Table, TagEnd::TableHead => MdTagEnd::TableHead,
        TagEnd::TableRow => MdTagEnd::TableRow, TagEnd::TableCell => MdTagEnd::TableCell,
        TagEnd::Emphasis => MdTagEnd::Emphasis, TagEnd::Strong => MdTagEnd::Strong,
        TagEnd::Strikethrough => MdTagEnd::Strikethrough,
        TagEnd::Link => MdTagEnd::Link,
        _ => MdTagEnd::Other,
    }
}

/// Converts an `Event` to the `MdEvent` variant of the same name, moving its fields.
#[verifier::external_body]
fn convert_event(e: Event) -> MdEvent {
    match e {
        Event::Start(t) => MdEvent::Start(convert_tag(t)),
        Event::End(t) => MdEvent::End(convert_tag_end(t)),
        Event::Text(s) => MdEvent::Text(s.to_string()),
        Event::Code(s) => MdEvent::Code(s.to_string()),
        Event::Html(s) => MdEvent::Html(s.to_string()),
        Event::InlineHtml(s) => MdEvent::InlineHtml(s.to_string()),
        Event::SoftBreak => MdEvent::SoftBreak,
        Event::HardBreak => MdEvent::HardBreak,
        Event::Rule => MdEvent::Rule,
        Event::TaskListMarker(b) => MdEvent::TaskListMarker(b),
        _ => MdEvent::Other,
    }
}

/// `Parser::new_ext` with `options()`, its events collected: the result is named
/// `markdown_events` of the text.  The source reads an ordered list's start from
/// at most nine digits, and a `Vec` of a sized, non-empty type holds at most
/// `isize::MAX` elements.
#[verifier::external_body]
pub fn parse_markdown(md: &str) -> (evs: Vec<MdEvent>)
    ensures
        evs@ == markdown_events(md@),
        evs@.len() <= isize::MAX,
        list_starts_bounded(evs@),
{
    Parser::new_ext(md, options()).map(convert_event).collect()
}

} // verus!
