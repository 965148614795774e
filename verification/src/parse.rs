use vstd::prelude::*;

use crate::event::{Block, Event, EventS};
use pulldown_cmark::Event as MdEvent;
use pulldown_cmark::Tag as MdTag;

verus! {

#[verifier::external_type_specification]
#[verifier::external_body]
pub struct ExPulldownEvent<'a>(MdEvent<'a>);

#[verifier::external_type_specification]
#[verifier::external_body]
pub struct ExPulldownTag<'a>(MdTag<'a>);

/// The event stream that the markdown parser produces for a text. The
/// parser is deterministic, so the stream is a function of the text alone.
pub uninterp spec fn parse_of(text: Seq<char>) -> Seq<EventS>;

/// Relies on pulldown_cmark::Tag: maps each supported variant to the
/// corresponding block of this library, moving the fields, and hands every
/// other variant on.
#[verifier::external_body]
fn block_of_tag(tag: MdTag<'_>) -> Block {
    match tag {
        MdTag::Paragraph => Block::Paragraph,
        MdTag::Heading(level, _, _) => Block::Heading(level as u8),
        MdTag::CodeBlock(pulldown_cmark::CodeBlockKind::Indented) => Block::CodeBlock(Vec::new()),
        MdTag::CodeBlock(pulldown_cmark::CodeBlockKind::Fenced(l)) => Block::CodeBlock(l.chars().collect()),
        MdTag::List(start) => Block::List(start),
        MdTag::Item => Block::ListItem,
        MdTag::Emphasis => Block::Emphasis,
        MdTag::Strong => Block::Strong,
        other => unsupported_block_of_tag(other),
    }
}

/// Relies on pulldown_cmark::Tag: maps each variant outside the supported
/// set to its block; `block_of_tag` has already taken the supported ones,
/// so the catch-all arm only ever sees the image tag, the last one left.
#[verifier::external_body]
fn unsupported_block_of_tag(tag: MdTag<'_>) -> Block {
    match tag {
        MdTag::BlockQuote => Block::BlockQuote,
        MdTag::FootnoteDefinition(_) => Block::FootnoteDefinition,
        MdTag::Table(_) => Block::Table,
        MdTag::TableHead => Block::TableHead,
        MdTag::TableRow => Block::TableRow,
        MdTag::TableCell => Block::TableCell,
        MdTag::Strikethrough => Block::Strikethrough,
        MdTag::Link(_, _, _) => Block::Link,
        _ => Block::Image,
    }
}

/// Relies on pulldown_cmark::Event: maps each variant to the corresponding
/// event of this library, moving the fields; each stand-alone unsupported
/// marker becomes the start of its unsupported block.
#[verifier::external_body]
fn event_of_md(e: MdEvent<'_>) -> Event {
    match e {
        MdEvent::Start(tag) => Event::Start(block_of_tag(tag)),
        MdEvent::End(tag) => Event::End(block_of_tag(tag)),
        MdEvent::Text(t) => Event::Text(t.chars().collect()),
        MdEvent::Code(t) => Event::Code(t.chars().collect()),
        MdEvent::Html(_) => Event::Start(Block::Html),
        MdEvent::FootnoteReference(_) => Event::Start(Block::FootnoteDefinition),
        MdEvent::SoftBreak => Event::SoftBreak,
        MdEvent::HardBreak => Event::HardBreak,
        MdEvent::Rule => Event::Start(Block::Rule),
        MdEvent::TaskListMarker(_) => Event::Start(Block::TaskListMarker),
    }
}

/// Relies on pulldown_cmark::Parser: parses a markdown text into its
/// structural event stream, deterministically in the text alone.
#[verifier::external_body]
pub fn parse_events(text: &str) -> (r: Vec<Event>)
    ensures
        r.deep_view() == parse_of(text@),
{
    pulldown_cmark::Parser::new(text).map(event_of_md).collect()
}

} // verus!
