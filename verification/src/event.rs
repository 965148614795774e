use vstd::prelude::*;

verus! {

/// A block or inline element of the structural event stream.
///
/// The renderer supports `Paragraph`, `Heading`, `CodeBlock`, `List`,
/// `ListItem`, `Emphasis` and `Strong`; every other variant is recognised
/// but reported as an unsupported construct.
pub enum Block {
    Paragraph,
    /// A heading; the field is the level, 1 through 6.
    Heading(u8),
    /// A fenced code block; the field is the language identifier, possibly
    /// empty.
    CodeBlock(Vec<char>),
    /// A list; `Some(n)` is an ordered list whose first item is numbered
    /// `n`, `None` an unordered list.
    List(Option<u64>),
    ListItem,
    Emphasis,
    Strong,
    BlockQuote,
    FootnoteDefinition,
    Table,
    TableHead,
    TableRow,
    TableCell,
    Strikethrough,
    Link,
    Image,
    Html,
    Rule,
    TaskListMarker,
}

/// One event of the structural stream that describes a document.
pub enum Event {
    Start(Block),
    End(Block),
    /// A run of plain text.
    Text(Vec<char>),
    /// An inline code span.
    Code(Vec<char>),
    SoftBreak,
    HardBreak,
}

/// The mathematical value of a `Block`.
pub enum BlockS {
    Paragraph,
    Heading(u8),
    CodeBlock(Seq<char>),
    List(Option<u64>),
    ListItem,
    Emphasis,
    Strong,
    BlockQuote,
    FootnoteDefinition,
    Table,
    TableHead,
    TableRow,
    TableCell,
    Strikethrough,
    Link,
    Image,
    Html,
    Rule,
    TaskListMarker,
}

/// The mathematical value of an `Event`.
pub enum EventS {
    Start(BlockS),
    End(BlockS),
    Text(Seq<char>),
    Code(Seq<char>),
    SoftBreak,
    HardBreak,
}

impl DeepView for Block {
    type V = BlockS;

    open spec fn deep_view(&self) -> BlockS {
        match self {
            Block::Paragraph => BlockS::Paragraph,
            Block::Heading(level) => BlockS::Heading(*level),
            Block::CodeBlock(lang) => BlockS::CodeBlock(lang@),
            Block::List(start) => BlockS::List(*start),
            Block::ListItem => BlockS::ListItem,
            Block::Emphasis => BlockS::Emphasis,
            Block::Strong => BlockS::Strong,
            Block::BlockQuote => BlockS::BlockQuote,
            Block::FootnoteDefinition => BlockS::FootnoteDefinition,
            Block::Table => BlockS::Table,
            Block::TableHead => BlockS::TableHead,
            Block::TableRow => BlockS::TableRow,
            Block::TableCell => BlockS::TableCell,
            Block::Strikethrough => BlockS::Strikethrough,
            Block::Link => BlockS::Link,
            Block::Image => BlockS::Image,
            Block::Html => BlockS::Html,
            Block::Rule => BlockS::Rule,
            Block::TaskListMarker => BlockS::TaskListMarker,
        }
    }
}

impl DeepView for Event {
    type V = EventS;

    open spec fn deep_view(&self) -> EventS {
        match self {
            Event::Start(b) => EventS::Start(b.deep_view()),
            Event::End(b) => EventS::End(b.deep_view()),
            Event::Text(t) => EventS::Text(t@),
            Event::Code(t) => EventS::Code(t@),
            Event::SoftBreak => EventS::SoftBreak,
            Event::HardBreak => EventS::HardBreak,
        }
    }
}

} // verus!
