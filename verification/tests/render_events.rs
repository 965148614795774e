use mdls::error::Error;
use mdls::event::{Block, Event};
use mdls::render::render;

fn chars(s: &str) -> Vec<char> {
    s.chars().collect()
}

fn to_string(v: &Vec<char>) -> String {
    v.iter().collect()
}

#[test]
fn render_paragraph_events() {
    let events = vec![
        Event::Start(Block::Paragraph),
        Event::Text(chars("hello world")),
        Event::End(Block::Paragraph),
    ];
    let out = render(&events).unwrap();
    assert_eq!(to_string(&out), "\nhello world\n");
}

#[test]
fn render_nested_lists_indent_and_blank_lines() {
    let long = "every block gets its own indent level so the continuation lines of this \
                paragraph must be pushed to the right by the nesting depth of the lists";
    let events = vec![
        Event::Start(Block::List(None)),
        Event::Start(Block::ListItem),
        Event::Start(Block::Paragraph),
        Event::Text(chars(long)),
        Event::End(Block::Paragraph),
        Event::Start(Block::List(None)),
        Event::Start(Block::ListItem),
        Event::Start(Block::Paragraph),
        Event::Text(chars(long)),
        Event::End(Block::Paragraph),
        Event::End(Block::ListItem),
        Event::End(Block::List(None)),
        Event::End(Block::ListItem),
        Event::End(Block::List(None)),
    ];
    let out = to_string(&render(&events).unwrap());
    // one blank line at the very end (outermost close), none between the
    // inner close and the outer close
    assert!(out.ends_with("\n\n"));
    assert!(!out.ends_with("\n\n\n"));
    let lines: Vec<&str> = out.lines().collect();
    // continuation lines of the outer paragraph are indented by two spaces,
    // those of the inner paragraph by four
    assert!(lines
        .iter()
        .any(|l| l.starts_with("  ") && !l.starts_with("   ")));
    assert!(lines.iter().any(|l| l.starts_with("    ")));
}

#[test]
fn render_ordered_list_counter() {
    let events = vec![
        Event::Start(Block::List(Some(5))),
        Event::Start(Block::ListItem),
        Event::Text(chars("a")),
        Event::End(Block::ListItem),
        Event::Start(Block::ListItem),
        Event::Text(chars("b")),
        Event::End(Block::ListItem),
        Event::Start(Block::ListItem),
        Event::Text(chars("c")),
        Event::End(Block::ListItem),
        Event::End(Block::List(None)),
    ];
    let out = to_string(&render(&events).unwrap());
    assert_eq!(out, "\n5. a\n6. b\n7. c\n");
}

#[test]
fn render_code_block_is_untouched() {
    let events = vec![
        Event::Start(Block::CodeBlock(chars("py"))),
        Event::Text(chars("x = '*not emphasis*'\n\n\n")),
        Event::End(Block::CodeBlock(chars("py"))),
    ];
    let out = to_string(&render(&events).unwrap());
    assert_eq!(out, "\n```py\nx = '*not emphasis*'\n\n\n```\n");
}

#[test]
fn render_rejects_paragraph_end_without_start() {
    let events = vec![Event::End(Block::Paragraph)];
    assert!(matches!(render(&events), Err(Error::MalformedEventStream)));
}

#[test]
fn render_rejects_nested_paragraph_start() {
    let events = vec![Event::Start(Block::Paragraph), Event::Start(Block::Paragraph)];
    assert!(matches!(render(&events), Err(Error::MalformedEventStream)));
}

#[test]
fn render_rejects_list_end_without_start() {
    let events = vec![Event::End(Block::List(None))];
    assert!(matches!(render(&events), Err(Error::MalformedEventStream)));
}

#[test]
fn render_rejects_unsupported_blocks() {
    assert!(matches!(
        render(&vec![Event::Start(Block::BlockQuote)]),
        Err(Error::UnsupportedConstruct)
    ));
    assert!(matches!(
        render(&vec![Event::Start(Block::Table)]),
        Err(Error::UnsupportedConstruct)
    ));
    assert!(matches!(
        render(&vec![Event::HardBreak]),
        Err(Error::UnsupportedConstruct)
    ));
}

#[test]
fn error_messages() {
    assert_eq!(Error::UnknownDocument.message(), "unknown document uri");
    assert_eq!(
        Error::DocumentAlreadyExists.message(),
        "document already exists"
    );
    assert_eq!(
        Error::UnsupportedConstruct.message(),
        "unsupported markdown construct"
    );
    assert_eq!(
        Error::MalformedEventStream.message(),
        "malformed event stream"
    );
}
