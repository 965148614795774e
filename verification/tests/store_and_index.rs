use mdls::error::Error;
use mdls::index::LineIndex;
use mdls::store::DocumentStore;

#[test]
fn line_index_lines_and_columns() {
    let index = LineIndex::new("ab\ncd\n");
    let p = index.line_col(0);
    assert_eq!((p.line, p.col), (0, 0));
    let p = index.line_col(2);
    assert_eq!((p.line, p.col), (0, 2));
    let p = index.line_col(3);
    assert_eq!((p.line, p.col), (1, 0));
    let p = index.line_col(4);
    assert_eq!((p.line, p.col), (1, 1));
    let p = index.line_col(6);
    assert_eq!((p.line, p.col), (2, 0));
}

#[test]
fn line_index_utf16_columns() {
    // one accented character (one UTF-16 unit) and one emoji (two units)
    let index = LineIndex::new("\u{e9}\u{1F600}x\ny");
    let p = index.line_col(2);
    assert_eq!((p.line, p.col), (0, 3));
    let p = index.line_col(3);
    assert_eq!((p.line, p.col), (0, 4));
    let p = index.line_col(4);
    assert_eq!((p.line, p.col), (1, 0));
}

#[test]
fn unknown_document_fails_format() {
    let store = DocumentStore::new();
    let uri = String::from("file:///missing.md");
    assert!(matches!(
        store.format_document(&uri),
        Err(Error::UnknownDocument)
    ));
}

#[test]
fn open_twice_fails() {
    let mut store = DocumentStore::new();
    let uri = String::from("file:///a.md");
    assert!(store
        .insert_file(uri.clone(), String::from("hello"))
        .is_ok());
    assert!(matches!(
        store.insert_file(uri, String::from("other")),
        Err(Error::DocumentAlreadyExists)
    ));
}

#[test]
fn change_unknown_document_fails() {
    let mut store = DocumentStore::new();
    let uri = String::from("file:///a.md");
    assert!(matches!(
        store.replace_file(&uri, String::from("x")),
        Err(Error::UnknownDocument)
    ));
}

#[test]
fn format_document_returns_positional_edits() {
    let mut store = DocumentStore::new();
    let uri = String::from("file:///a.md");
    store.insert_file(uri.clone(), String::from("hello")).unwrap();
    let edits = store.format_document(&uri).unwrap().unwrap();
    assert!(!edits.is_empty());
    for e in &edits {
        assert!(
            e.start.line < e.end.line
                || (e.start.line == e.end.line && e.start.col <= e.end.col)
        );
    }
}

#[test]
fn format_canonical_document_returns_none() {
    let mut store = DocumentStore::new();
    let uri = String::from("file:///a.md");
    store
        .insert_file(uri.clone(), String::from("\nhello\n"))
        .unwrap();
    assert!(store.format_document(&uri).unwrap().is_none());
}

#[test]
fn replace_file_changes_formatting_input() {
    let mut store = DocumentStore::new();
    let uri = String::from("file:///a.md");
    store.insert_file(uri.clone(), String::from("hello")).unwrap();
    store
        .replace_file(&uri, String::from("\nhello\n"))
        .unwrap();
    assert!(store.format_document(&uri).unwrap().is_none());
}

#[test]
fn format_unsupported_document_fails() {
    let mut store = DocumentStore::new();
    let uri = String::from("file:///a.md");
    store
        .insert_file(uri.clone(), String::from("> quoted"))
        .unwrap();
    assert!(matches!(
        store.format_document(&uri),
        Err(Error::UnsupportedConstruct)
    ));
}
