use mdls::diff::{apply_edits, diff};
use mdls::error::Error;
use mdls::fmt::fmt;

fn chars(s: &str) -> Vec<char> {
    s.chars().collect()
}

fn to_string(v: &Vec<char>) -> String {
    v.iter().collect()
}

fn canonical(text: &str) -> String {
    let edits = fmt(text).unwrap();
    to_string(&apply_edits(text, &edits))
}

#[test]
fn test_list_fmt() {
    let md = "
- hello creauh arlochu reclaoh urclao huroaelhu rclaoehu rcleoah urlcoaeh urlcoae hurloeah urlcoea \
                  hurlcaoeh ulrcaoe hulrcoea hulrcaoe hurlcoe aeocluhaoelrcuh oareclu hrloacu \
                  hrocaleu hroalcu haorcel u

  rcoeahu alrcohu lraceouh lrcaeohulrcaohu lrcaoehu lrcaeohurlcaoe rlucoah elcruh oaelcruh aorlch \
                  ulrcoeah ucrl
- hello
- goodbye

she sells seashells
by the seashore
";
    let edits = fmt(md).unwrap();
    let formatted = to_string(&apply_edits(md, &edits));
    assert!(!formatted.is_empty());
}

#[test]
fn simple_paragraph_canonical_form() {
    assert_eq!(canonical("hello"), "\nhello\n");
}

#[test]
fn heading_canonical_form() {
    assert_eq!(canonical("# Title"), "\n# Title\n");
    assert_eq!(canonical("### Deep"), "\n### Deep\n");
}

#[test]
fn inline_markup_canonical_form() {
    assert_eq!(canonical("*a* **b** `c`"), "\n*a* **b** `c`\n");
}

#[test]
fn soft_breaks_are_reflowed() {
    assert_eq!(canonical("she sells\nseashells"), "\nshe sells seashells\n");
}

#[test]
fn unordered_list_markers() {
    assert_eq!(canonical("- x\n- y\n- z"), "\n- x\n- y\n- z\n");
}

#[test]
fn ordered_list_numbering_starts_at_five() {
    assert_eq!(canonical("5. a\n6. b\n7. c"), "\n5. a\n6. b\n7. c\n");
}

#[test]
fn code_block_passthrough() {
    let md = "```rust\nlet *x* = [1](#a);\n# not a heading\n```";
    assert_eq!(
        canonical(md),
        "\n```rust\nlet *x* = [1](#a);\n# not a heading\n```\n"
    );
}

#[test]
fn long_paragraph_wraps_at_word_boundaries() {
    let word = "abcdefghij";
    let words: Vec<String> = (0..20).map(|_| word.to_owned()).collect();
    let md = words.join(" ");
    let formatted = canonical(&md);
    for line in formatted.lines() {
        assert!(line.chars().count() <= 80);
    }
    let original_words: Vec<&str> = md.split_whitespace().collect();
    let formatted_words: Vec<&str> = formatted.split_whitespace().collect();
    assert_eq!(original_words, formatted_words);
}

#[test]
fn formatting_is_idempotent() {
    let md = "# Title\n\nsome paragraph with *emphasis* here\n\n- a\n- b\n\n```c\nint x;\n```\n";
    let once = canonical(md);
    let edits = fmt(&once).unwrap();
    assert!(edits.is_empty(), "formatting a canonical text must yield no edits");
    assert_eq!(canonical(&once), once);
}

#[test]
fn canonical_input_yields_no_edits() {
    let edits = fmt("\nhello\n").unwrap();
    assert!(edits.is_empty());
}

#[test]
fn blockquote_is_unsupported() {
    assert!(matches!(fmt("> quoted"), Err(Error::UnsupportedConstruct)));
}

#[test]
fn rule_is_unsupported() {
    assert!(matches!(fmt("***"), Err(Error::UnsupportedConstruct)));
}

#[test]
fn link_is_unsupported() {
    assert!(matches!(
        fmt("[text](http://example.com)"),
        Err(Error::UnsupportedConstruct)
    ));
}

#[test]
fn diff_equal_texts_is_empty() {
    assert!(diff("same text", "same text").is_empty());
    assert!(diff("", "").is_empty());
}

#[test]
fn diff_round_trip_reproduces_target() {
    let cases = [
        ("abc", "axc"),
        ("", "inserted"),
        ("deleted", ""),
        ("shared prefix one", "shared prefix two"),
        ("a\nb\nc", "a\nx\nc\nd"),
    ];
    for (left, right) in cases {
        let edits = diff(left, right);
        let applied = to_string(&apply_edits(left, &edits));
        assert_eq!(applied, *right);
    }
}

#[test]
fn diff_edits_are_ordered_and_disjoint() {
    let edits = diff("one two three four", "one 2 three 4");
    let mut last_end = 0;
    let mut last_start: Option<usize> = None;
    for e in &edits {
        assert!(e.start >= last_end);
        assert!(e.end >= e.start);
        if let Some(prev) = last_start {
            assert!(e.start > prev, "edit starts must be strictly ascending");
        }
        assert!(
            e.start < e.end || !e.insert.is_empty(),
            "no edit may be a no-op"
        );
        last_start = Some(e.start);
        last_end = e.end;
    }
    assert!(last_end <= chars("one two three four").len());
}

#[test]
fn adjacent_delete_and_insert_merge_into_one_replacement() {
    let edits = diff("axc", "ayc");
    assert_eq!(edits.len(), 1);
    assert_eq!(edits[0].start, 1);
    assert_eq!(edits[0].end, 2);
    assert_eq!(edits[0].insert, chars("y"));
}

#[test]
fn diff_is_deterministic() {
    let a = diff("shared prefix one", "shared prefix two");
    let b = diff("shared prefix one", "shared prefix two");
    assert_eq!(a.len(), b.len());
    for (x, y) in a.iter().zip(b.iter()) {
        assert_eq!(x.start, y.start);
        assert_eq!(x.end, y.end);
        assert_eq!(x.insert, y.insert);
    }
}

#[test]
fn pure_insertion_and_deletion_edits() {
    let ins = diff("ab", "aXb");
    let applied = to_string(&apply_edits("ab", &ins));
    assert_eq!(applied, "aXb");
    let del = diff("aXb", "ab");
    let applied = to_string(&apply_edits("aXb", &del));
    assert_eq!(applied, "ab");
}
