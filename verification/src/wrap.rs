use vstd::prelude::*;

verus! {

/// The fixed width that wrapped paragraph lines must fit in. The width is
/// counted in characters (Unicode scalar values), not in rendered display
/// columns: a double-width character counts as one.
pub const LINE_WIDTH: usize = 80;

/// The continuation-line indent for a given list nesting depth: two spaces
/// per level.
pub open spec fn indent_sp(depth: int) -> Seq<char> {
    if depth <= 0 {
        Seq::empty()
    } else {
        Seq::new((2 * depth) as nat, |i: int| ' ')
    }
}

/// The words of `s` from position `i` on, with `cur` the partial word
/// accumulated so far: maximal runs of characters other than a space.
pub open spec fn words_from(s: Seq<char>, i: int, cur: Seq<char>) -> Seq<Seq<char>>
    decreases s.len() - i,
{
    if i < 0 || i >= s.len() {
        if cur.len() > 0 {
            seq![cur]
        } else {
            Seq::empty()
        }
    } else if s[i] == ' ' {
        if cur.len() > 0 {
            seq![cur] + words_from(s, i + 1, Seq::empty())
        } else {
            words_from(s, i + 1, Seq::empty())
        }
    } else {
        words_from(s, i + 1, cur.push(s[i]))
    }
}

/// The words of `s`: the maximal runs of non-space characters, in order.
pub open spec fn words_of(s: Seq<char>) -> Seq<Seq<char>> {
    words_from(s, 0, Seq::empty())
}

/// Greedy filling of the words after the first: each word is put on the
/// current line (after a single space) when the line stays within
/// `LINE_WIDTH`, and otherwise starts a new line prefixed by `indent`.
/// `cur` is the width of the line built so far.
pub open spec fn fill_rec(words: Seq<Seq<char>>, indent: Seq<char>, cur: int) -> Seq<char>
    decreases words.len(),
{
    if words.len() == 0 {
        Seq::empty()
    } else if cur + 1 + words[0].len() <= LINE_WIDTH {
        seq![' '] + words[0] + fill_rec(words.drop_first(), indent, cur + 1 + words[0].len())
    } else {
        seq!['\n'] + indent + words[0] + fill_rec(
            words.drop_first(),
            indent,
            indent.len() as int + words[0].len() as int,
        )
    }
}

/// The canonical wrapping of a paragraph: its words joined by single spaces,
/// broken greedily into lines of at most `LINE_WIDTH` characters (counted
/// as Unicode scalar values), each continuation line indented by two spaces
/// per list nesting level.
pub open spec fn wrap_spec(s: Seq<char>, depth: int) -> Seq<char> {
    let ws = words_of(s);
    if ws.len() == 0 {
        Seq::empty()
    } else {
        ws[0] + fill_rec(ws.drop_first(), indent_sp(depth), ws[0].len() as int)
    }
}

/// Splits `s` into its words, matching `words_of`.
pub fn split_words(s: &Vec<char>) -> (r: Vec<Vec<char>>)
    ensures
        r.deep_view() == words_of(s@),
{
    let mut done: Vec<Vec<char>> = Vec::new();
    let mut cur: Vec<char> = Vec::new();
    let mut i: usize = 0;
    while i < s.len()
        invariant
            i <= s@.len(),
            words_of(s@) == done.deep_view() + words_from(s@, i as int, cur@),
        decreases s@.len() - i,
    {
        let c = s[i];
        if c == ' ' {
            if cur.len() > 0 {
                proof {
                    assert(words_from(s@, i as int, cur@) == seq![cur@] + words_from(
                        s@,
                        i as int + 1,
                        Seq::<char>::empty(),
                    ));
                }
                let ghost old_done = done.deep_view();
                let ghost cur_view = cur@;
                done.push(cur);
                proof {
                    assert(done.deep_view() =~~= old_done.push(cur_view));
                    assert(old_done + (seq![cur_view] + words_from(
                        s@,
                        i as int + 1,
                        Seq::<char>::empty(),
                    )) =~= done.deep_view() + words_from(s@, i as int + 1, Seq::<char>::empty()));
                }
                cur = Vec::new();
            } else {
                proof {
                    assert(words_from(s@, i as int, cur@) == words_from(
                        s@,
                        i as int + 1,
                        Seq::<char>::empty(),
                    ));
                    assert(cur@ =~= Seq::<char>::empty());
                }
            }
        } else {
            let ghost cur_view = cur@;
            cur.push(c);
            proof {
                assert(words_from(s@, i as int, cur_view) == words_from(
                    s@,
                    i as int + 1,
                    cur_view.push(s@[i as int]),
                ));
                assert(cur@ == cur_view.push(s@[i as int]));
            }
        }
        i = i + 1;
    }
    if cur.len() > 0 {
        let ghost old_done = done.deep_view();
        let ghost cur_view = cur@;
        done.push(cur);
        proof {
            assert(done.deep_view() =~~= old_done.push(cur_view));
            assert(old_done + seq![cur_view] =~= done.deep_view());
        }
    } else {
        proof {
            assert(done.deep_view() + Seq::<Seq<char>>::empty() =~= done.deep_view());
        }
    }
    done
}

/// Appends every character of `src` to `dst`.
pub fn push_all(dst: &mut Vec<char>, src: &Vec<char>)
    ensures
        final(dst)@ == old(dst)@ + src@,
{
    let mut j: usize = 0;
    while j < src.len()
        invariant
            j <= src@.len(),
            dst@ == old(dst)@ + src@.subrange(0, j as int),
        decreases src@.len() - j,
    {
        dst.push(src[j]);
        proof {
            assert(old(dst)@ + src@.subrange(0, j as int) + seq![src@[j as int]] =~= old(dst)@
                + src@.subrange(0, j as int + 1));
        }
        j = j + 1;
    }
    proof {
        assert(src@.subrange(0, src@.len() as int) =~= src@);
    }
}

/// Wraps a paragraph to `LINE_WIDTH` columns with continuation lines
/// indented by two spaces per nesting level, as `wrap_spec` states.
pub fn wrap_text(s: &Vec<char>, depth: usize) -> (r: Vec<char>)
    ensures
        r@ == wrap_spec(s@, depth as int),
{
    let words = split_words(s);
    let mut indent: Vec<char> = Vec::new();
    let mut j: usize = 0;
    while j < depth
        invariant
            j <= depth,
            indent@ =~= indent_sp(j as int),
        decreases depth - j,
    {
        indent.push(' ');
        indent.push(' ');
        proof {
            assert(indent@ =~= indent_sp(j as int + 1));
        }
        j = j + 1;
    }
    let mut out: Vec<char> = Vec::new();
    if words.len() == 0 {
        return out;
    }
    push_all(&mut out, &words[0]);
    let ghost ws = words.deep_view();
    proof {
        assert(ws[0] == words@[0].deep_view());
        assert(out@ =~= Seq::<char>::empty() + words@[0]@);
        assert(out@ =~= ws[0]);
    }
    let mut cur: u128 = words[0].len() as u128;
    let mut i: usize = 1;
    while i < words.len()
        invariant
            1 <= i <= words@.len(),
            ws == words.deep_view(),
            ws.len() == words@.len(),
            indent@ == indent_sp(depth as int),
            cur <= 0xffff_ffff_ffff_ffff_ffff,
            wrap_spec(s@, depth as int) == out@ + fill_rec(
                ws.subrange(i as int, ws.len() as int),
                indent@,
                cur as int,
            ),
        decreases words@.len() - i,
    {
        let ghost rest = ws.subrange(i as int, ws.len() as int);
        let ghost old_out = out@;
        let ghost old_cur = cur as int;
        let w = &words[i];
        proof {
            assert(rest[0] == words@[i as int].deep_view());
            assert(rest[0] =~= w@);
            assert(rest.drop_first() =~= ws.subrange(i as int + 1, ws.len() as int));
        }
        if cur + 1 + (w.len() as u128) <= LINE_WIDTH as u128 {
            out.push(' ');
            push_all(&mut out, w);
            cur = cur + 1 + (w.len() as u128);
            proof {
                assert(fill_rec(rest, indent@, old_cur) == seq![' '] + rest[0] + fill_rec(
                    rest.drop_first(),
                    indent@,
                    old_cur + 1 + rest[0].len(),
                ));
                assert(old_out + fill_rec(rest, indent@, old_cur) =~= out@ + fill_rec(
                    rest.drop_first(),
                    indent@,
                    cur as int,
                ));
            }
        } else {
            out.push('\n');
            push_all(&mut out, &indent);
            push_all(&mut out, w);
            cur = (indent.len() as u128) + (w.len() as u128);
            proof {
                assert(fill_rec(rest, indent@, old_cur) == seq!['\n'] + indent@ + rest[0]
                    + fill_rec(rest.drop_first(), indent@, indent@.len() as int + rest[0].len() as int));
                assert(old_out + fill_rec(rest, indent@, old_cur) =~= out@ + fill_rec(
                    rest.drop_first(),
                    indent@,
                    cur as int,
                ));
            }
        }
        i = i + 1;
    }
    proof {
        assert(ws.subrange(i as int, ws.len() as int) =~= Seq::<Seq<char>>::empty());
        assert(out@ + Seq::<char>::empty() =~= out@);
    }
    out
}


/// No newline occurs in `s`.
pub open spec fn no_newline(s: Seq<char>) -> bool {
    forall|j: int| 0 <= j < s.len() ==> s[j] != '\n'
}

/// No space occurs in `s`.
pub open spec fn no_space(s: Seq<char>) -> bool {
    forall|j: int| 0 <= j < s.len() ==> s[j] != ' '
}

/// Every character of `s` is a space.
pub open spec fn all_spaces(s: Seq<char>) -> bool {
    forall|j: int| 0 <= j < s.len() ==> s[j] == ' '
}

/// Every line of `s` fits in `LINE_WIDTH` characters, where the first line
/// continues a line that already holds `used` characters: each run up to a
/// newline, and the final run, is short enough.
pub open spec fn lines_within(s: Seq<char>, used: int) -> bool
    decreases s.len(),
{
    if s.len() == 0 {
        used <= LINE_WIDTH
    } else if s[0] == '\n' {
        used <= LINE_WIDTH && lines_within(s.drop_first(), 0)
    } else {
        lines_within(s.drop_first(), used + 1)
    }
}

/// Consuming a newline-free run advances the current line by its length.
proof fn lemma_lines_within_run(w: Seq<char>, t: Seq<char>, used: int)
    requires
        no_newline(w),
    ensures
        lines_within(w + t, used) == lines_within(t, used + w.len()),
    decreases w.len(),
{
    if w.len() == 0 {
        assert(w + t =~= t);
    } else {
        assert((w + t)[0] == w[0]);
        assert((w + t).drop_first() =~= w.drop_first() + t);
        lemma_lines_within_run(w.drop_first(), t, used + 1);
    }
}

/// Greedy filling keeps every line within `LINE_WIDTH`, provided each word
/// fits on a line of its own after the indent and the current line is not
/// already over the width.
proof fn lemma_fill_lines(words: Seq<Seq<char>>, indent: Seq<char>, cur: int)
    requires
        forall|k: int|
            0 <= k < words.len() ==> {
                &&& 1 <= (#[trigger] words[k]).len()
                &&& words[k].len() + indent.len() <= LINE_WIDTH
                &&& no_newline(words[k])
            },
        no_newline(indent),
        0 <= cur <= LINE_WIDTH,
    ensures
        lines_within(fill_rec(words, indent, cur), cur),
    decreases words.len(),
{
    if words.len() == 0 {
    } else {
        let w0 = words[0];
        let rest = words.drop_first();
        if cur + 1 + w0.len() <= LINE_WIDTH {
            let out = seq![' '] + w0 + fill_rec(rest, indent, cur + 1 + w0.len());
            assert(out[0] == ' ');
            assert(out.drop_first() =~= w0 + fill_rec(rest, indent, cur + 1 + w0.len()));
            lemma_lines_within_run(w0, fill_rec(rest, indent, cur + 1 + w0.len()), cur + 1);
            lemma_fill_lines(rest, indent, cur + 1 + w0.len());
            assert(lines_within(out, cur));
            assert(fill_rec(words, indent, cur) == out);
        } else {
            let out = seq!['\n'] + indent + w0 + fill_rec(
                rest,
                indent,
                indent.len() as int + w0.len() as int,
            );
            assert(out[0] == '\n');
            assert(out.drop_first() =~= (indent + w0) + fill_rec(
                rest,
                indent,
                indent.len() as int + w0.len() as int,
            ));
            assert(no_newline(indent + w0)) by {
                assert(forall|j: int|
                    0 <= j < indent.len() ==> (indent + w0)[j] == indent[j]);
                assert(forall|j: int|
                    indent.len() <= j < indent.len() + w0.len() ==> (indent + w0)[j] == w0[
                        j - indent.len()]);
            }
            lemma_lines_within_run(
                indent + w0,
                fill_rec(rest, indent, indent.len() as int + w0.len() as int),
                0,
            );
            lemma_fill_lines(rest, indent, indent.len() as int + w0.len() as int);
            assert(lines_within(out, cur));
            assert(fill_rec(words, indent, cur) == out);
        }
    }
}

/// Every word that `words_from` collects is non-empty, and holds no space
/// nor (when the scanned text and the partial word hold none) any newline.
proof fn lemma_words_from_props(s: Seq<char>, i: int, cur: Seq<char>)
    requires
        0 <= i <= s.len(),
        no_space(cur),
        no_newline(cur) || !no_newline(s),
    ensures
        forall|k: int|
            0 <= k < words_from(s, i, cur).len() ==> {
                &&& 1 <= (#[trigger] words_from(s, i, cur)[k]).len()
                &&& no_space(words_from(s, i, cur)[k])
                &&& (no_newline(s) ==> no_newline(words_from(s, i, cur)[k]))
            },
    decreases s.len() - i,
{
    if i >= s.len() {
        if cur.len() > 0 {
            assert(words_from(s, i, cur) == seq![cur]);
            assert(words_from(s, i, cur)[0] == cur);
        } else {
            assert(words_from(s, i, cur) == Seq::<Seq<char>>::empty());
        }
    } else if s[i] == ' ' {
        lemma_words_from_props(s, i + 1, Seq::empty());
        if cur.len() > 0 {
            let full = seq![cur] + words_from(s, i + 1, Seq::<char>::empty());
            assert(words_from(s, i, cur) == full);
            assert(full[0] == cur);
            assert(forall|k: int| 1 <= k < full.len() ==> #[trigger] full[k] == words_from(
                s,
                i + 1,
                Seq::<char>::empty(),
            )[k - 1]);
        } else {
            assert(words_from(s, i, cur) == words_from(s, i + 1, Seq::<char>::empty()));
        }
    } else {
        assert(no_space(cur.push(s[i]))) by {
            assert(forall|j: int| 0 <= j < cur.len() ==> cur.push(s[i])[j] == cur[j]);
        }
        if no_newline(s) {
            assert(s[i] != '\n');
            assert(no_newline(cur) ==> no_newline(cur.push(s[i]))) by {
                assert(forall|j: int| 0 <= j < cur.len() ==> cur.push(s[i])[j] == cur[j]);
            }
        }
        lemma_words_from_props(s, i + 1, cur.push(s[i]));
        assert(words_from(s, i, cur) == words_from(s, i + 1, cur.push(s[i])));
    }
}

/// Every line of `wrap_spec` stays within `LINE_WIDTH` characters: given
/// a paragraph without newlines whose words each fit on an indented line,
/// no output line exceeds the width.
pub proof fn lemma_wrap_line_width(s: Seq<char>, depth: int)
    requires
        0 <= depth,
        no_newline(s),
        forall|k: int|
            0 <= k < words_of(s).len() ==> (#[trigger] words_of(s)[k]).len() + 2 * depth
                <= LINE_WIDTH,
    ensures
        lines_within(wrap_spec(s, depth), 0),
{
    let ws = words_of(s);
    lemma_words_from_props(s, 0, Seq::empty());
    if ws.len() == 0 {
        assert(lines_within(Seq::<char>::empty(), 0));
    } else {
        let indent = indent_sp(depth);
        assert(indent.len() == 2 * depth);
        assert(no_newline(indent));
        let fill = fill_rec(ws.drop_first(), indent, ws[0].len() as int);
        lemma_lines_within_run(ws[0], fill, 0);
        assert(forall|k: int|
            0 <= k < ws.drop_first().len() ==> #[trigger] ws.drop_first()[k] == ws[k + 1]);
        lemma_fill_lines(ws.drop_first(), indent, ws[0].len() as int);
    }
}

/// `s` with every newline replaced by a space.
pub open spec fn newlines_as_spaces(s: Seq<char>) -> Seq<char> {
    Seq::new(
        s.len(),
        |j: int|
            if s[j] == '\n' {
                ' '
            } else {
                s[j]
            },
    )
}

/// Scanning a concatenation past its first part scans the second.
proof fn lemma_words_shift(a: Seq<char>, t: Seq<char>, i: int, cur: Seq<char>)
    requires
        0 <= i <= t.len(),
    ensures
        words_from(a + t, a.len() as int + i, cur) == words_from(t, i, cur),
    decreases t.len() - i,
{
    if i < t.len() {
        assert((a + t)[a.len() + i] == t[i]);
        if t[i] == ' ' {
            lemma_words_shift(a, t, i + 1, Seq::empty());
        } else {
            lemma_words_shift(a, t, i + 1, cur.push(t[i]));
        }
    }
}

/// A leading run of spaces changes no words.
proof fn lemma_words_skip_spaces(sp: Seq<char>, t: Seq<char>)
    requires
        all_spaces(sp),
    ensures
        words_of(sp + t) == words_of(t),
    decreases sp.len(),
{
    if sp.len() == 0 {
        assert(sp + t =~= t);
    } else {
        assert((sp + t)[0] == ' ');
        assert(sp + t =~= seq![' '] + (sp.drop_first() + t));
        lemma_words_shift(seq![' '], sp.drop_first() + t, 0, Seq::empty());
        assert(words_from(seq![' '] + (sp.drop_first() + t), 1, Seq::<char>::empty())
            == words_from(sp.drop_first() + t, 0, Seq::<char>::empty()));
        lemma_words_skip_spaces(sp.drop_first(), t);
    }
}

/// Scanning a word followed by a separator (or the end) collects the
/// partial word, the word, and then the words of what follows.
proof fn lemma_words_word_then(w: Seq<char>, t: Seq<char>, i: int, cur: Seq<char>)
    requires
        0 <= i <= w.len(),
        no_space(w),
        cur.len() + w.len() - i >= 1,
        t.len() == 0 || t[0] == ' ',
    ensures
        words_from(w + t, i, cur) == seq![cur + w.skip(i)] + words_of(t),
    decreases w.len() - i,
{
    if i == w.len() {
        assert(cur + w.skip(i) =~= cur);
        if t.len() == 0 {
            assert(words_from(w + t, i, cur) == seq![cur]);
            assert(words_of(t) =~= Seq::<Seq<char>>::empty());
            assert(seq![cur] + Seq::<Seq<char>>::empty() =~= seq![cur]);
        } else {
            assert((w + t)[w.len() as int] == t[0]);
            assert(cur.len() > 0);
            lemma_words_shift(w, t, 1, Seq::empty());
            assert(words_from(w + t, i, cur) == seq![cur] + words_from(
                w + t,
                i + 1,
                Seq::<char>::empty(),
            ));
            assert(words_from(w + t, i + 1, Seq::<char>::empty()) == words_from(
                t,
                1,
                Seq::<char>::empty(),
            ));
            assert(words_of(t) == words_from(t, 1, Seq::<char>::empty()));
        }
    } else {
        assert((w + t)[i] == w[i]);
        assert(w[i] != ' ');
        lemma_words_word_then(w, t, i + 1, cur.push(w[i]));
        assert(cur.push(w[i]) + w.skip(i + 1) =~= cur + w.skip(i));
    }
}

/// The first character of a non-empty greedy fill is a space or a newline.
proof fn lemma_fill_first(words: Seq<Seq<char>>, indent: Seq<char>, cur: int)
    requires
        fill_rec(words, indent, cur).len() > 0,
    ensures
        fill_rec(words, indent, cur)[0] == ' ' || fill_rec(words, indent, cur)[0] == '\n',
{
    if words.len() > 0 {
        if cur + 1 + words[0].len() <= LINE_WIDTH {
            assert(fill_rec(words, indent, cur)[0] == ' ');
        } else {
            assert(fill_rec(words, indent, cur)[0] == '\n');
        }
    }
}

/// Replacing the newlines of a greedy fill by spaces leaves exactly its
/// words, in order.
proof fn lemma_fill_words(words: Seq<Seq<char>>, indent: Seq<char>, cur: int)
    requires
        forall|k: int|
            0 <= k < words.len() ==> {
                &&& 1 <= (#[trigger] words[k]).len()
                &&& no_space(words[k])
                &&& no_newline(words[k])
            },
        all_spaces(indent),
    ensures
        words_of(newlines_as_spaces(fill_rec(words, indent, cur))) == words,
    decreases words.len(),
{
    if words.len() == 0 {
        assert(newlines_as_spaces(fill_rec(words, indent, cur)) =~= Seq::<char>::empty());
        assert(words_of(Seq::<char>::empty()) =~= Seq::<Seq<char>>::empty());
        assert(words =~= Seq::<Seq<char>>::empty());
    } else {
        let w0 = words[0];
        let rest = words.drop_first();
        let cur2: int = if cur + 1 + w0.len() <= LINE_WIDTH {
            cur + 1 + w0.len()
        } else {
            indent.len() as int + w0.len() as int
        };
        let fill2 = fill_rec(rest, indent, cur2);
        let sp: Seq<char> = if cur + 1 + w0.len() <= LINE_WIDTH {
            seq![' ']
        } else {
            seq![' '] + indent
        };
        assert(all_spaces(sp)) by {
            if cur + 1 + w0.len() <= LINE_WIDTH {
            } else {
                assert(forall|j: int| 1 <= j < sp.len() ==> sp[j] == indent[j - 1]);
            }
        }
        let m2 = newlines_as_spaces(fill2);
        assert(newlines_as_spaces(fill_rec(words, indent, cur)) =~= sp + (w0 + m2)) by {
            if cur + 1 + w0.len() <= LINE_WIDTH {
                assert(fill_rec(words, indent, cur) == seq![' '] + w0 + fill2);
            } else {
                assert(fill_rec(words, indent, cur) == seq!['\n'] + indent + w0 + fill2);
            }
        }
        lemma_words_skip_spaces(sp, w0 + m2);
        assert(m2.len() == 0 || m2[0] == ' ') by {
            if fill2.len() > 0 {
                lemma_fill_first(rest, indent, cur2);
            }
        }
        lemma_words_word_then(w0, m2, 0, Seq::empty());
        assert(Seq::<char>::empty() + w0.skip(0) =~= w0);
        lemma_fill_words(rest, indent, cur2);
        assert(seq![w0] + rest =~= words);
    }
}

/// Wrapping breaks lines only at word boundaries: replacing every newline
/// of the wrapped output by a space and splitting into words yields exactly
/// the words of the original paragraph, in order.
pub proof fn lemma_wrap_words(s: Seq<char>, depth: int)
    requires
        no_newline(s),
    ensures
        words_of(newlines_as_spaces(wrap_spec(s, depth))) == words_of(s),
{
    let ws = words_of(s);
    lemma_words_from_props(s, 0, Seq::empty());
    if ws.len() == 0 {
        assert(newlines_as_spaces(wrap_spec(s, depth)) =~= Seq::<char>::empty());
        assert(words_of(Seq::<char>::empty()) =~= Seq::<Seq<char>>::empty());
    } else {
        let indent = indent_sp(depth);
        let fill = fill_rec(ws.drop_first(), indent, ws[0].len() as int);
        let m2 = newlines_as_spaces(fill);
        assert(newlines_as_spaces(wrap_spec(s, depth)) =~= ws[0] + m2);
        assert(m2.len() == 0 || m2[0] == ' ') by {
            if fill.len() > 0 {
                lemma_fill_first(ws.drop_first(), indent, ws[0].len() as int);
            }
        }
        lemma_words_word_then(ws[0], m2, 0, Seq::empty());
        assert(Seq::<char>::empty() + ws[0].skip(0) =~= ws[0]);
        assert(forall|k: int|
            0 <= k < ws.drop_first().len() ==> #[trigger] ws.drop_first()[k] == ws[k + 1]);
        assert(all_spaces(indent));
        lemma_fill_words(ws.drop_first(), indent, ws[0].len() as int);
        assert(seq![ws[0]] + ws.drop_first() =~= ws);
    }
}


/// Every newline of `s` is directly followed by the full indent.
pub open spec fn continuation_indented(s: Seq<char>, indent: Seq<char>) -> bool {
    forall|p: int|
        0 <= p < s.len() && s[p] == '\n' ==> p + 1 + indent.len() <= s.len() && s.subrange(
            p + 1,
            p + 1 + indent.len(),
        ) =~= indent
}

/// A prefix without newlines adds no newline positions: indentation after
/// newlines carries over from the tail to the whole.
proof fn lemma_indented_prepend(w: Seq<char>, t: Seq<char>, indent: Seq<char>)
    requires
        no_newline(w),
        continuation_indented(t, indent),
    ensures
        continuation_indented(w + t, indent),
{
    let s = w + t;
    assert forall|p: int|
        0 <= p < s.len() && s[p] == '\n' implies p + 1 + indent.len() <= s.len() && s.subrange(
        p + 1,
        p + 1 + indent.len(),
    ) =~= indent by {
        assert(p >= w.len());
        let q = p - w.len();
        assert(t[q] == '\n');
        assert(t.subrange(q + 1, q + 1 + indent.len()) =~= indent);
        assert(s.subrange(p + 1, p + 1 + indent.len()) =~= t.subrange(
            q + 1,
            q + 1 + indent.len(),
        ));
    }
}

/// Greedy filling indents every continuation line: each newline it emits is
/// directly followed by the full indent.
proof fn lemma_fill_indented(words: Seq<Seq<char>>, indent: Seq<char>, cur: int)
    requires
        forall|k: int|
            0 <= k < words.len() ==> 1 <= (#[trigger] words[k]).len() && no_newline(words[k]),
        no_newline(indent),
    ensures
        continuation_indented(fill_rec(words, indent, cur), indent),
    decreases words.len(),
{
    if words.len() == 0 {
    } else {
        let w0 = words[0];
        let rest = words.drop_first();
        if cur + 1 + w0.len() <= LINE_WIDTH {
            let tail = fill_rec(rest, indent, cur + 1 + w0.len());
            lemma_fill_indented(rest, indent, cur + 1 + w0.len());
            lemma_indented_prepend(w0, tail, indent);
            lemma_indented_prepend(seq![' '], w0 + tail, indent);
            assert(seq![' '] + (w0 + tail) =~= fill_rec(words, indent, cur));
        } else {
            let tail = fill_rec(rest, indent, indent.len() as int + w0.len() as int);
            lemma_fill_indented(rest, indent, indent.len() as int + w0.len() as int);
            lemma_indented_prepend(w0, tail, indent);
            lemma_indented_prepend(indent, w0 + tail, indent);
            let body = indent + (w0 + tail);
            let s = seq!['\n'] + body;
            assert(continuation_indented(s, indent)) by {
                assert forall|p: int|
                    0 <= p < s.len() && s[p] == '\n' implies p + 1 + indent.len() <= s.len()
                    && s.subrange(p + 1, p + 1 + indent.len()) =~= indent by {
                    if p == 0 {
                        assert(w0.len() >= 1);
                        assert(s.subrange(1, 1 + indent.len() as int) =~= indent);
                    } else {
                        let q = p - 1;
                        assert(body[q] == '\n');
                        assert(body.subrange(q + 1, q + 1 + indent.len()) =~= indent);
                        assert(s.subrange(p + 1, p + 1 + indent.len()) =~= body.subrange(
                            q + 1,
                            q + 1 + indent.len(),
                        ));
                    }
                }
            }
            assert(s =~= fill_rec(words, indent, cur));
        }
    }
}

/// Wrapping indents every continuation line of a paragraph by two spaces
/// per nesting level: each newline of the wrapped output is directly
/// followed by the full indent of the given depth.
pub proof fn lemma_wrap_continuation_indent(s: Seq<char>, depth: int)
    requires
        no_newline(s),
    ensures
        continuation_indented(wrap_spec(s, depth), indent_sp(depth)),
{
    let ws = words_of(s);
    lemma_words_from_props(s, 0, Seq::empty());
    if ws.len() == 0 {
    } else {
        let indent = indent_sp(depth);
        assert(no_newline(indent));
        let fill = fill_rec(ws.drop_first(), indent, ws[0].len() as int);
        assert(forall|k: int|
            0 <= k < ws.drop_first().len() ==> #[trigger] ws.drop_first()[k] == ws[k + 1]);
        lemma_fill_indented(ws.drop_first(), indent, ws[0].len() as int);
        lemma_indented_prepend(ws[0], fill, indent);
    }
}

} // verus!
