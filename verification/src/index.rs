use vstd::prelude::*;

use crate::text::str_chars;

verus! {

/// A line/column position: the line number and the column within the line,
/// counted in UTF-16 code units, both zero-based. The column is wide enough
/// that no text a machine can hold overflows it.
pub struct Position {
    pub line: usize,
    pub col: u128,
}

/// The width of a character in UTF-16 code units: two for the supplementary
/// planes, one otherwise.
pub open spec fn utf16_width(c: char) -> int {
    if c as u32 >= 0x10000 {
        2
    } else {
        1
    }
}

/// The length of a text in UTF-16 code units.
pub open spec fn utf16_len(s: Seq<char>) -> int
    decreases s.len(),
{
    if s.len() == 0 {
        0
    } else {
        utf16_len(s.drop_last()) + utf16_width(s.last())
    }
}

/// The offsets just after each newline of `s[from..to)`, in order: the
/// starts of every line but the first.
pub open spec fn nl_cut(s: Seq<char>, from: int, to: int) -> Seq<int>
    decreases to - from,
{
    if from < 0 || from >= to || to > s.len() {
        Seq::empty()
    } else if s[from] == '\n' {
        seq![from + 1] + nl_cut(s, from + 1, to)
    } else {
        nl_cut(s, from + 1, to)
    }
}

/// The line-start offsets of a text: offset zero, then the offset just
/// after each newline.
pub open spec fn line_starts(s: Seq<char>) -> Seq<int> {
    seq![0] + nl_cut(s, 0, s.len() as int)
}

/// Scanning one more character keeps the collected line starts and adds the
/// offset after the character exactly when it is a newline.
proof fn lemma_nl_cut_extend(s: Seq<char>, from: int, to: int)
    requires
        0 <= from,
        from <= to < s.len(),
    ensures
        nl_cut(s, from, to + 1) == nl_cut(s, from, to) + (if s[to] == '\n' {
            seq![to + 1]
        } else {
            Seq::<int>::empty()
        }),
    decreases to - from,
{
    if from >= to {
        assert(nl_cut(s, from, to) =~= Seq::<int>::empty());
        if from < to + 1 {
            if s[from] == '\n' {
                assert(nl_cut(s, from + 1, to + 1) =~= Seq::<int>::empty());
                assert(nl_cut(s, from, to + 1) =~= seq![from + 1] + Seq::<int>::empty());
                assert(nl_cut(s, from, to + 1) =~= Seq::<int>::empty() + seq![from + 1]);
            } else {
                assert(nl_cut(s, from + 1, to + 1) =~= Seq::<int>::empty());
                assert(nl_cut(s, from, to + 1) =~= Seq::<int>::empty() + Seq::<int>::empty());
            }
        }
    } else {
        lemma_nl_cut_extend(s, from + 1, to);
        if s[from] == '\n' {
            assert(seq![from + 1] + (nl_cut(s, from + 1, to) + (if s[to] == '\n' {
                seq![to + 1]
            } else {
                Seq::<int>::empty()
            })) =~= (seq![from + 1] + nl_cut(s, from + 1, to)) + (if s[to] == '\n' {
                seq![to + 1]
            } else {
                Seq::<int>::empty()
            }));
        }
    }
}

/// A position index for one text: the text's characters and the start
/// offset of each of its lines, first line included.
pub struct LineIndex {
    pub chars: Vec<char>,
    pub starts: Vec<usize>,
}

impl LineIndex {
    /// The index is built from its own text: the start table is exactly the
    /// text's line starts.
    pub open spec fn wf(self) -> bool {
        &&& self.starts@.len() == line_starts(self.chars@).len()
        &&& forall|i: int|
            0 <= i < self.starts@.len() ==> (#[trigger] self.starts@[i]) as int == line_starts(
                self.chars@,
            )[i]
    }

    /// Builds the position index of a text.
    pub fn new(text: &str) -> (r: LineIndex)
        ensures
            r.wf(),
            r.chars@ == text@,
    {
        let chars = str_chars(text);
        let mut starts: Vec<usize> = Vec::new();
        starts.push(0);
        proof {
            assert(nl_cut(chars@, 0, 0) =~= Seq::<int>::empty());
            assert(starts@.len() == (seq![0int] + nl_cut(chars@, 0, 0)).len());
        }
        let mut i: usize = 0;
        while i < chars.len()
            invariant
                i <= chars@.len(),
                starts@.len() == (seq![0int] + nl_cut(chars@, 0, i as int)).len(),
                forall|k: int|
                    0 <= k < starts@.len() ==> (#[trigger] starts@[k]) as int == (seq![0int]
                        + nl_cut(chars@, 0, i as int))[k],
            decreases chars@.len() - i,
        {
            proof {
                lemma_nl_cut_extend(chars@, 0, i as int);
            }
            if chars[i] == '\n' {
                let ghost old_starts = starts@;
                starts.push(i + 1);
                proof {
                    let full = seq![0int] + nl_cut(chars@, 0, i as int + 1);
                    assert(nl_cut(chars@, 0, i as int + 1) == nl_cut(chars@, 0, i as int) + seq![
                        i as int + 1,
                    ]);
                    assert(full =~= (seq![0int] + nl_cut(chars@, 0, i as int)) + seq![i as int + 1]);
                    assert(starts@.len() == full.len());
                    assert forall|k: int| 0 <= k < starts@.len() implies (#[trigger] starts@[k])
                        as int == full[k] by {
                        if k < old_starts.len() {
                            assert(starts@[k] == old_starts[k]);
                        } else {
                            assert(starts@[k] == (i + 1) as usize);
                        }
                    }
                }
            } else {
                proof {
                    assert(nl_cut(chars@, 0, i as int + 1) =~= nl_cut(chars@, 0, i as int)
                        + Seq::<int>::empty());
                    assert(nl_cut(chars@, 0, i as int + 1) =~= nl_cut(chars@, 0, i as int));
                }
            }
            i = i + 1;
        }
        let r = LineIndex { chars, starts };
        proof {
            assert(line_starts(r.chars@) == seq![0int] + nl_cut(r.chars@, 0, r.chars@.len() as int));
        }
        r
    }

    /// Converts a character offset into the text to a line/column position:
    /// the line whose start is nearest at or before the offset, and the
    /// UTF-16 length of the text between that line start and the offset.
    pub fn line_col(&self, offset: usize) -> (p: Position)
        requires
            self.wf(),
            offset <= self.chars@.len(),
        ensures
            valid_position(self.starts@, self.chars@, offset as int, p),
    {
        let mut line: usize = 0;
        let n = self.starts.len();
        proof {
            assert(self.starts@[0] as int == line_starts(self.chars@)[0]);
            assert(line_starts(self.chars@)[0] == 0);
        }
        while line + 1 < n && self.starts[line + 1] <= offset
            invariant
                self.wf(),
                n == self.starts@.len(),
                line < n,
                self.starts@[line as int] <= offset,
            decreases self.starts@.len() - line,
        {
            line = line + 1;
        }
        let start = self.starts[line];
        let mut col: u128 = 0;
        let mut k: usize = start;
        proof {
            assert(self.chars@.subrange(start as int, start as int) =~= Seq::<char>::empty());
        }
        while k < offset
            invariant
                self.wf(),
                start <= k <= offset <= self.chars@.len(),
                col <= 2 * (k - start),
                col as int == utf16_len(self.chars@.subrange(start as int, k as int)),
            decreases offset - k,
        {
            let c = self.chars[k];
            let w: u128 = if (c as u32) >= 0x10000 {
                2
            } else {
                1
            };
            proof {
                let sub1 = self.chars@.subrange(start as int, k as int + 1);
                assert(sub1.drop_last() =~= self.chars@.subrange(start as int, k as int));
                assert(sub1.last() == self.chars@[k as int]);
            }
            col = col + w;
            k = k + 1;
        }
        Position { line, col }
    }
}

/// Whether `p` is the line/column position of character offset `offset`
/// with respect to the line-start table `starts` over the text `chars`:
/// the line's start is at or before the offset, the next line (if any)
/// starts after it, and the column is the UTF-16 length of the characters
/// between the line start and the offset.
pub open spec fn valid_position(
    starts: Seq<usize>,
    chars: Seq<char>,
    offset: int,
    p: Position,
) -> bool {
    &&& (p.line as int) < starts.len()
    &&& starts[p.line as int] <= offset
    &&& (p.line as int + 1 < starts.len() ==> offset < starts[p.line as int + 1])
    &&& p.col as int == utf16_len(chars.subrange(starts[p.line as int] as int, offset))
}


/// The collected line starts are strictly increasing and lie inside the
/// scanned range.
proof fn lemma_nl_cut_increasing(s: Seq<char>, from: int, to: int)
    ensures
        forall|i: int, j: int|
            0 <= i < j < nl_cut(s, from, to).len() ==> #[trigger] nl_cut(s, from, to)[i]
                < #[trigger] nl_cut(s, from, to)[j],
        forall|i: int|
            0 <= i < nl_cut(s, from, to).len() ==> from < #[trigger] nl_cut(s, from, to)[i] <= to,
    decreases to - from,
{
    if from < 0 || from >= to || to > s.len() {
    } else {
        lemma_nl_cut_increasing(s, from + 1, to);
        if s[from] == '\n' {
            let full = seq![from + 1] + nl_cut(s, from + 1, to);
            assert(full[0] == from + 1);
            assert(forall|i: int|
                1 <= i < full.len() ==> #[trigger] full[i] == nl_cut(s, from + 1, to)[i - 1]);
        }
    }
}

/// A well-formed start table is strictly increasing.
proof fn lemma_starts_increasing(index: LineIndex)
    requires
        index.wf(),
    ensures
        forall|i: int, j: int|
            0 <= i < j < index.starts@.len() ==> index.starts@[i] < index.starts@[j],
{
    let s = index.chars@;
    lemma_nl_cut_increasing(s, 0, s.len() as int);
    let ls = line_starts(s);
    assert(forall|i: int| 1 <= i < ls.len() ==> #[trigger] ls[i] == nl_cut(s, 0, s.len() as int)[
        i - 1]);
    assert forall|i: int, j: int|
        0 <= i < j < index.starts@.len() implies index.starts@[i] < index.starts@[j] by {
        assert(index.starts@[i] as int == ls[i]);
        assert(index.starts@[j] as int == ls[j]);
        if i == 0 {
            assert(ls[0] == 0);
            assert(0 < nl_cut(s, 0, s.len() as int)[j - 1]);
        }
    }
}

/// An offset has exactly one line/column position over a well-formed index:
/// the start table pins both down.
pub proof fn lemma_position_unique(index: LineIndex, offset: int, p1: Position, p2: Position)
    requires
        index.wf(),
        valid_position(index.starts@, index.chars@, offset, p1),
        valid_position(index.starts@, index.chars@, offset, p2),
    ensures
        p1.line == p2.line,
        p1.col == p2.col,
{
    lemma_starts_increasing(index);
    let starts = index.starts@;
    if (p1.line as int) < (p2.line as int) {
        assert(p1.line as int + 1 < starts.len());
        if p1.line as int + 1 < p2.line as int {
            assert(starts[p1.line as int + 1] < starts[p2.line as int]);
        }
        assert(starts[p1.line as int + 1] <= starts[p2.line as int]);
        assert(false);
    }
    if (p2.line as int) < (p1.line as int) {
        assert(p2.line as int + 1 < starts.len());
        if p2.line as int + 1 < p1.line as int {
            assert(starts[p2.line as int + 1] < starts[p1.line as int]);
        }
        assert(starts[p2.line as int + 1] <= starts[p1.line as int]);
        assert(false);
    }
}

} // verus!
