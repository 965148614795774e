use vstd::prelude::*;

use crate::diff::{edits_chain, lemma_chain_bounds, Edit};
use crate::index::{valid_position, LineIndex, Position};
use crate::text::chars_to_string;

verus! {

/// One edit in positional form: the range of the original text to replace,
/// as line/column positions, and the replacement text.
pub struct PositionalEdit {
    pub start: Position,
    pub end: Position,
    pub new_text: String,
}

/// Whether `pe` is the positional form of `e` over the given text and
/// line-start table: its two positions locate the edit's offsets and its
/// text is the edit's insert text.
pub open spec fn edit_translated(
    starts: Seq<usize>,
    chars: Seq<char>,
    e: Edit,
    pe: PositionalEdit,
) -> bool {
    &&& valid_position(starts, chars, e.start as int, pe.start)
    &&& valid_position(starts, chars, e.end as int, pe.end)
    &&& pe.new_text@ == e.insert@
}

/// Converts one character offset to its line/column position.
pub fn position(index: &LineIndex, offset: usize) -> (p: Position)
    requires
        index.wf(),
        offset <= index.chars@.len(),
    ensures
        valid_position(index.starts@, index.chars@, offset as int, p),
{
    index.line_col(offset)
}

/// Translates one edit into positional form via the position index.
pub fn text_edit(index: &LineIndex, e: &Edit) -> (r: PositionalEdit)
    requires
        index.wf(),
        e.start <= e.end,
        e.end as int <= index.chars@.len(),
    ensures
        edit_translated(index.starts@, index.chars@, *e, r),
{
    let start = position(index, e.start);
    let end = position(index, e.end);
    let new_text = chars_to_string(&e.insert);
    PositionalEdit { start, end, new_text }
}

/// Translates an ordered edit list into positional form, edit by edit.
pub fn text_edit_vec(index: &LineIndex, edits: &Vec<Edit>) -> (r: Vec<PositionalEdit>)
    requires
        index.wf(),
        edits_chain(edits@, 0, index.chars@.len() as int),
    ensures
        r@.len() == edits@.len(),
        forall|k: int|
            0 <= k < edits@.len() ==> edit_translated(
                index.starts@,
                index.chars@,
                edits@[k],
                #[trigger] r@[k],
            ),
{
    let mut r: Vec<PositionalEdit> = Vec::new();
    let mut i: usize = 0;
    let ghost hi = index.chars@.len() as int;
    proof {
        assert(edits@.skip(0) =~= edits@);
    }
    let ghost mut lo: int = 0;
    while i < edits.len()
        invariant
            i <= edits@.len(),
            index.wf(),
            hi == index.chars@.len() as int,
            edits_chain(edits@.skip(i as int), lo, hi),
            r@.len() == i,
            forall|k: int|
                0 <= k < i ==> edit_translated(
                    index.starts@,
                    index.chars@,
                    edits@[k],
                    #[trigger] r@[k],
                ),
        decreases edits@.len() - i,
    {
        let ghost rest = edits@.skip(i as int);
        proof {
            assert(rest[0] == edits@[i as int]);
            assert(rest.drop_first() =~= edits@.skip(i as int + 1));
            lemma_chain_bounds(rest.drop_first(), rest[0].end as int, hi);
        }
        let e = &edits[i];
        let pe = text_edit(index, e);
        r.push(pe);
        proof {
            lo = rest[0].end as int;
        }
        i = i + 1;
    }
    r
}

} // verus!
